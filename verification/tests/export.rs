use server::counting::{stv_droop, CombinedBallot, Election, ElectionResult, GroupConfig};
use server::export::{
    action_type_label, ballots_json_data, generate_log_html, generate_readme, generate_report_html,
    html_escape, status_label, BallotRecord, ElectionRecord,
};
use server::export::{ballot_ids_once_ended, ballots_for_counting, check_export};
use server::error::Error;
use server::tokens::Timestamp;
use server::log::{
    CountingLog, CountingLogAction, CountingLogActionType, CountingLogCandidateCount,
    CountingLogCandidateStatus, CountingLogHeader, CountingLogRound, CountingLogStats,
};

fn s(x: &str) -> String {
    x.to_string()
}

fn record(election_type: &str, description: Option<&str>) -> ElectionRecord {
    ElectionRecord {
        uuid: s("e-1"),
        title: s("Board <2026>"),
        description: description.map(s),
        candidates: vec![s("Apple"), s("Banana")],
        num_seats: 1,
        election_type: s(election_type),
        start_time: s("2024-01-01T00:00:00+00:00"),
        end_time: s("2024-02-01T00:00:00+00:00"),
        groups: vec![],
        candidate_groups: vec![],
    }
}

// The expected texts below are written out the way the export is documented to
// look, independently of the library's own code.
fn expected_escape(x: &str) -> String {
    x.replace('&', "&amp;")
        .replace('<', "&lt;")
        .replace('>', "&gt;")
        .replace('"', "&quot;")
        .replace('\'', "&#39;")
}

#[test]
fn html_escape_replaces_markup() {
    assert_eq!(html_escape("a & b < c > d \" e ' f"), "a &amp; b &lt; c &gt; d &quot; e &#39; f");
    assert_eq!(html_escape("plain"), "plain");
    assert_eq!(html_escape(""), "");
    assert_eq!(html_escape("&amp;"), "&amp;amp;");
    let tricky = "<script>alert('x & y')</script>";
    assert_eq!(html_escape(tricky), expected_escape(tricky));
}

#[test]
fn action_labels() {
    let cases = vec![
        (CountingLogActionType::BeginCount, "Begin Count"),
        (CountingLogActionType::Elect { candidate: s("Ann") }, "Elect: Ann"),
        (CountingLogActionType::ElectRemaining { candidate: s("Ann") }, "Elect remaining: Ann"),
        (CountingLogActionType::Iterate { reason: s("omega") }, "Iterate (omega)"),
        (
            CountingLogActionType::Defeat { reason: s("surplus"), candidate: s("Bo") },
            "Defeat (surplus): Bo",
        ),
        (CountingLogActionType::DefeatRemaining { candidate: s("Cy") }, "Defeat remaining: Cy"),
        (
            CountingLogActionType::BreakTie { candidates: vec![s("A"), s("B"), s("C")], defeated: s("B") },
            "Break tie (defeat): [A, B, C] -> B",
        ),
        (CountingLogActionType::CountComplete, "Count Complete"),
    ];
    for (a, expected) in cases {
        assert_eq!(action_type_label(&a), expected);
    }
}

#[test]
fn status_labels() {
    assert_eq!(status_label(&CountingLogCandidateStatus::Elected), "Elected");
    assert_eq!(status_label(&CountingLogCandidateStatus::Hopeful), "Hopeful");
    assert_eq!(status_label(&CountingLogCandidateStatus::Defeated), "Defeated");
}

fn small_log() -> CountingLog {
    let stats = CountingLogStats {
        quota: s("1.5"),
        votes: s("3"),
        residual: s("0"),
        total: s("3"),
        surplus: s("0.5"),
    };
    CountingLog {
        header: CountingLogHeader {
            title: s(""),
            package_name: s("p"),
            rule: s("r"),
            arithmetic: s("a"),
            seats: 1,
            ballots: 3,
            quota: s("1.5"),
            omega: s("0.000001"),
        },
        candidates: vec![],
        rounds: vec![CountingLogRound {
            round_number: 1,
            actions: vec![CountingLogAction {
                action_type: CountingLogActionType::Elect { candidate: s("B&B") },
                candidate_counts: vec![
                    CountingLogCandidateCount {
                        name: s("B&B"),
                        status: CountingLogCandidateStatus::Elected,
                        votes: s("2"),
                    },
                    CountingLogCandidateCount {
                        name: s("A"),
                        status: CountingLogCandidateStatus::Hopeful,
                        votes: s("1"),
                    },
                ],
                stats,
            }],
        }],
    }
}

#[test]
fn log_html_lists_counts_in_candidate_order() {
    let html = generate_log_html(&small_log(), &[s("A"), s("B&B")]);
    let expected = "<h3>Round 1</h3>\n\
<table>\n<tr class=\"action\"><th colspan=\"4\">Action: Elect: B&amp;B</th><th colspan=\"3\" class=\"stats\">Quota: 1.5 | Total: 3 | Surplus: 0.5</th></tr>\n\
<tr><th>Candidate</th><th>Status</th><th>Votes</th></tr>\n\
<tr class=\"candidate-row\"><td>A</td><td class=\"hopeful\">Hopeful</td><td>1</td></tr>\n\
<tr class=\"candidate-row\"><td>B&amp;B</td><td class=\"elected\">Elected</td><td>2</td></tr>\n\
</table>\n";
    assert_eq!(html, expected);
}

#[test]
fn readme_summarises_the_election() {
    let ballots = vec![
        BallotRecord { id: s("b1"), ranks: Some(vec![Some(0), None]) },
        BallotRecord { id: s("b2"), ranks: None },
        BallotRecord { id: s("b3"), ranks: Some(vec![Some(1), Some(0)]) },
    ];
    let readme = generate_readme(&record("stv-md", Some("Yearly vote")), 5, &ballots);
    assert!(readme.starts_with("# Election Export: Board <2026>\n\nThis archive contains the complete data for this STV election.\n"));
    assert!(readme.contains("### `report.html`\nHuman-readable election report."));
    let summary = "## Summary\n\n\
- **Election UUID**: e-1\n\
- **Title**: Board <2026>\n\
- **Description**: Yearly vote\n\
- **Candidates**: Apple, Banana\n\
- **Seats**: 1\n\
- **Election type**: stv-md\n\
- **Start**: 2024-01-01T00:00:00+00:00\n\
- **End**: 2024-02-01T00:00:00+00:00\n\
- **Tokens issued**: 5\n\
- **Ballots cast**: 2\n\
- **Abstained**: 1\n";
    assert!(readme.ends_with(summary), "readme: {}", readme);
}

#[test]
fn readme_without_description_has_no_description_line() {
    let readme = generate_readme(&record("stv-md", None), 0, &[]);
    assert!(!readme.contains("Description**"));
    assert!(readme.contains("- **Title**: Board <2026>\n- **Candidates**: Apple, Banana\n"));
    assert!(readme.ends_with("- **Ballots cast**: 0\n- **Abstained**: 0\n"));
}

#[test]
fn ballots_json_keeps_ids_and_ranks() {
    let ballots = vec![
        BallotRecord { id: s("b1"), ranks: Some(vec![Some(0), None]) },
        BallotRecord { id: s("b2"), ranks: None },
    ];
    let data = ballots_json_data(&ballots);
    assert_eq!(data.len(), 2);
    assert_eq!(data[0].id, "b1");
    assert_eq!(data[0].ranks, Some(vec![Some(0), None]));
    assert_eq!(data[1].id, "b2");
    assert_eq!(data[1].ranks, None);
}

fn counted(e: Election) -> ElectionResult {
    stv_droop(e).unwrap()
}

#[test]
fn report_for_a_copeland_election() {
    let e = Election::StvMdCoperland {
        candidates: vec![s("Apple"), s("Banana")],
        seats: 1,
        ballots: vec![
            CombinedBallot { votes: 3, ranks: vec![Some(0), Some(1)] },
            CombinedBallot { votes: 1, ranks: vec![Some(1), Some(0)] },
        ],
    };
    let result = counted(e);
    let rec = record("stv-md-coperland", Some("a & b"));
    let html = generate_report_html(&rec, &result, &rec.candidates);
    assert!(html.starts_with("<!DOCTYPE html>\n<html lang=\"en\">\n<head>\n<meta charset=\"UTF-8\">\n"));
    assert!(html.contains("<title>Election Report &mdash; Board &lt;2026&gt;</title>\n<style>\n  body { font-family:"));
    assert!(html.contains("  @media print { body { margin: 1em; } }\n</style>\n</head>\n<body>\n<h1>Board &lt;2026&gt;</h1>\n<p class=\"desc\">a &amp; b</p>\n<div class=\"meta\">\n<p><strong>Election UUID:</strong> e-1</p>\n"));
    assert!(html.contains("<p><strong>Seats:</strong> 1</p>\n<p><strong>Start:</strong> 2024-01-01T00:00:00+00:00</p>"));
    assert!(html.contains("<h2>Candidates</h2>\n<ul><li><strong>Apple</strong> (index 0)</li>\n<li><strong>Banana</strong> (index 1)</li></ul>\n\n<h2>Results</h2>\n"));
    assert!(html.contains("<table>\n<tr><th>Seat</th><th>Candidate</th></tr>\n<tr><td>1</td><td>Apple</td></tr>\n</table>\n"));
    assert!(html.contains("<h2>Pairwise Comparison Matrix (Copeland)</h2>\n<table>\n<tr><th></th><th>Apple</th><th>Banana</th></tr>\n<tr><th>Apple</th><td class=\"diag\">0</td><td class=\"win\">3</td></tr>\n<tr><th>Banana</th><td class=\"loss\">1</td><td class=\"diag\">0</td></tr>\n</table>\n<h2>Counting Log</h2>\n<h3>Round"));
    let log = generate_log_html(result.log(), &rec.candidates);
    assert!(html.ends_with(&format!("<h2>Counting Log</h2>\n{}\n</body>\n</html>", log)));
}

#[test]
fn report_without_elected_candidates() {
    let e = Election::StvMd {
        candidates: vec![s("Apple"), s("Banana")],
        seats: 1,
        ballots: vec![CombinedBallot { votes: 1, ranks: vec![Some(0), Some(1)] }],
    };
    let mut result = counted(e);
    if let ElectionResult::StvMd { elected, .. } = &mut result {
        elected.clear();
    }
    let rec = record("stv-md", None);
    let html = generate_report_html(&rec, &result, &rec.candidates);
    assert!(html.contains("<h2>Results</h2>\n<p>No candidates were elected.</p>\n<h2>Counting Log</h2>\n"));
    assert!(!html.contains("Pairwise"));
    assert!(html.contains("<h1>Board &lt;2026&gt;</h1>\n\n<div class=\"meta\">"));
}

#[test]
fn report_for_a_grouped_election() {
    let e = Election::StvMdGrouped {
        candidates: vec![s("Ann"), s("Bob")],
        seats: 2,
        ballots: vec![CombinedBallot { votes: 2, ranks: vec![Some(0), Some(1)] }],
        groups: vec![
            GroupConfig { name: s("f"), seats: 1 },
            GroupConfig { name: s("m"), seats: 1 },
        ],
        candidate_groups: vec![s("f"), s("m")],
    };
    let result = counted(e);
    let mut rec = record("stv-md-grouped", None);
    rec.candidates = vec![s("Ann"), s("Bob")];
    rec.groups = vec![GroupConfig { name: s("f"), seats: 1 }, GroupConfig { name: s("m"), seats: 1 }];
    rec.candidate_groups = vec![s("f"), s("m")];
    let html = generate_report_html(&rec, &result, &rec.candidates);
    assert!(html.contains("<li><strong>Ann</strong> (index 0) &mdash; <em>f</em></li>\n<li><strong>Bob</strong> (index 1) &mdash; <em>m</em></li>"));
    assert!(html.contains("<h2>Results</h2>\n<h2>Groups</h2>\n<ul>\n<li><strong>f</strong> &mdash; 1 seats</li>\n<li><strong>m</strong> &mdash; 1 seats</li>\n</ul>\n<h2>Group: f (1 seats)</h2>\n<h3>Elected</h3>\n<table>\n<tr><th>Seat</th><th>Candidate</th></tr>\n<tr><td>1</td><td>Ann</td></tr>\n</table>\n<h3>Group Candidates</h3>\n<ul><li><strong>Ann</strong> (index 0)</li></ul>\n<h3>Counting Log</h3>\n"));
    assert!(html.contains("<h2>Group: m (1 seats)</h2>\n<h3>Elected</h3>\n<table>\n<tr><th>Seat</th><th>Candidate</th></tr>\n<tr><td>1</td><td>Bob</td></tr>\n</table>\n<h3>Group Candidates</h3>\n<ul><li><strong>Bob</strong> (index 0)</li></ul>\n"));
}

#[test]
fn action_labels_read_back_through_the_log_parser() {
    let actions = vec![
        CountingLogActionType::BeginCount,
        CountingLogActionType::Elect { candidate: s("Ann") },
        CountingLogActionType::ElectRemaining { candidate: s("Ann Lee") },
        CountingLogActionType::Iterate { reason: s("omega") },
        CountingLogActionType::Defeat { reason: s("surplus"), candidate: s("Bo") },
        CountingLogActionType::Defeat { reason: s("a)b"), candidate: s("Bo") },
        CountingLogActionType::DefeatRemaining { candidate: s("Cy") },
        CountingLogActionType::BreakTie { candidates: vec![s("A"), s("B")], defeated: s("B") },
        CountingLogActionType::CountComplete,
    ];
    for a in actions {
        let text = format!("Round 1:\nAction: {}\n", action_type_label(&a));
        let log = server::log::parse_log(&text);
        let parsed = &log.rounds[0].actions[0].action_type;
        assert_eq!(format!("{:?}", parsed), format!("{:?}", a));
    }
}

#[test]
fn counted_ballots_leave_out_abstentions() {
    let ballots = vec![
        BallotRecord { id: s("b1"), ranks: Some(vec![Some(0), None]) },
        BallotRecord { id: s("b2"), ranks: None },
        BallotRecord { id: s("b3"), ranks: Some(vec![None, Some(0)]) },
    ];
    let ranks: Vec<Vec<Option<usize>>> = ballots_for_counting(&ballots).into_iter().map(|b| b.ranks).collect();
    assert_eq!(ranks, vec![vec![Some(0), None], vec![None, Some(0)]]);
}

#[test]
fn export_waits_for_the_end_of_the_election() {
    let end = Timestamp { seconds: 100, nanos: 0 };
    assert!(matches!(check_export(Timestamp { seconds: 99, nanos: 999 }, end), Err(Error::NotFound)));
    assert!(check_export(Timestamp { seconds: 100, nanos: 0 }, end).is_ok());
}

#[test]
fn ballot_ids_are_shown_once_the_election_has_ended() {
    let ballots = vec![BallotRecord { id: s("b1"), ranks: Some(vec![Some(0)]) }, BallotRecord { id: s("b2"), ranks: None }];
    let end = Timestamp { seconds: 50, nanos: 5 };
    assert!(ballot_ids_once_ended(Timestamp { seconds: 50, nanos: 4 }, end, &ballots).is_none());
    assert_eq!(ballot_ids_once_ended(Timestamp { seconds: 60, nanos: 0 }, end, &ballots), Some(vec![s("b1"), s("b2")]));
}
