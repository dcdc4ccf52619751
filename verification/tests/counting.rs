use server::counting::{
    self, stv_droop, to_election, to_election_with_groups, Ballot, CombinedBallot, Election,
    ElectionResult, ElectionType, GroupConfig,
};
use server::error::Error;
use server::simulate_election;

fn names(v: &[&str]) -> Vec<String> {
    v.iter().map(|s| s.to_string()).collect()
}

fn combined(ballots: Vec<(usize, Vec<Option<usize>>)>) -> Vec<CombinedBallot> {
    ballots
        .into_iter()
        .map(|(votes, ranks)| CombinedBallot { votes, ranks })
        .collect()
}

fn elected_ids(r: &ElectionResult) -> Vec<usize> {
    r.elected().iter().map(|e| e.id).collect()
}

fn three_way() -> Vec<CombinedBallot> {
    combined(vec![
        (5, vec![Some(0), Some(1), Some(2)]),
        (3, vec![Some(1), Some(0), Some(2)]),
        (2, vec![Some(1), Some(2), Some(0)]),
    ])
}

#[test]
fn majority_candidate_is_elected() {
    let e = Election::StvMd {
        candidates: names(&["Alice", "Bob", "Carol"]),
        seats: 1,
        ballots: combined(vec![
            (6, vec![Some(0), Some(1), Some(2)]),
            (3, vec![Some(1), Some(0), Some(2)]),
            (1, vec![Some(2), Some(1), Some(0)]),
        ]),
    };
    let r = stv_droop(e).unwrap();
    assert_eq!(elected_ids(&r), vec![0]);
    assert_eq!(r.elected()[0].candidate, "Alice");
    assert!(r.order().is_none());
    assert!(r.pairwise_matrix().is_none());
    assert!(r.group_results().is_none());
    assert_eq!(r.log().header.seats, 1);
    assert_eq!(r.log().header.ballots, 10);
}

#[test]
fn copeland_orders_elected_and_exposes_matrix() {
    let e = Election::StvMdCoperland {
        candidates: names(&["A", "B", "C"]),
        seats: 2,
        ballots: three_way(),
    };
    let r = stv_droop(e).unwrap();
    assert_eq!(r.pairwise_matrix().unwrap(), &vec![vec![0, 7, 8], vec![3, 0, 8], vec![2, 2, 0]]);
    assert_eq!(r.order().unwrap(), &vec![0, 1, 2]);
    assert_eq!(elected_ids(&r), vec![0, 1]);
    let names: Vec<&str> = r.elected().iter().map(|e| e.candidate.as_str()).collect();
    assert_eq!(names, vec!["A", "B"]);
}

#[test]
fn copeland_ties_keep_candidate_order() {
    // A cycle: every candidate wins one head-to-head contest and loses one.
    let e = Election::StvMdCoperland {
        candidates: names(&["A", "B", "C"]),
        seats: 1,
        ballots: combined(vec![
            (1, vec![Some(0), Some(1), Some(2)]),
            (1, vec![Some(2), Some(0), Some(1)]),
            (1, vec![Some(1), Some(2), Some(0)]),
        ]),
    };
    let r = stv_droop(e).unwrap();
    assert_eq!(r.pairwise_matrix().unwrap(), &vec![vec![0, 2, 1], vec![1, 0, 2], vec![2, 1, 0]]);
    assert_eq!(r.order().unwrap(), &vec![0, 1, 2]);
    assert_eq!(r.elected().len(), 1);
}

#[test]
fn unranked_candidate_loses_head_to_head() {
    let e = Election::StvMdCoperland {
        candidates: names(&["A", "B", "C"]),
        seats: 1,
        ballots: combined(vec![(4, vec![None, Some(0), None]), (1, vec![Some(0), None, Some(1)])]),
    };
    let r = stv_droop(e).unwrap();
    let m = r.pairwise_matrix().unwrap();
    assert_eq!(m[1][0], 4);
    assert_eq!(m[0][1], 1);
    assert_eq!(m[0][2], 1);
    assert_eq!(m[2][0], 0);
    assert_eq!(r.order().unwrap(), &vec![1, 0, 2]);
}

#[test]
fn election_result_maps_ids_and_parses_log() {
    let e = Election::StvMd { candidates: names(&["A", "B"]), seats: 1, ballots: vec![] };
    let r = counting::election_result(e, vec![1], "");
    assert_eq!(elected_ids(&r), vec![1]);
    assert_eq!(r.elected()[0].candidate, "B");
    assert!(r.log().rounds.is_empty());
}

#[test]
fn election_result_sorts_copeland_elected_by_position() {
    let e = Election::StvMdCoperland {
        candidates: names(&["A", "B", "C"]),
        seats: 2,
        ballots: three_way(),
    };
    let r = counting::election_result(e, vec![2, 0], "");
    assert_eq!(elected_ids(&r), vec![0, 2]);
    assert_eq!(r.elected()[1].candidate, "C");
}

#[test]
fn to_election_combines_identical_ballots() {
    let ballots = vec![
        Ballot { ranks: vec![Some(0), Some(1)] },
        Ballot { ranks: vec![Some(1), Some(0)] },
        Ballot { ranks: vec![Some(0), Some(1)] },
        Ballot { ranks: vec![Some(0), Some(1)] },
    ];
    let e = to_election(names(&["A", "B"]), 1, ElectionType::StvMd, ballots);
    assert_eq!(e.election_type(), ElectionType::StvMd);
    assert_eq!(e.seats(), 1);
    let b = e.ballots();
    assert_eq!(b.len(), 2);
    assert_eq!(b[0].votes, 3);
    assert_eq!(b[0].ranks, vec![Some(0), Some(1)]);
    assert_eq!(b[1].votes, 1);
    assert_eq!(b[1].ranks, vec![Some(1), Some(0)]);
    assert!(e.groups().is_empty());
    assert!(e.candidate_groups().is_empty());
}

#[test]
fn to_election_with_groups_keeps_groups() {
    let groups = vec![GroupConfig { name: "g".to_string(), seats: 1 }];
    let e = to_election_with_groups(
        names(&["A"]),
        1,
        ElectionType::StvMdGrouped,
        vec![Ballot { ranks: vec![Some(0)] }],
        groups,
        names(&["g"]),
    );
    assert_eq!(e.election_type(), ElectionType::StvMdGrouped);
    assert_eq!(e.groups().len(), 1);
    assert_eq!(e.groups()[0].name, "g");
    assert_eq!(e.candidate_groups(), &["g".to_string()][..]);
    assert_eq!(e.ballots()[0].votes, 1);
}

fn grouped_example() -> Election {
    Election::StvMdGrouped {
        candidates: names(&["Alice", "Bob", "Carol", "Dave", "Eve"]),
        seats: 4,
        ballots: combined(vec![
            (10, vec![Some(0), Some(3), Some(1), Some(2), Some(4)]),
            (8, vec![Some(1), Some(2), Some(0), Some(4), Some(3)]),
            (6, vec![Some(3), Some(0), Some(2), Some(1), Some(4)]),
            (5, vec![Some(4), Some(1), Some(3), Some(2), Some(0)]),
        ]),
        groups: vec![
            GroupConfig { name: "female".to_string(), seats: 2 },
            GroupConfig { name: "male".to_string(), seats: 2 },
        ],
        candidate_groups: names(&["female", "male", "female", "male", "female"]),
    }
}

#[test]
fn grouped_election_counts_each_group() {
    let r = stv_droop(grouped_example()).unwrap();
    let groups = r.group_results().unwrap();
    assert_eq!(groups.len(), 2);
    assert_eq!(groups[0].group, "female");
    assert_eq!(groups[0].seats, 2);
    assert_eq!(groups[0].elected.len(), 2);
    assert_eq!(groups[1].group, "male");
    assert_eq!(groups[1].elected.len(), 2);
    assert_eq!(r.elected().len(), 4);
    assert_eq!(groups[0].election.candidates(), &names(&["Alice", "Carol", "Eve"])[..]);
    assert_eq!(groups[1].election.candidates(), &names(&["Bob", "Dave"])[..]);
    assert!(!groups[0].log.rounds.is_empty());
    assert!(!groups[1].log.rounds.is_empty());
    for e in &groups[0].elected {
        assert!([0, 2, 4].contains(&e.id));
    }
    for e in &groups[1].elected {
        assert!([1, 3].contains(&e.id));
    }
    // Ballots restricted to a group are re-ranked 0, 1, 2, ... in order.
    let female = groups[0].election.ballots();
    assert_eq!(female[0].ranks, vec![Some(0), Some(1), Some(2)]);
    assert_eq!(female[1].ranks, vec![Some(1), Some(0), Some(2)]);
    assert_eq!(female[3].ranks, vec![Some(2), Some(1), Some(0)]);
    let male = groups[1].election.ballots();
    assert_eq!(male[0].ranks, vec![Some(1), Some(0)]);
    assert_eq!(male[0].votes, 10);
}

#[test]
fn grouped_restriction_breaks_equal_ranks_by_group_order() {
    let e = Election::StvMdGrouped {
        candidates: names(&["A", "B", "C"]),
        seats: 1,
        ballots: combined(vec![(3, vec![Some(1), Some(1), Some(0)])]),
        groups: vec![GroupConfig { name: "g".to_string(), seats: 1 }],
        candidate_groups: names(&["g", "g", "h"]),
    };
    let r = stv_droop(e).unwrap();
    let g = &r.group_results().unwrap()[0];
    assert_eq!(g.election.ballots()[0].ranks, vec![Some(0), Some(1)]);
    assert_eq!(r.elected()[0].id, 0);
}

#[test]
fn grouped_seat_mismatch_is_rejected() {
    let e = Election::StvMdGrouped {
        candidates: names(&["Alice", "Bob", "Carol", "Dave"]),
        seats: 4,
        ballots: combined(vec![(10, vec![Some(0), Some(1), Some(2), Some(3)])]),
        groups: vec![
            GroupConfig { name: "Group A".to_string(), seats: 3 },
            GroupConfig { name: "Group B".to_string(), seats: 2 },
        ],
        candidate_groups: names(&["Group A", "Group B", "Group A", "Group B"]),
    };
    match stv_droop(e) {
        Err(m) => assert_eq!(m, "Sum of group seats (5) must equal total seats (4)"),
        Ok(_) => panic!("a seat mismatch must be refused"),
    }
}

#[test]
fn grouped_empty_group_is_rejected() {
    let e = Election::StvMdGrouped {
        candidates: names(&["Alice"]),
        seats: 1,
        ballots: combined(vec![(10, vec![Some(0)])]),
        groups: vec![
            GroupConfig { name: "Group A".to_string(), seats: 1 },
            GroupConfig { name: "Group B".to_string(), seats: 0 },
        ],
        candidate_groups: names(&["Group A"]),
    };
    match simulate_election(e) {
        Err(Error::Internal(m)) => assert_eq!(m, "No candidates assigned to group 'Group B'"),
        _ => panic!("an empty group must be refused"),
    }
}

fn bad_request(r: Result<ElectionResult, Error>) -> String {
    match r {
        Err(Error::BadRequest(m)) => m,
        _ => panic!("expected a bad request"),
    }
}

#[test]
fn simulate_rejects_empty_candidates() {
    let e = Election::StvMd { candidates: vec![], seats: 1, ballots: vec![] };
    assert_eq!(bad_request(simulate_election(e)), "Candidates list cannot be empty");
}

#[test]
fn simulate_rejects_bad_seats() {
    let e = Election::StvMd { candidates: names(&["A"]), seats: 0, ballots: vec![] };
    assert_eq!(bad_request(simulate_election(e)), "Invalid number of seats");
    let e = Election::StvMd { candidates: names(&["A"]), seats: 2, ballots: vec![] };
    assert_eq!(bad_request(simulate_election(e)), "Invalid number of seats");
}

#[test]
fn simulate_rejects_rank_out_of_range() {
    let e = Election::StvMd {
        candidates: names(&["A", "B"]),
        seats: 1,
        ballots: combined(vec![(1, vec![Some(0), Some(2)])]),
    };
    assert_eq!(bad_request(simulate_election(e)), "Invalid candidate index");
}

#[test]
fn simulate_counts_a_valid_election() {
    let e = Election::StvMd {
        candidates: names(&["A", "B"]),
        seats: 1,
        ballots: combined(vec![(3, vec![Some(0), Some(1)]), (1, vec![Some(1), Some(0)])]),
    };
    let r = simulate_election(e).ok().unwrap();
    assert_eq!(elected_ids(&r), vec![0]);
    assert_eq!(r.election().seats(), 1);
}

#[test]
fn parse_election_type_defaults_to_stv_md() {
    assert_eq!(server::parse_election_type("stv-md-coperland"), ElectionType::StvMdCoperland);
    assert_eq!(server::parse_election_type("stv-md-grouped"), ElectionType::StvMdGrouped);
    assert_eq!(server::parse_election_type("stv-md"), ElectionType::StvMd);
    assert_eq!(server::parse_election_type("something else"), ElectionType::StvMd);
}

#[test]
fn counts_that_cannot_run_are_recognised() {
    let ok = Election::StvMd { candidates: names(&["A", "B", "C"]), seats: 1, ballots: three_way() };
    assert!(counting::count_runs(&ok));
    let too_many_seats = Election::StvMd { candidates: names(&["A"]), seats: 2, ballots: vec![] };
    assert!(!counting::count_runs(&too_many_seats));
    let unknown_candidate = Election::StvMd {
        candidates: names(&["A"]),
        seats: 1,
        ballots: combined(vec![(1, vec![Some(0), Some(1)])]),
    };
    assert!(!counting::count_runs(&unknown_candidate));
    let overflow = Election::StvMd {
        candidates: names(&["A"]),
        seats: 1,
        ballots: combined(vec![(usize::MAX, vec![Some(0)]), (1, vec![Some(0)])]),
    };
    assert!(!counting::count_runs(&overflow));
    let short_ballot = Election::StvMdCoperland {
        candidates: names(&["A", "B"]),
        seats: 1,
        ballots: combined(vec![(1, vec![Some(0)])]),
    };
    assert!(!counting::count_runs(&short_ballot));
    assert!(counting::count_runs(&grouped_example()));
    // A simulation that its checks refuse never reaches the count.
    assert!(server::simulation_runs(&too_many_seats));
}

#[test]
fn ranks_become_preference_levels() {
    let order = counting::ranks_to_order(&[Some(1), None, Some(1), Some(3)]);
    assert_eq!(order, vec![vec![], vec![0, 2], vec![], vec![3]]);
    assert!(counting::ranks_to_order(&[None, None]).is_empty());
}

#[test]
fn pairwise_matrix_and_copeland_order() {
    let (order, matrix) = counting::pairwise_order(&three_way(), 3);
    assert_eq!(matrix, vec![vec![0, 7, 8], vec![3, 0, 8], vec![2, 2, 0]]);
    assert_eq!(order, vec![0, 1, 2]);
}

#[test]
fn pairwise_ranked_beats_unranked_and_ties_count_for_neither() {
    let ballots = combined(vec![(2, vec![None, Some(0), Some(0)]), (1, vec![Some(0), None, Some(1)])]);
    let (order, matrix) = counting::pairwise_order(&ballots, 3);
    assert_eq!(matrix, vec![vec![0, 1, 1], vec![2, 0, 0], vec![2, 1, 0]]);
    assert_eq!(order, vec![2, 1, 0]);
}

#[test]
fn simulate_answers_a_seat_mismatch_as_internal_error() {
    let e = Election::StvMdGrouped {
        candidates: names(&["A", "B", "C", "D"]),
        seats: 4,
        ballots: combined(vec![(10, vec![Some(0), Some(1), Some(2), Some(3)])]),
        groups: vec![
            GroupConfig { name: "Group A".to_string(), seats: 3 },
            GroupConfig { name: "Group B".to_string(), seats: 2 },
        ],
        candidate_groups: names(&["Group A", "Group B", "Group A", "Group B"]),
    };
    match simulate_election(e) {
        Err(Error::Internal(m)) => assert_eq!(m, "Sum of group seats (5) must equal total seats (4)"),
        _ => panic!("a seat mismatch must be an internal error"),
    }
}

#[test]
fn elected_ids_are_candidate_indices() {
    let e = Election::StvMd { candidates: names(&["A", "B", "C"]), seats: 2, ballots: three_way() };
    let r = stv_droop(e).ok().unwrap();
    assert!(elected_ids(&r).iter().all(|&id| id < 3));
}
