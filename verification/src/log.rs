use vstd::prelude::*;

use crate::log_format::{
    action_line, action_line_exec, after_prefix, candidate_line, candidate_line_exec, count_line,
    count_line_exec, count_list, count_list_exec, header_field, header_field_exec, package_line,
    package_line_exec, round_line, round_line_exec, stats_line, stats_line_exec, title_line,
    title_line_exec,
};
use crate::text::{
    blank, chars_eq, chars_of, find, find_exec, has_prefix, parse_usize, parse_usize_exec,
    slice_chars, split_exec, split_on, string_of, strings_of, strip_leading, strip_leading_exec,
    strip_trailing, strip_trailing_exec, trim, trimmed,
};

verus! {

/// Parsed STV counting log output
#[derive(Debug, Clone)]
pub struct CountingLog {
    /// Election metadata extracted from the log header
    pub header: CountingLogHeader,
    /// Candidates participating in the election
    pub candidates: Vec<CountingLogCandidate>,
    /// Sequential rounds of the counting process
    pub rounds: Vec<CountingLogRound>,
}

/// Election metadata extracted from the log header
#[derive(Debug, Clone)]
pub struct CountingLogHeader {
    /// Title of the election
    pub title: String,
    /// Name of the counting software package
    pub package_name: String,
    /// Counting rule used (e.g. Droop)
    pub rule: String,
    /// Arithmetic precision description
    pub arithmetic: String,
    /// Number of seats to be filled
    pub seats: usize,
    /// Total number of ballots cast
    pub ballots: usize,
    /// Quota required for election
    pub quota: String,
    /// Omega value used in surplus transfer calculations
    pub omega: String,
}

/// A candidate in the election
#[derive(Debug, Clone)]
pub struct CountingLogCandidate {
    /// Candidate name
    pub name: String,
    /// Whether the candidate has withdrawn from the election
    pub withdrawn: bool,
}

/// A single round of the counting process
#[derive(Debug, Clone)]
pub struct CountingLogRound {
    /// Zero-based round number
    pub round_number: usize,
    /// Actions taken during this round
    pub actions: Vec<CountingLogAction>,
}

/// An action taken during a counting round
#[derive(Debug, Clone)]
pub struct CountingLogAction {
    /// The type of action performed
    pub action_type: CountingLogActionType,
    /// Candidate vote counts at the time of this action
    pub candidate_counts: Vec<CountingLogCandidateCount>,
    /// Election statistics at the time of this action
    pub stats: CountingLogStats,
}

/// The type of action performed during a counting round
#[derive(Debug, Clone)]
pub enum CountingLogActionType {
    /// Begin the count
    BeginCount,
    /// A candidate has been elected
    Elect { candidate: String },
    /// A candidate has been elected with remaining votes to transfer
    ElectRemaining { candidate: String },
    /// Surplus votes have been redistributed
    Iterate { reason: String },
    /// A candidate has been defeated with a reason
    Defeat { reason: String, candidate: String },
    /// A candidate has been defeated as the last remaining
    DefeatRemaining { candidate: String },
    /// A tie between candidates was broken by random selection
    BreakTie { candidates: Vec<String>, defeated: String },
    /// The count is complete
    CountComplete,
}

/// Vote count for a single candidate at a point in the count
#[derive(Debug, Clone)]
pub struct CountingLogCandidateCount {
    /// Candidate name
    pub name: String,
    /// Candidate status at this point in the count
    pub status: CountingLogCandidateStatus,
    /// Number of votes (as a decimal string)
    pub votes: String,
}

/// Status of a candidate during the count
#[derive(Debug, Clone, Copy, PartialEq, Eq, Structural)]
pub enum CountingLogCandidateStatus {
    /// Candidate has been elected
    Elected,
    /// Candidate is still in the running
    Hopeful,
    /// Candidate has been defeated
    Defeated,
}

/// Aggregate election statistics at a point in the count
#[derive(Debug, Clone)]
pub struct CountingLogStats {
    /// Current quota for election
    pub quota: String,
    /// Total valid votes
    pub votes: String,
    /// Residual (exhausted) votes
    pub residual: String,
    /// Total votes including residual
    pub total: String,
    /// Current surplus votes to transfer
    pub surplus: String,
}

// ---------------------------------------------------------------------------
// Mathematical model of a counting log: every string is its sequence of chars.
// ---------------------------------------------------------------------------

#[verifier::ext_equal]
pub struct HeaderModel {
    pub title: Seq<char>,
    pub package_name: Seq<char>,
    pub rule: Seq<char>,
    pub arithmetic: Seq<char>,
    pub seats: usize,
    pub ballots: usize,
    pub quota: Seq<char>,
    pub omega: Seq<char>,
}

#[verifier::ext_equal]
pub struct CandidateModel {
    pub name: Seq<char>,
    pub withdrawn: bool,
}

#[verifier::ext_equal]
pub enum ActionTypeModel {
    BeginCount,
    Elect { candidate: Seq<char> },
    ElectRemaining { candidate: Seq<char> },
    Iterate { reason: Seq<char> },
    Defeat { reason: Seq<char>, candidate: Seq<char> },
    DefeatRemaining { candidate: Seq<char> },
    BreakTie { candidates: Seq<Seq<char>>, defeated: Seq<char> },
    CountComplete,
}

#[verifier::ext_equal]
pub struct CountModel {
    pub name: Seq<char>,
    pub status: CountingLogCandidateStatus,
    pub votes: Seq<char>,
}

#[verifier::ext_equal]
pub struct StatsModel {
    pub quota: Seq<char>,
    pub votes: Seq<char>,
    pub residual: Seq<char>,
    pub total: Seq<char>,
    pub surplus: Seq<char>,
}

#[verifier::ext_equal]
pub struct ActionModel {
    pub action_type: ActionTypeModel,
    pub candidate_counts: Seq<CountModel>,
    pub stats: StatsModel,
}

#[verifier::ext_equal]
pub struct RoundModel {
    pub round_number: usize,
    pub actions: Seq<ActionModel>,
}

#[verifier::ext_equal]
pub struct LogModel {
    pub header: HeaderModel,
    pub candidates: Seq<CandidateModel>,
    pub rounds: Seq<RoundModel>,
}

pub open spec fn strings_view(v: Seq<String>) -> Seq<Seq<char>> {
    v.map_values(|s: String| s@)
}

impl View for CountingLogHeader {
    type V = HeaderModel;

    open spec fn view(&self) -> HeaderModel {
        HeaderModel {
            title: self.title@,
            package_name: self.package_name@,
            rule: self.rule@,
            arithmetic: self.arithmetic@,
            seats: self.seats,
            ballots: self.ballots,
            quota: self.quota@,
            omega: self.omega@,
        }
    }
}

impl View for CountingLogCandidate {
    type V = CandidateModel;

    open spec fn view(&self) -> CandidateModel {
        CandidateModel { name: self.name@, withdrawn: self.withdrawn }
    }
}

impl View for CountingLogActionType {
    type V = ActionTypeModel;

    open spec fn view(&self) -> ActionTypeModel {
        match self {
            CountingLogActionType::BeginCount => ActionTypeModel::BeginCount,
            CountingLogActionType::Elect { candidate } => ActionTypeModel::Elect {
                candidate: candidate@,
            },
            CountingLogActionType::ElectRemaining { candidate } => ActionTypeModel::ElectRemaining {
                candidate: candidate@,
            },
            CountingLogActionType::Iterate { reason } => ActionTypeModel::Iterate {
                reason: reason@,
            },
            CountingLogActionType::Defeat { reason, candidate } => ActionTypeModel::Defeat {
                reason: reason@,
                candidate: candidate@,
            },
            CountingLogActionType::DefeatRemaining { candidate } => ActionTypeModel::DefeatRemaining {
                candidate: candidate@,
            },
            CountingLogActionType::BreakTie { candidates, defeated } => ActionTypeModel::BreakTie {
                candidates: strings_view(candidates@),
                defeated: defeated@,
            },
            CountingLogActionType::CountComplete => ActionTypeModel::CountComplete,
        }
    }
}

impl View for CountingLogCandidateCount {
    type V = CountModel;

    open spec fn view(&self) -> CountModel {
        CountModel { name: self.name@, status: self.status, votes: self.votes@ }
    }
}

impl View for CountingLogStats {
    type V = StatsModel;

    open spec fn view(&self) -> StatsModel {
        StatsModel {
            quota: self.quota@,
            votes: self.votes@,
            residual: self.residual@,
            total: self.total@,
            surplus: self.surplus@,
        }
    }
}

impl View for CountingLogAction {
    type V = ActionModel;

    open spec fn view(&self) -> ActionModel {
        ActionModel {
            action_type: self.action_type@,
            candidate_counts: self.candidate_counts@.map_values(|c: CountingLogCandidateCount| c@),
            stats: self.stats@,
        }
    }
}

impl View for CountingLogRound {
    type V = RoundModel;

    open spec fn view(&self) -> RoundModel {
        RoundModel {
            round_number: self.round_number,
            actions: self.actions@.map_values(|a: CountingLogAction| a@),
        }
    }
}

impl View for CountingLog {
    type V = LogModel;

    open spec fn view(&self) -> LogModel {
        LogModel {
            header: self.header@,
            candidates: self.candidates@.map_values(|c: CountingLogCandidate| c@),
            rounds: self.rounds@.map_values(|r: CountingLogRound| r@),
        }
    }
}


// ---------------------------------------------------------------------------
// Action types
// ---------------------------------------------------------------------------

/// The action type that an `Action:` line names.
pub open spec fn action_type_of(s: Seq<char>) -> ActionTypeModel {
    if s == "Begin Count"@ {
        ActionTypeModel::BeginCount
    } else if s == "Count Complete"@ {
        ActionTypeModel::CountComplete
    } else if has_prefix(s, "Elect remaining: "@) {
        ActionTypeModel::ElectRemaining { candidate: s.skip("Elect remaining: "@.len() as int) }
    } else if has_prefix(s, "Elect: "@) {
        ActionTypeModel::Elect { candidate: s.skip("Elect: "@.len() as int) }
    } else if has_prefix(s, "Defeat remaining: "@) {
        ActionTypeModel::DefeatRemaining { candidate: s.skip("Defeat remaining: "@.len() as int) }
    } else if has_prefix(s, "Break tie (defeat): "@) {
        let rest = s.skip("Break tie (defeat): "@.len() as int);
        let k = find(rest, " -> "@);
        let cs = if k >= 0 {
            rest.take(k)
        } else {
            rest
        };
        let defeated = if k >= 0 {
            rest.skip(k + " -> "@.len())
        } else {
            Seq::empty()
        };
        ActionTypeModel::BreakTie {
            candidates: split_on(strip_trailing(strip_leading(cs, '['), ']'), ", "@),
            defeated,
        }
    } else if has_prefix(s, "Iterate ("@) {
        ActionTypeModel::Iterate { reason: strip_trailing(s.skip("Iterate ("@.len() as int), ')') }
    } else if has_prefix(s, "Defeat ("@) && find(
        strip_trailing(s.skip("Defeat ("@.len() as int), ')'),
        "): "@,
    ) >= 0 {
        let rc = strip_trailing(s.skip("Defeat ("@.len() as int), ')');
        let p = find(rc, "): "@);
        ActionTypeModel::Defeat { reason: rc.take(p), candidate: rc.skip(p + "): "@.len()) }
    } else {
        ActionTypeModel::Iterate { reason: s }
    }
}

fn parse_action_type(action: &[char]) -> (r: CountingLogActionType)
    ensures
        r@ == action_type_of(action@),
{
    let begin = chars_of("Begin Count");
    if chars_eq(action, &begin) {
        return CountingLogActionType::BeginCount;
    }
    let complete = chars_of("Count Complete");
    if chars_eq(action, &complete) {
        return CountingLogActionType::CountComplete;
    }
    if let Some(rest) = after_prefix(action, "Elect remaining: ") {
        return CountingLogActionType::ElectRemaining { candidate: string_of(&rest) };
    }
    if let Some(rest) = after_prefix(action, "Elect: ") {
        return CountingLogActionType::Elect { candidate: string_of(&rest) };
    }
    if let Some(rest) = after_prefix(action, "Defeat remaining: ") {
        return CountingLogActionType::DefeatRemaining { candidate: string_of(&rest) };
    }
    if let Some(rest) = after_prefix(action, "Break tie (defeat): ") {
        let arrow = chars_of(" -> ");
        let (cs, defeated) = match find_exec(&rest, &arrow, 0) {
            Some(k) => (slice_chars(&rest, 0, k), slice_chars(&rest, k + arrow.len(), rest.len())),
            None => (slice_chars(&rest, 0, rest.len()), Vec::new()),
        };
        proof {
            let k = find(rest@, " -> "@);
            if k >= 0 {
                assert(cs@ =~= rest@.take(k));
                assert(defeated@ =~= rest@.skip(k + " -> "@.len()));
            } else {
                assert(cs@ =~= rest@);
                assert(defeated@ =~= Seq::<char>::empty());
            }
        }
        let inner = strip_trailing_exec(&strip_leading_exec(&cs, '['), ']');
        let sep = chars_of(", ");
        assert(sep@.len() > 0) by {
            reveal_strlit(", ");
        }
        let pieces = split_exec(&inner, &sep);
        let candidates = strings_of(&pieces);
        proof {
            assert(strings_view(candidates@) =~= pieces@.map_values(|x: Vec<char>| x@));
        }
        return CountingLogActionType::BreakTie { candidates, defeated: string_of(&defeated) };
    }
    if let Some(rest) = after_prefix(action, "Iterate (") {
        let reason = strip_trailing_exec(&rest, ')');
        return CountingLogActionType::Iterate { reason: string_of(&reason) };
    }
    if let Some(rest) = after_prefix(action, "Defeat (") {
        let rc = strip_trailing_exec(&rest, ')');
        let marker = chars_of("): ");
        if let Some(p) = find_exec(&rc, &marker, 0) {
            proof {
                crate::text::lemma_find_from_found(rc@, marker@, 0);
            }
            assert(p + marker@.len() <= rc@.len());
            assert(marker.len() == marker@.len());
            let rlen = rc.len();
            let reason = slice_chars(&rc, 0, p);
            let candidate = slice_chars(&rc, p + marker.len(), rlen);
            assert(reason@ =~= rc@.take(p as int));
            assert(candidate@ =~= rc@.skip(p + "): "@.len()));
            return CountingLogActionType::Defeat {
                reason: string_of(&reason),
                candidate: string_of(&candidate),
            };
        }
    }
    CountingLogActionType::Iterate { reason: string_of(action) }
}

// ---------------------------------------------------------------------------
// Lines within an action
// ---------------------------------------------------------------------------

pub open spec fn defeated_count(name: Seq<char>, votes: Seq<char>) -> CountModel {
    CountModel { name: trim(name), status: CountingLogCandidateStatus::Defeated, votes }
}

pub open spec fn with_stat(st: StatsModel, key: int, val: Seq<char>) -> StatsModel {
    StatsModel {
        quota: if key == 0 { val } else { st.quota },
        votes: if key == 1 { val } else { st.votes },
        residual: if key == 2 { val } else { st.residual },
        total: if key == 3 { val } else { st.total },
        surplus: if key == 4 { val } else { st.surplus },
    }
}

/// What a line inside an action adds to it: candidate counts or a statistic.
/// `None` when the line is none of these.
pub open spec fn action_line_update(line: Seq<char>, a: ActionModel) -> Option<ActionModel> {
    match count_list(line) {
        Some((names, votes)) => Some(
            ActionModel {
                candidate_counts: a.candidate_counts + split_on(names, ", "@).map_values(
                    |n: Seq<char>| defeated_count(n, votes),
                ),
                ..a
            },
        ),
        None => match count_line(line) {
            Some((status, name, votes)) => Some(
                ActionModel {
                    candidate_counts: a.candidate_counts.push(CountModel { name, status, votes }),
                    ..a
                },
            ),
            None => match stats_line(line) {
                Some((key, val)) => Some(ActionModel { stats: with_stat(a.stats, key, val), ..a }),
                None => None,
            },
        },
    }
}

proof fn lemma_not_prefix(s: Seq<char>, p: Seq<char>, i: int)
    requires
        0 <= i < p.len(),
        i < s.len(),
        s[i] != p[i],
    ensures
        !has_prefix(s, p),
{
    if has_prefix(s, p) {
        assert(s.take(p.len() as int)[i] == s[i]);
    }
}

/// A value with no whitespace at either end, after one space, trims to itself.
proof fn lemma_trim_spaced(v: Seq<char>)
    requires
        v.len() > 0,
        !crate::text::is_ws(v[0]),
        !crate::text::is_ws(v.last()),
    ensures
        trim(seq![' '] + v) == v,
{
    let s = seq![' '] + v;
    assert(crate::text::is_ws(s[0]));
    assert(s[1] == v[0]);
    crate::text::lemma_lead_ws(s, 1);
    assert(crate::text::trim_start(s) =~= v);
    crate::text::lemma_trail_ws(v, 0);
    assert(crate::text::trim_end(v) =~= v);
}

/// What a statistic line `key + v` gives: key `k` and the value `v`, and the
/// line is neither a candidate count nor a list of defeated candidates.
proof fn lemma_stat_line_reads(key: Seq<char>, k: int, v: Seq<char>)
    requires
        v.len() > 0,
        !crate::text::is_ws(v[0]),
        !crate::text::is_ws(v.last()),
        k == 0 ==> key == "\tQuota: "@,
        k == 1 ==> key == "\tVotes: "@,
        k == 2 ==> key == "\tResidual: "@,
        k == 3 ==> key == "\tTotal: "@,
        k == 4 ==> key == "\tSurplus: "@,
        0 <= k <= 4,
    ensures
        count_list(key + v) is None,
        count_line(key + v) is None,
        stats_line(key + v) == Some((k, v)),
{
    reveal_strlit("\tQuota: ");
    reveal_strlit("\tVotes: ");
    reveal_strlit("\tResidual: ");
    reveal_strlit("\tTotal: ");
    reveal_strlit("\tSurplus: ");
    reveal_strlit("\tQuota:");
    reveal_strlit("\tVotes:");
    reveal_strlit("\tResidual:");
    reveal_strlit("\tTotal:");
    reveal_strlit("\tSurplus:");
    reveal_strlit("\tElected:");
    reveal_strlit("\tHopeful:");
    reveal_strlit("\tDefeated:");
    let line = key + v;
    let kl = key.len() as int;
    assert(line[1] == key[1]);
    lemma_not_prefix(line, "\tDefeated:"@, 1);
    lemma_not_prefix(line, "\tElected:"@, 1);
    lemma_not_prefix(line, "\tHopeful:"@, 1);
    assert(crate::log_format::status_of_line(line) is None);
    if k != 0 {
        lemma_not_prefix(line, "\tQuota:"@, 1);
    }
    if k != 1 {
        lemma_not_prefix(line, "\tVotes:"@, 1);
    }
    if k != 2 {
        lemma_not_prefix(line, "\tResidual:"@, 1);
    }
    if k != 3 {
        lemma_not_prefix(line, "\tTotal:"@, 1);
    }
    let plen = kl - 1;
    assert(line.take(plen) =~= key.take(plen));
    assert(line.skip(plen) =~= seq![' '] + v);
    if k == 0 {
        assert(key.take(plen) =~= "\tQuota:"@);
    } else if k == 1 {
        assert(key.take(plen) =~= "\tVotes:"@);
    } else if k == 2 {
        assert(key.take(plen) =~= "\tResidual:"@);
    } else if k == 3 {
        assert(key.take(plen) =~= "\tTotal:"@);
    } else {
        assert(key.take(plen) =~= "\tSurplus:"@);
    }
    assert(has_prefix(line, key.take(plen)));
    lemma_trim_spaced(v);
}

/// A statistic line inside an action sets that statistic and leaves the rest of
/// the action as it was: `\tQuota: v` sets the quota to `v`, `\tVotes: v` the
/// votes, `\tResidual: v` the residual, `\tTotal: v` the total and
/// `\tSurplus: v` the surplus, for a value `v` with no whitespace at either end.
pub proof fn lemma_stat_lines(a: ActionModel, v: Seq<char>)
    requires
        v.len() > 0,
        !crate::text::is_ws(v[0]),
        !crate::text::is_ws(v.last()),
    ensures
        action_line_update("\tQuota: "@ + v, a) == Some(ActionModel { stats: StatsModel { quota: v, ..a.stats }, ..a }),
        action_line_update("\tVotes: "@ + v, a) == Some(ActionModel { stats: StatsModel { votes: v, ..a.stats }, ..a }),
        action_line_update("\tResidual: "@ + v, a) == Some(
            ActionModel { stats: StatsModel { residual: v, ..a.stats }, ..a },
        ),
        action_line_update("\tTotal: "@ + v, a) == Some(ActionModel { stats: StatsModel { total: v, ..a.stats }, ..a }),
        action_line_update("\tSurplus: "@ + v, a) == Some(
            ActionModel { stats: StatsModel { surplus: v, ..a.stats }, ..a },
        ),
{
    lemma_stat_line_reads("\tQuota: "@, 0, v);
    lemma_stat_line_reads("\tVotes: "@, 1, v);
    lemma_stat_line_reads("\tResidual: "@, 2, v);
    lemma_stat_line_reads("\tTotal: "@, 3, v);
    lemma_stat_line_reads("\tSurplus: "@, 4, v);
}

fn parse_action_line(line: &[char], action: &mut CountingLogAction) -> (r: bool)
    ensures
        r == action_line_update(line@, old(action)@) is Some,
        r ==> Some(final(action)@) == action_line_update(line@, old(action)@),
        !r ==> final(action)@ == old(action)@,
{
    if let Some((names, votes)) = count_list_exec(line) {
        let sep = chars_of(", ");
        assert(sep@.len() > 0) by {
            reveal_strlit(", ");
        }
        let pieces = split_exec(&names, &sep);
        let ghost old_counts = action.candidate_counts@;
        let ghost names_model = split_on(names@, ", "@);
        let mut i: usize = 0;
        while i < pieces.len()
            invariant
                i <= pieces.len(),
                pieces@.map_values(|x: Vec<char>| x@) == names_model,
                action.candidate_counts@.map_values(|c: CountingLogCandidateCount| c@)
                    == old_counts.map_values(|c: CountingLogCandidateCount| c@) + names_model.take(
                    i as int,
                ).map_values(|n: Seq<char>| defeated_count(n, votes@)),
                action.action_type == old(action).action_type,
                action.stats == old(action).stats,
                old_counts == old(action).candidate_counts@,
            decreases pieces.len() - i,
        {
            let ghost before = action.candidate_counts@;
            let name = trimmed(&pieces[i]);
            action.candidate_counts.push(
                CountingLogCandidateCount {
                    name: string_of(&name),
                    status: CountingLogCandidateStatus::Defeated,
                    votes: string_of(&votes),
                },
            );
            proof {
                assert(names_model[i as int] == pieces@[i as int]@);
                assert(names_model.take(i + 1) =~= names_model.take(i as int).push(names_model[i as int]));
                assert(action.candidate_counts@.map_values(|c: CountingLogCandidateCount| c@)
                    =~= before.map_values(|c: CountingLogCandidateCount| c@).push(defeated_count(names_model[i as int], votes@)));
                assert(names_model.take(i + 1).map_values(|n: Seq<char>| defeated_count(n, votes@))
                    =~= names_model.take(i as int).map_values(|n: Seq<char>| defeated_count(n, votes@)).push(defeated_count(names_model[i as int], votes@)));
            }
            i += 1;
        }
        proof {
            assert(names_model.take(pieces@.len() as int) =~= names_model);
            assert(final(action)@ == action@) by {}
        }
        return true;
    }
    if let Some((status, name, votes)) = count_line_exec(line) {
        let ghost before = action.candidate_counts@;
        action.candidate_counts.push(
            CountingLogCandidateCount { name: string_of(&name), status, votes: string_of(&votes) },
        );
        proof {
            assert(action.candidate_counts@.map_values(|c: CountingLogCandidateCount| c@) =~= before.map_values(
                |c: CountingLogCandidateCount| c@,
            ).push(CountModel { name: name@, status, votes: votes@ }));
        }
        return true;
    }
    if let Some((key, val)) = stats_line_exec(line) {
        let v = string_of(&val);
        if key == 0 {
            action.stats.quota = v;
        } else if key == 1 {
            action.stats.votes = v;
        } else if key == 2 {
            action.stats.residual = v;
        } else if key == 3 {
            action.stats.total = v;
        } else {
            action.stats.surplus = v;
        }
        return true;
    }
    false
}

// ---------------------------------------------------------------------------
// The header
// ---------------------------------------------------------------------------

pub open spec fn empty_header(title: Seq<char>) -> HeaderModel {
    HeaderModel {
        title,
        package_name: Seq::empty(),
        rule: Seq::empty(),
        arithmetic: Seq::empty(),
        seats: 0,
        ballots: 0,
        quota: Seq::empty(),
        omega: Seq::empty(),
    }
}

pub open spec fn usize_or_zero(s: Seq<char>) -> usize {
    match parse_usize(s) {
        Some(n) => n,
        None => 0,
    }
}

/// The header with one `key: value` field applied; unknown keys change nothing.
pub open spec fn apply_field(h: HeaderModel, key: Seq<char>, val: Seq<char>) -> HeaderModel {
    if key == "Rule"@ {
        HeaderModel { rule: val, ..h }
    } else if key == "Arithmetic"@ {
        HeaderModel { arithmetic: val, ..h }
    } else if key == "Seats"@ {
        HeaderModel { seats: usize_or_zero(val), ..h }
    } else if key == "Ballots"@ {
        HeaderModel { ballots: usize_or_zero(val), ..h }
    } else if key == "Quota"@ {
        HeaderModel { quota: val, ..h }
    } else if key == "Omega"@ {
        HeaderModel { omega: val, ..h }
    } else {
        h
    }
}

/// Reads header lines from `i` on: blank lines are skipped, fields and the
/// package name are recorded, and the header ends at the first `\tAdd ` line or
/// any other line. Returns the header and the index where it ended.
pub open spec fn header_scan(lines: Seq<Seq<char>>, i: int, h: HeaderModel) -> (HeaderModel, int)
    decreases lines.len() - i,
{
    if i < 0 || i >= lines.len() {
        (h, i)
    } else if blank(lines[i]) {
        header_scan(lines, i + 1, h)
    } else if has_prefix(lines[i], "\tAdd "@) {
        (h, i)
    } else {
        match header_field(lines[i]) {
            Some((key, val)) => header_scan(lines, i + 1, apply_field(h, key, val)),
            None => match package_line(lines[i]) {
                Some(p) => header_scan(lines, i + 1, HeaderModel { package_name: p, ..h }),
                None => (h, i),
            },
        }
    }
}

pub proof fn lemma_header_scan_index(lines: Seq<Seq<char>>, i: int, h: HeaderModel)
    requires
        0 <= i <= lines.len(),
    ensures
        i <= header_scan(lines, i, h).1 <= lines.len(),
    decreases lines.len() - i,
{
    if i < lines.len() {
        if blank(lines[i]) {
            lemma_header_scan_index(lines, i + 1, h);
        } else if !has_prefix(lines[i], "\tAdd "@) {
            match header_field(lines[i]) {
                Some((key, val)) => lemma_header_scan_index(lines, i + 1, apply_field(h, key, val)),
                None => match package_line(lines[i]) {
                    Some(p) => lemma_header_scan_index(lines, i + 1, HeaderModel { package_name: p, ..h }),
                    None => {},
                },
            }
        }
    }
}

pub open spec fn lines_model(lines: Seq<Vec<char>>) -> Seq<Seq<char>> {
    lines.map_values(|l: Vec<char>| l@)
}

fn is_blank(v: &[char]) -> (b: bool)
    ensures
        b == blank(v@),
{
    trimmed(v).len() == 0
}

fn apply_field_exec(h: &mut CountingLogHeader, key: &[char], val: &[char])
    ensures
        final(h)@ == apply_field(old(h)@, key@, val@),
{
    if chars_eq(key, &chars_of("Rule")) {
        h.rule = string_of(val);
    } else if chars_eq(key, &chars_of("Arithmetic")) {
        h.arithmetic = string_of(val);
    } else if chars_eq(key, &chars_of("Seats")) {
        h.seats = match parse_usize_exec(val) {
            Some(n) => n,
            None => 0,
        };
    } else if chars_eq(key, &chars_of("Ballots")) {
        h.ballots = match parse_usize_exec(val) {
            Some(n) => n,
            None => 0,
        };
    } else if chars_eq(key, &chars_of("Quota")) {
        h.quota = string_of(val);
    } else if chars_eq(key, &chars_of("Omega")) {
        h.omega = string_of(val);
    }
}

fn parse_header(lines: &Vec<Vec<char>>, start: usize, title: &[char]) -> (r: (CountingLogHeader, usize))
    requires
        start <= lines@.len(),
    ensures
        (r.0@, r.1 as int) == header_scan(lines_model(lines@), start as int, empty_header(title@)),
{
    let ghost lm = lines_model(lines@);
    let mut h = CountingLogHeader {
        title: string_of(title),
        package_name: String::new(),
        rule: String::new(),
        arithmetic: String::new(),
        seats: 0,
        ballots: 0,
        quota: String::new(),
        omega: String::new(),
    };
    let mut i: usize = start;
    while i < lines.len()
        invariant
            start <= i <= lines@.len(),
            lm == lines_model(lines@),
            header_scan(lm, i as int, h@) == header_scan(lm, start as int, empty_header(title@)),
        ensures
            header_scan(lm, i as int, h@) == (h@, i as int),
        decreases lines.len() - i,
    {
        let line = &lines[i];
        assert(lm[i as int] == line@);
        if is_blank(line) {
            i += 1;
            continue;
        }
        if starts_with_add(line) {
            break;
        }
        if let Some((key, val)) = header_field_exec(line) {
            apply_field_exec(&mut h, &key, &val);
            i += 1;
        } else if let Some(p) = package_line_exec(line) {
            h.package_name = string_of(&p);
            i += 1;
        } else {
            break;
        }
    }
    (h, i)
}

fn starts_with_add(line: &[char]) -> (b: bool)
    ensures
        b == has_prefix(line@, "\tAdd "@),
{
    crate::text::starts_with(line, &chars_of("\tAdd "))
}


// ---------------------------------------------------------------------------
// Splitting text into lines (`str::lines`)
// ---------------------------------------------------------------------------

pub open spec fn strip_cr(line: Seq<char>) -> Seq<char> {
    if line.len() > 0 && line.last() == '\r' {
        line.drop_last()
    } else {
        line
    }
}

/// The lines of `s`: split at each `\n`, dropping a `\r` before it; a final
/// line ending adds no empty line.
pub open spec fn lines_of(s: Seq<char>) -> Seq<Seq<char>>
    decreases s.len(),
{
    if s.len() == 0 {
        Seq::empty()
    } else {
        let k = find(s, seq!['\n']);
        if k < 0 {
            seq![s]
        } else {
            proof {
                crate::text::lemma_find_from_found(s, seq!['\n'], 0);
            }
            seq![strip_cr(s.take(k))] + lines_of(s.skip(k + 1))
        }
    }
}

fn split_lines(v: &[char]) -> (r: Vec<Vec<char>>)
    ensures
        lines_model(r@) == lines_of(v@),
{
    let nl: Vec<char> = vec!['\n'];
    assert(nl@ =~= seq!['\n']);
    let mut out: Vec<Vec<char>> = Vec::new();
    let mut start: usize = 0;
    assert(v@.skip(0) =~= v@);
    assert(lines_model(out@) =~= Seq::<Seq<char>>::empty());
    while start < v.len()
        invariant
            start <= v.len(),
            nl@ == seq!['\n'],
            lines_model(out@) + lines_of(v@.skip(start as int)) == lines_of(v@),
        decreases v.len() - start,
    {
        let ghost rest = v@.skip(start as int);
        match find_exec(v, &nl, start) {
            Some(k) => {
                proof {
                    crate::text::lemma_find_shift(v@, nl@, start as int);
                }
                let end = if k > start && v[k - 1] == '\r' { k - 1 } else { k };
                let line = slice_chars(v, start, end);
                proof {
                    assert(find(rest, seq!['\n']) == k - start);
                    assert(strip_cr(rest.take(k - start)) =~= line@);
                    assert(rest.skip(k - start + 1) =~= v@.skip(k + 1));
                    assert(lines_model(out@.push(line)) =~= lines_model(out@).push(line@));
                    assert(lines_of(rest) == seq![line@] + lines_of(v@.skip(k + 1)));
                    assert(lines_model(out@).push(line@) + lines_of(v@.skip(k + 1)) =~= lines_model(out@) + lines_of(rest));
                }
                out.push(line);
                start = k + 1;
            },
            None => {
                proof {
                    crate::text::lemma_find_shift(v@, nl@, start as int);
                }
                let line = slice_chars(v, start, v.len());
                proof {
                    assert(rest =~= line@);
                    assert(lines_model(out@.push(line)) =~= lines_model(out@).push(line@));
                    assert(lines_model(out@) + lines_of(rest) =~= lines_model(out@).push(line@));
                    assert(v@.skip(v@.len() as int) =~= Seq::<char>::empty());
                    assert(lines_model(out@).push(line@) + lines_of(Seq::<char>::empty()) =~= lines_model(out@).push(line@));
                }
                out.push(line);
                start = v.len();
            },
        }
    }
    proof {
        assert(v@.skip(start as int) =~= Seq::<char>::empty());
        assert(lines_model(out@) + lines_of(Seq::<char>::empty()) =~= lines_model(out@));
    }
    out
}

// ---------------------------------------------------------------------------
// The counting log as a whole
// ---------------------------------------------------------------------------

/// The state of the log parser between two lines.
#[verifier::ext_equal]
pub struct ParseState {
    pub header: Option<HeaderModel>,
    pub candidates: Seq<CandidateModel>,
    pub rounds: Seq<RoundModel>,
    pub round: Option<RoundModel>,
    pub action: Option<ActionModel>,
}

pub open spec fn initial_state() -> ParseState {
    ParseState {
        header: None,
        candidates: Seq::empty(),
        rounds: Seq::empty(),
        round: None,
        action: None,
    }
}

/// Closes the current action: it joins the current round, if there is one.
pub open spec fn flush_action(st: ParseState) -> ParseState {
    match st.action {
        Some(a) => match st.round {
            Some(r) => ParseState {
                round: Some(RoundModel { actions: r.actions.push(a), ..r }),
                action: None,
                ..st
            },
            None => ParseState { action: None, ..st },
        },
        None => st,
    }
}

/// Closes the current round: it joins the list of rounds.
pub open spec fn flush_round(st: ParseState) -> ParseState {
    match st.round {
        Some(r) => ParseState { rounds: st.rounds.push(r), round: None, ..st },
        None => st,
    }
}

pub open spec fn empty_stats() -> StatsModel {
    StatsModel {
        quota: Seq::empty(),
        votes: Seq::empty(),
        residual: Seq::empty(),
        total: Seq::empty(),
        surplus: Seq::empty(),
    }
}

pub open spec fn new_action(text: Seq<char>) -> ActionModel {
    ActionModel { action_type: action_type_of(text), candidate_counts: Seq::empty(), stats: empty_stats() }
}

/// The parser's state after reading the lines from `i` on, starting in state `st`.
pub open spec fn parse_lines(lines: Seq<Seq<char>>, i: int, st: ParseState) -> ParseState
    decreases lines.len() - i,
{
    if i < 0 || i >= lines.len() {
        st
    } else {
        let line = lines[i];
        match title_line(line) {
            Some(title) => {
                let (h, next) = header_scan(lines, i + 1, empty_header(title));
                proof {
                    lemma_header_scan_index(lines, i + 1, empty_header(title));
                }
                parse_lines(lines, next, ParseState { header: Some(h), ..st })
            },
            None => match candidate_line(line) {
                Some((withdrawn, name)) => parse_lines(
                    lines,
                    i + 1,
                    ParseState {
                        candidates: st.candidates.push(CandidateModel { name, withdrawn }),
                        ..st
                    },
                ),
                None => match round_line(line) {
                    Some(n) => {
                        let closed = flush_round(flush_action(st));
                        parse_lines(
                            lines,
                            i + 1,
                            ParseState {
                                round: Some(RoundModel { round_number: n, actions: Seq::empty() }),
                                ..closed
                            },
                        )
                    },
                    None => match action_line(line) {
                        Some(text) => {
                            let closed = flush_action(st);
                            let round = match closed.round {
                                Some(r) => r,
                                None => RoundModel { round_number: 0, actions: Seq::empty() },
                            };
                            parse_lines(
                                lines,
                                i + 1,
                                ParseState { round: Some(round), action: Some(new_action(text)), ..closed },
                            )
                        },
                        None => match st.action {
                            Some(a) => match action_line_update(line, a) {
                                Some(a2) => parse_lines(lines, i + 1, ParseState { action: Some(a2), ..st }),
                                None => parse_lines(lines, i + 1, st),
                            },
                            None => parse_lines(lines, i + 1, st),
                        },
                    },
                },
            },
        }
    }
}

/// The counting log that `raw` describes.
pub open spec fn log_of(raw: Seq<char>) -> LogModel {
    let st = flush_round(flush_action(parse_lines(lines_of(raw), 0, initial_state())));
    LogModel {
        header: match st.header {
            Some(h) => h,
            None => empty_header(Seq::empty()),
        },
        candidates: st.candidates,
        rounds: st.rounds,
    }
}

pub open spec fn opt_header_model(h: Option<CountingLogHeader>) -> Option<HeaderModel> {
    match h {
        Some(x) => Some(x@),
        None => None,
    }
}

pub open spec fn opt_round_model(r: Option<CountingLogRound>) -> Option<RoundModel> {
    match r {
        Some(x) => Some(x@),
        None => None,
    }
}

pub open spec fn opt_action_model(a: Option<CountingLogAction>) -> Option<ActionModel> {
    match a {
        Some(x) => Some(x@),
        None => None,
    }
}

pub open spec fn state_model(
    header: Option<CountingLogHeader>,
    candidates: Seq<CountingLogCandidate>,
    rounds: Seq<CountingLogRound>,
    round: Option<CountingLogRound>,
    action: Option<CountingLogAction>,
) -> ParseState {
    ParseState {
        header: opt_header_model(header),
        candidates: candidates.map_values(|c: CountingLogCandidate| c@),
        rounds: rounds.map_values(|r: CountingLogRound| r@),
        round: opt_round_model(round),
        action: opt_action_model(action),
    }
}

fn empty_stats_exec() -> (s: CountingLogStats)
    ensures
        s@ == empty_stats(),
{
    CountingLogStats {
        quota: String::new(),
        votes: String::new(),
        residual: String::new(),
        total: String::new(),
        surplus: String::new(),
    }
}

/// Closes the current action into the current round, if there is one.
fn close_action(round: &mut Option<CountingLogRound>, action: &mut Option<CountingLogAction>)
    ensures
        ({
            let st = flush_action(
                ParseState {
                    header: None,
                    candidates: Seq::empty(),
                    rounds: Seq::empty(),
                    round: opt_round_model(*old(round)),
                    action: opt_action_model(*old(action)),
                },
            );
            opt_round_model(*final(round)) == st.round && opt_action_model(*final(action)) == st.action
        }),
{
    if let Some(cur) = action.take() {
        if let Some(r) = round {
            let ghost before = r.actions@;
            r.actions.push(cur);
            proof {
                assert(r.actions@.map_values(|a: CountingLogAction| a@) =~= before.map_values(
                    |a: CountingLogAction| a@,
                ).push(cur@));
            }
        }
    }
}

/// Parses the raw counting log written by the STV count into its rounds,
/// actions, candidate counts and statistics.
pub fn parse_log(raw: &str) -> (log: CountingLog)
    ensures
        log@ == log_of(raw@),
{
    let chars = chars_of(raw);
    let lines = split_lines(&chars);
    let ghost lm = lines_model(lines@);
    let mut header: Option<CountingLogHeader> = None;
    let mut candidates: Vec<CountingLogCandidate> = Vec::new();
    let mut rounds: Vec<CountingLogRound> = Vec::new();
    let mut current_round: Option<CountingLogRound> = None;
    let mut current_action: Option<CountingLogAction> = None;
    let mut i: usize = 0;
    proof {
        assert(candidates@.map_values(|c: CountingLogCandidate| c@) =~= Seq::<CandidateModel>::empty());
        assert(rounds@.map_values(|r: CountingLogRound| r@) =~= Seq::<RoundModel>::empty());
        assert(state_model(header, candidates@, rounds@, current_round, current_action) =~= initial_state());
    }
    while i < lines.len()
        invariant
            i <= lines@.len(),
            lm == lines_model(lines@),
            lm == lines_of(raw@),
            parse_lines(lm, i as int, state_model(header, candidates@, rounds@, current_round, current_action))
                == parse_lines(lm, 0, initial_state()),
        decreases lines.len() - i,
    {
        let ghost st = state_model(header, candidates@, rounds@, current_round, current_action);
        let line = &lines[i];
        assert(lm[i as int] == line@);
        if let Some(title) = title_line_exec(line) {
            let (h, next) = parse_header(&lines, i + 1, &title);
            proof {
                lemma_header_scan_index(lm, i + 1, empty_header(title@));
            }
            header = Some(h);
            i = next;
            continue;
        }
        if let Some((withdrawn, name)) = candidate_line_exec(line) {
            let ghost before = candidates@;
            candidates.push(CountingLogCandidate { name: string_of(&name), withdrawn });
            proof {
                assert(candidates@.map_values(|c: CountingLogCandidate| c@) =~= before.map_values(
                    |c: CountingLogCandidate| c@,
                ).push(CandidateModel { name: name@, withdrawn }));
            }
            i += 1;
            continue;
        }
        if let Some(round_number) = round_line_exec(line) {
            close_action(&mut current_round, &mut current_action);
            if let Some(cur) = current_round.take() {
                let ghost before = rounds@;
                rounds.push(cur);
                proof {
                    assert(rounds@.map_values(|r: CountingLogRound| r@) =~= before.map_values(
                        |r: CountingLogRound| r@,
                    ).push(cur@));
                }
            }
            let no_actions: Vec<CountingLogAction> = Vec::new();
            assert(no_actions@.map_values(|a: CountingLogAction| a@) =~= Seq::<ActionModel>::empty());
            current_round = Some(CountingLogRound { round_number, actions: no_actions });
            proof {
                assert(state_model(header, candidates@, rounds@, current_round, current_action) =~= ParseState {
                    round: Some(RoundModel { round_number, actions: Seq::empty() }),
                    ..flush_round(flush_action(st))
                });
            }
            i += 1;
            continue;
        }
        if let Some(text) = action_line_exec(line) {
            close_action(&mut current_round, &mut current_action);
            if current_round.is_none() {
                let no_actions: Vec<CountingLogAction> = Vec::new();
                assert(no_actions@.map_values(|a: CountingLogAction| a@) =~= Seq::<ActionModel>::empty());
                current_round = Some(CountingLogRound { round_number: 0, actions: no_actions });
            }
            let no_counts: Vec<CountingLogCandidateCount> = Vec::new();
            assert(no_counts@.map_values(|c: CountingLogCandidateCount| c@) =~= Seq::<CountModel>::empty());
            current_action = Some(
                CountingLogAction {
                    action_type: parse_action_type(&text),
                    candidate_counts: no_counts,
                    stats: empty_stats_exec(),
                },
            );
            i += 1;
            continue;
        }
        if let Some(action) = &mut current_action {
            if parse_action_line(line, action) {
                i += 1;
                continue;
            }
        }
        i += 1;
    }
    close_action(&mut current_round, &mut current_action);
    if let Some(cur) = current_round.take() {
        let ghost before = rounds@;
        rounds.push(cur);
        proof {
            assert(rounds@.map_values(|r: CountingLogRound| r@) =~= before.map_values(|r: CountingLogRound| r@).push(cur@));
        }
    }
    let header = match header {
        Some(h) => h,
        None => CountingLogHeader {
            title: String::new(),
            package_name: String::new(),
            rule: String::new(),
            arithmetic: String::new(),
            seats: 0,
            ballots: 0,
            quota: String::new(),
            omega: String::new(),
        },
    };
    CountingLog { header, candidates, rounds }
}


// ---------------------------------------------------------------------------
// Candidate counts in candidate order
// ---------------------------------------------------------------------------

/// Index of the first of the first `k` candidates named `name`, or `k` if none is.
pub open spec fn position_upto(candidates: Seq<Seq<char>>, name: Seq<char>, k: int) -> nat
    decreases k,
{
    if k <= 0 {
        0
    } else {
        let p = position_upto(candidates, name, k - 1);
        if p < k - 1 {
            p
        } else if candidates[k - 1] == name {
            (k - 1) as nat
        } else {
            k as nat
        }
    }
}

/// Position of a name in the candidate list; unknown names come after all candidates.
pub open spec fn position_of(candidates: Seq<Seq<char>>, name: Seq<char>) -> nat {
    position_upto(candidates, name, candidates.len() as int)
}

/// The counts among the first `n` whose candidate has position `p`, in their order.
pub open spec fn counts_at(counts: Seq<CountModel>, candidates: Seq<Seq<char>>, p: nat, n: int) -> Seq<CountModel>
    decreases n,
{
    if n <= 0 {
        Seq::empty()
    } else {
        let prev = counts_at(counts, candidates, p, n - 1);
        if position_of(candidates, counts[n - 1].name) == p {
            prev.push(counts[n - 1])
        } else {
            prev
        }
    }
}

/// Counts grouped by the position of their candidate, for positions below `p`.
pub open spec fn counts_before(counts: Seq<CountModel>, candidates: Seq<Seq<char>>, p: nat) -> Seq<CountModel>
    decreases p,
{
    if p == 0 {
        Seq::empty()
    } else {
        counts_before(counts, candidates, (p - 1) as nat) + counts_at(counts, candidates, (p - 1) as nat, counts.len() as int)
    }
}

/// The counts ordered by the position of their candidate in the candidate list
/// (a stable sort): unknown names last, ties in the order they came.
pub open spec fn in_candidate_order(counts: Seq<CountModel>, candidates: Seq<Seq<char>>) -> Seq<CountModel> {
    counts_before(counts, candidates, (candidates.len() + 1) as nat)
}

/// An action with its candidate counts in candidate order.
pub open spec fn action_in_candidate_order(a: ActionModel, candidates: Seq<Seq<char>>) -> ActionModel {
    ActionModel { candidate_counts: in_candidate_order(a.candidate_counts, candidates), ..a }
}

/// A log with the candidate counts of every action in candidate order.
pub open spec fn log_in_candidate_order(l: LogModel, candidates: Seq<Seq<char>>) -> LogModel {
    LogModel {
        rounds: Seq::new(
            l.rounds.len(),
            |r: int|
                RoundModel {
                    actions: Seq::new(
                        l.rounds[r].actions.len(),
                        |a: int| action_in_candidate_order(l.rounds[r].actions[a], candidates),
                    ),
                    ..l.rounds[r]
                },
        ),
        ..l
    }
}

pub open spec fn counts_model(v: Seq<CountingLogCandidateCount>) -> Seq<CountModel> {
    v.map_values(|c: CountingLogCandidateCount| c@)
}

fn position_exec(candidates: &[String], name: &String) -> (p: usize)
    ensures
        p == position_of(strings_view(candidates@), name@),
{
    let ghost cs = strings_view(candidates@);
    let mut k: usize = 0;
    while k < candidates.len()
        invariant
            k <= candidates.len(),
            cs == strings_view(candidates@),
            position_upto(cs, name@, k as int) == k,
        decreases candidates.len() - k,
    {
        assert(cs[k as int] == candidates@[k as int]@);
        if candidates[k] == *name {
            proof {
                lemma_position_found(cs, name@, k as int + 1, candidates@.len() as int, k as nat);
            }
            return k;
        }
        k += 1;
    }
    k
}

proof fn lemma_position_found(candidates: Seq<Seq<char>>, name: Seq<char>, k: int, n: int, f: nat)
    requires
        f < k <= n,
        position_upto(candidates, name, k) == f,
    ensures
        position_upto(candidates, name, n) == f,
    decreases n - k,
{
    if k < n {
        lemma_position_found(candidates, name, k + 1, n, f);
    }
}

fn copy_count(c: &CountingLogCandidateCount) -> (r: CountingLogCandidateCount)
    ensures
        r@ == c@,
{
    CountingLogCandidateCount { name: c.name.clone(), status: c.status, votes: c.votes.clone() }
}

/// The counts sorted by the position of their candidate in `candidates`.
pub fn sort_candidate_count_slice(counts: &Vec<CountingLogCandidateCount>, candidates: &[String]) -> (r: Vec<CountingLogCandidateCount>)
    ensures
        counts_model(r@) == in_candidate_order(counts_model(counts@), strings_view(candidates@)),
{
    let ghost cm = counts_model(counts@);
    let ghost cs = strings_view(candidates@);
    let mut positions: Vec<usize> = Vec::new();
    let mut k: usize = 0;
    while k < counts.len()
        invariant
            k <= counts.len(),
            cm == counts_model(counts@),
            cs == strings_view(candidates@),
            positions@.len() == k,
            forall|j: int| 0 <= j < k ==> #[trigger] positions@[j] == position_of(cs, cm[j].name),
        decreases counts.len() - k,
    {
        positions.push(position_exec(candidates, &counts[k].name));
        k += 1;
    }
    let mut out: Vec<CountingLogCandidateCount> = Vec::new();
    let mut p: usize = 0;
    assert(counts_model(out@) =~= counts_before(cm, cs, 0));
    loop
        invariant_except_break
            counts_model(out@) == counts_before(cm, cs, p as nat),
        invariant
            p <= candidates.len(),
            cm == counts_model(counts@),
            cs == strings_view(candidates@),
            cs.len() == candidates@.len(),
            positions@.len() == counts@.len(),
            forall|j: int| 0 <= j < counts@.len() ==> #[trigger] positions@[j] == position_of(cs, cm[j].name),
        ensures
            counts_model(out@) == counts_before(cm, cs, (candidates@.len() + 1) as nat),
        decreases candidates.len() - p,
    {
        let ghost base = counts_model(out@);
        let mut j: usize = 0;
        while j < counts.len()
            invariant
                j <= counts.len(),
                cm == counts_model(counts@),
                positions@.len() == counts@.len(),
                forall|i: int| 0 <= i < counts@.len() ==> #[trigger] positions@[i] == position_of(cs, cm[i].name),
                counts_model(out@) == base + counts_at(cm, cs, p as nat, j as int),
            decreases counts.len() - j,
        {
            if positions[j] == p {
                let ghost before = out@;
                out.push(copy_count(&counts[j]));
                proof {
                    assert(counts_model(out@) =~= counts_model(before).push(cm[j as int]));
                }
            }
            j += 1;
        }
        if p == candidates.len() {
            break;
        }
        p += 1;
    }
    out
}

/// Orders the candidate counts of every action by the candidates' positions in `candidates`.
pub fn sort_candidate_counts(log: &mut CountingLog, candidates: &[String])
    ensures
        final(log)@ == log_in_candidate_order(old(log)@, strings_view(candidates@)),
        final(log)@.header == old(log)@.header,
        final(log)@.candidates == old(log)@.candidates,
        final(log)@.rounds.len() == old(log)@.rounds.len(),
        forall|r: int| 0 <= r < final(log)@.rounds.len() ==> {
            let new_round = #[trigger] final(log)@.rounds[r];
            let old_round = old(log)@.rounds[r];
            &&& new_round.round_number == old_round.round_number
            &&& new_round.actions.len() == old_round.actions.len()
            &&& forall|a: int| 0 <= a < new_round.actions.len() ==> (#[trigger] new_round.actions[a]) == action_in_candidate_order(old_round.actions[a], strings_view(candidates@))
        },
{
    let ghost old_log = log@;
    let mut rounds: Vec<CountingLogRound> = Vec::new();
    let mut r: usize = 0;
    while r < log.rounds.len()
        invariant
            r <= log.rounds@.len(),
            log@ == old_log,
            rounds@.len() == r,
            forall|i: int| 0 <= i < r ==> {
                let new_round = #[trigger] rounds@[i]@;
                let old_round = old_log.rounds[i];
                &&& new_round.round_number == old_round.round_number
                &&& new_round.actions.len() == old_round.actions.len()
                &&& forall|a: int| 0 <= a < new_round.actions.len() ==> (#[trigger] new_round.actions[a]) == action_in_candidate_order(old_round.actions[a], strings_view(candidates@))
            },
        decreases log.rounds@.len() - r,
    {
        let round = &log.rounds[r];
        assert(old_log.rounds[r as int] == round@);
        let mut actions: Vec<CountingLogAction> = Vec::new();
        let mut a: usize = 0;
        while a < round.actions.len()
            invariant
                a <= round.actions@.len(),
                actions@.len() == a,
                forall|i: int| 0 <= i < a ==> (#[trigger] actions@[i])@ == action_in_candidate_order(round.actions@[i]@, strings_view(candidates@)),
            decreases round.actions@.len() - a,
        {
            let action = &round.actions[a];
            let counts = sort_candidate_count_slice(&action.candidate_counts, candidates);
            let copied = CountingLogAction {
                action_type: copy_action_type(&action.action_type),
                candidate_counts: counts,
                stats: copy_stats(&action.stats),
            };
            actions.push(copied);
            a += 1;
        }
        let new_round = CountingLogRound { round_number: round.round_number, actions };
        proof {
            assert forall|i: int| 0 <= i < new_round@.actions.len() implies (#[trigger] new_round@.actions[i]) == action_in_candidate_order(round@.actions[i], strings_view(candidates@)) by {
                assert(new_round@.actions[i] == actions@[i]@);
                assert(round@.actions[i] == round.actions@[i]@);
            }
        }
        rounds.push(new_round);
        r += 1;
    }
    log.rounds = rounds;
    proof {
        let target = log_in_candidate_order(old_log, strings_view(candidates@));
        assert forall|i: int| 0 <= i < log@.rounds.len() implies #[trigger] log@.rounds[i] =~~= target.rounds[i] by {
            assert(log@.rounds[i] == rounds@[i]@);
            let nr = rounds@[i]@;
            assert forall|a: int| 0 <= a < nr.actions.len() implies #[trigger] nr.actions[a] == target.rounds[i].actions[a] by {}
        }
        assert(log@.rounds =~~= target.rounds);
    }
}

fn copy_stats(s: &CountingLogStats) -> (r: CountingLogStats)
    ensures
        r@ == s@,
{
    CountingLogStats {
        quota: s.quota.clone(),
        votes: s.votes.clone(),
        residual: s.residual.clone(),
        total: s.total.clone(),
        surplus: s.surplus.clone(),
    }
}

fn copy_strings(v: &Vec<String>) -> (r: Vec<String>)
    ensures
        r@ == v@,
{
    let mut r: Vec<String> = Vec::new();
    let mut i: usize = 0;
    while i < v.len()
        invariant
            i <= v.len(),
            r@ == v@.take(i as int),
        decreases v.len() - i,
    {
        r.push(v[i].clone());
        i += 1;
        proof {
            assert(r@ =~= v@.take(i as int));
        }
    }
    proof {
        assert(v@.take(v@.len() as int) =~= v@);
    }
    r
}

fn copy_action_type(t: &CountingLogActionType) -> (r: CountingLogActionType)
    ensures
        r@ == t@,
{
    match t {
        CountingLogActionType::BeginCount => CountingLogActionType::BeginCount,
        CountingLogActionType::Elect { candidate } => CountingLogActionType::Elect { candidate: candidate.clone() },
        CountingLogActionType::ElectRemaining { candidate } => CountingLogActionType::ElectRemaining {
            candidate: candidate.clone(),
        },
        CountingLogActionType::Iterate { reason } => CountingLogActionType::Iterate { reason: reason.clone() },
        CountingLogActionType::Defeat { reason, candidate } => CountingLogActionType::Defeat {
            reason: reason.clone(),
            candidate: candidate.clone(),
        },
        CountingLogActionType::DefeatRemaining { candidate } => CountingLogActionType::DefeatRemaining {
            candidate: candidate.clone(),
        },
        CountingLogActionType::BreakTie { candidates, defeated } => CountingLogActionType::BreakTie {
            candidates: copy_strings(candidates),
            defeated: defeated.clone(),
        },
        CountingLogActionType::CountComplete => CountingLogActionType::CountComplete,
    }
}


// ---------------------------------------------------------------------------
// Ordering counts loses none
// ---------------------------------------------------------------------------

/// The counts among the first `n` grouped by position, for positions below `p`.
pub open spec fn counts_grouped(counts: Seq<CountModel>, candidates: Seq<Seq<char>>, p: nat, n: int) -> Seq<CountModel>
    decreases p,
{
    if p == 0 {
        Seq::empty()
    } else {
        counts_grouped(counts, candidates, (p - 1) as nat, n) + counts_at(counts, candidates, (p - 1) as nat, n)
    }
}

proof fn lemma_position_bounded(candidates: Seq<Seq<char>>, name: Seq<char>, k: int)
    requires
        0 <= k,
    ensures
        position_upto(candidates, name, k) <= k,
    decreases k,
{
    if k > 0 {
        lemma_position_bounded(candidates, name, k - 1);
    }
}

proof fn lemma_counts_grouped_before(counts: Seq<CountModel>, candidates: Seq<Seq<char>>, p: nat)
    ensures
        counts_grouped(counts, candidates, p, counts.len() as int) == counts_before(counts, candidates, p),
    decreases p,
{
    if p > 0 {
        lemma_counts_grouped_before(counts, candidates, (p - 1) as nat);
    }
}

proof fn lemma_counts_grouped_step(counts: Seq<CountModel>, candidates: Seq<Seq<char>>, p: nat, n: int)
    requires
        1 <= n <= counts.len(),
    ensures
        counts_grouped(counts, candidates, p, n).to_multiset() == if position_of(candidates, counts[n - 1].name) < p {
            counts_grouped(counts, candidates, p, n - 1).to_multiset().insert(counts[n - 1])
        } else {
            counts_grouped(counts, candidates, p, n - 1).to_multiset()
        },
    decreases p,
{
    broadcast use vstd::seq_lib::group_to_multiset_ensures;
    broadcast use vstd::multiset::group_multiset_axioms;

    if p > 0 {
        let q = (p - 1) as nat;
        lemma_counts_grouped_step(counts, candidates, q, n);
        let a = counts_grouped(counts, candidates, q, n);
        let b = counts_at(counts, candidates, q, n);
        let a0 = counts_grouped(counts, candidates, q, n - 1);
        let b0 = counts_at(counts, candidates, q, n - 1);
        vstd::seq_lib::lemma_multiset_commutative(a, b);
        vstd::seq_lib::lemma_multiset_commutative(a0, b0);
        let c = counts[n - 1];
        if position_of(candidates, c.name) == q {
            assert(b == b0.push(c));
            assert(counts_grouped(counts, candidates, p, n).to_multiset() =~= counts_grouped(
                counts,
                candidates,
                p,
                n - 1,
            ).to_multiset().insert(c));
        } else {
            assert(b == b0);
            if position_of(candidates, c.name) < q {
                assert(counts_grouped(counts, candidates, p, n).to_multiset() =~= counts_grouped(
                    counts,
                    candidates,
                    p,
                    n - 1,
                ).to_multiset().insert(c));
            } else {
                assert(counts_grouped(counts, candidates, p, n).to_multiset() =~= counts_grouped(
                    counts,
                    candidates,
                    p,
                    n - 1,
                ).to_multiset());
            }
        }
    }
}

proof fn lemma_counts_grouped_all(counts: Seq<CountModel>, candidates: Seq<Seq<char>>, n: int)
    requires
        0 <= n <= counts.len(),
    ensures
        counts_grouped(counts, candidates, (candidates.len() + 1) as nat, n).to_multiset() == counts.take(
            n,
        ).to_multiset(),
    decreases n,
{
    broadcast use vstd::seq_lib::group_to_multiset_ensures;

    let p = (candidates.len() + 1) as nat;
    if n == 0 {
        lemma_counts_grouped_empty(counts, candidates, p);
        assert(counts.take(0) =~= Seq::<CountModel>::empty());
    } else {
        lemma_counts_grouped_all(counts, candidates, n - 1);
        lemma_counts_grouped_step(counts, candidates, p, n);
        lemma_position_bounded(candidates, counts[n - 1].name, candidates.len() as int);
        assert(counts.take(n) =~= counts.take(n - 1).push(counts[n - 1]));
    }
}

proof fn lemma_counts_grouped_empty(counts: Seq<CountModel>, candidates: Seq<Seq<char>>, p: nat)
    ensures
        counts_grouped(counts, candidates, p, 0) =~= Seq::<CountModel>::empty(),
    decreases p,
{
    if p > 0 {
        lemma_counts_grouped_empty(counts, candidates, (p - 1) as nat);
    }
}

/// Putting candidate counts in candidate order only reorders them: every count
/// stays, as often as it was there.
pub proof fn lemma_candidate_order_permutes(counts: Seq<CountModel>, candidates: Seq<Seq<char>>)
    ensures
        in_candidate_order(counts, candidates).to_multiset() == counts.to_multiset(),
{
    lemma_counts_grouped_before(counts, candidates, (candidates.len() + 1) as nat);
    lemma_counts_grouped_all(counts, candidates, counts.len() as int);
    assert(counts.take(counts.len() as int) =~= counts);
}
} // verus!
