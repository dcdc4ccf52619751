use vstd::prelude::*;

pub mod counting;
pub mod election_yaml;
pub mod elections;
pub mod email;
pub mod error;
pub mod export;
pub mod log;
pub mod log_format;
pub mod text;
pub mod tokens;

use crate::counting::{stv_droop, Election, ElectionResult, ElectionType, GroupConfig};
use crate::tokens::Timestamp;
use crate::error::Error;
use crate::text::{chars_eq, chars_of};

verus! {

/// An election as the public API shows it: no sensitive information.
pub enum ElectionConfig {
    StvMd {
        id: String,
        title: String,
        description: Option<String>,
        candidates: Vec<String>,
        seats: u32,
        start_time: Timestamp,
        end_time: Timestamp,
        number_of_ballots: usize,
        ballots: Option<Vec<String>>,
    },
    StvMdCoperland {
        id: String,
        title: String,
        description: Option<String>,
        candidates: Vec<String>,
        seats: u32,
        start_time: Timestamp,
        end_time: Timestamp,
        number_of_ballots: usize,
        ballots: Option<Vec<String>>,
    },
    StvMdGrouped {
        id: String,
        title: String,
        description: Option<String>,
        candidates: Vec<String>,
        seats: u32,
        start_time: Timestamp,
        end_time: Timestamp,
        number_of_ballots: usize,
        ballots: Option<Vec<String>>,
        groups: Vec<GroupConfig>,
        candidate_groups: Vec<String>,
    },
}

impl ElectionConfig {
    pub fn id(&self) -> (r: &str)
        ensures
            self matches ElectionConfig::StvMd { id, .. } ==> r@ == id@,
            self matches ElectionConfig::StvMdCoperland { id, .. } ==> r@ == id@,
            self matches ElectionConfig::StvMdGrouped { id, .. } ==> r@ == id@,
    {
        match self {
            ElectionConfig::StvMd { id, .. } => id.as_str(),
            ElectionConfig::StvMdCoperland { id, .. } => id.as_str(),
            ElectionConfig::StvMdGrouped { id, .. } => id.as_str(),
        }
    }

    pub fn candidates(&self) -> (r: &[String])
        ensures
            self matches ElectionConfig::StvMd { candidates, .. } ==> r@ == candidates@,
            self matches ElectionConfig::StvMdCoperland { candidates, .. } ==> r@ == candidates@,
            self matches ElectionConfig::StvMdGrouped { candidates, .. } ==> r@ == candidates@,
    {
        match self {
            ElectionConfig::StvMd { candidates, .. } => candidates.as_slice(),
            ElectionConfig::StvMdCoperland { candidates, .. } => candidates.as_slice(),
            ElectionConfig::StvMdGrouped { candidates, .. } => candidates.as_slice(),
        }
    }

    pub fn seats(&self) -> (r: u32)
        ensures
            self matches ElectionConfig::StvMd { seats, .. } ==> r == seats,
            self matches ElectionConfig::StvMdCoperland { seats, .. } ==> r == seats,
            self matches ElectionConfig::StvMdGrouped { seats, .. } ==> r == seats,
    {
        match self {
            ElectionConfig::StvMd { seats, .. } => *seats,
            ElectionConfig::StvMdCoperland { seats, .. } => *seats,
            ElectionConfig::StvMdGrouped { seats, .. } => *seats,
        }
    }

    pub fn ballots(&self) -> (r: &Option<Vec<String>>)
        ensures
            self matches ElectionConfig::StvMd { ballots, .. } ==> *r == ballots,
            self matches ElectionConfig::StvMdCoperland { ballots, .. } ==> *r == ballots,
            self matches ElectionConfig::StvMdGrouped { ballots, .. } ==> *r == ballots,
    {
        match self {
            ElectionConfig::StvMd { ballots, .. } => ballots,
            ElectionConfig::StvMdCoperland { ballots, .. } => ballots,
            ElectionConfig::StvMdGrouped { ballots, .. } => ballots,
        }
    }

    pub fn groups(&self) -> (r: &[GroupConfig])
        ensures
            self matches ElectionConfig::StvMdGrouped { groups, .. } ==> r@ == groups@,
            !(self is StvMdGrouped) ==> r@.len() == 0,
    {
        match self {
            ElectionConfig::StvMdGrouped { groups, .. } => groups.as_slice(),
            _ => &[],
        }
    }

    pub fn candidate_groups(&self) -> (r: &[String])
        ensures
            self matches ElectionConfig::StvMdGrouped { candidate_groups, .. } ==> r@ == candidate_groups@,
            !(self is StvMdGrouped) ==> r@.len() == 0,
    {
        match self {
            ElectionConfig::StvMdGrouped { candidate_groups, .. } => candidate_groups.as_slice(),
            _ => &[],
        }
    }
}

/// An election with its turnout, and its results once they are published.
pub struct ElectionState {
    /// Election configuration and metadata
    pub election: ElectionConfig,
    /// Number of ballot tokens issued (potential voters)
    pub potential_voters: usize,
    /// Number of ballots that have been cast
    pub casted: usize,
    /// Election results (only available after election ends)
    pub results: Option<ElectionResult>,
}

/// Reads a stored election type, `stv-md` for any name it does not know.
pub fn parse_election_type(s: &str) -> (r: ElectionType)
    ensures
        r == crate::elections::type_or_default(s@),
{
    let v = chars_of(s);
    if chars_eq(&v, &chars_of("stv-md-coperland")) {
        ElectionType::StvMdCoperland
    } else if chars_eq(&v, &chars_of("stv-md-grouped")) {
        ElectionType::StvMdGrouped
    } else {
        ElectionType::StvMd
    }
}

/// Every rank on every ballot is below the number of candidates.
pub open spec fn ranks_in_range(e: Election) -> bool {
    let n = e.cands().len();
    forall|b: int, c: int|
        0 <= b < e.ballot_seq().len() && 0 <= c < e.ballot_seq()[b].ranks@.len() ==> (
        #[trigger] e.ballot_seq()[b].ranks@[c] matches Some(r) ==> r < n)
}

/// Why a simulation request is refused, if it is.
pub open spec fn simulation_error(e: Election) -> Option<Seq<char>> {
    if e.cands().len() == 0 {
        Some("Candidates list cannot be empty"@)
    } else if e.seat_count() == 0 || e.seat_count() > e.cands().len() {
        Some("Invalid number of seats"@)
    } else if !ranks_in_range(e) {
        Some("Invalid candidate index"@)
    } else {
        None
    }
}

/// The count of a simulation request that passed the checks: the single count,
/// or the grouped outcome, whose refusal of the group configuration is answered
/// as an internal error.
pub open spec fn simulated(r: Result<ElectionResult, Error>, e: Election) -> bool {
    if e.kind() != ElectionType::StvMdGrouped {
        r matches Ok(res) && crate::counting::single_result(
            res,
            e,
            crate::counting::meek_of(e).0,
            crate::counting::meek_of(e).1,
        )
    } else {
        match r {
            Ok(res) => crate::counting::grouped_outcome(Ok(res), e),
            Err(Error::Internal(m)) => crate::counting::grouped_outcome(Err(m), e),
            _ => false,
        }
    }
}

fn ranks_within(e: &Election) -> (r: bool)
    ensures
        r == ranks_in_range(*e),
{
    let ballots = e.ballots();
    let n = e.candidates().len();
    let mut b: usize = 0;
    while b < ballots.len()
        invariant
            b <= ballots.len(),
            ballots@ == e.ballot_seq(),
            n == e.cands().len(),
            forall|k: int, c: int|
                0 <= k < b && 0 <= c < ballots@[k].ranks@.len() ==> (
                #[trigger] ballots@[k].ranks@[c] matches Some(r) ==> r < n),
        decreases ballots.len() - b,
    {
        let ranks = &ballots[b].ranks;
        let mut c: usize = 0;
        while c < ranks.len()
            invariant
                c <= ranks.len(),
                b < ballots.len(),
                ballots@ == e.ballot_seq(),
                n == e.cands().len(),
                forall|k: int, c: int|
                    0 <= k < b && 0 <= c < ballots@[k].ranks@.len() ==> (
                    #[trigger] ballots@[k].ranks@[c] matches Some(r) ==> r < n),
                ranks == &ballots@[b as int].ranks,
                forall|j: int| 0 <= j < c ==> (#[trigger] ranks@[j] matches Some(r) ==> r < n),
            decreases ranks.len() - c,
        {
            if let Some(idx) = ranks[c] {
                if idx >= n {
                    assert(e.ballot_seq()[b as int].ranks@[c as int] == Some(idx));
                    assert(0 <= c < e.ballot_seq()[b as int].ranks@.len());
                    assert(!ranks_in_range(*e));
                    return false;
                }
            }
            c += 1;
        }
        b += 1;
    }
    true
}

/// Checks a simulation request and counts it: the candidates must not be empty,
/// the seats must be between one and the number of candidates, and every rank
/// must be below the number of candidates. A group configuration that the
/// grouped count refuses is an internal error.
pub fn simulate_election(election: Election) -> (r: Result<ElectionResult, Error>)
    requires
        simulation_error(election) is None ==> (election.kind() != ElectionType::StvMdGrouped
            ==> crate::counting::countable(election) && crate::counting::single_completes(election)),
        simulation_error(election) is None ==> (election.kind() == ElectionType::StvMdGrouped
            ==> crate::counting::grouped_countable(election) && crate::counting::grouped_completes(election)),
    ensures
        simulation_error(election) matches Some(m) ==> (r matches Err(Error::BadRequest(x)) && x@ == m),
        simulation_error(election) is None ==> simulated(r, election),
{
    if election.candidates().len() == 0 {
        return Err(Error::BadRequest(String::from_str("Candidates list cannot be empty")));
    }
    if election.seats() == 0 || election.seats() > election.candidates().len() {
        return Err(Error::BadRequest(String::from_str("Invalid number of seats")));
    }
    if !ranks_within(&election) {
        return Err(Error::BadRequest(String::from_str("Invalid candidate index")));
    }
    match stv_droop(election) {
        Ok(res) => Ok(res),
        Err(m) => Err(Error::Internal(m)),
    }
}


/// Whether `election` is refused by the checks of `simulate_election` or meets
/// the bounds that the count sets on its input (`countable`, `grouped_countable`).
/// Whether the count then runs to its end (`single_completes`,
/// `grouped_completes`) is known only by running it.
pub fn simulation_runs(election: &Election) -> (r: bool)
    ensures
        r == (simulation_error(*election) is None ==> ((election.kind() != ElectionType::StvMdGrouped
            ==> crate::counting::countable(*election)) && (election.kind() == ElectionType::StvMdGrouped
            ==> crate::counting::grouped_countable(*election)))),
{
    if election.candidates().len() == 0 || election.seats() == 0 || election.seats()
        > election.candidates().len() || !ranks_within(election) {
        return true;
    }
    crate::counting::count_runs(election)
}
} // verus!
