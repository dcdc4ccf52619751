use vstd::prelude::*;

use crate::text::decimal_string;
use num::BigInt;
use stv_rs::arithmetic::BigFixedDecimal9;
use stv_rs::cli::Parallel;
use stv_rs::types as stv;
use crate::log::{
    log_in_candidate_order, log_of, parse_log, sort_candidate_counts, strings_view, CountingLog,
    LogModel,
};

verus! {

#[derive(Debug, Clone, Copy, PartialEq, Eq, Structural)]
pub enum ElectionType {
    StvMd,
    StvMdCoperland,
    StvMdGrouped,
}

#[derive(Debug, Clone)]
pub struct GroupConfig {
    pub name: String,
    pub seats: u32,
}

#[derive(Debug, Clone)]
pub struct Ballot {
    /// Ranked preferences: position `c` holds the rank given to candidate `c`.
    /// None indicates that the candidate was not ranked.
    pub ranks: Vec<Option<usize>>,
}

#[derive(Debug, Clone)]
pub struct CombinedBallot {
    /// Number of identical ballots with these rankings
    pub votes: usize,
    /// Ranked preferences: position `c` holds the rank given to candidate `c`
    pub ranks: Vec<Option<usize>>,
}

#[derive(Debug, Clone)]
pub enum Election {
    StvMd { candidates: Vec<String>, seats: usize, ballots: Vec<CombinedBallot> },
    StvMdCoperland { candidates: Vec<String>, seats: usize, ballots: Vec<CombinedBallot> },
    StvMdGrouped {
        candidates: Vec<String>,
        seats: usize,
        ballots: Vec<CombinedBallot>,
        groups: Vec<GroupConfig>,
        candidate_groups: Vec<String>,
    },
}

#[derive(Debug, Clone)]
pub struct Elected {
    /// Name of the elected candidate
    pub candidate: String,
    /// Index/ID of the candidate in the candidates list
    pub id: usize,
}

#[derive(Debug, Clone)]
pub struct GroupResult {
    /// Name of the group
    pub group: String,
    /// Number of seats allocated to this group
    pub seats: usize,
    /// Sub-election for this group (filtered candidates and ballots)
    pub election: Election,
    /// Detailed counting log for this group
    pub log: CountingLog,
    /// Candidates elected from this group
    pub elected: Vec<Elected>,
}

#[derive(Debug, Clone)]
pub enum ElectionResult {
    StvMd { election: Election, log: CountingLog, elected: Vec<Elected> },
    StvMdCoperland {
        election: Election,
        log: CountingLog,
        elected: Vec<Elected>,
        /// `order[c]` is the position of candidate `c` in the Copeland ranking
        order: Vec<usize>,
        /// `pairwise_matrix[i][j]` counts the votes preferring `i` over `j`
        pairwise_matrix: Vec<Vec<usize>>,
    },
    StvMdGrouped {
        election: Election,
        groups: Vec<GroupConfig>,
        group_results: Vec<GroupResult>,
        elected: Vec<Elected>,
    },
}

// ---------------------------------------------------------------------------
// Views
// ---------------------------------------------------------------------------

pub open spec fn ballot_model(b: CombinedBallot) -> (usize, Seq<Option<usize>>) {
    (b.votes, b.ranks@)
}

pub open spec fn ballots_model(v: Seq<CombinedBallot>) -> Seq<(usize, Seq<Option<usize>>)> {
    v.map_values(|b: CombinedBallot| ballot_model(b))
}

impl View for Elected {
    type V = (Seq<char>, usize);

    open spec fn view(&self) -> (Seq<char>, usize) {
        (self.candidate@, self.id)
    }
}

pub open spec fn elected_model(v: Seq<Elected>) -> Seq<(Seq<char>, usize)> {
    v.map_values(|e: Elected| e@)
}

impl View for GroupConfig {
    type V = (Seq<char>, u32);

    open spec fn view(&self) -> (Seq<char>, u32) {
        (self.name@, self.seats)
    }
}

impl Election {
    pub open spec fn cands(self) -> Seq<String> {
        match self {
            Election::StvMd { candidates, .. } => candidates@,
            Election::StvMdCoperland { candidates, .. } => candidates@,
            Election::StvMdGrouped { candidates, .. } => candidates@,
        }
    }

    pub open spec fn seat_count(self) -> usize {
        match self {
            Election::StvMd { seats, .. } => seats,
            Election::StvMdCoperland { seats, .. } => seats,
            Election::StvMdGrouped { seats, .. } => seats,
        }
    }

    pub open spec fn ballot_seq(self) -> Seq<CombinedBallot> {
        match self {
            Election::StvMd { ballots, .. } => ballots@,
            Election::StvMdCoperland { ballots, .. } => ballots@,
            Election::StvMdGrouped { ballots, .. } => ballots@,
        }
    }

    pub open spec fn kind(self) -> ElectionType {
        match self {
            Election::StvMd { .. } => ElectionType::StvMd,
            Election::StvMdCoperland { .. } => ElectionType::StvMdCoperland,
            Election::StvMdGrouped { .. } => ElectionType::StvMdGrouped,
        }
    }

    pub open spec fn group_seq(self) -> Seq<GroupConfig> {
        match self {
            Election::StvMdGrouped { groups, .. } => groups@,
            _ => Seq::empty(),
        }
    }

    pub open spec fn candidate_group_seq(self) -> Seq<String> {
        match self {
            Election::StvMdGrouped { candidate_groups, .. } => candidate_groups@,
            _ => Seq::empty(),
        }
    }

    pub fn candidates(&self) -> (r: &[String])
        ensures
            r@ == self.cands(),
    {
        match self {
            Election::StvMd { candidates, .. } => candidates.as_slice(),
            Election::StvMdCoperland { candidates, .. } => candidates.as_slice(),
            Election::StvMdGrouped { candidates, .. } => candidates.as_slice(),
        }
    }

    pub fn seats(&self) -> (r: usize)
        ensures
            r == self.seat_count(),
    {
        match self {
            Election::StvMd { seats, .. } => *seats,
            Election::StvMdCoperland { seats, .. } => *seats,
            Election::StvMdGrouped { seats, .. } => *seats,
        }
    }

    pub fn ballots(&self) -> (r: &[CombinedBallot])
        ensures
            r@ == self.ballot_seq(),
    {
        match self {
            Election::StvMd { ballots, .. } => ballots.as_slice(),
            Election::StvMdCoperland { ballots, .. } => ballots.as_slice(),
            Election::StvMdGrouped { ballots, .. } => ballots.as_slice(),
        }
    }

    pub fn election_type(&self) -> (r: ElectionType)
        ensures
            r == self.kind(),
    {
        match self {
            Election::StvMd { .. } => ElectionType::StvMd,
            Election::StvMdCoperland { .. } => ElectionType::StvMdCoperland,
            Election::StvMdGrouped { .. } => ElectionType::StvMdGrouped,
        }
    }

    pub fn groups(&self) -> (r: &[GroupConfig])
        ensures
            r@ == self.group_seq(),
    {
        match self {
            Election::StvMdGrouped { groups, .. } => groups.as_slice(),
            _ => &[],
        }
    }

    pub fn candidate_groups(&self) -> (r: &[String])
        ensures
            r@ == self.candidate_group_seq(),
    {
        match self {
            Election::StvMdGrouped { candidate_groups, .. } => candidate_groups.as_slice(),
            _ => &[],
        }
    }
}

impl ElectionResult {
    pub open spec fn election_of(self) -> Election {
        match self {
            ElectionResult::StvMd { election, .. } => election,
            ElectionResult::StvMdCoperland { election, .. } => election,
            ElectionResult::StvMdGrouped { election, .. } => election,
        }
    }

    pub open spec fn elected_seq(self) -> Seq<Elected> {
        match self {
            ElectionResult::StvMd { elected, .. } => elected@,
            ElectionResult::StvMdCoperland { elected, .. } => elected@,
            ElectionResult::StvMdGrouped { elected, .. } => elected@,
        }
    }

    pub fn election(&self) -> (r: &Election)
        ensures
            *r == self.election_of(),
    {
        match self {
            ElectionResult::StvMd { election, .. } => election,
            ElectionResult::StvMdCoperland { election, .. } => election,
            ElectionResult::StvMdGrouped { election, .. } => election,
        }
    }

    pub fn elected(&self) -> (r: &[Elected])
        ensures
            r@ == self.elected_seq(),
    {
        match self {
            ElectionResult::StvMd { elected, .. } => elected.as_slice(),
            ElectionResult::StvMdCoperland { elected, .. } => elected.as_slice(),
            ElectionResult::StvMdGrouped { elected, .. } => elected.as_slice(),
        }
    }

    /// The counting log of a single (non-grouped) count; grouped results keep
    /// one log per group, in `group_results`.
    pub fn log(&self) -> (r: &CountingLog)
        requires
            !(self is StvMdGrouped),
        ensures
            self matches ElectionResult::StvMd { log, .. } ==> *r == log,
            self matches ElectionResult::StvMdCoperland { log, .. } ==> *r == log,
    {
        match self {
            ElectionResult::StvMd { log, .. } => log,
            ElectionResult::StvMdCoperland { log, .. } => log,
            ElectionResult::StvMdGrouped { .. } => vstd::pervasive::unreached(),
        }
    }

    pub fn order(&self) -> (r: Option<&Vec<usize>>)
        ensures
            self matches ElectionResult::StvMdCoperland { order, .. } ==> r == Some(order),
            !(self is StvMdCoperland) ==> r is None,
    {
        match self {
            ElectionResult::StvMdCoperland { order, .. } => Some(order),
            _ => None,
        }
    }

    pub fn pairwise_matrix(&self) -> (r: Option<&Vec<Vec<usize>>>)
        ensures
            self matches ElectionResult::StvMdCoperland { pairwise_matrix, .. } ==> r == Some(pairwise_matrix),
            !(self is StvMdCoperland) ==> r is None,
    {
        match self {
            ElectionResult::StvMdCoperland { pairwise_matrix, .. } => Some(pairwise_matrix),
            _ => None,
        }
    }

    pub fn group_results(&self) -> (r: Option<&[GroupResult]>)
        ensures
            self matches ElectionResult::StvMdGrouped { group_results, .. } ==> r matches Some(
                g,
            ) && g@ == group_results@,
            !(self is StvMdGrouped) ==> r is None,
    {
        match self {
            ElectionResult::StvMdGrouped { group_results, .. } => Some(group_results.as_slice()),
            _ => None,
        }
    }
}


// ---------------------------------------------------------------------------
// Ballot ranks as a preference order
// ---------------------------------------------------------------------------

/// Number of preference levels that the first `n` entries of `ranks` need:
/// one more than the largest rank given among them.
pub open spec fn levels(ranks: Seq<Option<usize>>, n: int) -> nat
    decreases n,
{
    if n <= 0 {
        0
    } else {
        let prev = levels(ranks, n - 1);
        match ranks[n - 1] {
            Some(r) => if r + 1 > prev {
                (r + 1) as nat
            } else {
                prev
            },
            None => prev,
        }
    }
}

/// The candidates among the first `n` that were given rank `r`, in increasing order.
pub open spec fn ranked_at(ranks: Seq<Option<usize>>, r: int, n: int) -> Seq<usize>
    decreases n,
{
    if n <= 0 {
        Seq::empty()
    } else {
        let prev = ranked_at(ranks, r, n - 1);
        if ranks[n - 1] matches Some(x) && x == r {
            prev.push((n - 1) as usize)
        } else {
            prev
        }
    }
}

/// The preference order of a ballot: level `r` lists the candidates ranked `r`.
pub open spec fn order_of(ranks: Seq<Option<usize>>) -> Seq<Seq<usize>> {
    Seq::new(levels(ranks, ranks.len() as int), |r: int| ranked_at(ranks, r, ranks.len() as int))
}

pub open spec fn rows(v: Seq<Vec<usize>>) -> Seq<Seq<usize>> {
    v.map_values(|x: Vec<usize>| x@)
}

/// Every rank given fits below `usize::MAX`, so its level can be indexed.
pub open spec fn ranks_bounded(ranks: Seq<Option<usize>>) -> bool {
    forall|c: int| 0 <= c < ranks.len() ==> (#[trigger] ranks[c] matches Some(r) ==> r < usize::MAX)
}

proof fn lemma_ranked_at_beyond_levels(ranks: Seq<Option<usize>>, r: int, n: int)
    requires
        0 <= n <= ranks.len(),
        r >= levels(ranks, n),
    ensures
        ranked_at(ranks, r, n) == Seq::<usize>::empty(),
    decreases n,
{
    if n > 0 {
        lemma_levels_monotone(ranks, n - 1, n);
        lemma_ranked_at_beyond_levels(ranks, r, n - 1);
    }
}

proof fn lemma_levels_monotone(ranks: Seq<Option<usize>>, m: int, n: int)
    requires
        0 <= m <= n <= ranks.len(),
    ensures
        levels(ranks, m) <= levels(ranks, n),
    decreases n - m,
{
    if m < n {
        lemma_levels_monotone(ranks, m, n - 1);
    }
}

/// The preference order that a ballot's ranks give: one level more than the
/// highest rank, level `r` listing the candidates ranked `r` in increasing order.
/// (A rank of `usize::MAX` would need a level past the end of memory.)
pub fn ranks_to_order(ranks: &[Option<usize>]) -> (order: Vec<Vec<usize>>)
    requires
        ranks_bounded(ranks@),
    ensures
        rows(order@) == order_of(ranks@),
        ranks@.len() <= usize::MAX,
{
    let mut order: Vec<Vec<usize>> = Vec::new();
    let mut cand: usize = 0;
    while cand < ranks.len()
        invariant
            cand <= ranks.len(),
            ranks_bounded(ranks@),
            order@.len() == levels(ranks@, cand as int),
            forall|r: int| 0 <= r < order@.len() ==> #[trigger] order@[r]@ == ranked_at(ranks@, r, cand as int),
        decreases ranks.len() - cand,
    {
        if let Some(rank) = ranks[cand] {
            assert(ranks@[cand as int] matches Some(r) ==> r < usize::MAX);
            while order.len() <= rank
                invariant
                    levels(ranks@, cand as int) <= order@.len(),
                    order@.len() == levels(ranks@, cand as int) || order@.len() <= rank + 1,
                    rank < usize::MAX,
                    cand < ranks.len(),
                    forall|r: int| 0 <= r < order@.len() ==> #[trigger] order@[r]@ == ranked_at(ranks@, r, cand as int),
                decreases rank + 1 - order.len(),
            {
                proof {
                    lemma_ranked_at_beyond_levels(ranks@, order@.len() as int, cand as int);
                }
                order.push(Vec::new());
            }
            order[rank].push(cand);
        }
        cand += 1;
        proof {
            assert forall|r: int| 0 <= r < order@.len() implies #[trigger] order@[r]@ == ranked_at(ranks@, r, cand as int) by {
                if r >= levels(ranks@, cand - 1) {
                    lemma_ranked_at_beyond_levels(ranks@, r, cand - 1);
                }
            }
        }
    }
    proof {
        assert(rows(order@) =~= order_of(ranks@));
    }
    order
}


// ---------------------------------------------------------------------------
// Pairwise (Copeland) comparison
// ---------------------------------------------------------------------------

/// Whether a ballot prefers candidate `i` over candidate `j`: it ranks `i`
/// strictly higher, or ranks `i` and leaves `j` unranked.
pub open spec fn prefers(ranks: Seq<Option<usize>>, i: int, j: int) -> bool {
    match (ranks[i], ranks[j]) {
        (Some(ri), Some(rj)) => ri < rj,
        (Some(_), None) => true,
        _ => false,
    }
}

/// Votes among the first `n` combined ballots that prefer `i` over `j`.
pub open spec fn support(ballots: Seq<(usize, Seq<Option<usize>>)>, i: int, j: int, n: int) -> nat
    decreases n,
{
    if n <= 0 {
        0
    } else {
        support(ballots, i, j, n - 1) + if prefers(ballots[n - 1].1, i, j) {
            ballots[n - 1].0 as nat
        } else {
            0nat
        }
    }
}

/// Total number of votes of the first `n` combined ballots.
pub open spec fn votes_upto(ballots: Seq<(usize, Seq<Option<usize>>)>, n: int) -> nat
    decreases n,
{
    if n <= 0 {
        0
    } else {
        votes_upto(ballots, n - 1) + ballots[n - 1].0 as nat
    }
}

pub open spec fn total_votes(ballots: Seq<(usize, Seq<Option<usize>>)>) -> nat {
    votes_upto(ballots, ballots.len() as int)
}

/// Entry `(i, j)` of the pairwise matrix: votes preferring `i` over `j` (zero on the diagonal).
pub open spec fn pairwise(ballots: Seq<(usize, Seq<Option<usize>>)>, i: int, j: int) -> nat {
    if i == j {
        0
    } else {
        support(ballots, i, j, ballots.len() as int)
    }
}

/// Number of opponents `j < m` that candidate `i` beats head to head.
pub open spec fn wins_upto(ballots: Seq<(usize, Seq<Option<usize>>)>, i: int, m: int) -> nat
    decreases m,
{
    if m <= 0 {
        0
    } else {
        wins_upto(ballots, i, m - 1) + if m - 1 != i && pairwise(ballots, i, m - 1) > pairwise(
            ballots,
            m - 1,
            i,
        ) {
            1nat
        } else {
            0nat
        }
    }
}

/// Copeland score of every candidate: the number of head-to-head wins.
pub open spec fn copeland_scores(ballots: Seq<(usize, Seq<Option<usize>>)>, n: int) -> Seq<nat> {
    Seq::new(n as nat, |i: int| wins_upto(ballots, i, n))
}

/// Whether candidate `d` comes before candidate `c` in the Copeland ranking:
/// a higher score, or an equal score and a lower index.
pub open spec fn ranks_before(scores: Seq<nat>, d: int, c: int) -> bool {
    scores[d] > scores[c] || (scores[d] == scores[c] && d < c)
}

/// Number of candidates `d < m` ranked before `c`.
pub open spec fn ahead_upto(scores: Seq<nat>, c: int, m: int) -> nat
    decreases m,
{
    if m <= 0 {
        0
    } else {
        ahead_upto(scores, c, m - 1) + if ranks_before(scores, m - 1, c) {
            1nat
        } else {
            0nat
        }
    }
}

/// Position of every candidate in the Copeland ranking.
pub open spec fn copeland_positions(scores: Seq<nat>) -> Seq<nat> {
    Seq::new(scores.len(), |c: int| ahead_upto(scores, c, scores.len() as int))
}

/// Every ballot ranks at least the first `n` candidates, whenever there is a pair to compare.
pub open spec fn ballots_cover(ballots: Seq<(usize, Seq<Option<usize>>)>, n: int) -> bool {
    n <= 1 || forall|b: int| 0 <= b < ballots.len() ==> #[trigger] ballots[b].1.len() >= n
}

proof fn lemma_support_bounded(ballots: Seq<(usize, Seq<Option<usize>>)>, i: int, j: int, n: int)
    requires
        0 <= n <= ballots.len(),
    ensures
        support(ballots, i, j, n) <= votes_upto(ballots, n),
        support(ballots, i, j, n) + support(ballots, j, i, n) <= votes_upto(ballots, n),
    decreases n,
{
    if n > 0 {
        lemma_support_bounded(ballots, i, j, n - 1);
    }
}

proof fn lemma_votes_upto_monotone(ballots: Seq<(usize, Seq<Option<usize>>)>, m: int, n: int)
    requires
        0 <= m <= n <= ballots.len(),
    ensures
        votes_upto(ballots, m) <= votes_upto(ballots, n),
    decreases n - m,
{
    if m < n {
        lemma_votes_upto_monotone(ballots, m, n - 1);
    }
}

proof fn lemma_wins_bounded(ballots: Seq<(usize, Seq<Option<usize>>)>, i: int, m: int)
    requires
        0 <= m,
    ensures
        wins_upto(ballots, i, m) <= m,
    decreases m,
{
    if m > 0 {
        lemma_wins_bounded(ballots, i, m - 1);
    }
}

proof fn lemma_ahead_bounded(scores: Seq<nat>, c: int, m: int)
    requires
        0 <= m,
    ensures
        ahead_upto(scores, c, m) <= m,
    decreases m,
{
    if m > 0 {
        lemma_ahead_bounded(scores, c, m - 1);
    }
}

/// Votes preferring `i` over `j` and `j` over `i`, over all ballots.
fn head_to_head(ballots: &[CombinedBallot], i: usize, j: usize) -> (r: (usize, usize))
    requires
        total_votes(ballots_model(ballots@)) <= usize::MAX,
        forall|b: int| 0 <= b < ballots@.len() ==> i < #[trigger] ballots@[b].ranks@.len() && j
            < ballots@[b].ranks@.len(),
    ensures
        r.0 == support(ballots_model(ballots@), i as int, j as int, ballots@.len() as int),
        r.1 == support(ballots_model(ballots@), j as int, i as int, ballots@.len() as int),
{
    let ghost bm = ballots_model(ballots@);
    let mut i_beats_j_total: usize = 0;
    let mut j_beats_i_total: usize = 0;
    let mut b: usize = 0;
    while b < ballots.len()
        invariant
            b <= ballots.len(),
            bm == ballots_model(ballots@),
            total_votes(bm) <= usize::MAX,
            forall|k: int| 0 <= k < ballots@.len() ==> i < #[trigger] ballots@[k].ranks@.len() && j
                < ballots@[k].ranks@.len(),
            i_beats_j_total == support(bm, i as int, j as int, b as int),
            j_beats_i_total == support(bm, j as int, i as int, b as int),
        decreases ballots.len() - b,
    {
        let ballot = &ballots[b];
        proof {
            lemma_support_bounded(bm, i as int, j as int, b + 1);
            lemma_votes_upto_monotone(bm, b + 1, bm.len() as int);
            assert(bm[b as int] == ballot_model(*ballot));
        }
        let r_i = ballot.ranks[i];
        let r_j = ballot.ranks[j];
        match (r_i, r_j) {
            (Some(ri), Some(rj)) => {
                if ri < rj {
                    i_beats_j_total = i_beats_j_total + ballot.votes;
                } else if rj < ri {
                    j_beats_i_total = j_beats_i_total + ballot.votes;
                }
            },
            (Some(_), None) => {
                i_beats_j_total = i_beats_j_total + ballot.votes;
            },
            (None, Some(_)) => {
                j_beats_i_total = j_beats_i_total + ballot.votes;
            },
            (None, None) => {},
        }
        b += 1;
    }
    (i_beats_j_total, j_beats_i_total)
}

/// Copeland ranking and pairwise matrix of the ballots over `n_candidates` candidates.
pub fn pairwise_order(ballots: &[CombinedBallot], n_candidates: usize) -> (r: (Vec<usize>, Vec<Vec<usize>>))
    requires
        ballots_cover(ballots_model(ballots@), n_candidates as int),
        total_votes(ballots_model(ballots@)) <= usize::MAX,
    ensures
        r.1@.len() == n_candidates,
        forall|i: int| 0 <= i < n_candidates ==> (#[trigger] r.1@[i])@.len() == n_candidates,
        forall|i: int, j: int|
            0 <= i < n_candidates && 0 <= j < n_candidates ==> r.1@[i]@[j] == pairwise(
                ballots_model(ballots@),
                i,
                j,
            ),
        r.0@.len() == n_candidates,
        forall|c: int|
            0 <= c < n_candidates ==> r.0@[c] == copeland_positions(
                copeland_scores(ballots_model(ballots@), n_candidates as int),
            )[c],
{
    let ghost bm = ballots_model(ballots@);
    let ghost n = n_candidates as int;
    let mut scores: Vec<usize> = Vec::new();
    let mut matrix: Vec<Vec<usize>> = Vec::new();
    let mut i: usize = 0;
    while i < n_candidates
        invariant
            i <= n_candidates,
            bm == ballots_model(ballots@),
            n == n_candidates,
            ballots_cover(bm, n),
            total_votes(bm) <= usize::MAX,
            scores@.len() == i,
            matrix@.len() == i,
            forall|a: int| 0 <= a < i ==> #[trigger] scores@[a] == wins_upto(bm, a, n),
            forall|a: int| 0 <= a < i ==> (#[trigger] matrix@[a])@.len() == n,
            forall|a: int, c: int| 0 <= a < i && 0 <= c < n ==> matrix@[a]@[c] == pairwise(bm, a, c),
        decreases n_candidates - i,
    {
        let mut row: Vec<usize> = Vec::new();
        let mut score: usize = 0;
        let mut j: usize = 0;
        while j < n_candidates
            invariant
                i < n_candidates,
                j <= n_candidates,
                bm == ballots_model(ballots@),
                n == n_candidates,
                ballots_cover(bm, n),
                total_votes(bm) <= usize::MAX,
                row@.len() == j,
                forall|c: int| 0 <= c < j ==> #[trigger] row@[c] == pairwise(bm, i as int, c),
                score == wins_upto(bm, i as int, j as int),
                score <= j,
            decreases n_candidates - j,
        {
            if i == j {
                row.push(0);
            } else {
                proof {
                    assert forall|b: int| 0 <= b < ballots@.len() implies i < #[trigger] ballots@[b].ranks@.len()
                        && j < ballots@[b].ranks@.len() by {
                        assert(bm[b] == ballot_model(ballots@[b]));
                        assert(bm[b].1.len() >= n);
                    }
                }
                let (i_beats_j, j_beats_i) = head_to_head(ballots, i, j);
                row.push(i_beats_j);
                if i_beats_j > j_beats_i {
                    score = score + 1;
                }
            }
            j += 1;
        }
        scores.push(score);
        matrix.push(row);
        i += 1;
    }
    let ghost sc = copeland_scores(bm, n);
    assert(scores@.len() == n && forall|a: int| 0 <= a < n ==> scores@[a] == sc[a]);
    let mut order: Vec<usize> = Vec::new();
    let mut c: usize = 0;
    while c < n_candidates
        invariant
            c <= n_candidates,
            n == n_candidates,
            sc == copeland_scores(bm, n),
            scores@.len() == n,
            forall|a: int| 0 <= a < n ==> scores@[a] == sc[a],
            order@.len() == c,
            forall|a: int| 0 <= a < c ==> #[trigger] order@[a] == copeland_positions(sc)[a],
        decreases n_candidates - c,
    {
        let mut ahead: usize = 0;
        let mut d: usize = 0;
        while d < n_candidates
            invariant
                c < n_candidates,
                d <= n_candidates,
                n == n_candidates,
                scores@.len() == n,
                sc.len() == n,
                forall|a: int| 0 <= a < n ==> scores@[a] == sc[a],
                ahead == ahead_upto(sc, c as int, d as int),
                ahead <= d,
            decreases n_candidates - d,
        {
            if scores[d] > scores[c] || (scores[d] == scores[c] && d < c) {
                ahead = ahead + 1;
            }
            d += 1;
        }
        order.push(ahead);
        c += 1;
    }
    (order, matrix)
}


/// `ids` is ordered by the position that `pos` gives each id.
pub open spec fn sorted_by_position(ids: Seq<usize>, pos: Seq<usize>) -> bool {
    forall|a: int, b: int| 0 <= a < b < ids.len() ==> pos[ids[a] as int] <= pos[ids[b] as int]
}

/// The ids reordered by their position (a stable insertion sort).
fn sort_by_position(ids: &Vec<usize>, pos: &Vec<usize>) -> (r: Vec<usize>)
    requires
        forall|k: int| 0 <= k < ids@.len() ==> #[trigger] ids@[k] < pos@.len(),
    ensures
        r@.to_multiset() == ids@.to_multiset(),
        sorted_by_position(r@, pos@),
        forall|k: int| 0 <= k < r@.len() ==> #[trigger] r@[k] < pos@.len(),
{
    let mut res: Vec<usize> = Vec::new();
    let mut i: usize = 0;
    assert(ids@.take(0) =~= res@);
    while i < ids.len()
        invariant
            i <= ids.len(),
            forall|k: int| 0 <= k < ids@.len() ==> #[trigger] ids@[k] < pos@.len(),
            forall|k: int| 0 <= k < res@.len() ==> #[trigger] res@[k] < pos@.len(),
            res@.to_multiset() == ids@.take(i as int).to_multiset(),
            sorted_by_position(res@, pos@),
        decreases ids.len() - i,
    {
        let x = ids[i];
        let key = pos[x];
        let mut k: usize = 0;
        while k < res.len() && pos[res[k]] <= key
            invariant
                k <= res.len(),
                x < pos@.len(),
                key == pos@[x as int],
                forall|m: int| 0 <= m < res@.len() ==> #[trigger] res@[m] < pos@.len(),
                forall|m: int| 0 <= m < k ==> pos@[#[trigger] res@[m] as int] <= key,
            decreases res.len() - k,
        {
            k += 1;
        }
        let ghost old_res = res@;
        res.insert(k, x);
        proof {
            assert(ids@.take(i + 1) =~= ids@.take(i as int).push(x));
            vstd::seq_lib::to_multiset_insert(old_res, k as int, x);
            vstd::seq_lib::to_multiset_build(ids@.take(i as int), x);
            assert forall|a: int, b: int| 0 <= a < b < res@.len() implies pos@[res@[a] as int]
                <= pos@[res@[b] as int] by {
                if b < k {
                } else if b == k {
                    assert(res@[a] == old_res[a]);
                } else if a == k {
                    assert(res@[b] == old_res[b - 1]);
                    if k < old_res.len() {
                        assert(pos@[old_res[k as int] as int] > key);
                        if b - 1 > k {
                            assert(pos@[old_res[k as int] as int] <= pos@[old_res[b - 1] as int]);
                        }
                    }
                } else if a < k {
                    assert(res@[a] == old_res[a]);
                    assert(res@[b] == old_res[b - 1]);
                } else {
                    assert(res@[a] == old_res[a - 1]);
                    assert(res@[b] == old_res[b - 1]);
                }
            }
        }
        i += 1;
    }
    proof {
        assert(ids@.take(ids.len() as int) =~= ids@);
    }
    res
}


// ---------------------------------------------------------------------------
// Combining identical ballots
// ---------------------------------------------------------------------------

pub open spec fn ballot_ranks(v: Seq<Ballot>) -> Seq<Seq<Option<usize>>> {
    v.map_values(|b: Ballot| b.ranks@)
}

/// Number of the first `n` ballots whose ranks are exactly `p`.
pub open spec fn pattern_count(ballots: Seq<Seq<Option<usize>>>, p: Seq<Option<usize>>, n: int) -> nat
    decreases n,
{
    if n <= 0 {
        0
    } else {
        pattern_count(ballots, p, n - 1) + if ballots[n - 1] == p {
            1nat
        } else {
            0nat
        }
    }
}

/// `comb` holds each distinct ranking of the first `n` ballots exactly once,
/// with the number of ballots that cast it.
pub open spec fn combines_upto(
    comb: Seq<(usize, Seq<Option<usize>>)>,
    ballots: Seq<Seq<Option<usize>>>,
    n: int,
) -> bool {
    &&& forall|k: int| 0 <= k < comb.len() ==> #[trigger] comb[k].0 == pattern_count(ballots, comb[k].1, n)
    &&& forall|k: int| 0 <= k < comb.len() ==> #[trigger] comb[k].0 > 0
    &&& forall|k1: int, k2: int| 0 <= k1 < k2 < comb.len() ==> comb[k1].1 != comb[k2].1
    &&& forall|b: int| 0 <= b < n ==> covers(comb, #[trigger] ballots[b])
}

/// Some entry of `comb` has ranking `p`.
pub open spec fn covers(comb: Seq<(usize, Seq<Option<usize>>)>, p: Seq<Option<usize>>) -> bool {
    exists|k: int| 0 <= k < comb.len() && #[trigger] comb[k].1 == p
}

pub open spec fn combines(comb: Seq<(usize, Seq<Option<usize>>)>, ballots: Seq<Seq<Option<usize>>>) -> bool {
    combines_upto(comb, ballots, ballots.len() as int)
}

pub open spec fn votes_descending(comb: Seq<(usize, Seq<Option<usize>>)>) -> bool {
    forall|a: int, b: int| 0 <= a < b < comb.len() ==> comb[a].0 >= comb[b].0
}

proof fn lemma_pattern_count_bounded(ballots: Seq<Seq<Option<usize>>>, p: Seq<Option<usize>>, n: int)
    requires
        0 <= n,
    ensures
        pattern_count(ballots, p, n) <= n,
    decreases n,
{
    if n > 0 {
        lemma_pattern_count_bounded(ballots, p, n - 1);
    }
}

/// A copy of a ballot's ranks.
pub(crate) fn copy_ranks(ranks: &[Option<usize>]) -> (r: Vec<Option<usize>>)
    ensures
        r@ == ranks@,
{
    let mut r: Vec<Option<usize>> = Vec::new();
    let mut i: usize = 0;
    while i < ranks.len()
        invariant
            i <= ranks.len(),
            r@ == ranks@.take(i as int),
        decreases ranks.len() - i,
    {
        r.push(ranks[i]);
        i += 1;
        proof {
            assert(r@ =~= ranks@.take(i as int));
        }
    }
    proof {
        assert(ranks@.take(ranks.len() as int) =~= ranks@);
    }
    r
}

/// Whether two ballots rank every candidate alike.
fn same_ranks(a: &[Option<usize>], b: &[Option<usize>]) -> (r: bool)
    ensures
        r == (a@ == b@),
{
    if a.len() != b.len() {
        return false;
    }
    let mut i: usize = 0;
    while i < a.len()
        invariant
            i <= a.len(),
            a.len() == b.len(),
            forall|k: int| 0 <= k < i ==> a@[k] == b@[k],
        decreases a.len() - i,
    {
        if a[i] != b[i] {
            return false;
        }
        i += 1;
    }
    proof {
        assert(a@ =~= b@);
    }
    true
}

/// Index of the combined ballot with exactly these ranks, if any.
fn find_pattern(comb: &Vec<CombinedBallot>, ranks: &[Option<usize>]) -> (r: Option<usize>)
    ensures
        r matches Some(k) ==> k < comb@.len() && comb@[k as int].ranks@ == ranks@,
        r is None ==> forall|m: int| 0 <= m < comb@.len() ==> #[trigger] comb@[m].ranks@ != ranks@,
{
    let mut k: usize = 0;
    while k < comb.len()
        invariant
            k <= comb.len(),
            forall|m: int| 0 <= m < k ==> #[trigger] comb@[m].ranks@ != ranks@,
        decreases comb.len() - k,
    {
        if same_ranks(&comb[k].ranks, ranks) {
            return Some(k);
        }
        k += 1;
    }
    None
}

/// Counts how many ballots cast each distinct ranking, in order of first appearance.
fn tally_patterns(ballots: &Vec<Ballot>) -> (comb: Vec<CombinedBallot>)
    ensures
        combines(ballots_model(comb@), ballot_ranks(ballots@)),
{
    let ghost bs = ballot_ranks(ballots@);
    let mut comb: Vec<CombinedBallot> = Vec::new();
    let mut i: usize = 0;
    while i < ballots.len()
        invariant
            i <= ballots.len(),
            bs == ballot_ranks(ballots@),
            combines_upto(ballots_model(comb@), bs, i as int),
        decreases ballots.len() - i,
    {
        let ghost old_cm = ballots_model(comb@);
        let ranks = &ballots[i].ranks;
        assert(bs[i as int] == ranks@);
        match find_pattern(&comb, ranks) {
            Some(k) => {
                assert(old_cm[k as int] == ballot_model(comb@[k as int]));
                assert(old_cm[k as int].1 == ranks@);
                assert(old_cm[k as int].0 == pattern_count(bs, old_cm[k as int].1, i as int));
                proof {
                    lemma_pattern_count_bounded(bs, ranks@, i as int);
                }
                let votes = comb[k].votes + 1;
                comb[k].votes = votes;
                proof {
                    let cm = ballots_model(comb@);
                    assert(cm =~= old_cm.update(k as int, (votes, ranks@)));
                    assert forall|m: int| 0 <= m < cm.len() implies #[trigger] cm[m].0
                        == pattern_count(bs, cm[m].1, i + 1) by {
                        if m != k {
                            assert(cm[m] == old_cm[m]);
                            if m < k {
                                assert(old_cm[m].1 != old_cm[k as int].1);
                            } else {
                                assert(old_cm[k as int].1 != old_cm[m].1);
                            }
                            assert(old_cm[m].0 == pattern_count(bs, old_cm[m].1, i as int));
                        }
                    }
                    assert forall|b: int| 0 <= b < i + 1 implies covers(cm, #[trigger] bs[b]) by {
                        if b == i {
                            assert(cm[k as int].1 == bs[b]);
                        } else {
                            assert(covers(old_cm, bs[b]));
                            let m = choose|m: int| 0 <= m < old_cm.len() && #[trigger] old_cm[m].1 == bs[b];
                            assert(cm[m].1 == bs[b]);
                        }
                    }
                }
            },
            None => {
                proof {
                    assert forall|m: int| 0 <= m < old_cm.len() implies old_cm[m].1 != ranks@ by {
                        assert(old_cm[m].1 == comb@[m].ranks@);
                    }
                    if pattern_count(bs, ranks@, i as int) != 0 {
                        lemma_pattern_count_positive(bs, ranks@, i as int);
                        let b = choose|b: int| 0 <= b < i && bs[b] == ranks@;
                        assert(bs[b] == ranks@);
                        assert(covers(old_cm, bs[b]));
                        let m = choose|m: int| 0 <= m < old_cm.len() && #[trigger] old_cm[m].1 == bs[b];
                        assert(false);
                    }
                }
                comb.push(CombinedBallot { votes: 1, ranks: copy_ranks(ranks) });
                proof {
                    let cm = ballots_model(comb@);
                    assert(cm =~= old_cm.push((1usize, ranks@)));
                    assert forall|m: int| 0 <= m < cm.len() implies #[trigger] cm[m].0
                        == pattern_count(bs, cm[m].1, i + 1) by {
                        if m < old_cm.len() {
                            assert(cm[m] == old_cm[m]);
                            assert(old_cm[m].0 == pattern_count(bs, old_cm[m].1, i as int));
                        }
                    }
                    assert forall|b: int| 0 <= b < i + 1 implies covers(cm, #[trigger] bs[b]) by {
                        if b == i {
                            assert(cm[old_cm.len() as int].1 == bs[b]);
                        } else {
                            assert(covers(old_cm, bs[b]));
                            let m = choose|m: int| 0 <= m < old_cm.len() && #[trigger] old_cm[m].1 == bs[b];
                            assert(cm[m].1 == bs[b]);
                        }
                    }
                }
            },
        }
        i += 1;
    }
    comb
}

/// `res` lists the same combined ballots as the first `j` entries of `src`.
#[verifier::opaque]
pub open spec fn same_entries(
    res: Seq<(usize, Seq<Option<usize>>)>,
    src: Seq<(usize, Seq<Option<usize>>)>,
    j: int,
) -> bool {
    &&& forall|k: int| 0 <= k < res.len() ==> exists|m: int| 0 <= m < j && #[trigger] res[k] == src[m]
    &&& forall|m: int| 0 <= m < j ==> exists|k: int| 0 <= k < res.len() && res[k] == #[trigger] src[m]
}

#[verifier::opaque]
pub open spec fn distinct_patterns(comb: Seq<(usize, Seq<Option<usize>>)>) -> bool {
    forall|k1: int, k2: int| 0 <= k1 < k2 < comb.len() ==> comb[k1].1 != comb[k2].1
}

proof fn lemma_insert_descending(old: Seq<(usize, Seq<Option<usize>>)>, k: int, x: (usize, Seq<Option<usize>>))
    requires
        0 <= k <= old.len(),
        votes_descending(old),
        forall|a: int| 0 <= a < k ==> #[trigger] old[a].0 >= x.0,
        forall|a: int| k <= a < old.len() ==> #[trigger] old[a].0 < x.0,
    ensures
        votes_descending(old.insert(k, x)),
{
    let new = old.insert(k, x);
    assert forall|a: int, b: int| 0 <= a < b < new.len() implies new[a].0 >= new[b].0 by {
        let a0 = if a < k { a } else { a - 1 };
        let b0 = if b < k { b } else { b - 1 };
        if a != k {
            assert(new[a] == old[a0]);
        }
        if b != k {
            assert(new[b] == old[b0]);
        }
    }
}

proof fn lemma_insert_same_entries(
    old: Seq<(usize, Seq<Option<usize>>)>,
    k: int,
    src: Seq<(usize, Seq<Option<usize>>)>,
    j: int,
)
    requires
        0 <= k <= old.len(),
        0 <= j < src.len(),
        same_entries(old, src, j),
    ensures
        same_entries(old.insert(k, src[j]), src, j + 1),
{
    reveal(same_entries);
    let new = old.insert(k, src[j]);
    assert forall|k1: int| 0 <= k1 < new.len() implies exists|m: int| 0 <= m < j + 1 && #[trigger] new[k1] == src[m] by {
        if k1 < k {
            assert(new[k1] == old[k1]);
        } else if k1 == k {
            assert(new[k1] == src[j]);
        } else {
            assert(new[k1] == old[k1 - 1]);
        }
    }
    assert forall|m: int| 0 <= m < j + 1 implies exists|k1: int| 0 <= k1 < new.len() && new[k1] == #[trigger] src[m] by {
        if m == j {
            assert(new[k] == src[m]);
        } else {
            let k0 = choose|k0: int| 0 <= k0 < old.len() && old[k0] == #[trigger] src[m];
            if k0 < k {
                assert(new[k0] == old[k0]);
            } else {
                assert(new[k0 + 1] == old[k0]);
            }
        }
    }
}

#[verifier::spinoff_prover]
#[verifier::rlimit(30)]
proof fn lemma_insert_distinct(
    old: Seq<(usize, Seq<Option<usize>>)>,
    k: int,
    src: Seq<(usize, Seq<Option<usize>>)>,
    j: int,
)
    requires
        0 <= k <= old.len(),
        0 <= j < src.len(),
        same_entries(old, src, j),
        distinct_patterns(src),
        distinct_patterns(old),
    ensures
        distinct_patterns(old.insert(k, src[j])),
{
    reveal(same_entries);
    reveal(distinct_patterns);
    let new = old.insert(k, src[j]);
    assert forall|k1: int| 0 <= k1 < old.len() implies #[trigger] old[k1].1 != src[j].1 by {
        let m = choose|m: int| 0 <= m < j && #[trigger] old[k1] == src[m];
    }
    assert forall|k1: int, k2: int| 0 <= k1 < k2 < new.len() implies new[k1].1 != new[k2].1 by {
        let a = if k1 < k { k1 } else { k1 - 1 };
        let b = if k2 < k { k2 } else { k2 - 1 };
        if k1 != k {
            assert(new[k1] == old[a]);
        }
        if k2 != k {
            assert(new[k2] == old[b]);
        }
    }
}

/// The same combined ballots, reordered by decreasing number of votes
/// (a stable insertion sort).
fn sort_by_votes(comb: &Vec<CombinedBallot>) -> (res: Vec<CombinedBallot>)
    ensures
        res@.len() == comb@.len(),
        votes_descending(ballots_model(res@)),
        same_entries(ballots_model(res@), ballots_model(comb@), comb@.len() as int),
        distinct_patterns(ballots_model(comb@)) ==> distinct_patterns(ballots_model(res@)),
{
    let ghost cm = ballots_model(comb@);
    let mut res: Vec<CombinedBallot> = Vec::new();
    let mut j: usize = 0;
    proof {
        reveal(same_entries);
        reveal(distinct_patterns);
    }
    while j < comb.len()
        invariant
            j <= comb.len(),
            cm == ballots_model(comb@),
            res@.len() == j,
            votes_descending(ballots_model(res@)),
            same_entries(ballots_model(res@), cm, j as int),
            distinct_patterns(cm) ==> distinct_patterns(ballots_model(res@)),
        decreases comb.len() - j,
    {
        let ghost old_rm = ballots_model(res@);
        let votes = comb[j].votes;
        assert(cm[j as int].0 == votes);
        let mut k: usize = 0;
        while k < res.len() && res[k].votes >= votes
            invariant
                k <= res.len(),
                old_rm == ballots_model(res@),
                forall|a: int| 0 <= a < k ==> #[trigger] old_rm[a].0 >= votes,
            decreases res.len() - k,
        {
            assert(old_rm[k as int].0 == res@[k as int].votes);
            k += 1;
        }
        let item = CombinedBallot { votes, ranks: copy_ranks(&comb[j].ranks) };
        assert(ballot_model(item) == cm[j as int]);
        proof {
            if k < old_rm.len() {
                assert(old_rm[k as int].0 == res@[k as int].votes);
            }
            assert forall|a: int| k <= a < old_rm.len() implies #[trigger] old_rm[a].0 < cm[j as int].0 by {
                assert(old_rm[k as int].0 >= old_rm[a].0);
            }
            lemma_insert_descending(old_rm, k as int, cm[j as int]);
            lemma_insert_same_entries(old_rm, k as int, cm, j as int);
            if distinct_patterns(cm) {
                lemma_insert_distinct(old_rm, k as int, cm, j as int);
            }
        }
        res.insert(k, item);
        assert(ballots_model(res@) =~= old_rm.insert(k as int, cm[j as int]));
        j += 1;
    }
    res
}

/// Groups identical ballots together, most frequent ranking first.
fn combine_ballots(ballots: &Vec<Ballot>) -> (r: Vec<CombinedBallot>)
    ensures
        combines(ballots_model(r@), ballot_ranks(ballots@)),
        votes_descending(ballots_model(r@)),
{
    let ghost bs = ballot_ranks(ballots@);
    let comb = tally_patterns(ballots);
    let ghost cm = ballots_model(comb@);
    proof {
        reveal(distinct_patterns);
    }
    let res = sort_by_votes(&comb);
    proof {
        reveal(same_entries);
        reveal(distinct_patterns);
        let rm = ballots_model(res@);
        assert forall|k1: int| 0 <= k1 < rm.len() implies #[trigger] rm[k1].0 == pattern_count(bs, rm[k1].1, bs.len() as int) && rm[k1].0 > 0 by {
            let m = choose|m: int| 0 <= m < cm.len() && #[trigger] rm[k1] == cm[m];
        }
        assert forall|b: int| 0 <= b < bs.len() implies covers(rm, #[trigger] bs[b]) by {
            assert(covers(cm, bs[b]));
            let m = choose|m: int| 0 <= m < cm.len() && #[trigger] cm[m].1 == bs[b];
            let k1 = choose|k1: int| 0 <= k1 < rm.len() && rm[k1] == #[trigger] cm[m];
            assert(rm[k1].1 == bs[b]);
        }
        assert(distinct_patterns(cm));
        assert(distinct_patterns(rm));
        assert(forall|k1: int, k2: int| 0 <= k1 < k2 < rm.len() ==> rm[k1].1 != rm[k2].1);
        assert(forall|k: int| 0 <= k < rm.len() ==> #[trigger] rm[k].0 == pattern_count(bs, rm[k].1, bs.len() as int));
        assert(forall|k: int| 0 <= k < rm.len() ==> #[trigger] rm[k].0 > 0);

    }
    res
}

proof fn lemma_pattern_count_positive(ballots: Seq<Seq<Option<usize>>>, p: Seq<Option<usize>>, n: int)
    requires
        pattern_count(ballots, p, n) > 0,
    ensures
        exists|b: int| 0 <= b < n && ballots[b] == p,
    decreases n,
{
    if n > 0 && ballots[n - 1] != p {
        lemma_pattern_count_positive(ballots, p, n - 1);
    }
}

pub fn to_election(
    candidates: Vec<String>,
    seats: usize,
    election_type: ElectionType,
    ballots: Vec<Ballot>,
) -> (e: Election)
    ensures
        e.kind() == election_type,
        e.cands() == candidates@,
        e.seat_count() == seats,
        combines(ballots_model(e.ballot_seq()), ballot_ranks(ballots@)),
        votes_descending(ballots_model(e.ballot_seq())),
        e.group_seq().len() == 0,
        e.candidate_group_seq().len() == 0,
{
    to_election_with_groups(candidates, seats, election_type, ballots, Vec::new(), Vec::new())
}

/// Builds an election of the given type, combining identical ballots.
pub fn to_election_with_groups(
    candidates: Vec<String>,
    seats: usize,
    election_type: ElectionType,
    ballots: Vec<Ballot>,
    groups: Vec<GroupConfig>,
    candidate_groups: Vec<String>,
) -> (e: Election)
    ensures
        e.kind() == election_type,
        e.cands() == candidates@,
        e.seat_count() == seats,
        combines(ballots_model(e.ballot_seq()), ballot_ranks(ballots@)),
        votes_descending(ballots_model(e.ballot_seq())),
        election_type == ElectionType::StvMdGrouped ==> e.group_seq() == groups@
            && e.candidate_group_seq() == candidate_groups@,
{
    let ballots = combine_ballots(&ballots);
    match election_type {
        ElectionType::StvMd => Election::StvMd { candidates, seats, ballots },
        ElectionType::StvMdCoperland => Election::StvMdCoperland { candidates, seats, ballots },
        ElectionType::StvMdGrouped => Election::StvMdGrouped {
            candidates,
            seats,
            ballots,
            groups,
            candidate_groups,
        },
    }
}


// ---------------------------------------------------------------------------
// Counting with Meek's method
// ---------------------------------------------------------------------------

/// The outcome of `stv_rs::meek::stv_droop` on an election with these candidates,
/// seats and ballots (votes, and candidates by preference level), counted as this
/// library counts: untitled, package name `election`, omega 10^-6, no parallelism,
/// Droop surplus, equalized counting, `BigInt` / `BigFixedDecimal9` arithmetic.
/// `None` when the count does not run to its end (it panics); otherwise the
/// elected candidates in order of election, and the log text.
pub uninterp spec fn meek_count_outcome(
    candidates: Seq<Seq<char>>,
    seats: usize,
    ballots: Seq<(usize, Seq<Seq<usize>>)>,
) -> Option<(Seq<usize>, Seq<char>)>;

/// The count on these arguments runs to its end.
pub open spec fn meek_completes(
    candidates: Seq<Seq<char>>,
    seats: usize,
    ballots: Seq<(usize, Seq<Seq<usize>>)>,
) -> bool {
    meek_count_outcome(candidates, seats, ballots) is Some
}

/// What a count that runs to its end gives back: the elected candidates in order
/// of election, and the log text.
pub open spec fn meek_outcome(
    candidates: Seq<Seq<char>>,
    seats: usize,
    ballots: Seq<(usize, Seq<Seq<usize>>)>,
) -> (Seq<usize>, Seq<char>) {
    match meek_count_outcome(candidates, seats, ballots) {
        Some(out) => out,
        None => (Seq::empty(), Seq::empty()),
    }
}

pub open spec fn order_entries(order: Seq<Seq<usize>>, k: int) -> nat
    decreases k,
{
    if k <= 0 {
        0
    } else {
        order_entries(order, k - 1) + order[k - 1].len()
    }
}

/// A ballot order that a count can hold: candidates below `n` and below 256, at
/// most 255 of them in all.
pub open spec fn order_countable(order: Seq<Seq<usize>>, n: int) -> bool {
    &&& forall|r: int, k: int| 0 <= r < order.len() && 0 <= k < order[r].len() ==> #[trigger] order[r][k] < n
        && order[r][k] < 256
    &&& order_entries(order, order.len() as int) <= 255
}

pub open spec fn order_ballots(v: Seq<(usize, Vec<Vec<usize>>)>) -> Seq<(usize, Seq<Seq<usize>>)> {
    v.map_values(|b: (usize, Vec<Vec<usize>>)| (b.0, rows(b.1@)))
}

/// Runs `stv_rs::meek::stv_droop` with the parameters named in `meek_outcome`,
/// writing its log into memory. Each ballot goes to the count with its votes and
/// its whole preference order, every level of it, as the callers built it
/// (`count_ballots`: the order of all its ranks).
///
/// Trusted: the count runs to its end exactly where `meek_count_outcome` of the
/// arguments is `Some`, and the result is what it holds (the count is
/// deterministic: ties are broken by candidate order, no randomness or clock
/// enters it); every elected index is a candidate index (the count pushes
/// only indices of its candidate list); and exactly `seats` candidates are
/// elected, none twice (a candidate is elected only from the status of a
/// running candidate, which it then leaves, and the count ends when no seat is
/// left or the running candidates fill the seats left, and elects those). The
/// `requires` excludes the inputs on which
/// the crate's source visibly panics: more seats than candidates (an assertion),
/// ballot entries outside the candidate list (indexing) or not fitting the `u8`
/// ballot encoding (at most 255 entries, indices below 256), and a total vote
/// count that overflows; and, through `meek_count_outcome`, the inputs on which
/// the count does not run to its end: with the Droop surplus an elected
/// candidate can fall below the quota, the surplus turns negative and the
/// search for the next candidate to defeat finds none and panics. No condition
/// on the arguments short of running the count decides this, so it is named.
/// Writing into a `Vec<u8>` cannot fail, and the log is UTF-8 text.
#[verifier::external_body]
fn meek_count(candidates: &[String], seats: usize, ballots: &Vec<(usize, Vec<Vec<usize>>)>) -> (r: (Vec<usize>, String))
    requires
        seats <= candidates@.len(),
        seats < usize::MAX,
        forall|b: int| 0 <= b < ballots@.len() ==> order_countable(rows((#[trigger] ballots@[b]).1@), candidates@.len() as int),
        order_votes(order_ballots(ballots@), ballots@.len() as int) <= usize::MAX,
        meek_completes(strings_view(candidates@), seats, order_ballots(ballots@)),
    ensures
        meek_count_outcome(strings_view(candidates@), seats, order_ballots(ballots@)) == Some((r.0@, r.1@)),
        forall|k: int| 0 <= k < r.0@.len() ==> #[trigger] r.0@[k] < candidates@.len(),
        r.0@.len() == seats,
        r.0@.no_duplicates(),
{
    let cands: Vec<_> = candidates.iter().map(|c| stv::Candidate::new(c.as_str(), false)).collect();
    let votes: Vec<_> = ballots.iter().map(|(n, order)| stv::Ballot::new(*n, order.clone())).collect();
    let election = stv::Election::builder().title("").candidates(cands).num_seats(seats).ballots(votes).build();
    let mut log: Vec<u8> = Vec::new();
    let result = stv_rs::meek::stv_droop::<BigInt, BigFixedDecimal9>(
        &mut log, &election, "election", 6, Parallel::No, None, true, false, true,
    ).unwrap();
    (result.elected, String::from_utf8_lossy(&log).into_owned())
}


/// Number of the first `n` candidates that a ballot ranks.
pub open spec fn ranked_count(ranks: Seq<Option<usize>>, n: int) -> nat
    decreases n,
{
    if n <= 0 {
        0
    } else {
        ranked_count(ranks, n - 1) + if ranks[n - 1] is Some {
            1nat
        } else {
            0nat
        }
    }
}

/// Total length of the levels below `l` of the preference order of the first `n` ranks.
pub open spec fn level_sizes(ranks: Seq<Option<usize>>, l: int, n: int) -> nat
    decreases l,
{
    if l <= 0 {
        0
    } else {
        level_sizes(ranks, l - 1, n) + ranked_at(ranks, l - 1, n).len()
    }
}

proof fn lemma_level_sizes_step(ranks: Seq<Option<usize>>, l: int, n: int)
    requires
        1 <= n <= ranks.len(),
        0 <= l,
    ensures
        level_sizes(ranks, l, n) == level_sizes(ranks, l, n - 1) + if ranks[n - 1] matches Some(x) && x < l {
            1nat
        } else {
            0nat
        },
    decreases l,
{
    if l > 0 {
        lemma_level_sizes_step(ranks, l - 1, n);
    }
}

proof fn lemma_level_sizes_count(ranks: Seq<Option<usize>>, l: int, n: int)
    requires
        0 <= n <= ranks.len(),
        l >= levels(ranks, n),
    ensures
        level_sizes(ranks, l, n) == ranked_count(ranks, n),
    decreases n,
{
    if n > 0 {
        lemma_levels_monotone(ranks, n - 1, n);
        lemma_level_sizes_count(ranks, l, n - 1);
        lemma_level_sizes_step(ranks, l, n);
    } else {
        lemma_level_sizes_empty(ranks, l);
    }
}

proof fn lemma_level_sizes_empty(ranks: Seq<Option<usize>>, l: int)
    requires
        0 <= l,
    ensures
        level_sizes(ranks, l, 0) == 0,
    decreases l,
{
    if l > 0 {
        lemma_level_sizes_empty(ranks, l - 1);
    }
}

proof fn lemma_order_entries_levels(ranks: Seq<Option<usize>>, l: int)
    requires
        0 <= l <= levels(ranks, ranks.len() as int),
    ensures
        order_entries(order_of(ranks), l) == level_sizes(ranks, l, ranks.len() as int),
    decreases l,
{
    if l > 0 {
        lemma_order_entries_levels(ranks, l - 1);
    }
}

proof fn lemma_ranked_at_members(ranks: Seq<Option<usize>>, r: int, n: int)
    requires
        0 <= n <= ranks.len(),
        ranks.len() <= usize::MAX,
    ensures
        forall|k: int| 0 <= k < ranked_at(ranks, r, n).len() ==> {
            let c = #[trigger] ranked_at(ranks, r, n)[k];
            &&& c < n
            &&& ranks[c as int] matches Some(x) && x == r
        },
    decreases n,
{
    if n > 0 {
        lemma_ranked_at_members(ranks, r, n - 1);
        let prev = ranked_at(ranks, r, n - 1);
        let cur = ranked_at(ranks, r, n);
        assert forall|k: int| 0 <= k < cur.len() implies {
            let c = #[trigger] cur[k];
            &&& c < n
            &&& ranks[c as int] matches Some(x) && x == r
        } by {
            if ranks[n - 1] matches Some(x) && x == r {
                assert(cur == prev.push((n - 1) as usize));
                if k < prev.len() {
                    assert(cur[k] == prev[k]);
                } else {
                    assert(cur[k] == (n - 1) as usize);
                }
            } else {
                assert(cur == prev);
            }
        }
    }
}

/// The preference order of a ballot holds each ranked candidate once: its
/// entries are ranked candidates, and there are as many as the ballot ranks.
proof fn lemma_order_of_entries(ranks: Seq<Option<usize>>)
    requires
        ranks.len() <= usize::MAX,
    ensures
        forall|r: int, k: int| 0 <= r < order_of(ranks).len() && 0 <= k < order_of(ranks)[r].len() ==> {
            let c = #[trigger] order_of(ranks)[r][k];
            &&& c < ranks.len()
            &&& ranks[c as int] is Some
        },
        order_entries(order_of(ranks), order_of(ranks).len() as int) == ranked_count(ranks, ranks.len() as int),
{
    assert forall|r: int, k: int| 0 <= r < order_of(ranks).len() && 0 <= k < order_of(ranks)[r].len() implies {
        let c = #[trigger] order_of(ranks)[r][k];
        &&& c < ranks.len()
        &&& ranks[c as int] is Some
    } by {
        lemma_ranked_at_members(ranks, r, ranks.len() as int);
    }
    lemma_order_entries_levels(ranks, levels(ranks, ranks.len() as int) as int);
    lemma_level_sizes_count(ranks, levels(ranks, ranks.len() as int) as int, ranks.len() as int);
}


// ---------------------------------------------------------------------------
// Counting a single election
// ---------------------------------------------------------------------------

/// Ballots as the count takes them: the votes and the preference order of each.
pub open spec fn count_ballots(bm: Seq<(usize, Seq<Option<usize>>)>) -> Seq<(usize, Seq<Seq<usize>>)> {
    bm.map_values(|b: (usize, Seq<Option<usize>>)| (b.0, order_of(b.1)))
}

/// Total number of votes of the first `n` ballots in preference-order form.
pub open spec fn order_votes(v: Seq<(usize, Seq<Seq<usize>>)>, n: int) -> nat
    decreases n,
{
    if n <= 0 {
        0
    } else {
        order_votes(v, n - 1) + v[n - 1].0 as nat
    }
}

/// A ballot that a count over `n` candidates can hold: every rank fits below
/// `usize::MAX`, every ranked candidate is one of the `n` and has an index below
/// 256, and at most 255 candidates are ranked.
pub open spec fn ranks_countable(ranks: Seq<Option<usize>>, n: int) -> bool {
    &&& ranks_bounded(ranks)
    &&& forall|c: int| 0 <= c < ranks.len() && (#[trigger] ranks[c]) is Some ==> c < n && c < 256
    &&& ranked_count(ranks, ranks.len() as int) <= 255
}

/// The inputs on which a single (not grouped) count runs to its end: no more seats
/// than candidates, ballots that the count can hold, a vote total that fits in
/// `usize`, and for a Copeland ordering ballots that give a rank (or `None`) to
/// every candidate.
pub open spec fn countable(e: Election) -> bool {
    let n = e.cands().len() as int;
    let bm = ballots_model(e.ballot_seq());
    &&& e.seat_count() <= n
    &&& e.seat_count() < usize::MAX
    &&& forall|b: int| 0 <= b < bm.len() ==> ranks_countable(#[trigger] bm[b].1, n)
    &&& total_votes(bm) <= usize::MAX
    &&& e.kind() == ElectionType::StvMdCoperland ==> ballots_cover(bm, n)
}

/// The elected list for candidate ids, in the given order.
pub open spec fn elected_of(names: Seq<Seq<char>>, ids: Seq<usize>) -> Seq<(Seq<char>, usize)> {
    ids.map_values(|id: usize| (names[id as int], id))
}

pub open spec fn elected_ids(v: Seq<Elected>) -> Seq<usize> {
    v.map_values(|x: Elected| x.id)
}

/// `r` is the result of a single count of `e` that elected `ids` (in order of
/// election) and wrote the log `text`: the log parsed with its candidate counts
/// in candidate order, the elected candidates by name and id, and for a Copeland
/// ordering the pairwise matrix, every candidate's Copeland position and the
/// elected list ordered by that position.
pub open spec fn single_result(r: ElectionResult, e: Election, ids: Seq<usize>, text: Seq<char>) -> bool {
    let names = strings_view(e.cands());
    let bm = ballots_model(e.ballot_seq());
    let n = e.cands().len() as int;
    &&& r.election_of() == e
    &&& match r {
        ElectionResult::StvMd { log, elected, .. } => {
            &&& e.kind() == ElectionType::StvMd
            &&& log@ == log_in_candidate_order(log_of(text), names)
            &&& elected_model(elected@) == elected_of(names, ids)
        },
        ElectionResult::StvMdCoperland { log, elected, order, pairwise_matrix, .. } => {
            let s = elected_ids(elected@);
            &&& e.kind() == ElectionType::StvMdCoperland
            &&& log@ == log_in_candidate_order(log_of(text), names)
            &&& order@.len() == n
            &&& forall|c: int| 0 <= c < n ==> #[trigger] order@[c] == copeland_positions(copeland_scores(bm, n))[c]
            &&& pairwise_matrix@.len() == n
            &&& forall|i: int| 0 <= i < n ==> (#[trigger] pairwise_matrix@[i])@.len() == n
            &&& forall|i: int, j: int| 0 <= i < n && 0 <= j < n ==> pairwise_matrix@[i]@[j] == pairwise(bm, i, j)
            &&& s.to_multiset() == ids.to_multiset()
            &&& sorted_by_position(s, order@)
            &&& elected_model(elected@) == elected_of(names, s)
        },
        ElectionResult::StvMdGrouped { .. } => false,
    }
}

/// The elected list for candidate ids.
fn elected_list(candidates: &[String], ids: &Vec<usize>) -> (r: Vec<Elected>)
    requires
        forall|k: int| 0 <= k < ids@.len() ==> #[trigger] ids@[k] < candidates@.len(),
    ensures
        elected_model(r@) == elected_of(strings_view(candidates@), ids@),
        elected_ids(r@) == ids@,
{
    let mut r: Vec<Elected> = Vec::new();
    let mut k: usize = 0;
    while k < ids.len()
        invariant
            k <= ids.len(),
            forall|m: int| 0 <= m < ids@.len() ==> #[trigger] ids@[m] < candidates@.len(),
            elected_model(r@) == elected_of(strings_view(candidates@), ids@.take(k as int)),
            elected_ids(r@) == ids@.take(k as int),
        decreases ids.len() - k,
    {
        let id = ids[k];
        let ghost before = r@;
        let e = Elected { candidate: candidates[id].clone(), id };
        r.push(e);
        k += 1;
        proof {
            assert(r@ == before.push(e));
            assert(e@ == (strings_view(candidates@)[id as int], id));
            assert(ids@.take(k as int) =~= ids@.take(k - 1).push(id));
            assert(elected_model(r@) =~= elected_model(before).push(e@));
            assert(elected_of(strings_view(candidates@), ids@.take(k as int)) =~= elected_of(
                strings_view(candidates@),
                ids@.take(k - 1),
            ).push((strings_view(candidates@)[id as int], id)));
            assert(elected_ids(r@) =~= ids@.take(k as int));
        }
    }
    proof {
        assert(ids@.take(ids@.len() as int) =~= ids@);
    }
    r
}

/// Builds the result of a single count of `election` from what the count gave
/// back: the candidates it elected, in order of election, and its log.
pub fn election_result(election: Election, elected: Vec<usize>, log_text: &str) -> (r: ElectionResult)
    requires
        election.kind() != ElectionType::StvMdGrouped,
        forall|k: int| 0 <= k < elected@.len() ==> #[trigger] elected@[k] < election.cands().len(),
        election.kind() == ElectionType::StvMdCoperland ==> ballots_cover(
            ballots_model(election.ballot_seq()),
            election.cands().len() as int,
        ) && total_votes(ballots_model(election.ballot_seq())) <= usize::MAX,
    ensures
        single_result(r, election, elected@, log_text@),
{
    let mut log = parse_log(log_text);
    sort_candidate_counts(&mut log, election.candidates());
    match election.election_type() {
        ElectionType::StvMd => {
            let list = elected_list(election.candidates(), &elected);
            ElectionResult::StvMd { election, log, elected: list }
        },
        ElectionType::StvMdCoperland => {
            let (order, pairwise_matrix) = pairwise_order(election.ballots(), election.candidates().len());
            let sorted = sort_by_position(&elected, &order);
            proof {
                assert forall|k: int| 0 <= k < sorted@.len() implies #[trigger] sorted@[k] < election.cands().len() by {
                    sorted@.to_multiset_ensures();
                    elected@.to_multiset_ensures();
                    assert(sorted@.contains(sorted@[k]));
                    assert(sorted@.to_multiset().count(sorted@[k]) > 0);
                    assert(elected@.to_multiset().count(sorted@[k]) > 0);
                    assert(elected@.contains(sorted@[k]));
                    let j = choose|j: int| 0 <= j < elected@.len() && elected@[j] == sorted@[k];
                    assert(elected@[j] < election.cands().len());
                }
            }
            let list = elected_list(election.candidates(), &sorted);
            ElectionResult::StvMdCoperland { election, log, elected: list, order, pairwise_matrix }
        },
        ElectionType::StvMdGrouped => vstd::pervasive::unreached(),
    }
}

/// The ballots in the form the count takes.
fn count_ballots_of(ballots: &[CombinedBallot]) -> (r: Vec<(usize, Vec<Vec<usize>>)>)
    requires
        forall|b: int| 0 <= b < ballots@.len() ==> ranks_bounded(#[trigger] ballots@[b].ranks@),
    ensures
        order_ballots(r@) == count_ballots(ballots_model(ballots@)),
        forall|b: int| 0 <= b < ballots@.len() ==> (#[trigger] ballots@[b]).ranks@.len() <= usize::MAX,
{
    let mut r: Vec<(usize, Vec<Vec<usize>>)> = Vec::new();
    let mut b: usize = 0;
    while b < ballots.len()
        invariant
            b <= ballots.len(),
            forall|k: int| 0 <= k < ballots@.len() ==> ranks_bounded(#[trigger] ballots@[k].ranks@),
            order_ballots(r@) == count_ballots(ballots_model(ballots@)).take(b as int),
            forall|k: int| 0 <= k < b ==> (#[trigger] ballots@[k]).ranks@.len() <= usize::MAX,
        decreases ballots.len() - b,
    {
        let ghost before = r@;
        let order = ranks_to_order(ballots[b].ranks.as_slice());
        r.push((ballots[b].votes, order));
        proof {
            assert(r@ == before.push((ballots@[b as int].votes, order)));
            assert(count_ballots(ballots_model(ballots@))[b as int] == (ballots@[b as int].votes, order_of(ballots@[b as int].ranks@)));
            assert(count_ballots(ballots_model(ballots@)).take(b + 1) == count_ballots(ballots_model(ballots@)).take(b as int).push(count_ballots(ballots_model(ballots@))[b as int]));
        }
        b += 1;
        proof {
            assert(order_ballots(r@) =~= count_ballots(ballots_model(ballots@)).take(b as int));
        }
    }
    proof {
        assert(count_ballots(ballots_model(ballots@)).take(b as int) =~= count_ballots(ballots_model(ballots@)));
    }
    r
}

proof fn lemma_order_votes(bm: Seq<(usize, Seq<Option<usize>>)>, n: int)
    requires
        0 <= n <= bm.len(),
    ensures
        order_votes(count_ballots(bm), n) == votes_upto(bm, n),
    decreases n,
{
    if n > 0 {
        lemma_order_votes(bm, n - 1);
    }
}

/// Counts a single (not grouped) election with Meek's method.
fn stv_droop_single(election: Election) -> (r: Result<ElectionResult, String>)
    requires
        election.kind() != ElectionType::StvMdGrouped,
        countable(election),
        single_completes(election),
    ensures
        r matches Ok(res) && single_result(
            res,
            election,
            meek_outcome(
                strings_view(election.cands()),
                election.seat_count(),
                count_ballots(ballots_model(election.ballot_seq())),
            ).0,
            meek_outcome(
                strings_view(election.cands()),
                election.seat_count(),
                count_ballots(ballots_model(election.ballot_seq())),
            ).1,
        ),
        forall|k: int| 0 <= k < meek_of(election).0.len() ==> #[trigger] meek_of(election).0[k] < election.cands().len(),
        meek_of(election).0.len() == election.seat_count(),
        meek_of(election).0.no_duplicates(),
{
    let ghost bm = ballots_model(election.ballot_seq());
    let ghost n = election.cands().len() as int;
    proof {
        assert forall|b: int| 0 <= b < election.ballot_seq().len() implies ranks_bounded(
            #[trigger] election.ballot_seq()[b].ranks@,
        ) by {
            assert(bm[b].1 == election.ballot_seq()[b].ranks@);
        }
    }
    let ballots = count_ballots_of(election.ballots());
    proof {
        assert(order_ballots(ballots@).len() == bm.len());
        assert forall|b: int| 0 <= b < ballots@.len() implies order_countable(
            rows((#[trigger] ballots@[b]).1@),
            n,
        ) by {
            let ranks = bm[b].1;
            assert(order_ballots(ballots@)[b] == count_ballots(bm)[b]);
            assert(ranks == election.ballot_seq()[b].ranks@);
            assert(ranks_countable(ranks, n));
            lemma_order_of_entries(ranks);
            let o = order_of(ranks);
            assert forall|r: int, k: int| 0 <= r < o.len() && 0 <= k < o[r].len() implies #[trigger] o[r][k] < n
                && o[r][k] < 256 by {
                let c = o[r][k];
                assert(ranks[c as int] is Some);
            }
        }
        lemma_order_votes(bm, bm.len() as int);
        assert(order_ballots(ballots@).len() == bm.len());
    }
    let (ids, text) = meek_count(election.candidates(), election.seats(), &ballots);
    Ok(election_result(election, ids, text.as_str()))
}

/// What the count gives back for a single election: the elected candidates in
/// order of election, and the log.
pub open spec fn meek_of(e: Election) -> (Seq<usize>, Seq<char>) {
    meek_outcome(strings_view(e.cands()), e.seat_count(), count_ballots(ballots_model(e.ballot_seq())))
}

/// The count of a single election runs to its end.
pub open spec fn single_completes(e: Election) -> bool {
    meek_completes(strings_view(e.cands()), e.seat_count(), count_ballots(ballots_model(e.ballot_seq())))
}

// ---------------------------------------------------------------------------
// Counting by groups
// ---------------------------------------------------------------------------

/// Sum of the seats of the first `k` groups.
pub open spec fn group_sum(gs: Seq<GroupConfig>, k: int) -> nat
    decreases k,
{
    if k <= 0 {
        0
    } else {
        group_sum(gs, k - 1) + gs[k - 1].seats as nat
    }
}

/// Indices, among the first `k` entries of `cg`, of those equal to `name`, in increasing order.
pub open spec fn group_members(cg: Seq<Seq<char>>, name: Seq<char>, k: int) -> Seq<usize>
    decreases k,
{
    if k <= 0 {
        Seq::empty()
    } else {
        let prev = group_members(cg, name, k - 1);
        if cg[k - 1] == name {
            prev.push((k - 1) as usize)
        } else {
            prev
        }
    }
}

/// The candidates of group `g`, by index.
pub open spec fn members(e: Election, g: int) -> Seq<usize> {
    let cg = e.candidate_group_seq();
    group_members(strings_view(cg), e.group_seq()[g].name@, cg.len() as int)
}

/// Each of the groups before `g` has a candidate.
pub open spec fn no_empty_before(e: Election, g: int) -> bool {
    forall|h: int| 0 <= h < g ==> (#[trigger] members(e, h)).len() > 0
}

/// The rank a ballot gives candidate `c` (`None` past the end of its ranks).
pub open spec fn rank_at(ranks: Seq<Option<usize>>, c: int) -> Option<usize> {
    if 0 <= c < ranks.len() {
        ranks[c]
    } else {
        None
    }
}

/// The rank a ballot gives the `k`-th candidate of a group.
pub open spec fn local_rank(ranks: Seq<Option<usize>>, idx: Seq<usize>, k: int) -> Option<usize> {
    rank_at(ranks, idx[k] as int)
}

/// Within a group, the ballot puts its `a`-th candidate before its `k`-th: both are
/// ranked, and `a` has the better rank, or the same rank and comes first in the group.
pub open spec fn precedes(ranks: Seq<Option<usize>>, idx: Seq<usize>, a: int, k: int) -> bool {
    match (local_rank(ranks, idx, a), local_rank(ranks, idx, k)) {
        (Some(ra), Some(rk)) => ra < rk || (ra == rk && a < k),
        _ => false,
    }
}

/// Number of the first `m` candidates of a group that the ballot puts before the `k`-th.
pub open spec fn preceding(ranks: Seq<Option<usize>>, idx: Seq<usize>, k: int, m: int) -> nat
    decreases m,
{
    if m <= 0 {
        0
    } else {
        preceding(ranks, idx, k, m - 1) + if precedes(ranks, idx, m - 1, k) {
            1nat
        } else {
            0nat
        }
    }
}

/// A ballot restricted to a group: the ranked candidates of the group keep their
/// order (ties broken by their order in the group) and are ranked 0, 1, 2, ...
pub open spec fn project_ranks(ranks: Seq<Option<usize>>, idx: Seq<usize>) -> Seq<Option<usize>> {
    Seq::new(
        idx.len(),
        |k: int|
            if local_rank(ranks, idx, k) is Some {
                Some(preceding(ranks, idx, k, idx.len() as int) as usize)
            } else {
                None
            },
    )
}

pub open spec fn project_ballots(bm: Seq<(usize, Seq<Option<usize>>)>, idx: Seq<usize>) -> Seq<(usize, Seq<Option<usize>>)> {
    bm.map_values(|b: (usize, Seq<Option<usize>>)| (b.0, project_ranks(b.1, idx)))
}

/// Number of the first `m` candidates of a group that a ballot ranks.
pub open spec fn local_ranked(ranks: Seq<Option<usize>>, idx: Seq<usize>, m: int) -> nat
    decreases m,
{
    if m <= 0 {
        0
    } else {
        local_ranked(ranks, idx, m - 1) + if local_rank(ranks, idx, m - 1) is Some {
            1nat
        } else {
            0nat
        }
    }
}

/// A ballot that the count of a group can hold: its ranked candidates of the
/// group come among the group's first 256, and there are at most 255 of them.
pub open spec fn local_countable(ranks: Seq<Option<usize>>, idx: Seq<usize>) -> bool {
    &&& forall|k: int| 0 <= k < idx.len() && (#[trigger] local_rank(ranks, idx, k)) is Some ==> k < 256
    &&& local_ranked(ranks, idx, idx.len() as int) <= 255
}

/// The count of group `g` runs to its end: its candidates are candidates of the
/// election, it has no more seats than candidates, and the ballots fit.
pub open spec fn group_countable(e: Election, g: int) -> bool {
    let idx = members(e, g);
    let bm = ballots_model(e.ballot_seq());
    &&& forall|k: int| 0 <= k < idx.len() ==> #[trigger] idx[k] < e.cands().len()
    &&& e.group_seq()[g].seats <= idx.len()
    &&& (e.group_seq()[g].seats as int) < usize::MAX
    &&& forall|b: int| 0 <= b < bm.len() ==> local_countable(#[trigger] bm[b].1, idx)
    &&& total_votes(bm) <= usize::MAX
}

/// The inputs on which a grouped count runs to its end: the group seats add up
/// within `u32`, and when they match the seats, every group that is reached
/// (all groups before it have candidates) and has candidates can be counted.
pub open spec fn grouped_countable(e: Election) -> bool {
    let gs = e.group_seq();
    &&& group_sum(gs, gs.len() as int) <= u32::MAX
    &&& group_sum(gs, gs.len() as int) == e.seat_count() ==> forall|g: int|
        0 <= g < gs.len() && no_empty_before(e, g + 1) ==> #[trigger] group_countable(e, g)
}

/// The count of group `g` of `e` runs to its end.
pub open spec fn group_completes(e: Election, g: int) -> bool {
    let idx = members(e, g);
    let names = strings_view(e.cands());
    meek_completes(
        idx.map_values(|i: usize| names[i as int]),
        e.group_seq()[g].seats as usize,
        count_ballots(project_ballots(ballots_model(e.ballot_seq()), idx)),
    )
}

/// Every group count that a grouped count reaches runs to its end.
pub open spec fn grouped_completes(e: Election) -> bool {
    let gs = e.group_seq();
    group_sum(gs, gs.len() as int) == e.seat_count() ==> forall|g: int|
        0 <= g < gs.len() && no_empty_before(e, g + 1) ==> #[trigger] group_completes(e, g)
}

pub open spec fn seat_sum_message(total: nat, seats: nat) -> Seq<char> {
    "Sum of group seats ("@ + crate::text::decimal(total) + ") must equal total seats ("@ + crate::text::decimal(seats) + ")"@
}

pub open spec fn empty_group_message(name: Seq<char>) -> Seq<char> {
    "No candidates assigned to group '"@ + name + "'"@
}

/// `gr` is the count of group `g` of `e`: the group's name and seats, its
/// sub-election (its candidates, its seats, the ballots restricted to it), the
/// log of its count and the candidates it elected, by their ids in `e`.
pub open spec fn group_counted(gr: GroupResult, e: Election, g: int) -> bool {
    let idx = members(e, g);
    let cfg = e.group_seq()[g];
    let names = strings_view(e.cands());
    let sub_names = idx.map_values(|i: usize| names[i as int]);
    let sub_bm = project_ballots(ballots_model(e.ballot_seq()), idx);
    let out = meek_outcome(sub_names, cfg.seats as usize, count_ballots(sub_bm));
    &&& gr.group@ == cfg.name@
    &&& gr.seats == cfg.seats as usize
    &&& gr.election.kind() == ElectionType::StvMd
    &&& strings_view(gr.election.cands()) == sub_names
    &&& gr.election.seat_count() == cfg.seats as usize
    &&& ballots_model(gr.election.ballot_seq()) == sub_bm
    &&& gr.log@ == log_in_candidate_order(log_of(out.1), sub_names)
    &&& forall|k: int| 0 <= k < out.0.len() ==> #[trigger] out.0[k] < idx.len()
    &&& out.0.len() == cfg.seats
    &&& elected_model(gr.elected@) == elected_of(names, out.0.map_values(|id: usize| idx[id as int]))
}

/// The elected lists of the first `k` group results, one after the other.
pub open spec fn grouped_elected(grs: Seq<GroupResult>, k: int) -> Seq<(Seq<char>, usize)>
    decreases k,
{
    if k <= 0 {
        Seq::empty()
    } else {
        grouped_elected(grs, k - 1) + elected_model(grs[k - 1].elected@)
    }
}

/// `r` is the grouped result of `e`: each group counted in turn, and all the
/// elected candidates, group after group.
pub open spec fn grouped_result(r: ElectionResult, e: Election) -> bool {
    match r {
        ElectionResult::StvMdGrouped { election, groups, group_results, elected } => {
            &&& election == e
            &&& groups@ == e.group_seq()
            &&& group_results@.len() == e.group_seq().len()
            &&& forall|g: int| 0 <= g < group_results@.len() ==> group_counted(#[trigger] group_results@[g], e, g)
            &&& elected_model(elected@) == grouped_elected(group_results@, group_results@.len() as int)
        },
        _ => false,
    }
}

/// What a grouped count of `e` answers: an error when the group seats do not add
/// up to the seats, else an error naming the first group without candidates, else
/// the grouped result.
pub open spec fn grouped_outcome(r: Result<ElectionResult, String>, e: Election) -> bool {
    let gs = e.group_seq();
    let total = group_sum(gs, gs.len() as int);
    if total != e.seat_count() {
        r matches Err(m) && m@ == seat_sum_message(total, e.seat_count() as nat)
    } else if exists|g: int| 0 <= g < gs.len() && (#[trigger] members(e, g)).len() == 0 {
        let g = choose|g: int| 0 <= g < gs.len() && (#[trigger] members(e, g)).len() == 0 && no_empty_before(e, g);
        r matches Err(m) && m@ == empty_group_message(gs[g].name@)
    } else {
        r matches Ok(res) && grouped_result(res, e)
    }
}


proof fn lemma_group_sum_monotone(gs: Seq<GroupConfig>, m: int, n: int)
    requires
        0 <= m <= n <= gs.len(),
    ensures
        group_sum(gs, m) <= group_sum(gs, n),
    decreases n - m,
{
    if m < n {
        lemma_group_sum_monotone(gs, m, n - 1);
    }
}

/// The seats of all groups, added up.
fn group_seat_sum(groups: &[GroupConfig]) -> (t: u32)
    requires
        group_sum(groups@, groups@.len() as int) <= u32::MAX,
    ensures
        t == group_sum(groups@, groups@.len() as int),
{
    let mut t: u32 = 0;
    let mut g: usize = 0;
    while g < groups.len()
        invariant
            g <= groups.len(),
            group_sum(groups@, groups@.len() as int) <= u32::MAX,
            t == group_sum(groups@, g as int),
        decreases groups.len() - g,
    {
        proof {
            lemma_group_sum_monotone(groups@, g + 1, groups@.len() as int);
        }
        t = t + groups[g].seats;
        g += 1;
    }
    t
}

/// Indices of the candidates assigned to the group `name`, in increasing order.
fn group_members_of(cg: &[String], name: &String) -> (r: Vec<usize>)
    ensures
        r@ == group_members(strings_view(cg@), name@, cg@.len() as int),
        cg@.len() <= usize::MAX,
{
    let mut r: Vec<usize> = Vec::new();
    let mut i: usize = 0;
    while i < cg.len()
        invariant
            i <= cg.len(),
            r@ == group_members(strings_view(cg@), name@, i as int),
        decreases cg.len() - i,
    {
        if cg[i] == *name {
            r.push(i);
        }
        i += 1;
    }
    r
}

proof fn lemma_preceding_bounded(ranks: Seq<Option<usize>>, idx: Seq<usize>, k: int, m: int)
    requires
        0 <= m,
    ensures
        preceding(ranks, idx, k, m) <= m,
        0 <= k < m ==> preceding(ranks, idx, k, m) < m,
    decreases m,
{
    if m > 0 {
        lemma_preceding_bounded(ranks, idx, k, m - 1);
    }
}

/// A ballot's ranks restricted to the candidates `idx` of a group.
fn project_ranks_of(ranks: &[Option<usize>], idx: &Vec<usize>) -> (r: Vec<Option<usize>>)
    ensures
        r@ == project_ranks(ranks@, idx@),
{
    let mut local: Vec<Option<usize>> = Vec::new();
    let mut k: usize = 0;
    while k < idx.len()
        invariant
            k <= idx.len(),
            local@.len() == k,
            forall|a: int| 0 <= a < k ==> #[trigger] local@[a] == local_rank(ranks@, idx@, a),
        decreases idx.len() - k,
    {
        let c = idx[k];
        if c < ranks.len() {
            local.push(ranks[c]);
        } else {
            local.push(None);
        }
        k += 1;
    }
    let mut r: Vec<Option<usize>> = Vec::new();
    let mut k: usize = 0;
    while k < idx.len()
        invariant
            k <= idx.len(),
            local@.len() == idx@.len(),
            forall|a: int| 0 <= a < idx@.len() ==> #[trigger] local@[a] == local_rank(ranks@, idx@, a),
            r@.len() == k,
            forall|a: int| 0 <= a < k ==> #[trigger] r@[a] == project_ranks(ranks@, idx@)[a],
        decreases idx.len() - k,
    {
        match local[k] {
            Some(rk) => {
                let mut before: usize = 0;
                let mut a: usize = 0;
                while a < idx.len()
                    invariant
                        a <= idx.len(),
                        k < idx.len(),
                        local@.len() == idx@.len(),
                        forall|b: int| 0 <= b < idx@.len() ==> #[trigger] local@[b] == local_rank(ranks@, idx@, b),
                        local@[k as int] == Some(rk),
                        before == preceding(ranks@, idx@, k as int, a as int),
                    decreases idx.len() - a,
                {
                    proof {
                        lemma_preceding_bounded(ranks@, idx@, k as int, a as int);
                    }
                    match local[a] {
                        Some(ra) => {
                            if ra < rk || (ra == rk && a < k) {
                                before = before + 1;
                            }
                        },
                        None => {},
                    }
                    a += 1;
                }
                r.push(Some(before));
            },
            None => {
                r.push(None);
            },
        }
        k += 1;
    }
    proof {
        assert(r@ =~= project_ranks(ranks@, idx@));
    }
    r
}

/// The ballots restricted to the candidates `idx` of a group.
fn project_ballots_of(ballots: &[CombinedBallot], idx: &Vec<usize>) -> (r: Vec<CombinedBallot>)
    ensures
        ballots_model(r@) == project_ballots(ballots_model(ballots@), idx@),
{
    let mut r: Vec<CombinedBallot> = Vec::new();
    let mut b: usize = 0;
    while b < ballots.len()
        invariant
            b <= ballots.len(),
            ballots_model(r@) == project_ballots(ballots_model(ballots@), idx@).take(b as int),
        decreases ballots.len() - b,
    {
        let ghost before = r@;
        let ranks = project_ranks_of(ballots[b].ranks.as_slice(), idx);
        let cb = CombinedBallot { votes: ballots[b].votes, ranks };
        r.push(cb);
        b += 1;
        proof {
            assert(r@ == before.push(cb));
            assert(ballot_model(cb) == project_ballots(ballots_model(ballots@), idx@)[b - 1]);
            assert(ballots_model(r@) =~= ballots_model(before).push(ballot_model(cb)));
            assert(ballots_model(r@) =~= project_ballots(ballots_model(ballots@), idx@).take(b as int));
        }
    }
    proof {
        assert(project_ballots(ballots_model(ballots@), idx@).take(b as int) =~= project_ballots(
            ballots_model(ballots@),
            idx@,
        ));
    }
    r
}

/// The names of the candidates `idx`.
fn pick_names(candidates: &[String], idx: &Vec<usize>) -> (r: Vec<String>)
    requires
        forall|k: int| 0 <= k < idx@.len() ==> #[trigger] idx@[k] < candidates@.len(),
    ensures
        strings_view(r@) == idx@.map_values(|i: usize| strings_view(candidates@)[i as int]),
{
    let mut r: Vec<String> = Vec::new();
    let mut k: usize = 0;
    while k < idx.len()
        invariant
            k <= idx.len(),
            forall|m: int| 0 <= m < idx@.len() ==> #[trigger] idx@[m] < candidates@.len(),
            strings_view(r@) == idx@.take(k as int).map_values(|i: usize| strings_view(candidates@)[i as int]),
        decreases idx.len() - k,
    {
        let ghost before = r@;
        let name = candidates[idx[k]].clone();
        r.push(name);
        k += 1;
        proof {
            assert(r@ == before.push(name));
            assert(strings_view(r@) =~= strings_view(before).push(name@));
            assert(idx@.take(k as int) =~= idx@.take(k - 1).push(idx@[k - 1]));
            assert(strings_view(r@) =~= idx@.take(k as int).map_values(|i: usize| strings_view(candidates@)[i as int]));
        }
    }
    proof {
        assert(idx@.take(k as int) =~= idx@);
    }
    r
}

/// The elected candidates of a group's count, by their ids in the whole election.
fn map_elected(candidates: &[String], idx: &Vec<usize>, ids: &Vec<usize>) -> (r: Vec<Elected>)
    requires
        forall|k: int| 0 <= k < idx@.len() ==> #[trigger] idx@[k] < candidates@.len(),
        forall|k: int| 0 <= k < ids@.len() ==> #[trigger] ids@[k] < idx@.len(),
    ensures
        elected_model(r@) == elected_of(strings_view(candidates@), ids@.map_values(|id: usize| idx@[id as int])),
{
    let mut orig: Vec<usize> = Vec::new();
    let mut k: usize = 0;
    while k < ids.len()
        invariant
            k <= ids.len(),
            forall|m: int| 0 <= m < idx@.len() ==> #[trigger] idx@[m] < candidates@.len(),
            forall|m: int| 0 <= m < ids@.len() ==> #[trigger] ids@[m] < idx@.len(),
            orig@ == ids@.take(k as int).map_values(|id: usize| idx@[id as int]),
        decreases ids.len() - k,
    {
        orig.push(idx[ids[k]]);
        k += 1;
        proof {
            assert(orig@ =~= ids@.take(k as int).map_values(|id: usize| idx@[id as int]));
        }
    }
    proof {
        assert(ids@.take(k as int) =~= ids@);
        assert forall|m: int| 0 <= m < orig@.len() implies #[trigger] orig@[m] < candidates@.len() by {
            assert(orig@[m] == idx@[ids@[m] as int]);
        }
    }
    elected_list(candidates, &orig)
}

/// Appends copies of `more` to `all`.
fn append_elected(all: &mut Vec<Elected>, more: &Vec<Elected>)
    ensures
        elected_model(final(all)@) == elected_model(old(all)@) + elected_model(more@),
{
    let ghost start = elected_model(all@);
    let mut k: usize = 0;
    while k < more.len()
        invariant
            k <= more.len(),
            elected_model(all@) == start + elected_model(more@).take(k as int),
        decreases more.len() - k,
    {
        let ghost before = all@;
        let e = Elected { candidate: more[k].candidate.clone(), id: more[k].id };
        all.push(e);
        k += 1;
        proof {
            assert(all@ == before.push(e));
            assert(e@ == more@[k - 1]@);
            assert(elected_model(all@) =~= elected_model(before).push(e@));
            assert(elected_model(more@).take(k as int) =~= elected_model(more@).take(k - 1).push(more@[k - 1]@));
            assert(elected_model(all@) =~= start + elected_model(more@).take(k as int));
        }
    }
    proof {
        assert(elected_model(more@).take(k as int) =~= elected_model(more@));
    }
}

/// A copy of the groups.
fn copy_groups(groups: &[GroupConfig]) -> (r: Vec<GroupConfig>)
    ensures
        r@ == groups@,
{
    let mut r: Vec<GroupConfig> = Vec::new();
    let mut g: usize = 0;
    while g < groups.len()
        invariant
            g <= groups.len(),
            r@ == groups@.take(g as int),
        decreases groups.len() - g,
    {
        r.push(GroupConfig { name: groups[g].name.clone(), seats: groups[g].seats });
        g += 1;
        proof {
            assert(r@ =~= groups@.take(g as int));
        }
    }
    proof {
        assert(groups@.take(g as int) =~= groups@);
    }
    r
}

fn seat_sum_error(total: u32, seats: usize) -> (m: String)
    ensures
        m@ == seat_sum_message(total as nat, seats as nat),
{
    let mut m = String::from_str("Sum of group seats (");
    m.append(decimal_string(total as usize).as_str());
    m.append(") must equal total seats (");
    m.append(decimal_string(seats).as_str());
    m.append(")");
    m
}

fn empty_group_error(name: &String) -> (m: String)
    ensures
        m@ == empty_group_message(name@),
{
    let mut m = String::from_str("No candidates assigned to group '");
    m.append(name.as_str());
    m.append("'");
    m
}


proof fn lemma_project_ranked(ranks: Seq<Option<usize>>, idx: Seq<usize>, m: int)
    requires
        0 <= m <= idx.len(),
    ensures
        ranked_count(project_ranks(ranks, idx), m) == local_ranked(ranks, idx, m),
    decreases m,
{
    if m > 0 {
        lemma_project_ranked(ranks, idx, m - 1);
    }
}

/// A ballot restricted to a group that the group's count can hold is one that a
/// count over the group's candidates can hold.
proof fn lemma_project_countable(ranks: Seq<Option<usize>>, idx: Seq<usize>)
    requires
        local_countable(ranks, idx),
        idx.len() <= usize::MAX,
    ensures
        ranks_countable(project_ranks(ranks, idx), idx.len() as int),
{
    let p = project_ranks(ranks, idx);
    assert forall|k: int| 0 <= k < p.len() implies (#[trigger] p[k] matches Some(r) ==> r < usize::MAX) by {
        lemma_preceding_bounded(ranks, idx, k, idx.len() as int);
    }
    assert forall|k: int| 0 <= k < p.len() && (#[trigger] p[k]) is Some implies k < idx.len() && k < 256 by {
        assert(local_rank(ranks, idx, k) is Some);
    }
    lemma_project_ranked(ranks, idx, idx.len() as int);
}

proof fn lemma_project_votes(bm: Seq<(usize, Seq<Option<usize>>)>, idx: Seq<usize>, n: int)
    requires
        0 <= n <= bm.len(),
    ensures
        votes_upto(project_ballots(bm, idx), n) == votes_upto(bm, n),
    decreases n,
{
    if n > 0 {
        lemma_project_votes(bm, idx, n - 1);
    }
}

/// Counts a grouped election: each group elects its seats among its own
/// candidates, on the ballots restricted to them.
pub fn stv_droop_grouped(election: Election) -> (r: Result<ElectionResult, String>)
    requires
        election.kind() == ElectionType::StvMdGrouped,
        grouped_countable(election),
        grouped_completes(election),
    ensures
        grouped_outcome(r, election),
{
    let ghost e = election;
    let ghost gs = election.group_seq();
    let ghost bm = ballots_model(election.ballot_seq());
    let total = group_seat_sum(election.groups());
    if total as usize != election.seats() {
        return Err(seat_sum_error(total, election.seats()));
    }
    let groups = election.groups();
    let mut group_results: Vec<GroupResult> = Vec::new();
    let mut all_elected: Vec<Elected> = Vec::new();
    let mut g: usize = 0;
    while g < groups.len()
        invariant
            e == election,
            gs == election.group_seq(),
            groups@ == gs,
            bm == ballots_model(election.ballot_seq()),
            grouped_countable(election),
            grouped_completes(election),
            group_sum(gs, gs.len() as int) == election.seat_count(),
            g <= groups.len(),
            no_empty_before(election, g as int),
            group_results@.len() == g,
            forall|h: int| 0 <= h < g ==> group_counted(#[trigger] group_results@[h], election, h),
            elected_model(all_elected@) == grouped_elected(group_results@, g as int),
        decreases groups.len() - g,
    {
        let idx = group_members_of(election.candidate_groups(), &groups[g].name);
        if idx.len() == 0 {
            proof {
                assert(members(election, g as int).len() == 0);
                let c = choose|h: int| 0 <= h < gs.len() && (#[trigger] members(election, h)).len() == 0 && no_empty_before(election, h);
                assert(no_empty_before(election, g as int));
                if c < g {
                    assert(members(election, c).len() > 0);
                } else if c > g {
                    assert(members(election, g as int).len() > 0);
                }
                assert(c == g);
            }
            return Err(empty_group_error(&groups[g].name));
        }
        proof {
            assert(no_empty_before(election, g + 1));
            assert(group_countable(election, g as int));
            assert(group_completes(election, g as int));
        }
        let ghost members_g = idx@;
        let sub_candidates = pick_names(election.candidates(), &idx);
        let sub_ballots = project_ballots_of(election.ballots(), &idx);
        let seats = groups[g].seats as usize;
        let sub = Election::StvMd { candidates: sub_candidates, seats, ballots: sub_ballots };
        proof {
            let sbm = ballots_model(sub.ballot_seq());
            assert(sbm == project_ballots(bm, members_g));
            assert forall|b: int| 0 <= b < sbm.len() implies ranks_countable(#[trigger] sbm[b].1, members_g.len() as int) by {
                assert(local_countable(bm[b].1, members_g));
                lemma_project_countable(bm[b].1, members_g);
            }
            lemma_project_votes(bm, members_g, bm.len() as int);
            assert(strings_view(sub.cands()).len() == members_g.len());
            assert(countable(sub));
            assert(single_completes(sub));
        }
        let ghost sub_model = sub;
        let sub_result = match stv_droop_single(sub) {
            Ok(x) => x,
            Err(m) => {
                return Err(m);
            },
        };
        match sub_result {
            ElectionResult::StvMd { election: sub_election, log, elected } => {
                let ids: Vec<usize> = elected_id_list(&elected);
                proof {
                    let out = meek_of(sub_model).0;
                    let names = strings_view(sub_model.cands());
                    assert(elected_model(elected@) == elected_of(names, out));
                    assert(elected_model(elected@).len() == out.len());
                    assert forall|k: int| 0 <= k < out.len() implies ids@[k] == out[k] by {
                        assert(elected_model(elected@)[k] == elected_of(names, out)[k]);
                    }
                    assert(ids@ =~= out);
                }
                let mapped = map_elected(election.candidates(), &idx, &ids);
                append_elected(&mut all_elected, &mapped);
                let gr = GroupResult {
                    group: groups[g].name.clone(),
                    seats,
                    election: sub_election,
                    log,
                    elected: mapped,
                };
                let ghost before = group_results@;
                group_results.push(gr);
                proof {
                    assert(group_results@ == before.push(gr));
                    assert(group_results@[g as int] == gr);
                    assert(strings_view(sub_model.cands()) == members_g.map_values(
                        |i: usize| strings_view(election.cands())[i as int],
                    ));
                    assert(group_counted(gr, election, g as int));
                    assert forall|h: int| 0 <= h < g + 1 implies group_counted(#[trigger] group_results@[h], election, h) by {
                        if h < g {
                            assert(group_results@[h] == before[h]);
                        }
                    }
                    assert(grouped_elected(group_results@, g as int) == grouped_elected(before, g as int)) by {
                        lemma_grouped_elected_prefix(before, group_results@, g as int);
                    }
                }
            },
            _ => {
                return vstd::pervasive::unreached();
            },
        }
        g += 1;
    }
    let groups_copy = copy_groups(election.groups());
    Ok(ElectionResult::StvMdGrouped { election, groups: groups_copy, group_results, elected: all_elected })
}

proof fn lemma_grouped_elected_prefix(a: Seq<GroupResult>, b: Seq<GroupResult>, k: int)
    requires
        0 <= k <= a.len(),
        k <= b.len(),
        forall|h: int| 0 <= h < k ==> a[h] == b[h],
    ensures
        grouped_elected(a, k) == grouped_elected(b, k),
    decreases k,
{
    if k > 0 {
        lemma_grouped_elected_prefix(a, b, k - 1);
    }
}

/// The ids of an elected list.
fn elected_id_list(elected: &Vec<Elected>) -> (r: Vec<usize>)
    ensures
        r@ == elected_ids(elected@),
{
    let mut r: Vec<usize> = Vec::new();
    let mut k: usize = 0;
    while k < elected.len()
        invariant
            k <= elected.len(),
            r@ == elected_ids(elected@).take(k as int),
        decreases elected.len() - k,
    {
        r.push(elected[k].id);
        k += 1;
        proof {
            assert(r@ =~= elected_ids(elected@).take(k as int));
        }
    }
    proof {
        assert(elected_ids(elected@).take(k as int) =~= elected_ids(elected@));
    }
    r
}

/// Counts an election with Meek's method and the Droop quota: a single count, or
/// one count per group for a grouped election.
pub fn stv_droop(election: Election) -> (r: Result<ElectionResult, String>)
    requires
        election.kind() != ElectionType::StvMdGrouped ==> countable(election) && single_completes(election),
        election.kind() == ElectionType::StvMdGrouped ==> grouped_countable(election) && grouped_completes(
            election,
        ),
    ensures
        election.kind() != ElectionType::StvMdGrouped ==> (r matches Ok(res) && single_result(
            res,
            election,
            meek_of(election).0,
            meek_of(election).1,
        )),
        election.kind() == ElectionType::StvMdGrouped ==> grouped_outcome(r, election),
        election.kind() != ElectionType::StvMdGrouped ==> (r matches Ok(res) && elected_ids(res.elected_seq()).len()
            == election.seat_count() && elected_ids(res.elected_seq()).no_duplicates()),
        election.kind() == ElectionType::StvMdGrouped ==> (r matches Ok(res) ==> res.elected_seq().len()
            == election.seat_count()),
        r matches Ok(res) ==> forall|k: int|
            0 <= k < res.elected_seq().len() ==> #[trigger] res.elected_seq()[k].id < election.cands().len(),
{
    match election.election_type() {
        ElectionType::StvMdGrouped => {
            let r = stv_droop_grouped(election);
            proof {
                if r is Ok {
                    lemma_grouped_seats(r->Ok_0, election);
                    lemma_grouped_ids(r->Ok_0, election);
                }
            }
            r
        },
        _ => {
            let r = stv_droop_single(election);
            proof {
                if r is Ok {
                    lemma_single_elected(r->Ok_0, election, meek_of(election).0, meek_of(election).1);
                }
            }
            r
        },
    }
}

/// A single count that elects `seats` distinct candidates gives a result that
/// lists `seats` distinct candidates.
proof fn lemma_single_elected(r: ElectionResult, e: Election, ids: Seq<usize>, text: Seq<char>)
    requires
        single_result(r, e, ids, text),
        ids.len() == e.seat_count(),
        ids.no_duplicates(),
        forall|k: int| 0 <= k < ids.len() ==> #[trigger] ids[k] < e.cands().len(),
    ensures
        elected_ids(r.elected_seq()).len() == e.seat_count(),
        elected_ids(r.elected_seq()).no_duplicates(),
        forall|k: int| 0 <= k < r.elected_seq().len() ==> #[trigger] r.elected_seq()[k].id < e.cands().len(),
{
    let names = strings_view(e.cands());
    match r {
        ElectionResult::StvMd { elected, .. } => {
            assert(elected_model(elected@) == elected_of(names, ids));
            assert(elected_model(elected@).len() == elected@.len());
            assert forall|k: int| 0 <= k < ids.len() implies elected_ids(elected@)[k] == ids[k] by {
                assert(elected_model(elected@)[k] == elected_of(names, ids)[k]);
            }
            assert(elected_ids(elected@) =~= ids);
            assert forall|k: int| 0 <= k < elected@.len() implies #[trigger] elected@[k].id < e.cands().len() by {
                assert(elected_ids(elected@)[k] == elected@[k].id);
            }
        },
        ElectionResult::StvMdCoperland { elected, .. } => {
            let s = elected_ids(elected@);
            ids.to_multiset_ensures();
            s.to_multiset_ensures();
            ids.lemma_multiset_has_no_duplicates();
            s.lemma_multiset_has_no_duplicates_conv();
            assert forall|k: int| 0 <= k < elected@.len() implies #[trigger] elected@[k].id < e.cands().len() by {
                assert(s[k] == elected@[k].id);
                assert(s.to_multiset().count(s[k]) > 0);
                assert(ids.contains(s[k]));
            }
        },
        ElectionResult::StvMdGrouped { .. } => {},
    }
}

proof fn lemma_grouped_elected_len(grs: Seq<GroupResult>, e: Election, k: int)
    requires
        0 <= k <= grs.len(),
        k <= e.group_seq().len(),
        forall|g: int| 0 <= g < k ==> group_counted(#[trigger] grs[g], e, g),
    ensures
        grouped_elected(grs, k).len() == group_sum(e.group_seq(), k),
    decreases k,
{
    if k > 0 {
        lemma_grouped_elected_len(grs, e, k - 1);
        let g = k - 1;
        let gr = grs[g];
        assert(group_counted(gr, e, g));
        let idx = members(e, g);
        let names = strings_view(e.cands());
        let sub_names = idx.map_values(|i: usize| names[i as int]);
        let sub_bm = project_ballots(ballots_model(e.ballot_seq()), idx);
        let out = meek_outcome(sub_names, e.group_seq()[g].seats as usize, count_ballots(sub_bm));
        assert(elected_model(gr.elected@) == elected_of(names, out.0.map_values(|id: usize| idx[id as int])));
        assert(elected_model(gr.elected@).len() == out.0.len());
    }
}

/// A grouped result lists as many elected candidates as the group seats add up to.
proof fn lemma_grouped_seats(r: ElectionResult, e: Election)
    requires
        grouped_outcome(Ok(r), e),
    ensures
        r.elected_seq().len() == e.seat_count(),
{
    let gs = e.group_seq();
    if group_sum(gs, gs.len() as int) == e.seat_count() && !(exists|g: int| 0 <= g < gs.len() && (#[trigger] members(e, g)).len() == 0) {
        if let ElectionResult::StvMdGrouped { group_results, elected, .. } = r {
            lemma_grouped_elected_len(group_results@, e, group_results@.len() as int);
            assert(elected_model(elected@).len() == elected@.len());
        }
    }
}

/// The ids elected by the first `k` group results are candidate indices, when
/// those groups can be counted.
proof fn lemma_grouped_elected_ids(grs: Seq<GroupResult>, e: Election, k: int)
    requires
        0 <= k <= grs.len(),
        k <= e.group_seq().len(),
        forall|g: int| 0 <= g < k ==> group_counted(#[trigger] grs[g], e, g),
        forall|g: int| 0 <= g < k ==> #[trigger] group_countable(e, g),
    ensures
        forall|j: int| 0 <= j < grouped_elected(grs, k).len() ==> #[trigger] grouped_elected(grs, k)[j].1
            < e.cands().len(),
    decreases k,
{
    if k > 0 {
        lemma_grouped_elected_ids(grs, e, k - 1);
        let g = k - 1;
        let gr = grs[g];
        assert(group_counted(gr, e, g));
        assert(group_countable(e, g));
        let idx = members(e, g);
        let names = strings_view(e.cands());
        let sub_names = idx.map_values(|i: usize| names[i as int]);
        let sub_bm = project_ballots(ballots_model(e.ballot_seq()), idx);
        let out = meek_outcome(sub_names, e.group_seq()[g].seats as usize, count_ballots(sub_bm));
        let ids = out.0.map_values(|id: usize| idx[id as int]);
        let prev = grouped_elected(grs, k - 1);
        let cur = elected_model(gr.elected@);
        assert(cur == elected_of(names, ids));
        assert forall|j: int| 0 <= j < cur.len() implies #[trigger] cur[j].1 < e.cands().len() by {
            assert(cur[j] == elected_of(names, ids)[j]);
            assert(out.0[j] < idx.len());
            assert(ids[j] == idx[out.0[j] as int]);
        }
        assert(grouped_elected(grs, k) == prev + cur);
        assert forall|j: int| 0 <= j < grouped_elected(grs, k).len() implies #[trigger] grouped_elected(grs, k)[j].1
            < e.cands().len() by {
            if j < prev.len() {
                assert(grouped_elected(grs, k)[j] == prev[j]);
            } else {
                assert(grouped_elected(grs, k)[j] == cur[j - prev.len()]);
            }
        }
    }
}

/// The ids that a grouped count elects are candidate indices.
proof fn lemma_grouped_ids(r: ElectionResult, e: Election)
    requires
        grouped_outcome(Ok(r), e),
        grouped_countable(e),
    ensures
        forall|k: int| 0 <= k < r.elected_seq().len() ==> #[trigger] r.elected_seq()[k].id < e.cands().len(),
{
    let gs = e.group_seq();
    if group_sum(gs, gs.len() as int) == e.seat_count() && !(exists|g: int| 0 <= g < gs.len() && (#[trigger] members(e, g)).len() == 0) {
        if let ElectionResult::StvMdGrouped { group_results, elected, .. } = r {
            assert(grouped_result(r, e));
            let n = group_results@.len() as int;
            assert forall|g: int| 0 <= g < n implies #[trigger] group_countable(e, g) by {
                assert(no_empty_before(e, g + 1));
            }
            lemma_grouped_elected_ids(group_results@, e, n);
            assert forall|k: int| 0 <= k < elected@.len() implies #[trigger] elected@[k].id < e.cands().len() by {
                assert(elected_model(elected@).len() == elected@.len());
                assert(elected_model(elected@)[k] == elected@[k]@);
                assert(grouped_elected(group_results@, n)[k] == elected_model(elected@)[k]);
                assert(grouped_elected(group_results@, n)[k].1 < e.cands().len());
            }
        }
    }
}

// ---------------------------------------------------------------------------
// Laws of the count
// ---------------------------------------------------------------------------

proof fn lemma_ahead_self(scores: Seq<nat>, c: int, m: int)
    requires
        0 <= m,
    ensures
        ahead_upto(scores, c, m) <= m - (if 0 <= c < m { 1int } else { 0int }),
    decreases m,
{
    if m > 0 {
        lemma_ahead_self(scores, c, m - 1);
    }
}

proof fn lemma_ahead_more(scores: Seq<nat>, c: int, d: int, m: int)
    requires
        0 <= m,
        0 <= c < scores.len(),
        0 <= d < scores.len(),
        ranks_before(scores, d, c),
    ensures
        ahead_upto(scores, c, m) >= ahead_upto(scores, d, m) + (if d < m { 1int } else { 0int }),
    decreases m,
{
    if m > 0 {
        lemma_ahead_more(scores, c, d, m - 1);
    }
}

/// The Copeland ranking puts every candidate at its own place: the positions
/// are below the number of candidates and no two candidates share one.
pub proof fn lemma_copeland_positions_distinct(scores: Seq<nat>)
    ensures
        forall|c: int| 0 <= c < scores.len() ==> #[trigger] copeland_positions(scores)[c] < scores.len(),
        forall|c: int, d: int|
            0 <= c < scores.len() && 0 <= d < scores.len() && c != d ==> #[trigger] copeland_positions(scores)[c]
                != #[trigger] copeland_positions(scores)[d],
{
    let n = scores.len() as int;
    assert forall|c: int| 0 <= c < n implies #[trigger] copeland_positions(scores)[c] < n by {
        lemma_ahead_self(scores, c, n);
    }
    assert forall|c: int, d: int| 0 <= c < n && 0 <= d < n && c != d implies #[trigger] copeland_positions(scores)[c]
        != #[trigger] copeland_positions(scores)[d] by {
        if ranks_before(scores, d, c) {
            lemma_ahead_more(scores, c, d, n);
        } else {
            assert(ranks_before(scores, c, d));
            lemma_ahead_more(scores, d, c, n);
        }
    }
}

/// A candidate ahead of another in the Copeland ranking has a smaller position.
pub proof fn lemma_copeland_positions_order(scores: Seq<nat>, c: int, d: int)
    requires
        0 <= c < scores.len(),
        0 <= d < scores.len(),
        ranks_before(scores, d, c),
    ensures
        copeland_positions(scores)[d] < copeland_positions(scores)[c],
{
    lemma_ahead_more(scores, c, d, scores.len() as int);
}

spec fn beaten_below(ballots: Seq<(usize, Seq<Option<usize>>)>, i: int, m: int) -> Set<int> {
    Set::new(|j: int| 0 <= j < m && j != i && pairwise(ballots, i, j) > pairwise(ballots, j, i))
}

proof fn lemma_wins_are_beaten(ballots: Seq<(usize, Seq<Option<usize>>)>, i: int, m: int)
    requires
        0 <= m,
    ensures
        beaten_below(ballots, i, m).finite(),
        beaten_below(ballots, i, m).len() == wins_upto(ballots, i, m),
    decreases m,
{
    if m == 0 {
        assert(beaten_below(ballots, i, 0) =~= Set::<int>::empty());
    } else {
        lemma_wins_are_beaten(ballots, i, m - 1);
        let prev = beaten_below(ballots, i, m - 1);
        let k = m - 1;
        if k != i && pairwise(ballots, i, k) > pairwise(ballots, k, i) {
            assert(beaten_below(ballots, i, m) =~= prev.insert(k));
            assert(!prev.contains(k));
        } else {
            assert(beaten_below(ballots, i, m) =~= prev);
        }
    }
}

/// A candidate's Copeland score is the number of other candidates that it beats
/// head to head: those `j` that strictly more votes prefer it to than prefer `j`
/// to it. A head-to-head tie is a win for neither, so a candidate that beats
/// nobody, ties included, scores nothing.
pub proof fn lemma_copeland_score_counts_wins(ballots: Seq<(usize, Seq<Option<usize>>)>, n: int, i: int)
    requires
        0 <= i < n,
    ensures
        copeland_scores(ballots, n)[i] == Set::new(
            |j: int| 0 <= j < n && j != i && pairwise(ballots, i, j) > pairwise(ballots, j, i),
        ).len(),
        (forall|j: int| 0 <= j < n && j != i ==> pairwise(ballots, i, j) <= pairwise(ballots, j, i))
            ==> copeland_scores(ballots, n)[i] == 0,
{
    lemma_wins_are_beaten(ballots, i, n);
    assert(beaten_below(ballots, i, n) == Set::new(
        |j: int| 0 <= j < n && j != i && pairwise(ballots, i, j) > pairwise(ballots, j, i),
    ));
    if forall|j: int| 0 <= j < n && j != i ==> pairwise(ballots, i, j) <= pairwise(ballots, j, i) {
        assert(beaten_below(ballots, i, n) =~= Set::<int>::empty());
    }
}

/// No ballot is counted both ways: the votes preferring `i` to `j` and those
/// preferring `j` to `i` add up to at most all votes, and nobody is preferred
/// to themselves.
pub proof fn lemma_pairwise_bounded(ballots: Seq<(usize, Seq<Option<usize>>)>, i: int, j: int)
    ensures
        pairwise(ballots, i, j) + pairwise(ballots, j, i) <= total_votes(ballots),
        pairwise(ballots, i, i) == 0,
{
    if i != j {
        lemma_support_bounded(ballots, i, j, ballots.len() as int);
    }
}

proof fn lemma_group_members(cg: Seq<Seq<char>>, name: Seq<char>, k: int)
    requires
        0 <= k <= cg.len(),
        cg.len() <= usize::MAX,
    ensures
        forall|t: int| 0 <= t < group_members(cg, name, k).len() ==> {
            let i = #[trigger] group_members(cg, name, k)[t];
            &&& i < k
            &&& cg[i as int] == name
        },
    decreases k,
{
    if k > 0 {
        lemma_group_members(cg, name, k - 1);
        let prev = group_members(cg, name, k - 1);
        let cur = group_members(cg, name, k);
        assert forall|t: int| 0 <= t < cur.len() implies {
            let i = #[trigger] cur[t];
            &&& i < k
            &&& cg[i as int] == name
        } by {
            if cg[k - 1] == name {
                assert(cur == prev.push((k - 1) as usize));
                if t < prev.len() {
                    assert(cur[t] == prev[t]);
                }
            }
        }
    }
}

/// A Copeland count elects the same candidates as the plain count of the same
/// candidates, seats and ballots: the two elected lists hold the same ids, the
/// Copeland one ordered by Copeland position.
pub proof fn lemma_copeland_elects_as_plain(
    plain: ElectionResult,
    copeland: ElectionResult,
    candidates: Vec<String>,
    seats: usize,
    ballots: Vec<CombinedBallot>,
)
    requires
        single_result(
            plain,
            Election::StvMd { candidates, seats, ballots },
            meek_of(Election::StvMd { candidates, seats, ballots }).0,
            meek_of(Election::StvMd { candidates, seats, ballots }).1,
        ),
        single_result(
            copeland,
            Election::StvMdCoperland { candidates, seats, ballots },
            meek_of(Election::StvMdCoperland { candidates, seats, ballots }).0,
            meek_of(Election::StvMdCoperland { candidates, seats, ballots }).1,
        ),
    ensures
        elected_ids(copeland.elected_seq()).to_multiset() == elected_ids(plain.elected_seq()).to_multiset(),
{
    let e1 = Election::StvMd { candidates, seats, ballots };
    let e2 = Election::StvMdCoperland { candidates, seats, ballots };
    assert(meek_of(e1) == meek_of(e2));
    let ids = meek_of(e1).0;
    let names = strings_view(candidates@);
    if let ElectionResult::StvMd { elected, .. } = plain {
        assert(elected_model(elected@) == elected_of(names, ids));
        assert forall|k: int| 0 <= k < ids.len() implies elected_ids(elected@)[k] == ids[k] by {
            assert(elected_model(elected@)[k] == elected_of(names, ids)[k]);
        }
        assert(elected_model(elected@).len() == elected@.len());
        assert(elected_ids(elected@) =~= ids);
    }
}

/// In a grouped result, every candidate that a group elects is assigned to that group.
pub proof fn lemma_grouped_elected_in_group(r: ElectionResult, e: Election)
    requires
        grouped_result(r, e),
        e.candidate_group_seq().len() <= usize::MAX,
    ensures
        r matches ElectionResult::StvMdGrouped { group_results, .. } ==> forall|g: int, k: int|
            0 <= g < group_results@.len() && 0 <= k < group_results@[g].elected@.len() ==> {
                let id = (#[trigger] group_results@[g].elected@[k]).id;
                &&& id < e.candidate_group_seq().len()
                &&& e.candidate_group_seq()[id as int]@ == e.group_seq()[g].name@
            },
{
    if let ElectionResult::StvMdGrouped { group_results, .. } = r {
        let cg = strings_view(e.candidate_group_seq());
        assert forall|g: int, k: int|
            0 <= g < group_results@.len() && 0 <= k < group_results@[g].elected@.len() implies {
                let id = (#[trigger] group_results@[g].elected@[k]).id;
                &&& id < e.candidate_group_seq().len()
                &&& e.candidate_group_seq()[id as int]@ == e.group_seq()[g].name@
            } by {
            let gr = group_results@[g];
            assert(group_counted(gr, e, g));
            let idx = members(e, g);
            let names = strings_view(e.cands());
            let sub_names = idx.map_values(|i: usize| names[i as int]);
            let sub_bm = project_ballots(ballots_model(e.ballot_seq()), idx);
            let out = meek_outcome(sub_names, e.group_seq()[g].seats as usize, count_ballots(sub_bm));
            let ids = out.0.map_values(|id: usize| idx[id as int]);
            assert(elected_model(gr.elected@) == elected_of(names, ids));
            assert(elected_model(gr.elected@).len() == gr.elected@.len());
            assert(elected_of(names, ids).len() == out.0.len());
            assert(k < out.0.len());
            assert(out.0[k] < idx.len());
            assert(elected_model(gr.elected@)[k] == gr.elected@[k]@);
            assert(elected_of(names, ids)[k] == (names[ids[k] as int], ids[k]));
            assert(gr.elected@[k].id == idx[out.0[k] as int]);
            lemma_group_members(cg, e.group_seq()[g].name@, cg.len() as int);
            assert(cg[idx[out.0[k] as int] as int] == e.group_seq()[g].name@);
        }
    }
}

proof fn lemma_preceding_more(ranks: Seq<Option<usize>>, idx: Seq<usize>, a: int, b: int, m: int)
    requires
        0 <= m,
        0 <= a < idx.len(),
        0 <= b < idx.len(),
        precedes(ranks, idx, a, b),
    ensures
        preceding(ranks, idx, b, m) >= preceding(ranks, idx, a, m) + (if a < m { 1int } else { 0int }),
    decreases m,
{
    if m > 0 {
        lemma_preceding_more(ranks, idx, a, b, m - 1);
    }
}

/// Restricting a ballot to a group keeps the order of the group's candidates:
/// one ranked better than another stays ranked better, and two ranked candidates
/// never share a rank.
pub proof fn lemma_project_keeps_order(ranks: Seq<Option<usize>>, idx: Seq<usize>, a: int, b: int)
    requires
        0 <= a < idx.len(),
        0 <= b < idx.len(),
        a != b,
        local_rank(ranks, idx, a) is Some,
        local_rank(ranks, idx, b) is Some,
        idx.len() <= usize::MAX,
    ensures
        local_rank(ranks, idx, a)->0 < local_rank(ranks, idx, b)->0 ==> project_ranks(ranks, idx)[a]->0
            < project_ranks(ranks, idx)[b]->0,
        project_ranks(ranks, idx)[a] != project_ranks(ranks, idx)[b],
{
    let n = idx.len() as int;
    lemma_preceding_bounded(ranks, idx, a, n);
    lemma_preceding_bounded(ranks, idx, b, n);
    if precedes(ranks, idx, a, b) {
        lemma_preceding_more(ranks, idx, a, b, n);
    } else {
        assert(precedes(ranks, idx, b, a));
        lemma_preceding_more(ranks, idx, b, a, n);
    }
}

/// Sum, over the first `m` entries of `comb`, of how many of the first `n` ballots cast its ranking.
pub open spec fn pattern_sum(comb: Seq<(usize, Seq<Option<usize>>)>, ballots: Seq<Seq<Option<usize>>>, n: int, m: int) -> nat
    decreases m,
{
    if m <= 0 {
        0
    } else {
        pattern_sum(comb, ballots, n, m - 1) + pattern_count(ballots, comb[m - 1].1, n)
    }
}

/// Number of the first `m` entries of `comb` with ranking `p`.
pub open spec fn hits(comb: Seq<(usize, Seq<Option<usize>>)>, p: Seq<Option<usize>>, m: int) -> nat
    decreases m,
{
    if m <= 0 {
        0
    } else {
        hits(comb, p, m - 1) + if comb[m - 1].1 == p {
            1nat
        } else {
            0nat
        }
    }
}

proof fn lemma_pattern_sum_step(comb: Seq<(usize, Seq<Option<usize>>)>, ballots: Seq<Seq<Option<usize>>>, n: int, m: int)
    requires
        1 <= n,
        0 <= m,
    ensures
        pattern_sum(comb, ballots, n, m) == pattern_sum(comb, ballots, n - 1, m) + hits(comb, ballots[n - 1], m),
    decreases m,
{
    if m > 0 {
        lemma_pattern_sum_step(comb, ballots, n, m - 1);
    }
}

proof fn lemma_hits_once(comb: Seq<(usize, Seq<Option<usize>>)>, p: Seq<Option<usize>>, m: int)
    requires
        0 <= m <= comb.len(),
        forall|k1: int, k2: int| 0 <= k1 < k2 < comb.len() ==> comb[k1].1 != comb[k2].1,
    ensures
        hits(comb, p, m) == if exists|k: int| 0 <= k < m && #[trigger] comb[k].1 == p {
            1nat
        } else {
            0nat
        },
    decreases m,
{
    if m > 0 {
        lemma_hits_once(comb, p, m - 1);
        if comb[m - 1].1 == p {
            assert(!exists|k: int| 0 <= k < m - 1 && #[trigger] comb[k].1 == p);
        } else {
            if exists|k: int| 0 <= k < m && #[trigger] comb[k].1 == p {
                let k = choose|k: int| 0 <= k < m && #[trigger] comb[k].1 == p;
                assert(k < m - 1);
            }
        }
    }
}

proof fn lemma_pattern_sum_all(comb: Seq<(usize, Seq<Option<usize>>)>, ballots: Seq<Seq<Option<usize>>>, n: int)
    requires
        0 <= n <= ballots.len(),
        forall|k1: int, k2: int| 0 <= k1 < k2 < comb.len() ==> comb[k1].1 != comb[k2].1,
        forall|b: int| 0 <= b < n ==> covers(comb, #[trigger] ballots[b]),
    ensures
        pattern_sum(comb, ballots, n, comb.len() as int) == n,
    decreases n,
{
    if n == 0 {
        lemma_pattern_sum_empty(comb, ballots, comb.len() as int);
    } else {
        lemma_pattern_sum_all(comb, ballots, n - 1);
        lemma_pattern_sum_step(comb, ballots, n, comb.len() as int);
        lemma_hits_once(comb, ballots[n - 1], comb.len() as int);
        assert(covers(comb, ballots[n - 1]));
    }
}

proof fn lemma_pattern_sum_empty(comb: Seq<(usize, Seq<Option<usize>>)>, ballots: Seq<Seq<Option<usize>>>, m: int)
    requires
        0 <= m,
    ensures
        pattern_sum(comb, ballots, 0, m) == 0,
    decreases m,
{
    if m > 0 {
        lemma_pattern_sum_empty(comb, ballots, m - 1);
    }
}

proof fn lemma_votes_pattern_sum(comb: Seq<(usize, Seq<Option<usize>>)>, ballots: Seq<Seq<Option<usize>>>, m: int)
    requires
        0 <= m <= comb.len(),
        forall|k: int| 0 <= k < comb.len() ==> #[trigger] comb[k].0 == pattern_count(ballots, comb[k].1, ballots.len() as int),
    ensures
        votes_upto(comb, m) == pattern_sum(comb, ballots, ballots.len() as int, m),
    decreases m,
{
    if m > 0 {
        lemma_votes_pattern_sum(comb, ballots, m - 1);
    }
}

/// Combining identical ballots loses none and counts none twice: the votes of
/// the combined ballots add up to the number of ballots.
pub proof fn lemma_combined_votes(comb: Seq<(usize, Seq<Option<usize>>)>, ballots: Seq<Seq<Option<usize>>>)
    requires
        combines(comb, ballots),
    ensures
        total_votes(comb) == ballots.len(),
{
    lemma_votes_pattern_sum(comb, ballots, comb.len() as int);
    lemma_pattern_sum_all(comb, ballots, ballots.len() as int);
}

// ---------------------------------------------------------------------------
// Deciding whether a count can run
// ---------------------------------------------------------------------------

/// The total number of votes, if it fits in `usize`.
fn vote_total(ballots: &[CombinedBallot]) -> (r: Option<usize>)
    ensures
        r matches Some(t) ==> t == total_votes(ballots_model(ballots@)),
        r is None ==> total_votes(ballots_model(ballots@)) > usize::MAX,
{
    let ghost bm = ballots_model(ballots@);
    let mut t: usize = 0;
    let mut b: usize = 0;
    while b < ballots.len()
        invariant
            b <= ballots.len(),
            bm == ballots_model(ballots@),
            t == votes_upto(bm, b as int),
        decreases ballots.len() - b,
    {
        let v = ballots[b].votes;
        if t > usize::MAX - v {
            proof {
                lemma_votes_upto_monotone(bm, b + 1, bm.len() as int);
            }
            return None;
        }
        t = t + v;
        b += 1;
    }
    Some(t)
}

/// Whether a ballot's ranks can be held by a count over `n` candidates.
fn ranks_fit(ranks: &[Option<usize>], n: usize) -> (r: bool)
    ensures
        r == ranks_countable(ranks@, n as int),
{
    let mut ranked: usize = 0;
    let mut c: usize = 0;
    while c < ranks.len()
        invariant
            c <= ranks.len(),
            ranked == ranked_count(ranks@, c as int),
            ranked <= 255,
            forall|k: int| 0 <= k < c ==> (#[trigger] ranks@[k] matches Some(r) ==> r < usize::MAX),
            forall|k: int| 0 <= k < c && (#[trigger] ranks@[k]) is Some ==> k < n && k < 256,
        decreases ranks.len() - c,
    {
        if let Some(r) = ranks[c] {
            if r == usize::MAX || c >= n || c >= 256 || ranked == 255 {
                proof {
                    if ranked == 255 && !(r == usize::MAX || c >= n || c >= 256) {
                        lemma_ranked_count_monotone(ranks@, c + 1, ranks@.len() as int);
                    }
                }
                return false;
            }
            ranked = ranked + 1;
        }
        c += 1;
    }
    true
}

proof fn lemma_ranked_count_monotone(ranks: Seq<Option<usize>>, m: int, n: int)
    requires
        0 <= m <= n <= ranks.len(),
    ensures
        ranked_count(ranks, m) <= ranked_count(ranks, n),
    decreases n - m,
{
    if m < n {
        lemma_ranked_count_monotone(ranks, m, n - 1);
    }
}

proof fn lemma_local_ranked_monotone(ranks: Seq<Option<usize>>, idx: Seq<usize>, m: int, n: int)
    requires
        0 <= m <= n,
    ensures
        local_ranked(ranks, idx, m) <= local_ranked(ranks, idx, n),
    decreases n - m,
{
    if m < n {
        lemma_local_ranked_monotone(ranks, idx, m, n - 1);
    }
}

/// Whether a ballot restricted to the group `idx` can be held by the group's count.
fn local_fit(ranks: &[Option<usize>], idx: &Vec<usize>) -> (r: bool)
    ensures
        r == local_countable(ranks@, idx@),
{
    let mut ranked: usize = 0;
    let mut k: usize = 0;
    while k < idx.len()
        invariant
            k <= idx.len(),
            ranked == local_ranked(ranks@, idx@, k as int),
            ranked <= 255,
            forall|j: int| 0 <= j < k && (#[trigger] local_rank(ranks@, idx@, j)) is Some ==> j < 256,
        decreases idx.len() - k,
    {
        let c = idx[k];
        let is_ranked = c < ranks.len() && ranks[c].is_some();
        assert(is_ranked == local_rank(ranks@, idx@, k as int) is Some);
        if is_ranked {
            if k >= 256 || ranked == 255 {
                proof {
                    if k < 256 {
                        lemma_local_ranked_monotone(ranks@, idx@, k + 1, idx@.len() as int);
                    }
                }
                return false;
            }
            ranked = ranked + 1;
        }
        k += 1;
    }
    true
}

/// Whether a single (not grouped) count of `e` runs to its end.
fn single_count_runs(e: &Election) -> (r: bool)
    ensures
        r == countable(*e),
{
    let n = e.candidates().len();
    let seats = e.seats();
    if seats > n || seats == usize::MAX {
        return false;
    }
    let ballots = e.ballots();
    let ghost bm = ballots_model(ballots@);
    let mut b: usize = 0;
    while b < ballots.len()
        invariant
            b <= ballots.len(),
            bm == ballots_model(ballots@),
            ballots@ == e.ballot_seq(),
            n == e.cands().len(),
            forall|k: int| 0 <= k < b ==> ranks_countable(#[trigger] bm[k].1, n as int),
        decreases ballots.len() - b,
    {
        if !ranks_fit(ballots[b].ranks.as_slice(), n) {
            assert(bm[b as int].1 == ballots@[b as int].ranks@);
            return false;
        }
        b += 1;
    }
    if vote_total(ballots).is_none() {
        return false;
    }
    if e.election_type() == ElectionType::StvMdCoperland && n > 1 {
        let mut b: usize = 0;
        while b < ballots.len()
            invariant
                b <= ballots.len(),
                bm == ballots_model(ballots@),
                ballots@ == e.ballot_seq(),
                n == e.cands().len(),
                e.kind() == ElectionType::StvMdCoperland,
                n > 1,
                forall|k: int| 0 <= k < b ==> #[trigger] bm[k].1.len() >= n,
            decreases ballots.len() - b,
        {
            if ballots[b].ranks.len() < n {
                assert(bm[b as int].1.len() < n);
                return false;
            }
            b += 1;
        }
    }
    true
}

/// Whether group `g` of `e` can be counted.
fn group_runs(e: &Election, g: usize) -> (r: bool)
    requires
        g < e.group_seq().len(),
    ensures
        r == group_countable(*e, g as int),
{
    let groups = e.groups();
    let idx = group_members_of(e.candidate_groups(), &groups[g].name);
    assert(idx@ == members(*e, g as int));
    let n = e.candidates().len();
    let mut k: usize = 0;
    while k < idx.len()
        invariant
            k <= idx.len(),
            n == e.cands().len(),
            idx@ == members(*e, g as int),
            forall|j: int| 0 <= j < k ==> #[trigger] idx@[j] < n,
        decreases idx.len() - k,
    {
        if idx[k] >= n {
            return false;
        }
        k += 1;
    }
    let seats = groups[g].seats as usize;
    if seats > idx.len() || seats == usize::MAX {
        return false;
    }
    let ballots = e.ballots();
    let ghost bm = ballots_model(ballots@);
    let mut b: usize = 0;
    while b < ballots.len()
        invariant
            b <= ballots.len(),
            bm == ballots_model(ballots@),
            ballots@ == e.ballot_seq(),
            idx@ == members(*e, g as int),
            forall|j: int| 0 <= j < b ==> local_countable(#[trigger] bm[j].1, idx@),
        decreases ballots.len() - b,
    {
        if !local_fit(ballots[b].ranks.as_slice(), &idx) {
            assert(bm[b as int].1 == ballots@[b as int].ranks@);
            return false;
        }
        b += 1;
    }
    vote_total(ballots).is_some()
}

/// Whether a grouped count of `e` runs to its end.
fn grouped_count_runs(e: &Election) -> (r: bool)
    ensures
        r == grouped_countable(*e),
{
    let groups = e.groups();
    let ghost gs = groups@;
    let mut total: u64 = 0;
    let mut g: usize = 0;
    while g < groups.len()
        invariant
            g <= groups.len(),
            gs == groups@,
            gs == e.group_seq(),
            total == group_sum(gs, g as int),
            total <= u32::MAX,
        decreases groups.len() - g,
    {
        total = total + groups[g].seats as u64;
        if total > u32::MAX as u64 {
            proof {
                lemma_group_sum_monotone(gs, g + 1, gs.len() as int);
            }
            return false;
        }
        g += 1;
    }
    if total != e.seats() as u64 {
        return true;
    }
    let mut g: usize = 0;
    while g < groups.len()
        invariant
            g <= groups.len(),
            gs == groups@,
            gs == e.group_seq(),
            group_sum(gs, gs.len() as int) <= u32::MAX,
            group_sum(gs, gs.len() as int) == e.seat_count(),
            no_empty_before(*e, g as int),
            forall|h: int| 0 <= h < g && no_empty_before(*e, h + 1) ==> #[trigger] group_countable(*e, h),
        decreases groups.len() - g,
    {
        let idx = group_members_of(e.candidate_groups(), &groups[g].name);
        assert(idx@ == members(*e, g as int));
        if idx.len() == 0 {
            proof {
                assert forall|h: int| 0 <= h < gs.len() && no_empty_before(*e, h + 1) implies #[trigger] group_countable(*e, h) by {
                    if h >= g {
                        assert(members(*e, g as int).len() > 0);
                    }
                }
            }
            return true;
        }
        if !group_runs(e, g) {
            proof {
                assert(no_empty_before(*e, g + 1));
            }
            return false;
        }
        proof {
            assert(no_empty_before(*e, g + 1));
        }
        g += 1;
    }
    true
}

/// Whether `stv_droop` can count `e` to its end (what its `requires` asks).
pub fn count_runs(e: &Election) -> (r: bool)
    ensures
        r == ((e.kind() != ElectionType::StvMdGrouped ==> countable(*e)) && (e.kind()
            == ElectionType::StvMdGrouped ==> grouped_countable(*e))),
{
    if e.election_type() == ElectionType::StvMdGrouped {
        grouped_count_runs(e)
    } else {
        single_count_runs(e)
    }
}
} // verus!
