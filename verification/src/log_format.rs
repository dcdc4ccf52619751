//! The line formats of a counting log, each with the text it captures.
use vstd::prelude::*;

use crate::log::CountingLogCandidateStatus;
use crate::text::{
    chars_of, char_is_dec_digit, char_is_ws, count_lead_ws, has_prefix, is_dec_digit, is_ws, lead_ws,
    lemma_lead_ws_bound, parse_usize, parse_usize_exec, slice_chars, starts_with, trim, trimmed,
};

verus! {

/// `\s*(.+)$` applied to `rest`: optional whitespace, then at least one character.
pub open spec fn ws_then_text(rest: Seq<char>) -> Option<Seq<char>> {
    if rest.len() == 0 {
        None
    } else if lead_ws(rest) < rest.len() {
        Some(rest.skip(lead_ws(rest) as int))
    } else {
        Some(rest.skip(rest.len() - 1))
    }
}

/// `\s+(.+)$` applied to `rest`: some whitespace, then at least one character.
pub open spec fn ws1_then_text(rest: Seq<char>) -> Option<Seq<char>> {
    let k = lead_ws(rest);
    if k == 0 {
        None
    } else if k < rest.len() {
        Some(rest.skip(k as int))
    } else if rest.len() >= 2 {
        Some(rest.skip(rest.len() - 1))
    } else {
        None
    }
}

pub fn ws_then_text_exec(rest: &[char]) -> (r: Option<Vec<char>>)
    ensures
        r matches Some(t) ==> ws_then_text(rest@) == Some(t@),
        r is None ==> ws_then_text(rest@) is None,
{
    if rest.len() == 0 {
        return None;
    }
    let k = count_lead_ws(rest);
    proof {
        lemma_lead_ws_bound(rest@);
    }
    if k < rest.len() {
        proof {
            assert(rest@.skip(k as int) =~= rest@.subrange(k as int, rest@.len() as int));
        }
        Some(slice_chars(rest, k, rest.len()))
    } else {
        proof {
            assert(rest@.skip(rest@.len() - 1) =~= rest@.subrange(rest@.len() - 1, rest@.len() as int));
        }
        Some(slice_chars(rest, rest.len() - 1, rest.len()))
    }
}

pub fn ws1_then_text_exec(rest: &[char]) -> (r: Option<Vec<char>>)
    ensures
        r matches Some(t) ==> ws1_then_text(rest@) == Some(t@),
        r is None ==> ws1_then_text(rest@) is None,
{
    let k = count_lead_ws(rest);
    proof {
        lemma_lead_ws_bound(rest@);
    }
    if k == 0 {
        None
    } else if k < rest.len() {
        proof {
            assert(rest@.skip(k as int) =~= rest@.subrange(k as int, rest@.len() as int));
        }
        Some(slice_chars(rest, k, rest.len()))
    } else if rest.len() >= 2 {
        proof {
            assert(rest@.skip(rest@.len() - 1) =~= rest@.subrange(rest@.len() - 1, rest@.len() as int));
        }
        Some(slice_chars(rest, rest.len() - 1, rest.len()))
    } else {
        None
    }
}

/// The rest of `line` after the literal prefix `p`, if `line` starts with it.
pub fn after_prefix(line: &[char], p: &str) -> (r: Option<Vec<char>>)
    ensures
        r matches Some(t) ==> has_prefix(line@, p@) && t@ == line@.skip(p@.len() as int),
        r is None ==> !has_prefix(line@, p@),
{
    let pv = chars_of(p);
    if starts_with(line, &pv) {
        proof {
            assert(line@.skip(pv@.len() as int) =~= line@.subrange(pv@.len() as int, line@.len() as int));
        }
        Some(slice_chars(line, pv.len(), line.len()))
    } else {
        None
    }
}

// ---------------------------------------------------------------------------
// Title, candidates, rounds and actions
// ---------------------------------------------------------------------------

/// `^Election:\s*(.+)$`: the election title.
pub open spec fn title_line(line: Seq<char>) -> Option<Seq<char>> {
    if has_prefix(line, "Election:"@) {
        ws_then_text(line.skip("Election:"@.len() as int))
    } else {
        None
    }
}

/// `^\tAdd (eligible|withdrawn):\s*(.+)$`: whether the candidate withdrew, and its name.
pub open spec fn candidate_line(line: Seq<char>) -> Option<(bool, Seq<char>)> {
    if has_prefix(line, "\tAdd eligible:"@) {
        match ws_then_text(line.skip("\tAdd eligible:"@.len() as int)) {
            Some(name) => Some((false, name)),
            None => None,
        }
    } else if has_prefix(line, "\tAdd withdrawn:"@) {
        match ws_then_text(line.skip("\tAdd withdrawn:"@.len() as int)) {
            Some(name) => Some((true, name)),
            None => None,
        }
    } else {
        None
    }
}

/// The digits of `^Round\s+(\d+):$`, if `line` has that form.
pub open spec fn round_digits(line: Seq<char>) -> Option<Seq<char>> {
    if has_prefix(line, "Round"@) {
        let rest = line.skip("Round"@.len() as int);
        if rest.len() >= 1 && rest.last() == ':' {
            let mid = rest.drop_last();
            let k = lead_ws(mid);
            let digits = mid.skip(k as int);
            if k >= 1 && digits.len() >= 1 && (forall|j: int| 0 <= j < digits.len() ==> is_dec_digit(#[trigger] digits[j])) {
                Some(digits)
            } else {
                None
            }
        } else {
            None
        }
    } else {
        None
    }
}

/// `^Round\s+(\d+):$`: the round number, 0 when the digits do not make a `usize`.
pub open spec fn round_line(line: Seq<char>) -> Option<usize> {
    match round_digits(line) {
        Some(d) => Some(
            match parse_usize(d) {
                Some(n) => n,
                None => 0,
            },
        ),
        None => None,
    }
}

/// `^Action:\s+(.+)$`: the action text.
pub open spec fn action_line(line: Seq<char>) -> Option<Seq<char>> {
    if has_prefix(line, "Action:"@) {
        ws1_then_text(line.skip("Action:"@.len() as int))
    } else {
        None
    }
}

pub fn title_line_exec(line: &[char]) -> (r: Option<Vec<char>>)
    ensures
        r matches Some(t) ==> title_line(line@) == Some(t@),
        r is None ==> title_line(line@) is None,
{
    match after_prefix(line, "Election:") {
        Some(rest) => ws_then_text_exec(&rest),
        None => None,
    }
}

pub fn candidate_line_exec(line: &[char]) -> (r: Option<(bool, Vec<char>)>)
    ensures
        r matches Some(t) ==> candidate_line(line@) == Some((t.0, t.1@)),
        r is None ==> candidate_line(line@) is None,
{
    match after_prefix(line, "\tAdd eligible:") {
        Some(rest) => match ws_then_text_exec(&rest) {
            Some(name) => Some((false, name)),
            None => None,
        },
        None => match after_prefix(line, "\tAdd withdrawn:") {
            Some(rest) => match ws_then_text_exec(&rest) {
                Some(name) => Some((true, name)),
                None => None,
            },
            None => None,
        },
    }
}

fn all_dec_digits(v: &[char]) -> (b: bool)
    ensures
        b == (forall|j: int| 0 <= j < v@.len() ==> is_dec_digit(#[trigger] v@[j])),
{
    let mut j: usize = 0;
    while j < v.len()
        invariant
            j <= v.len(),
            forall|i: int| 0 <= i < j ==> is_dec_digit(#[trigger] v@[i]),
        decreases v.len() - j,
    {
        if !char_is_dec_digit(v[j]) {
            return false;
        }
        j += 1;
    }
    true
}

pub fn round_line_exec(line: &[char]) -> (r: Option<usize>)
    ensures
        r == round_line(line@),
{
    let rest = match after_prefix(line, "Round") {
        Some(rest) => rest,
        None => return None,
    };
    if rest.len() < 1 || rest[rest.len() - 1] != ':' {
        return None;
    }
    let mid = slice_chars(&rest, 0, rest.len() - 1);
    assert(mid@ =~= rest@.drop_last());
    let k = count_lead_ws(&mid);
    proof {
        lemma_lead_ws_bound(mid@);
    }
    if k < 1 || k >= mid.len() {
        return None;
    }
    let digits = slice_chars(&mid, k, mid.len());
    assert(digits@ =~= mid@.skip(k as int));
    if !all_dec_digits(&digits) {
        return None;
    }
    match parse_usize_exec(&digits) {
        Some(n) => Some(n),
        None => Some(0),
    }
}

pub fn action_line_exec(line: &[char]) -> (r: Option<Vec<char>>)
    ensures
        r matches Some(t) ==> action_line(line@) == Some(t@),
        r is None ==> action_line(line@) is None,
{
    match after_prefix(line, "Action:") {
        Some(rest) => ws1_then_text_exec(&rest),
        None => None,
    }
}

// ---------------------------------------------------------------------------
// Header fields
// ---------------------------------------------------------------------------

/// The last position `2 <= p <= hi` of a `:` in `line`, or -1.
pub open spec fn last_colon_upto(line: Seq<char>, hi: int) -> int
    decreases hi,
{
    if hi < 2 {
        -1
    } else if line[hi] == ':' {
        hi
    } else {
        last_colon_upto(line, hi - 1)
    }
}

/// `^\t(.+):\s*(.+)$`: the trimmed key and value of a header field. The key
/// extends to the last colon that is followed by at least one character.
pub open spec fn header_field(line: Seq<char>) -> Option<(Seq<char>, Seq<char>)> {
    if line.len() >= 1 && line[0] == '\t' {
        let p = last_colon_upto(line, line.len() - 2);
        if p >= 2 {
            Some((trim(line.subrange(1, p)), trim(line.skip(p + 1))))
        } else {
            None
        }
    } else {
        None
    }
}

/// `^\t(\S+)$`: the package name.
pub open spec fn package_line(line: Seq<char>) -> Option<Seq<char>> {
    if line.len() >= 2 && line[0] == '\t' && (forall|j: int| 1 <= j < line.len() ==> !is_ws(#[trigger] line[j])) {
        Some(line.skip(1))
    } else {
        None
    }
}

proof fn lemma_last_colon(line: Seq<char>, hi: int, p: int)
    requires
        hi < line.len(),
        p <= hi,
        p < 2 || line[p] == ':',
        forall|j: int| p < j <= hi && j >= 2 ==> line[j] != ':',
    ensures
        last_colon_upto(line, hi) == if p < 2 { -1 } else { p },
    decreases hi - p,
{
    if hi >= 2 && hi > p {
        lemma_last_colon(line, hi - 1, p);
    }
}

pub fn header_field_exec(line: &[char]) -> (r: Option<(Vec<char>, Vec<char>)>)
    ensures
        r matches Some(t) ==> header_field(line@) == Some((t.0@, t.1@)),
        r is None ==> header_field(line@) is None,
{
    if line.len() < 1 || line[0] != '\t' {
        return None;
    }
    if line.len() < 4 {
        proof {
            lemma_last_colon(line@, line@.len() - 2, line@.len() - 2);
        }
        if line.len() >= 2 {
            proof {
                if line@.len() - 2 >= 2 {
                    assert(false);
                }
            }
        }
        return None;
    }
    let mut p: usize = line.len() - 2;
    while p >= 2 && line[p] != ':'
        invariant
            p <= line.len() - 2,
            line.len() >= 4,
            forall|j: int| p < j <= line.len() - 2 && j >= 2 ==> line@[j] != ':',
        decreases p,
    {
        p -= 1;
    }
    proof {
        lemma_last_colon(line@, line@.len() - 2, p as int);
    }
    if p < 2 {
        return None;
    }
    let key = slice_chars(line, 1, p);
    let val = slice_chars(line, p + 1, line.len());
    assert(val@ =~= line@.skip(p + 1));
    Some((trimmed(&key), trimmed(&val)))
}

pub fn package_line_exec(line: &[char]) -> (r: Option<Vec<char>>)
    ensures
        r matches Some(t) ==> package_line(line@) == Some(t@),
        r is None ==> package_line(line@) is None,
{
    if line.len() < 2 || line[0] != '\t' {
        return None;
    }
    let mut j: usize = 1;
    while j < line.len()
        invariant
            1 <= j <= line.len(),
            forall|i: int| 1 <= i < j ==> !is_ws(#[trigger] line@[i]),
        decreases line.len() - j,
    {
        if char_is_ws(line[j]) {
            return None;
        }
        j += 1;
    }
    let r = slice_chars(line, 1, line.len());
    assert(r@ =~= line@.skip(1));
    Some(r)
}

// ---------------------------------------------------------------------------
// Candidate counts and statistics within an action
// ---------------------------------------------------------------------------

pub open spec fn is_count_char(c: char) -> bool {
    ('0' <= c <= '9') || c == '.'
}

/// Number of characters of `[0-9.]` at the end of `s`.
pub open spec fn trail_count_chars(s: Seq<char>) -> nat
    decreases s.len(),
{
    if s.len() > 0 && is_count_char(s.last()) {
        1 + trail_count_chars(s.drop_last())
    } else {
        0
    }
}

/// `^\tDefeated:\s*(.+?)\s*\(([0-9.]+)\)$`: the trimmed list of names and the votes.
pub open spec fn count_list(line: Seq<char>) -> Option<(Seq<char>, Seq<char>)> {
    if has_prefix(line, "\tDefeated:"@) {
        let t = line.skip("\tDefeated:"@.len() as int);
        if t.len() >= 1 && t.last() == ')' {
            let body = t.drop_last();
            let d = trail_count_chars(body);
            let q = body.len() - d - 1;
            if d >= 1 && q >= 1 && body[q] == '(' {
                Some((trim(body.take(q)), body.skip(q + 1)))
            } else {
                None
            }
        } else {
            None
        }
    } else {
        None
    }
}

/// Whether `body` has no `)` from position `from` on.
pub open spec fn no_close_from(body: Seq<char>, from: int) -> bool {
    forall|j: int| from <= j < body.len() ==> body[j] != ')'
}

/// Whether the `(` at `q` can open the vote count `\(([^)]+)\)$`.
pub open spec fn opens_votes(body: Seq<char>, q: int) -> bool {
    0 <= q && q + 1 < body.len() && body[q] == '(' && no_close_from(body, q + 1)
}

/// The first position at or after `lo` that can open the vote count, or -1.
pub open spec fn first_opening(body: Seq<char>, lo: int) -> int
    decreases body.len() - lo,
{
    if lo < 0 || lo >= body.len() {
        -1
    } else if opens_votes(body, lo) {
        lo
    } else {
        first_opening(body, lo + 1)
    }
}

/// The `(` that `\s*(.+?)\s*\(` selects: the first opening after the leading
/// whitespace and one more character, else one right after the leading
/// whitespace; -1 if there is none.
pub open spec fn votes_opening(body: Seq<char>) -> int {
    let m = lead_ws(body) as int;
    let q = first_opening(body, m + 1);
    if q >= 0 {
        q
    } else if m >= 1 && opens_votes(body, m) {
        m
    } else {
        -1
    }
}

pub open spec fn status_prefix(s: CountingLogCandidateStatus) -> Seq<char> {
    match s {
        CountingLogCandidateStatus::Elected => "\tElected:"@,
        CountingLogCandidateStatus::Hopeful => "\tHopeful:"@,
        CountingLogCandidateStatus::Defeated => "\tDefeated:"@,
    }
}

/// The status whose prefix `line` starts with, trying Elected, Hopeful, Defeated.
pub open spec fn status_of_line(line: Seq<char>) -> Option<CountingLogCandidateStatus> {
    if has_prefix(line, "\tElected:"@) {
        Some(CountingLogCandidateStatus::Elected)
    } else if has_prefix(line, "\tHopeful:"@) {
        Some(CountingLogCandidateStatus::Hopeful)
    } else if has_prefix(line, "\tDefeated:"@) {
        Some(CountingLogCandidateStatus::Defeated)
    } else {
        None
    }
}

/// `^\t(Elected|Hopeful|Defeated):\s*(.+?)\s*\(([^)]+)\)$`: status, trimmed name and votes.
pub open spec fn count_line(line: Seq<char>) -> Option<(CountingLogCandidateStatus, Seq<char>, Seq<char>)> {
    match status_of_line(line) {
        Some(status) => {
            let t = line.skip(status_prefix(status).len() as int);
            if t.len() >= 1 && t.last() == ')' {
                let body = t.drop_last();
                let q = votes_opening(body);
                if q >= 0 {
                    Some((status, trim(body.take(q)), body.skip(q + 1)))
                } else {
                    None
                }
            } else {
                None
            }
        },
        None => None,
    }
}

/// `^\t(Quota|Votes|Residual|Total|Surplus):\s*(.+)$`: which statistic
/// (0 to 4, in that order) and its trimmed value.
pub open spec fn stats_line(line: Seq<char>) -> Option<(int, Seq<char>)> {
    let key: int = if has_prefix(line, "\tQuota:"@) {
        0
    } else if has_prefix(line, "\tVotes:"@) {
        1
    } else if has_prefix(line, "\tResidual:"@) {
        2
    } else if has_prefix(line, "\tTotal:"@) {
        3
    } else if has_prefix(line, "\tSurplus:"@) {
        4
    } else {
        -1
    };
    let plen: int = if key == 0 {
        "\tQuota:"@.len() as int
    } else if key == 1 {
        "\tVotes:"@.len() as int
    } else if key == 2 {
        "\tResidual:"@.len() as int
    } else if key == 3 {
        "\tTotal:"@.len() as int
    } else {
        "\tSurplus:"@.len() as int
    };
    if key >= 0 && line.len() > plen {
        Some((key, trim(line.skip(plen))))
    } else {
        None
    }
}

proof fn lemma_trail_count_chars(s: Seq<char>, k: int)
    requires
        0 <= k <= s.len(),
        forall|j: int| s.len() - k <= j < s.len() ==> is_count_char(#[trigger] s[j]),
        k == s.len() || !is_count_char(s[s.len() - k - 1]),
    ensures
        trail_count_chars(s) == k,
    decreases k,
{
    if k > 0 {
        let t = s.drop_last();
        assert forall|j: int| t.len() - (k - 1) <= j < t.len() implies is_count_char(#[trigger] t[j]) by {
            assert(t[j] == s[j]);
        }
        if k - 1 < t.len() {
            assert(t[t.len() - (k - 1) - 1] == s[s.len() - k - 1]);
        }
        lemma_trail_count_chars(t, k - 1);
    }
}

pub fn count_list_exec(line: &[char]) -> (r: Option<(Vec<char>, Vec<char>)>)
    ensures
        r matches Some(t) ==> count_list(line@) == Some((t.0@, t.1@)),
        r is None ==> count_list(line@) is None,
{
    let t = match after_prefix(line, "\tDefeated:") {
        Some(t) => t,
        None => return None,
    };
    if t.len() < 1 || t[t.len() - 1] != ')' {
        return None;
    }
    let body = slice_chars(&t, 0, t.len() - 1);
    assert(body@ =~= t@.drop_last());
    let mut d: usize = 0;
    while d < body.len() && (('0' <= body[body.len() - d - 1] && body[body.len() - d - 1] <= '9')
        || body[body.len() - d - 1] == '.')
        invariant
            d <= body.len(),
            forall|j: int| body.len() - d <= j < body.len() ==> is_count_char(#[trigger] body@[j]),
        decreases body.len() - d,
    {
        d += 1;
    }
    proof {
        lemma_trail_count_chars(body@, d as int);
    }
    if d < 1 || d + 1 > body.len() {
        return None;
    }
    let q = body.len() - d - 1;
    if q < 1 || body[q] != '(' {
        return None;
    }
    let names = slice_chars(&body, 0, q);
    let votes = slice_chars(&body, q + 1, body.len());
    assert(names@ =~= body@.take(q as int));
    assert(votes@ =~= body@.skip(q + 1));
    Some((trimmed(&names), votes))
}

fn no_close_from_exec(body: &[char], from: usize) -> (b: bool)
    ensures
        b == no_close_from(body@, from as int),
{
    let mut j: usize = from;
    while j < body.len()
        invariant
            from <= j,
            forall|i: int| from <= i < j ==> body@[i] != ')',
        decreases body.len() - j,
    {
        if body[j] == ')' {
            return false;
        }
        j += 1;
    }
    true
}

fn opens_votes_exec(body: &[char], q: usize) -> (b: bool)
    ensures
        b == opens_votes(body@, q as int),
{
    q < body.len() && q + 1 < body.len() && body[q] == '(' && no_close_from_exec(body, q + 1)
}

proof fn lemma_first_opening(body: Seq<char>, lo: int, q: int)
    requires
        0 <= lo <= q,
        forall|j: int| lo <= j < q ==> !opens_votes(body, j),
        q >= body.len() || opens_votes(body, q),
    ensures
        first_opening(body, lo) == if q >= body.len() { -1 } else { q },
    decreases q - lo,
{
    if lo < q && lo < body.len() {
        lemma_first_opening(body, lo + 1, q);
    }
}

pub fn count_line_exec(line: &[char]) -> (r: Option<(CountingLogCandidateStatus, Vec<char>, Vec<char>)>)
    ensures
        r matches Some(t) ==> count_line(line@) == Some((t.0, t.1@, t.2@)),
        r is None ==> count_line(line@) is None,
{
    let (status, t) = match after_prefix(line, "\tElected:") {
        Some(t) => (CountingLogCandidateStatus::Elected, t),
        None => match after_prefix(line, "\tHopeful:") {
            Some(t) => (CountingLogCandidateStatus::Hopeful, t),
            None => match after_prefix(line, "\tDefeated:") {
                Some(t) => (CountingLogCandidateStatus::Defeated, t),
                None => return None,
            },
        },
    };
    assert(status_of_line(line@) == Some(status));
    if t.len() < 1 || t[t.len() - 1] != ')' {
        return None;
    }
    let body = slice_chars(&t, 0, t.len() - 1);
    assert(body@ =~= t@.drop_last());
    let m = count_lead_ws(&body);
    proof {
        lemma_lead_ws_bound(body@);
    }
    let mut q: usize = m + 1;
    while q < body.len() && !opens_votes_exec(&body, q)
        invariant
            m + 1 <= q,
            m <= body.len(),
            forall|j: int| m + 1 <= j < q ==> !opens_votes(body@, j),
        decreases body.len() - q,
    {
        q += 1;
    }
    proof {
        lemma_first_opening(body@, m + 1, q as int);
    }
    let q = if q < body.len() {
        q
    } else if m >= 1 && opens_votes_exec(&body, m) {
        m
    } else {
        return None;
    };
    let name = slice_chars(&body, 0, q);
    let votes = slice_chars(&body, q + 1, body.len());
    assert(name@ =~= body@.take(q as int));
    assert(votes@ =~= body@.skip(q + 1));
    Some((status, trimmed(&name), votes))
}

pub fn stats_line_exec(line: &[char]) -> (r: Option<(u8, Vec<char>)>)
    ensures
        r matches Some(t) ==> stats_line(line@) == Some((t.0 as int, t.1@)),
        r is None ==> stats_line(line@) is None,
{
    let (key, rest): (u8, Vec<char>) = match after_prefix(line, "\tQuota:") {
        Some(t) => (0, t),
        None => match after_prefix(line, "\tVotes:") {
            Some(t) => (1, t),
            None => match after_prefix(line, "\tResidual:") {
                Some(t) => (2, t),
                None => match after_prefix(line, "\tTotal:") {
                    Some(t) => (3, t),
                    None => match after_prefix(line, "\tSurplus:") {
                        Some(t) => (4, t),
                        None => return None,
                    },
                },
            },
        },
    };
    if rest.len() == 0 {
        return None;
    }
    Some((key, trimmed(&rest)))
}

} // verus!
