use vstd::prelude::*;

verus! {

/// Unicode `White_Space`: the characters that `char::is_whitespace`, `str::trim`
/// and the `\s` class of a regular expression treat as whitespace.
pub open spec fn is_ws(c: char) -> bool {
    let u = c as u32;
    ||| 0x9 <= u <= 0xd
    ||| u == 0x20
    ||| u == 0x85
    ||| u == 0xa0
    ||| u == 0x1680
    ||| 0x2000 <= u <= 0x200a
    ||| u == 0x2028
    ||| u == 0x2029
    ||| u == 0x202f
    ||| u == 0x205f
    ||| u == 0x3000
}

pub fn char_is_ws(c: char) -> (b: bool)
    ensures
        b == is_ws(c),
{
    let u = c as u32;
    (0x9 <= u && u <= 0xd) || u == 0x20 || u == 0x85 || u == 0xa0 || u == 0x1680 || (0x2000 <= u
        && u <= 0x200a) || u == 0x2028 || u == 0x2029 || u == 0x202f || u == 0x205f || u == 0x3000
}

/// Appends one character to a string (`String::push`).
#[verifier::external_body]
pub(crate) fn push_char(s: &mut String, c: char)
    ensures
        final(s)@ == old(s)@.push(c),
{
    s.push(c);
}

/// The characters of a string, in order.
pub fn chars_of(s: &str) -> (v: Vec<char>)
    ensures
        v@ == s@,
{
    let mut v: Vec<char> = Vec::new();
    let mut it = s.chars();
    for c in iter: it
        invariant
            v@ == iter.seq().take(iter.index() as int),
    {
        v.push(c);
    }
    v
}

/// A string holding exactly the given characters.
pub fn string_of(v: &[char]) -> (s: String)
    ensures
        s@ == v@,
{
    let mut s = String::new();
    let mut i: usize = 0;
    while i < v.len()
        invariant
            i <= v.len(),
            s@ == v@.take(i as int),
        decreases v.len() - i,
    {
        push_char(&mut s, v[i]);
        proof {
            assert(v@.take(i as int).push(v@[i as int]) =~= v@.take(i + 1));
        }
        i += 1;
    }
    proof {
        assert(v@.take(v.len() as int) =~= v@);
    }
    s
}


// ---------------------------------------------------------------------------
// Whitespace trimming
// ---------------------------------------------------------------------------

/// Number of whitespace characters at the start of `s`.
pub open spec fn lead_ws(s: Seq<char>) -> nat
    decreases s.len(),
{
    if s.len() > 0 && is_ws(s[0]) {
        1 + lead_ws(s.drop_first())
    } else {
        0
    }
}

/// Number of whitespace characters at the end of `s`.
pub open spec fn trail_ws(s: Seq<char>) -> nat
    decreases s.len(),
{
    if s.len() > 0 && is_ws(s.last()) {
        1 + trail_ws(s.drop_last())
    } else {
        0
    }
}

/// `s` without leading whitespace (`str::trim_start`).
pub open spec fn trim_start(s: Seq<char>) -> Seq<char> {
    s.skip(lead_ws(s) as int)
}

/// `s` without trailing whitespace (`str::trim_end`).
pub open spec fn trim_end(s: Seq<char>) -> Seq<char> {
    s.take(s.len() - trail_ws(s))
}

/// `s` without leading and trailing whitespace (`str::trim`).
pub open spec fn trim(s: Seq<char>) -> Seq<char> {
    trim_end(trim_start(s))
}

pub proof fn lemma_lead_ws(s: Seq<char>, k: int)
    requires
        0 <= k <= s.len(),
        forall|j: int| 0 <= j < k ==> is_ws(#[trigger] s[j]),
        k == s.len() || !is_ws(s[k]),
    ensures
        lead_ws(s) == k,
    decreases k,
{
    if k > 0 {
        let t = s.drop_first();
        assert forall|j: int| 0 <= j < k - 1 implies is_ws(#[trigger] t[j]) by {
            assert(t[j] == s[j + 1]);
        }
        if k - 1 < t.len() {
            assert(t[k - 1] == s[k]);
        }
        lemma_lead_ws(t, k - 1);
    }
}

pub proof fn lemma_trail_ws(s: Seq<char>, k: int)
    requires
        0 <= k <= s.len(),
        forall|j: int| s.len() - k <= j < s.len() ==> is_ws(#[trigger] s[j]),
        k == s.len() || !is_ws(s[s.len() - k - 1]),
    ensures
        trail_ws(s) == k,
    decreases k,
{
    if k > 0 {
        let t = s.drop_last();
        assert forall|j: int| t.len() - (k - 1) <= j < t.len() implies is_ws(#[trigger] t[j]) by {
            assert(t[j] == s[j]);
        }
        if k - 1 < t.len() {
            assert(t[t.len() - (k - 1) - 1] == s[s.len() - k - 1]);
        }
        lemma_trail_ws(t, k - 1);
    }
}

pub proof fn lemma_lead_ws_bound(s: Seq<char>)
    ensures
        lead_ws(s) <= s.len(),
        forall|j: int| 0 <= j < lead_ws(s) ==> is_ws(#[trigger] s[j]),
        lead_ws(s) < s.len() ==> !is_ws(s[lead_ws(s) as int]),
    decreases s.len(),
{
    if s.len() > 0 && is_ws(s[0]) {
        let t = s.drop_first();
        lemma_lead_ws_bound(t);
        assert forall|j: int| 0 <= j < lead_ws(s) implies is_ws(#[trigger] s[j]) by {
            if j > 0 {
                assert(s[j] == t[j - 1]);
            }
        }
        if lead_ws(s) < s.len() {
            assert(s[lead_ws(s) as int] == t[lead_ws(t) as int]);
        }
    }
}

pub proof fn lemma_trail_ws_bound(s: Seq<char>)
    ensures
        trail_ws(s) <= s.len(),
        forall|j: int| s.len() - trail_ws(s) <= j < s.len() ==> is_ws(#[trigger] s[j]),
        trail_ws(s) < s.len() ==> !is_ws(s[s.len() - trail_ws(s) - 1]),
    decreases s.len(),
{
    if s.len() > 0 && is_ws(s.last()) {
        let t = s.drop_last();
        lemma_trail_ws_bound(t);
        assert forall|j: int| s.len() - trail_ws(s) <= j < s.len() implies is_ws(#[trigger] s[j]) by {
            if j < s.len() - 1 {
                assert(s[j] == t[j]);
            }
        }
        if trail_ws(s) < s.len() {
            assert(s[s.len() - trail_ws(s) - 1] == t[t.len() - trail_ws(t) - 1]);
        }
    }
}

/// Number of whitespace characters at the start of `v`.
pub fn count_lead_ws(v: &[char]) -> (k: usize)
    ensures
        k == lead_ws(v@),
{
    let mut k: usize = 0;
    while k < v.len() && char_is_ws(v[k])
        invariant
            k <= v.len(),
            forall|j: int| 0 <= j < k ==> is_ws(#[trigger] v@[j]),
        decreases v.len() - k,
    {
        k += 1;
    }
    proof {
        lemma_lead_ws(v@, k as int);
    }
    k
}

/// Number of whitespace characters at the end of `v`.
pub fn count_trail_ws(v: &[char]) -> (k: usize)
    ensures
        k == trail_ws(v@),
{
    let mut k: usize = 0;
    while k < v.len() && char_is_ws(v[v.len() - k - 1])
        invariant
            k <= v.len(),
            forall|j: int| v.len() - k <= j < v.len() ==> is_ws(#[trigger] v@[j]),
        decreases v.len() - k,
    {
        k += 1;
    }
    proof {
        lemma_trail_ws(v@, k as int);
    }
    k
}

/// The characters `v[lo..hi]`.
pub fn slice_chars(v: &[char], lo: usize, hi: usize) -> (r: Vec<char>)
    requires
        lo <= hi <= v@.len(),
    ensures
        r@ == v@.subrange(lo as int, hi as int),
{
    let mut r: Vec<char> = Vec::new();
    let mut i: usize = lo;
    while i < hi
        invariant
            lo <= i <= hi <= v@.len(),
            r@ == v@.subrange(lo as int, i as int),
        decreases hi - i,
    {
        r.push(v[i]);
        i += 1;
        proof {
            assert(r@ =~= v@.subrange(lo as int, i as int));
        }
    }
    r
}

/// `v` without leading and trailing whitespace.
pub fn trimmed(v: &[char]) -> (r: Vec<char>)
    ensures
        r@ == trim(v@),
{
    let a = count_lead_ws(v);
    proof {
        lemma_lead_ws_bound(v@);
    }
    let t = slice_chars(v, a, v.len());
    let b = count_trail_ws(&t);
    proof {
        lemma_trail_ws_bound(t@);
    }
    slice_chars(&t, 0, t.len() - b)
}

/// Whether every character of `s` is whitespace (`str::trim(s).is_empty()`).
pub open spec fn blank(s: Seq<char>) -> bool {
    trim(s).len() == 0
}

// ---------------------------------------------------------------------------
// Prefixes, searching and splitting
// ---------------------------------------------------------------------------

pub open spec fn has_prefix(s: Seq<char>, p: Seq<char>) -> bool {
    p.len() <= s.len() && s.take(p.len() as int) == p
}

pub fn starts_with(v: &[char], p: &[char]) -> (b: bool)
    ensures
        b == has_prefix(v@, p@),
{
    if p.len() > v.len() {
        return false;
    }
    let mut i: usize = 0;
    while i < p.len()
        invariant
            p.len() <= v.len(),
            i <= p.len(),
            forall|j: int| 0 <= j < i ==> v@[j] == p@[j],
        decreases p.len() - i,
    {
        if v[i] != p[i] {
            proof {
                assert(v@.take(p.len() as int)[i as int] != p@[i as int]);
            }
            return false;
        }
        i += 1;
    }
    proof {
        assert(v@.take(p.len() as int) =~= p@);
    }
    true
}

/// Whether `pat` occurs in `s` at position `k`.
pub open spec fn occurs_at(s: Seq<char>, pat: Seq<char>, k: int) -> bool {
    0 <= k && k + pat.len() <= s.len() && s.subrange(k, k + pat.len()) == pat
}

/// `pat` occurs somewhere in `s`.
pub open spec fn contains_text(s: Seq<char>, pat: Seq<char>) -> bool {
    exists|p: int| #[trigger] occurs_at(s, pat, p)
}

/// A text contains itself.
pub proof fn lemma_contains_self(s: Seq<char>)
    ensures
        contains_text(s, s),
{
    assert(s.subrange(0, s.len() as int) =~= s);
    assert(occurs_at(s, s, 0));
}

/// What a part of a text contains, the text contains.
pub proof fn lemma_contains_part(s: Seq<char>, m: Seq<char>, k: int, pat: Seq<char>)
    requires
        0 <= k,
        k + m.len() <= s.len(),
        s.subrange(k, k + m.len()) == m,
        contains_text(m, pat),
    ensures
        contains_text(s, pat),
{
    let p = choose|p: int| occurs_at(m, pat, p);
    let sub = s.subrange(k, k + m.len());
    assert(s.subrange(k + p, k + p + pat.len()) =~= sub.subrange(p, p + pat.len()));
    assert(occurs_at(s, pat, k + p));
}

/// What either side of a concatenation contains, the concatenation contains.
pub proof fn lemma_contains_sides(a: Seq<char>, b: Seq<char>, pat: Seq<char>)
    ensures
        contains_text(a, pat) ==> contains_text(a + b, pat),
        contains_text(b, pat) ==> contains_text(a + b, pat),
{
    if contains_text(a, pat) {
        assert((a + b).subrange(0, a.len() as int) =~= a);
        lemma_contains_part(a + b, a, 0, pat);
    }
    if contains_text(b, pat) {
        assert((a + b).subrange(a.len() as int, (a.len() + b.len()) as int) =~= b);
        lemma_contains_part(a + b, b, a.len() as int, pat);
    }
}

/// First position at or after `from` where `pat` occurs in `s`, or -1.
pub open spec fn find_from(s: Seq<char>, pat: Seq<char>, from: int) -> int
    decreases s.len() + 1 - from,
{
    if from < 0 || from + pat.len() > s.len() {
        -1
    } else if occurs_at(s, pat, from) {
        from
    } else {
        find_from(s, pat, from + 1)
    }
}

/// First position where `pat` occurs in `s`, or -1 (`str::find`).
pub open spec fn find(s: Seq<char>, pat: Seq<char>) -> int {
    find_from(s, pat, 0)
}

pub proof fn lemma_find_from(s: Seq<char>, pat: Seq<char>, from: int, k: int)
    requires
        0 <= from <= k,
        forall|j: int| from <= j < k ==> !occurs_at(s, pat, j),
        (k + pat.len() <= s.len() && occurs_at(s, pat, k)) || k + pat.len() > s.len(),
    ensures
        find_from(s, pat, from) == if k + pat.len() > s.len() { -1 } else { k },
    decreases k - from,
{
    if from < k {
        assert(!occurs_at(s, pat, from));
        lemma_find_from(s, pat, from + 1, k);
    }
}

pub proof fn lemma_find_from_found(s: Seq<char>, pat: Seq<char>, from: int)
    requires
        0 <= from,
    ensures
        find_from(s, pat, from) == -1 || (from <= find_from(s, pat, from) && occurs_at(
            s,
            pat,
            find_from(s, pat, from),
        )),
        forall|j: int| from <= j < (if find_from(s, pat, from) == -1 { s.len() + 1int } else { find_from(s, pat, from) }) ==> !occurs_at(s, pat, j),
    decreases s.len() + 1 - from,
{
    if from + pat.len() <= s.len() && !occurs_at(s, pat, from) {
        lemma_find_from_found(s, pat, from + 1);
    }
}

/// Whether `pat` occurs in `v` at position `k`.
fn occurs_at_exec(v: &[char], pat: &[char], k: usize) -> (b: bool)
    requires
        k + pat@.len() <= v@.len(),
    ensures
        b == occurs_at(v@, pat@, k as int),
{
    let mut i: usize = 0;
    while i < pat.len()
        invariant
            k + pat@.len() <= v@.len(),
            v@.len() == v.len(),
            pat@.len() == pat.len(),
            i <= pat.len(),
            forall|j: int| 0 <= j < i ==> v@[k + j] == pat@[j],
        decreases pat.len() - i,
    {
        assert(i < pat@.len());
        let idx = k + i;
        if v[idx] != pat[i] {
            proof {
                assert(v@.subrange(k as int, k + pat@.len())[i as int] != pat@[i as int]);
            }
            return false;
        }
        i += 1;
    }
    proof {
        assert(v@.subrange(k as int, k + pat@.len()) =~= pat@);
    }
    true
}

/// First position at or after `from` where `pat` occurs in `v`, if any.
pub fn find_exec(v: &[char], pat: &[char], from: usize) -> (r: Option<usize>)
    ensures
        r matches Some(k) ==> find_from(v@, pat@, from as int) == k && from <= k && k + pat@.len()
            <= v@.len() && occurs_at(v@, pat@, k as int),
        r is None ==> find_from(v@, pat@, from as int) == -1,
{
    let mut k: usize = from;
    if pat.len() > v.len() {
        proof {
            lemma_find_from(v@, pat@, from as int, from as int);
        }
        return None;
    }
    let last = v.len() - pat.len();
    while k <= last
        invariant
            from <= k,
            pat.len() <= v.len(),
            last == v.len() - pat.len(),
            forall|j: int| from <= j < k ==> !occurs_at(v@, pat@, j),
        decreases last + 1 - k,
    {
        if occurs_at_exec(v, pat, k) {
            proof {
                lemma_find_from(v@, pat@, from as int, k as int);
            }
            return Some(k);
        }
        if k == last {
            proof {
                lemma_find_from(v@, pat@, from as int, k + 1);
            }
            return None;
        }
        k += 1;
    }
    proof {
        lemma_find_from(v@, pat@, from as int, k as int);
    }
    None
}

/// The pieces of `s` between the occurrences of `sep`, left to right
/// (`str::split` with a string pattern).
pub open spec fn split_on(s: Seq<char>, sep: Seq<char>) -> Seq<Seq<char>>
    recommends
        sep.len() > 0,
    decreases s.len(),
{
    let k = find(s, sep);
    if sep.len() == 0 || k < 0 {
        seq![s]
    } else {
        proof {
            lemma_find_from_found(s, sep, 0);
        }
        seq![s.take(k)] + split_on(s.skip(k + sep.len()), sep)
    }
}

/// `s` with every trailing `c` removed (`str::trim_end_matches(c)`).
pub open spec fn strip_trailing(s: Seq<char>, c: char) -> Seq<char>
    decreases s.len(),
{
    if s.len() > 0 && s.last() == c {
        strip_trailing(s.drop_last(), c)
    } else {
        s
    }
}

/// `s` with every leading `c` removed (`str::trim_start_matches(c)`).
pub open spec fn strip_leading(s: Seq<char>, c: char) -> Seq<char>
    decreases s.len(),
{
    if s.len() > 0 && s[0] == c {
        strip_leading(s.drop_first(), c)
    } else {
        s
    }
}

pub fn strip_trailing_exec(v: &[char], c: char) -> (r: Vec<char>)
    ensures
        r@ == strip_trailing(v@, c),
{
    let mut n: usize = v.len();
    assert(v@.take(n as int) =~= v@);
    while n > 0 && v[n - 1] == c
        invariant
            n <= v.len(),
            strip_trailing(v@, c) == strip_trailing(v@.take(n as int), c),
        decreases n,
    {
        proof {
            assert(v@.take(n as int).drop_last() =~= v@.take(n - 1));
        }
        n -= 1;
    }
    slice_chars(v, 0, n)
}

pub fn strip_leading_exec(v: &[char], c: char) -> (r: Vec<char>)
    ensures
        r@ == strip_leading(v@, c),
{
    let mut n: usize = 0;
    assert(v@.skip(0) =~= v@);
    while n < v.len() && v[n] == c
        invariant
            n <= v.len(),
            strip_leading(v@, c) == strip_leading(v@.skip(n as int), c),
        decreases v.len() - n,
    {
        proof {
            assert(v@.skip(n as int).drop_first() =~= v@.skip(n + 1));
        }
        n += 1;
    }
    proof {
        assert(v@.skip(n as int) =~= v@.subrange(n as int, v@.len() as int));
    }
    slice_chars(v, n, v.len())
}

pub fn split_exec(v: &[char], sep: &[char]) -> (r: Vec<Vec<char>>)
    requires
        sep@.len() > 0,
    ensures
        r@.map_values(|x: Vec<char>| x@) == split_on(v@, sep@),
{
    let mut out: Vec<Vec<char>> = Vec::new();
    let mut start: usize = 0;
    assert(v@.skip(0) =~= v@);
    assert(out@.map_values(|x: Vec<char>| x@) =~= Seq::<Seq<char>>::empty());
    loop
        invariant
            sep@.len() > 0,
            start <= v.len(),
            out@.map_values(|x: Vec<char>| x@) + split_on(v@.skip(start as int), sep@) == split_on(v@, sep@),
        decreases v.len() - start,
    {
        let ghost rest = v@.skip(start as int);
        match find_exec(v, sep, start) {
            Some(k) => {
                proof {
                    lemma_find_from_found(v@, sep@, start as int);
                    lemma_find_shift(v@, sep@, start as int);
                }
                let piece = slice_chars(v, start, k);
                proof {
                    assert(find(rest, sep@) == k - start);
                    assert(rest.take(k - start) =~= piece@);
                    assert(rest.skip(k - start + sep@.len()) =~= v@.skip(k + sep@.len()));
                    let ov = out@.map_values(|x: Vec<char>| x@);
                    assert(out@.push(piece).map_values(|x: Vec<char>| x@) =~= ov.push(piece@));
                    assert(split_on(rest, sep@) == seq![piece@] + split_on(v@.skip(k + sep@.len()), sep@));
                    assert(ov.push(piece@) + split_on(v@.skip(k + sep@.len()), sep@) =~= ov + split_on(rest, sep@));
                }
                out.push(piece);
                start = k + sep.len();
            },
            None => {
                proof {
                    lemma_find_shift(v@, sep@, start as int);
                }
                let piece = slice_chars(v, start, v.len());
                proof {
                    assert(rest =~= piece@);
                    let ov = out@.map_values(|x: Vec<char>| x@);
                    assert(out@.push(piece).map_values(|x: Vec<char>| x@) =~= ov.push(piece@));
                    assert(ov + split_on(rest, sep@) =~= ov.push(piece@));
                }
                out.push(piece);
                return out;
            },
        }
    }
}

/// Searching from `from` in `s` is searching from 0 in `s.skip(from)`, shifted.
pub proof fn lemma_find_shift(s: Seq<char>, pat: Seq<char>, from: int)
    requires
        0 <= from <= s.len(),
    ensures
        find_from(s, pat, from) == -1 ==> find(s.skip(from), pat) == -1,
        find_from(s, pat, from) != -1 ==> find(s.skip(from), pat) == find_from(s, pat, from) - from,
{
    lemma_find_shift_aux(s, pat, from, from);
}

proof fn lemma_find_shift_aux(s: Seq<char>, pat: Seq<char>, base: int, from: int)
    requires
        0 <= base <= from,
        base <= s.len(),
    ensures
        find_from(s, pat, from) == -1 ==> find_from(s.skip(base), pat, from - base) == -1,
        find_from(s, pat, from) != -1 ==> find_from(s.skip(base), pat, from - base) == find_from(s, pat, from) - base,
    decreases s.len() + 1 - from,
{
    let t = s.skip(base);
    if from + pat.len() <= s.len() {
        assert(occurs_at(s, pat, from) == occurs_at(t, pat, from - base)) by {
            assert(s.subrange(from, from + pat.len()) =~= t.subrange(from - base, from - base + pat.len()));
        }
        if !occurs_at(s, pat, from) {
            lemma_find_shift_aux(s, pat, base, from + 1);
        }
    }
}


// ---------------------------------------------------------------------------
// Digits and numbers
// ---------------------------------------------------------------------------

/// Unicode decimal digits (general category Nd), the `\d` class of a regular expression.
pub open spec fn is_dec_digit(c: char) -> bool {
    let u = c as u32;
    ||| 0x30 <= u <= 0x39 ||| 0x660 <= u <= 0x669 ||| 0x6f0 <= u <= 0x6f9 ||| 0x7c0 <= u <= 0x7c9
    ||| 0x966 <= u <= 0x96f ||| 0x9e6 <= u <= 0x9ef ||| 0xa66 <= u <= 0xa6f ||| 0xae6 <= u <= 0xaef
    ||| 0xb66 <= u <= 0xb6f ||| 0xbe6 <= u <= 0xbef ||| 0xc66 <= u <= 0xc6f ||| 0xce6 <= u <= 0xcef
    ||| 0xd66 <= u <= 0xd6f ||| 0xde6 <= u <= 0xdef ||| 0xe50 <= u <= 0xe59 ||| 0xed0 <= u <= 0xed9
    ||| 0xf20 <= u <= 0xf29 ||| 0x1040 <= u <= 0x1049 ||| 0x1090 <= u <= 0x1099 ||| 0x17e0 <= u <= 0x17e9
    ||| 0x1810 <= u <= 0x1819 ||| 0x1946 <= u <= 0x194f ||| 0x19d0 <= u <= 0x19d9 ||| 0x1a80 <= u <= 0x1a89
    ||| 0x1a90 <= u <= 0x1a99 ||| 0x1b50 <= u <= 0x1b59 ||| 0x1bb0 <= u <= 0x1bb9 ||| 0x1c40 <= u <= 0x1c49
    ||| 0x1c50 <= u <= 0x1c59 ||| 0xa620 <= u <= 0xa629 ||| 0xa8d0 <= u <= 0xa8d9 ||| 0xa900 <= u <= 0xa909
    ||| 0xa9d0 <= u <= 0xa9d9 ||| 0xa9f0 <= u <= 0xa9f9 ||| 0xaa50 <= u <= 0xaa59 ||| 0xabf0 <= u <= 0xabf9
    ||| 0xff10 <= u <= 0xff19 ||| 0x104a0 <= u <= 0x104a9 ||| 0x10d30 <= u <= 0x10d39 ||| 0x10d40 <= u <= 0x10d49
    ||| 0x11066 <= u <= 0x1106f ||| 0x110f0 <= u <= 0x110f9 ||| 0x11136 <= u <= 0x1113f ||| 0x111d0 <= u <= 0x111d9
    ||| 0x112f0 <= u <= 0x112f9 ||| 0x11450 <= u <= 0x11459 ||| 0x114d0 <= u <= 0x114d9 ||| 0x11650 <= u <= 0x11659
    ||| 0x116c0 <= u <= 0x116c9 ||| 0x116d0 <= u <= 0x116e3 ||| 0x11730 <= u <= 0x11739 ||| 0x118e0 <= u <= 0x118e9
    ||| 0x11950 <= u <= 0x11959 ||| 0x11bf0 <= u <= 0x11bf9 ||| 0x11c50 <= u <= 0x11c59 ||| 0x11d50 <= u <= 0x11d59
    ||| 0x11da0 <= u <= 0x11da9 ||| 0x11f50 <= u <= 0x11f59 ||| 0x16130 <= u <= 0x16139 ||| 0x16a60 <= u <= 0x16a69
    ||| 0x16ac0 <= u <= 0x16ac9 ||| 0x16b50 <= u <= 0x16b59 ||| 0x16d70 <= u <= 0x16d79 ||| 0x1ccf0 <= u <= 0x1ccf9
    ||| 0x1d7ce <= u <= 0x1d7ff ||| 0x1e140 <= u <= 0x1e149 ||| 0x1e2f0 <= u <= 0x1e2f9 ||| 0x1e4f0 <= u <= 0x1e4f9
    ||| 0x1e5f1 <= u <= 0x1e5fa ||| 0x1e950 <= u <= 0x1e959 ||| 0x1fbf0 <= u <= 0x1fbf9
}

pub fn char_is_dec_digit(c: char) -> (b: bool)
    ensures
        b == is_dec_digit(c),
{
    let u = c as u32;
    (0x30 <= u && u <= 0x39) || (0x660 <= u && u <= 0x669) || (0x6f0 <= u && u <= 0x6f9) || (0x7c0 <= u && u <= 0x7c9)
    || (0x966 <= u && u <= 0x96f) || (0x9e6 <= u && u <= 0x9ef) || (0xa66 <= u && u <= 0xa6f) || (0xae6 <= u && u <= 0xaef)
    || (0xb66 <= u && u <= 0xb6f) || (0xbe6 <= u && u <= 0xbef) || (0xc66 <= u && u <= 0xc6f) || (0xce6 <= u && u <= 0xcef)
    || (0xd66 <= u && u <= 0xd6f) || (0xde6 <= u && u <= 0xdef) || (0xe50 <= u && u <= 0xe59) || (0xed0 <= u && u <= 0xed9)
    || (0xf20 <= u && u <= 0xf29) || (0x1040 <= u && u <= 0x1049) || (0x1090 <= u && u <= 0x1099) || (0x17e0 <= u && u <= 0x17e9)
    || (0x1810 <= u && u <= 0x1819) || (0x1946 <= u && u <= 0x194f) || (0x19d0 <= u && u <= 0x19d9) || (0x1a80 <= u && u <= 0x1a89)
    || (0x1a90 <= u && u <= 0x1a99) || (0x1b50 <= u && u <= 0x1b59) || (0x1bb0 <= u && u <= 0x1bb9) || (0x1c40 <= u && u <= 0x1c49)
    || (0x1c50 <= u && u <= 0x1c59) || (0xa620 <= u && u <= 0xa629) || (0xa8d0 <= u && u <= 0xa8d9) || (0xa900 <= u && u <= 0xa909)
    || (0xa9d0 <= u && u <= 0xa9d9) || (0xa9f0 <= u && u <= 0xa9f9) || (0xaa50 <= u && u <= 0xaa59) || (0xabf0 <= u && u <= 0xabf9)
    || (0xff10 <= u && u <= 0xff19) || (0x104a0 <= u && u <= 0x104a9) || (0x10d30 <= u && u <= 0x10d39) || (0x10d40 <= u && u <= 0x10d49)
    || (0x11066 <= u && u <= 0x1106f) || (0x110f0 <= u && u <= 0x110f9) || (0x11136 <= u && u <= 0x1113f) || (0x111d0 <= u && u <= 0x111d9)
    || (0x112f0 <= u && u <= 0x112f9) || (0x11450 <= u && u <= 0x11459) || (0x114d0 <= u && u <= 0x114d9) || (0x11650 <= u && u <= 0x11659)
    || (0x116c0 <= u && u <= 0x116c9) || (0x116d0 <= u && u <= 0x116e3) || (0x11730 <= u && u <= 0x11739) || (0x118e0 <= u && u <= 0x118e9)
    || (0x11950 <= u && u <= 0x11959) || (0x11bf0 <= u && u <= 0x11bf9) || (0x11c50 <= u && u <= 0x11c59) || (0x11d50 <= u && u <= 0x11d59)
    || (0x11da0 <= u && u <= 0x11da9) || (0x11f50 <= u && u <= 0x11f59) || (0x16130 <= u && u <= 0x16139) || (0x16a60 <= u && u <= 0x16a69)
    || (0x16ac0 <= u && u <= 0x16ac9) || (0x16b50 <= u && u <= 0x16b59) || (0x16d70 <= u && u <= 0x16d79) || (0x1ccf0 <= u && u <= 0x1ccf9)
    || (0x1d7ce <= u && u <= 0x1d7ff) || (0x1e140 <= u && u <= 0x1e149) || (0x1e2f0 <= u && u <= 0x1e2f9) || (0x1e4f0 <= u && u <= 0x1e4f9)
    || (0x1e5f1 <= u && u <= 0x1e5fa) || (0x1e950 <= u && u <= 0x1e959) || (0x1fbf0 <= u && u <= 0x1fbf9)
}

pub open spec fn is_ascii_digit(c: char) -> bool {
    '0' <= c <= '9'
}

pub open spec fn all_ascii_digits(s: Seq<char>) -> bool {
    forall|i: int| 0 <= i < s.len() ==> is_ascii_digit(#[trigger] s[i])
}

pub open spec fn digit_value(c: char) -> nat {
    (c as u32 - '0' as u32) as nat
}

/// The number written by the ASCII digits `s`, most significant first.
pub open spec fn digits_value(s: Seq<char>) -> nat
    decreases s.len(),
{
    if s.len() == 0 {
        0
    } else {
        digits_value(s.drop_last()) * 10 + digit_value(s.last())
    }
}

/// `str::parse::<usize>`: an optional `+`, then one or more ASCII digits, the value
/// fitting in a `usize`.
pub open spec fn unsigned_digits(s: Seq<char>) -> Seq<char> {
    if s.len() >= 2 && s[0] == '+' {
        s.drop_first()
    } else {
        s
    }
}

pub open spec fn parse_usize(s: Seq<char>) -> Option<usize> {
    let d = unsigned_digits(s);
    if d.len() > 0 && all_ascii_digits(d) && digits_value(d) <= usize::MAX {
        Some(digits_value(d) as usize)
    } else {
        None
    }
}

proof fn lemma_digits_value_prefix(s: Seq<char>, i: int)
    requires
        0 <= i <= s.len(),
        all_ascii_digits(s),
    ensures
        digits_value(s.take(i)) <= digits_value(s),
    decreases s.len() - i,
{
    if i < s.len() {
        assert(s.take(s.len() as int) =~= s);
        lemma_digits_value_prefix(s, i + 1);
        assert(s.take(i + 1).drop_last() =~= s.take(i));
    } else {
        assert(s.take(i) =~= s);
    }
}

pub fn parse_usize_exec(v: &[char]) -> (r: Option<usize>)
    ensures
        r == parse_usize(v@),
{
    let start: usize = if v.len() >= 2 && v[0] == '+' { 1 } else { 0 };
    let ghost d = unsigned_digits(v@);
    assert(d =~= v@.skip(start as int));
    if start >= v.len() {
        return None;
    }
    let mut value: usize = 0;
    let mut i: usize = start;
    while i < v.len()
        invariant
            start <= i <= v.len(),
            d == v@.skip(start as int),
            d == unsigned_digits(v@),
            all_ascii_digits(d.take(i - start)),
            value == digits_value(d.take(i - start)),
        decreases v.len() - i,
    {
        let c = v[i];
        if !('0' <= c && c <= '9') {
            proof {
                assert(d[i - start] == c);
                assert(!is_ascii_digit(d[i - start]));
                assert(!all_ascii_digits(d));
            }
            return None;
        }
        let dv = (c as u32 - '0' as u32) as usize;
        proof {
            assert(d.take(i - start + 1).drop_last() =~= d.take(i - start));
            assert(d.take(i - start + 1).last() == c);
        }
        if value > (usize::MAX - dv) / 10 {
            proof {
                assert(digits_value(d.take(i - start + 1)) == value * 10 + dv);
                assert(value * 10 + dv > usize::MAX) by (nonlinear_arith)
                    requires
                        value > (usize::MAX - dv) / 10,
                        dv < 10,
                ;
                if all_ascii_digits(d) {
                    lemma_digits_value_prefix(d, i - start + 1);
                }
            }
            return None;
        }
        value = value * 10 + dv;
        i += 1;
        proof {
            assert forall|j: int| 0 <= j < d.take(i - start).len() implies is_ascii_digit(#[trigger] d.take(i - start)[j]) by {
                if j < i - start - 1 {
                    assert(d.take(i - start)[j] == d.take(i - start - 1)[j]);
                }
            }
        }
    }
    proof {
        assert(d.take(i - start) =~= d);
    }
    Some(value)
}

/// Decimal digits of `n`, most significant first (`usize::to_string`).
pub open spec fn decimal(n: nat) -> Seq<char>
    decreases n,
{
    if n < 10 {
        seq![(n + '0' as u32) as char]
    } else {
        decimal(n / 10).push(((n % 10) + '0' as u32) as char)
    }
}

fn digit_char(d: usize) -> (c: char)
    requires
        d < 10,
    ensures
        c == ((d + '0' as u32) as char),
{
    if d == 0 {
        '0'
    } else if d == 1 {
        '1'
    } else if d == 2 {
        '2'
    } else if d == 3 {
        '3'
    } else if d == 4 {
        '4'
    } else if d == 5 {
        '5'
    } else if d == 6 {
        '6'
    } else if d == 7 {
        '7'
    } else if d == 8 {
        '8'
    } else {
        '9'
    }
}

pub fn decimal_string(n: usize) -> (s: String)
    ensures
        s@ == decimal(n as nat),
{
    let mut digits: Vec<char> = Vec::new();
    let mut m: usize = n;
    // digits of `n` that are already written, least significant first, reversed below
    while m >= 10
        invariant
            decimal(n as nat) == decimal(m as nat) + digits@.reverse(),
        decreases m,
    {
        let ghost old_digits = digits@;
        let c = digit_char(m % 10);
        digits.push(c);
        proof {
            assert(decimal(m as nat) == decimal((m / 10) as nat).push(c));
            assert(digits@.reverse() =~= seq![c] + old_digits.reverse());
            assert(decimal((m / 10) as nat).push(c) + old_digits.reverse() =~= decimal((m / 10) as nat) + digits@.reverse());
        }
        m = m / 10;
    }
    let mut out: Vec<char> = Vec::new();
    out.push(digit_char(m));
    let mut k: usize = digits.len();
    while k > 0
        invariant
            k <= digits.len(),
            out@ == decimal(m as nat) + digits@.skip(k as int).reverse(),
            decimal(n as nat) == decimal(m as nat) + digits@.reverse(),
        decreases k,
    {
        k -= 1;
        out.push(digits[k]);
        proof {
            assert(digits@.skip(k as int).reverse() =~= digits@.skip(k + 1).reverse().push(digits@[k as int]));
        }
    }
    proof {
        assert(digits@.skip(0) =~= digits@);
    }
    string_of(&out)
}


pub fn chars_eq(a: &[char], b: &[char]) -> (r: bool)
    ensures
        r == (a@ == b@),
{
    if a.len() != b.len() {
        return false;
    }
    let mut i: usize = 0;
    while i < a.len()
        invariant
            i <= a.len(),
            a.len() == b.len(),
            forall|k: int| 0 <= k < i ==> a@[k] == b@[k],
        decreases a.len() - i,
    {
        if a[i] != b[i] {
            return false;
        }
        i += 1;
    }
    proof {
        assert(a@ =~= b@);
    }
    true
}

/// Strings holding the given character sequences.
pub fn strings_of(v: &Vec<Vec<char>>) -> (r: Vec<String>)
    ensures
        r@.len() == v@.len(),
        forall|i: int| 0 <= i < v@.len() ==> (#[trigger] r@[i])@ == v@[i]@,
{
    let mut r: Vec<String> = Vec::new();
    let mut i: usize = 0;
    while i < v.len()
        invariant
            i <= v.len(),
            r@.len() == i,
            forall|k: int| 0 <= k < i ==> (#[trigger] r@[k])@ == v@[k]@,
        decreases v.len() - i,
    {
        r.push(string_of(&v[i]));
        i += 1;
    }
    r
}

} // verus!
