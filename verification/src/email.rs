use vstd::prelude::*;

use crate::text::{string_of, strip_trailing_exec, trimmed};

verus! {

/// How to reach the SMTP server that sends an election's mail.
pub struct SmtpConfig {
    pub smtp_host: String,
    pub smtp_username: String,
    pub smtp_password: String,
    pub from_name: String,
    pub from_email: String,
}

/// An election's SMTP configuration as the API shows it: no password.
pub struct EmailConfigResponse {
    pub smtp_host: String,
    pub smtp_port: i32,
    pub smtp_username: String,
    pub from_name: String,
    pub from_email: String,
}

/// A new SMTP configuration; without a password, an existing one is kept.
pub struct UpsertEmailConfigRequest {
    pub smtp_host: String,
    pub smtp_port: i32,
    pub smtp_username: String,
    pub smtp_password: Option<String>,
    pub from_name: String,
    pub from_email: String,
}

/// The outcome of sending one message: `None` when it was sent.
pub struct SendResult {
    pub error: Option<String>,
}

// ---------------------------------------------------------------------------
// Recipient lists
// ---------------------------------------------------------------------------

pub open spec fn is_list_sep(c: char) -> bool {
    c == ',' || c == '\n' || c == '\r'
}

/// The pieces of `s` between the commas and line breaks (`str::split` on
/// `[',', '\n', '\r']`): one more piece than there are separators.
pub open spec fn list_pieces(s: Seq<char>) -> Seq<Seq<char>>
    decreases s.len(),
{
    if s.len() == 0 {
        seq![Seq::empty()]
    } else {
        let prev = list_pieces(s.drop_last());
        if is_list_sep(s.last()) {
            prev.push(Seq::empty())
        } else {
            prev.update(prev.len() - 1, prev.last().push(s.last()))
        }
    }
}

/// A piece of the list with surrounding whitespace and trailing commas removed.
pub open spec fn cleaned(piece: Seq<char>) -> Seq<char> {
    crate::text::trim(crate::text::strip_trailing(crate::text::trim(piece), ','))
}

pub open spec fn invalid_email_message(e: Seq<char>) -> Seq<char> {
    "Invalid email: "@ + e
}

/// The addresses and the errors that the first `k` pieces give: an empty piece
/// is skipped, one without `@` is an error, and an address already taken is
/// skipped.
pub open spec fn recipients_upto(pieces: Seq<Seq<char>>, k: int) -> (Seq<Seq<char>>, Seq<Seq<char>>)
    decreases k,
{
    if k <= 0 {
        (Seq::empty(), Seq::empty())
    } else {
        let (emails, errors) = recipients_upto(pieces, k - 1);
        let c = cleaned(pieces[k - 1]);
        if c.len() == 0 {
            (emails, errors)
        } else if !c.contains('@') {
            (emails, errors.push(invalid_email_message(c)))
        } else if emails.contains(c) {
            (emails, errors)
        } else {
            (emails.push(c), errors)
        }
    }
}

pub open spec fn recipients_of(input: Seq<char>) -> (Seq<Seq<char>>, Seq<Seq<char>>) {
    let pieces = list_pieces(input);
    recipients_upto(pieces, pieces.len() as int)
}

/// The addresses that a recipient list gives are all distinct, and each holds an `@`.
pub proof fn lemma_recipients_valid(pieces: Seq<Seq<char>>, k: int)
    requires
        0 <= k <= pieces.len(),
    ensures
        forall|i: int| 0 <= i < recipients_upto(pieces, k).0.len() ==> (#[trigger] recipients_upto(pieces, k).0[i]).contains('@'),
        forall|i: int, j: int| 0 <= i < j < recipients_upto(pieces, k).0.len() ==> #[trigger] recipients_upto(pieces, k).0[i]
            != #[trigger] recipients_upto(pieces, k).0[j],
    decreases k,
{
    if k > 0 {
        lemma_recipients_valid(pieces, k - 1);
        let prev = recipients_upto(pieces, k - 1).0;
        let cur = recipients_upto(pieces, k).0;
        let c = cleaned(pieces[k - 1]);
        if c.len() > 0 && c.contains('@') && !prev.contains(c) {
            assert(cur == prev.push(c));
            assert forall|i: int| 0 <= i < cur.len() implies (#[trigger] cur[i]).contains('@') by {
                if i < prev.len() {
                    assert(cur[i] == prev[i]);
                }
            }
            assert forall|i: int, j: int| 0 <= i < j < cur.len() implies #[trigger] cur[i] != #[trigger] cur[j] by {
                if j == prev.len() {
                    assert(cur[i] == prev[i]);
                    assert(prev.contains(prev[i]));
                } else {
                    assert(cur[i] == prev[i]);
                    assert(cur[j] == prev[j]);
                }
            }
        }
    }
}

/// No character of `s` separates list pieces.
pub open spec fn no_list_sep(s: Seq<char>) -> bool {
    forall|j: int| 0 <= j < s.len() ==> !is_list_sep(#[trigger] s[j])
}

proof fn lemma_pieces_nonempty(s: Seq<char>)
    ensures
        list_pieces(s).len() >= 1,
    decreases s.len(),
{
    if s.len() > 0 {
        lemma_pieces_nonempty(s.drop_last());
    }
}

/// The pieces of a list hold no separator.
proof fn lemma_pieces_no_sep(s: Seq<char>)
    ensures
        forall|i: int| 0 <= i < list_pieces(s).len() ==> no_list_sep(#[trigger] list_pieces(s)[i]),
    decreases s.len(),
{
    if s.len() > 0 {
        lemma_pieces_no_sep(s.drop_last());
        lemma_pieces_nonempty(s.drop_last());
        let prev = list_pieces(s.drop_last());
        let cur = list_pieces(s);
        if !is_list_sep(s.last()) {
            assert forall|i: int| 0 <= i < cur.len() implies no_list_sep(#[trigger] cur[i]) by {
                if i == prev.len() - 1 {
                    assert(no_list_sep(prev[i]));
                    assert forall|j: int| 0 <= j < cur[i].len() implies !is_list_sep(#[trigger] cur[i][j]) by {
                        if j < prev[i].len() {
                            assert(cur[i][j] == prev[i][j]);
                        }
                    }
                } else {
                    assert(cur[i] == prev[i]);
                }
            }
        } else {
            assert forall|i: int| 0 <= i < cur.len() implies no_list_sep(#[trigger] cur[i]) by {
                if i < prev.len() {
                    assert(cur[i] == prev[i]);
                }
            }
        }
    }
}

/// A text without separators is one piece.
proof fn lemma_pieces_single(y: Seq<char>)
    requires
        no_list_sep(y),
    ensures
        list_pieces(y) == seq![y],
    decreases y.len(),
{
    if y.len() > 0 {
        let t = y.drop_last();
        assert(no_list_sep(t)) by {
            assert forall|j: int| 0 <= j < t.len() implies !is_list_sep(#[trigger] t[j]) by {
                assert(t[j] == y[j]);
            }
        }
        lemma_pieces_single(t);
        assert(!is_list_sep(y[y.len() - 1]));
        assert(t.push(y.last()) =~= y);
        assert(y.drop_last() == t);
        assert(seq![t].update(0, t.push(y.last())) =~= seq![y]);
    } else {
        assert(y =~= Seq::<char>::empty());
        assert(list_pieces(y) =~= seq![y]);
    }
}

/// Splitting at a separator: the pieces of the text before it, then those after it.
proof fn lemma_pieces_concat(x: Seq<char>, c: char, y: Seq<char>)
    requires
        is_list_sep(c),
    ensures
        list_pieces(x.push(c) + y) == list_pieces(x) + list_pieces(y),
    decreases y.len(),
{
    if y.len() == 0 {
        assert(x.push(c) + y =~= x.push(c));
        assert(x.push(c).drop_last() =~= x);
        assert(list_pieces(x).push(Seq::empty()) =~= list_pieces(x) + seq![Seq::<char>::empty()]);
    } else {
        let s = x.push(c) + y;
        let yp = y.drop_last();
        assert(s.drop_last() =~= x.push(c) + yp);
        lemma_pieces_concat(x, c, yp);
        lemma_pieces_nonempty(yp);
        let a = list_pieces(x);
        let b = list_pieces(yp);
        assert(s.last() == y.last());
        if is_list_sep(y.last()) {
            assert((a + b).push(Seq::empty()) =~= a + b.push(Seq::empty()));
        } else {
            assert((a + b).update((a + b).len() - 1, (a + b).last().push(y.last())) =~= a + b.update(
                b.len() - 1,
                b.last().push(y.last()),
            ));
        }
    }
}

/// Addresses joined with commas split back into those addresses.
proof fn lemma_pieces_join(parts: Seq<Seq<char>>)
    requires
        parts.len() > 0,
        forall|i: int| 0 <= i < parts.len() ==> no_list_sep(#[trigger] parts[i]),
    ensures
        list_pieces(crate::export::join(parts, ","@)) == parts,
    decreases parts.len(),
{
    reveal_strlit(",");
    if parts.len() == 1 {
        assert(no_list_sep(parts[0]));
        lemma_pieces_single(parts[0]);
        assert(seq![parts[0]] =~= parts);
    } else {
        let init = parts.drop_last();
        assert forall|i: int| 0 <= i < init.len() implies no_list_sep(#[trigger] init[i]) by {
            assert(init[i] == parts[i]);
        }
        lemma_pieces_join(init);
        let j = crate::export::join(init, ","@);
        assert(j + ","@ + parts.last() =~= j.push(',') + parts.last());
        lemma_pieces_concat(j, ',', parts.last());
        assert(no_list_sep(parts[parts.len() - 1]));
        lemma_pieces_single(parts.last());
        assert(init + seq![parts.last()] =~= parts);
    }
}

proof fn lemma_trim_chars(z: Seq<char>)
    ensures
        lead_ws_of(z) + crate::text::trim(z).len() <= z.len(),
        forall|j: int| 0 <= j < crate::text::trim(z).len() ==> #[trigger] crate::text::trim(z)[j] == z[j + lead_ws_of(z)],
        crate::text::trim(z).len() > 0 ==> !crate::text::is_ws(crate::text::trim(z)[0])
            && !crate::text::is_ws(crate::text::trim(z).last()),
{
    crate::text::lemma_lead_ws_bound(z);
    let a = crate::text::trim_start(z);
    crate::text::lemma_trail_ws_bound(a);
    let t = crate::text::trim(z);
    if t.len() > 0 {
        assert(t[0] == a[0]);
        assert(t.last() == a[a.len() - crate::text::trail_ws(a) - 1]);
    }
}

spec fn lead_ws_of(z: Seq<char>) -> int {
    crate::text::lead_ws(z) as int
}

/// Trimming twice trims as once.
proof fn lemma_trim_twice(z: Seq<char>)
    ensures
        crate::text::trim(crate::text::trim(z)) == crate::text::trim(z),
{
    let t = crate::text::trim(z);
    lemma_trim_chars(z);
    crate::text::lemma_lead_ws(t, 0);
    assert(crate::text::trim_start(t) =~= t);
    crate::text::lemma_trail_ws(t, 0);
    assert(crate::text::trim_end(t) =~= t);
}

proof fn lemma_strip_prefix(z: Seq<char>, c: char)
    ensures
        crate::text::strip_trailing(z, c).len() <= z.len(),
        crate::text::strip_trailing(z, c) == z.take(crate::text::strip_trailing(z, c).len() as int),
    decreases z.len(),
{
    if z.len() > 0 && z.last() == c {
        lemma_strip_prefix(z.drop_last(), c);
        let r = crate::text::strip_trailing(z, c);
        assert(r =~= z.take(r.len() as int));
    } else {
        assert(z.take(z.len() as int) =~= z);
    }
}

/// A cleaned piece of a piece without separators has none, and is trimmed.
proof fn lemma_cleaned_piece(p: Seq<char>)
    requires
        no_list_sep(p),
    ensures
        no_list_sep(cleaned(p)),
        crate::text::trim(cleaned(p)) == cleaned(p),
{
    let a = crate::text::trim(p);
    lemma_trim_chars(p);
    assert(no_list_sep(a)) by {
        assert forall|j: int| 0 <= j < a.len() implies !is_list_sep(#[trigger] a[j]) by {
            assert(a[j] == p[j + lead_ws_of(p)]);
        }
    }
    let b = crate::text::strip_trailing(a, ',');
    lemma_strip_prefix(a, ',');
    assert(no_list_sep(b)) by {
        assert forall|j: int| 0 <= j < b.len() implies !is_list_sep(#[trigger] b[j]) by {
            assert(b[j] == a.take(b.len() as int)[j]);
        }
    }
    let c = crate::text::trim(b);
    lemma_trim_chars(b);
    assert forall|j: int| 0 <= j < c.len() implies !is_list_sep(#[trigger] c[j]) by {
        assert(c[j] == b[j + lead_ws_of(b)]);
    }
    lemma_trim_twice(b);
}

/// A trimmed address without separators is its own cleaned piece.
proof fn lemma_cleaned_fixed(e: Seq<char>)
    requires
        no_list_sep(e),
        crate::text::trim(e) == e,
    ensures
        cleaned(e) == e,
{
    if e.len() > 0 {
        assert(!is_list_sep(e[e.len() - 1]));
    }
    assert(crate::text::strip_trailing(e, ',') == e);
}

/// The addresses that the first `k` pieces give: each is a trimmed, non-empty
/// piece with an `@` and no separator; and each non-empty cleaned piece with an
/// `@` among the first `k` is one of them.
proof fn lemma_recipients_shape(pieces: Seq<Seq<char>>, k: int)
    requires
        0 <= k <= pieces.len(),
        forall|i: int| 0 <= i < pieces.len() ==> no_list_sep(#[trigger] pieces[i]),
    ensures
        forall|i: int| 0 <= i < recipients_upto(pieces, k).0.len() ==> {
            let e = #[trigger] recipients_upto(pieces, k).0[i];
            &&& no_list_sep(e)
            &&& crate::text::trim(e) == e
            &&& e.len() > 0
            &&& e.contains('@')
        },
        forall|m: int| 0 <= m < k && (#[trigger] cleaned(pieces[m])).len() > 0 && cleaned(pieces[m]).contains('@')
            ==> recipients_upto(pieces, k).0.contains(cleaned(pieces[m])),
    decreases k,
{
    if k > 0 {
        lemma_recipients_shape(pieces, k - 1);
        let prev = recipients_upto(pieces, k - 1).0;
        let cur = recipients_upto(pieces, k).0;
        let c = cleaned(pieces[k - 1]);
        assert(no_list_sep(pieces[k - 1]));
        lemma_cleaned_piece(pieces[k - 1]);
        if c.len() > 0 && c.contains('@') && !prev.contains(c) {
            assert(cur == prev.push(c));
            assert forall|i: int| 0 <= i < cur.len() implies {
                let e = #[trigger] cur[i];
                &&& no_list_sep(e)
                &&& crate::text::trim(e) == e
                &&& e.len() > 0
                &&& e.contains('@')
            } by {
                if i < prev.len() {
                    assert(cur[i] == prev[i]);
                }
            }
            assert forall|m: int| 0 <= m < k && (#[trigger] cleaned(pieces[m])).len() > 0 && cleaned(pieces[m]).contains('@')
                implies cur.contains(cleaned(pieces[m])) by {
                if m < k - 1 {
                    let w = choose|w: int| 0 <= w < prev.len() && #[trigger] prev[w] == cleaned(pieces[m]);
                    assert(cur[w] == prev[w]);
                } else {
                    assert(cur[prev.len() as int] == c);
                }
            }
        }
    }
}

/// Addresses that are trimmed, non-empty, hold an `@` and are distinct read
/// back as themselves, with no error.
proof fn lemma_recipients_fixed(emails: Seq<Seq<char>>, k: int)
    requires
        0 <= k <= emails.len(),
        forall|i: int| 0 <= i < emails.len() ==> {
            let e = #[trigger] emails[i];
            &&& no_list_sep(e)
            &&& crate::text::trim(e) == e
            &&& e.len() > 0
            &&& e.contains('@')
        },
        forall|i: int, j: int| 0 <= i < j < emails.len() ==> #[trigger] emails[i] != #[trigger] emails[j],
    ensures
        recipients_upto(emails, k) == (emails.take(k), Seq::<Seq<char>>::empty()),
    decreases k,
{
    if k > 0 {
        lemma_recipients_fixed(emails, k - 1);
        let e = emails[k - 1];
        lemma_cleaned_fixed(e);
        assert(!emails.take(k - 1).contains(e)) by {
            if emails.take(k - 1).contains(e) {
                let w = choose|w: int| 0 <= w < k - 1 && #[trigger] emails.take(k - 1)[w] == e;
                assert(emails[w] == emails.take(k - 1)[w]);
            }
        }
        assert(emails.take(k - 1).push(e) =~= emails.take(k));
    }
}

/// The addresses that a recipient list gives, joined with commas, read back
/// as the same addresses, with no error.
pub proof fn lemma_recipients_reparse(input: Seq<char>)
    ensures
        recipients_of(crate::export::join(recipients_of(input).0, ","@)) == (
            recipients_of(input).0,
            Seq::<Seq<char>>::empty(),
        ),
{
    let pieces = list_pieces(input);
    let emails = recipients_of(input).0;
    lemma_pieces_no_sep(input);
    lemma_recipients_shape(pieces, pieces.len() as int);
    lemma_recipients_valid(pieces, pieces.len() as int);
    if emails.len() == 0 {
        let j = crate::export::join(emails, ","@);
        assert(j =~= Seq::<char>::empty());
        assert(list_pieces(j) =~= seq![Seq::<char>::empty()]);
        crate::text::lemma_lead_ws(Seq::<char>::empty(), 0);
        crate::text::lemma_trail_ws(Seq::<char>::empty(), 0);
        assert(cleaned(Seq::<char>::empty()) =~= Seq::<char>::empty());
        assert(recipients_upto(list_pieces(j), 1) == recipients_upto(list_pieces(j), 0));
        assert(emails =~= Seq::<Seq<char>>::empty());
    } else {
        let j = crate::export::join(emails, ","@);
        lemma_pieces_join(emails);
        lemma_recipients_fixed(emails, emails.len() as int);
        assert(emails.take(emails.len() as int) =~= emails);
        assert(recipients_of(j) == recipients_upto(emails, emails.len() as int));
    }
}

proof fn lemma_recipients_prefix(a: Seq<Seq<char>>, b: Seq<Seq<char>>, k: int)
    requires
        0 <= k <= a.len(),
    ensures
        recipients_upto(a + b, k) == recipients_upto(a, k),
    decreases k,
{
    if k > 0 {
        lemma_recipients_prefix(a, b, k - 1);
        assert((a + b)[k - 1] == a[k - 1]);
    }
}

proof fn lemma_recipients_second_pass(pieces: Seq<Seq<char>>, m: int)
    requires
        0 <= m <= pieces.len(),
        forall|i: int| 0 <= i < pieces.len() ==> no_list_sep(#[trigger] pieces[i]),
    ensures
        recipients_upto(pieces + pieces, pieces.len() + m).0 == recipients_upto(pieces, pieces.len() as int).0,
    decreases m,
{
    let n = pieces.len() as int;
    if m == 0 {
        lemma_recipients_prefix(pieces, pieces, n);
    } else {
        lemma_recipients_second_pass(pieces, m - 1);
        lemma_recipients_shape(pieces, n);
        assert((pieces + pieces)[n + m - 1] == pieces[m - 1]);
        let c = cleaned(pieces[m - 1]);
        if c.len() > 0 && c.contains('@') {
            assert(recipients_upto(pieces, n).0.contains(c));
        }
    }
}

/// A recipient list given twice, joined by a comma, gives the same addresses
/// as given once.
pub proof fn lemma_recipients_repeat(input: Seq<char>)
    ensures
        recipients_of(input.push(',') + input).0 == recipients_of(input).0,
{
    let pieces = list_pieces(input);
    lemma_pieces_concat(input, ',', input);
    lemma_pieces_no_sep(input);
    lemma_recipients_second_pass(pieces, pieces.len() as int);
}

fn list_pieces_exec(v: &[char]) -> (r: Vec<Vec<char>>)
    ensures
        r@.map_values(|x: Vec<char>| x@) == list_pieces(v@),
{
    let mut out: Vec<Vec<char>> = Vec::new();
    let mut cur: Vec<char> = Vec::new();
    let mut i: usize = 0;
    while i < v.len()
        invariant
            i <= v.len(),
            out@.map_values(|x: Vec<char>| x@).push(cur@) == list_pieces(v@.take(i as int)),
        decreases v.len() - i,
    {
        let c = v[i];
        let ghost before = out@.map_values(|x: Vec<char>| x@).push(cur@);
        proof {
            assert(v@.take(i + 1).drop_last() =~= v@.take(i as int));
            assert(v@.take(i + 1).last() == c);
        }
        if c == ',' || c == '\n' || c == '\r' {
            out.push(cur);
            cur = Vec::new();
            proof {
                assert(out@.map_values(|x: Vec<char>| x@).push(cur@) =~= before.push(Seq::empty()));
            }
        } else {
            cur.push(c);
            proof {
                assert(out@.map_values(|x: Vec<char>| x@).push(cur@) =~= before.update(
                    before.len() - 1,
                    before.last().push(c),
                ));
            }
        }
        i += 1;
    }
    let ghost last = out@.map_values(|x: Vec<char>| x@).push(cur@);
    out.push(cur);
    proof {
        assert(out@.map_values(|x: Vec<char>| x@) =~= last);
        assert(v@.take(i as int) =~= v@);
    }
    out
}

fn contains_char(v: &[char], c: char) -> (r: bool)
    ensures
        r == v@.contains(c),
{
    let mut i: usize = 0;
    while i < v.len()
        invariant
            i <= v.len(),
            forall|k: int| 0 <= k < i ==> v@[k] != c,
        decreases v.len() - i,
    {
        if v[i] == c {
            assert(v@[i as int] == c);
            return true;
        }
        i += 1;
    }
    false
}

fn contains_string(v: &Vec<String>, s: &String) -> (r: bool)
    ensures
        r == crate::log::strings_view(v@).contains(s@),
{
    let ghost sv = crate::log::strings_view(v@);
    let mut i: usize = 0;
    while i < v.len()
        invariant
            i <= v.len(),
            sv == crate::log::strings_view(v@),
            forall|k: int| 0 <= k < i ==> sv[k] != s@,
        decreases v.len() - i,
    {
        if v[i] == *s {
            assert(sv[i as int] == s@);
            return true;
        }
        i += 1;
    }
    false
}

/// Parses a comma and/or newline-separated list of email addresses: the distinct
/// addresses in order of first appearance, and an error for each piece without `@`.
pub fn parse_recipients(input: &str) -> (r: (Vec<String>, Vec<String>))
    ensures
        (crate::log::strings_view(r.0@), crate::log::strings_view(r.1@)) == recipients_of(input@),
{
    let chars = crate::text::chars_of(input);
    let pieces = list_pieces_exec(&chars);
    let ghost pv = pieces@.map_values(|x: Vec<char>| x@);
    let mut emails: Vec<String> = Vec::new();
    let mut errors: Vec<String> = Vec::new();
    let mut k: usize = 0;
    while k < pieces.len()
        invariant
            k <= pieces.len(),
            pv == pieces@.map_values(|x: Vec<char>| x@),
            pv == list_pieces(input@),
            (crate::log::strings_view(emails@), crate::log::strings_view(errors@)) == recipients_upto(pv, k as int),
        decreases pieces.len() - k,
    {
        let t = trimmed(&pieces[k]);
        let s = strip_trailing_exec(&t, ',');
        let c = trimmed(&s);
        assert(c@ == cleaned(pv[k as int]));
        if c.len() == 0 {
        } else if !contains_char(&c, '@') {
            let mut msg = String::from_str("Invalid email: ");
            msg.append(string_of(&c).as_str());
            let ghost before = errors@;
            errors.push(msg);
            proof {
                assert(crate::log::strings_view(errors@) =~= crate::log::strings_view(before).push(msg@));
            }
        } else {
            let e = string_of(&c);
            if !contains_string(&emails, &e) {
                let ghost before = emails@;
                emails.push(e);
                proof {
                    assert(crate::log::strings_view(emails@) =~= crate::log::strings_view(before).push(e@));
                }
            }
        }
        k += 1;
    }
    (emails, errors)
}


// ---------------------------------------------------------------------------
// Messages
// ---------------------------------------------------------------------------

#[verifier::external_type_specification]
#[verifier::external_body]
pub struct ExMailbox(lettre::message::Mailbox);

/// What `lettre` makes of a mailbox text: `None` when it parses, else the text of
/// the error it reports.
pub uninterp spec fn mailbox_parse_error(s: Seq<char>) -> Option<Seq<char>>;

/// Parses a mailbox (`Name <user@domain>` or a bare address) with
/// `<lettre::message::Mailbox as FromStr>::from_str`.
///
/// Trusted: the call succeeds exactly when `mailbox_parse_error` of the text is
/// `None`, and otherwise the error's text is the one `mailbox_parse_error` names.
/// The parse depends on the text alone.
#[verifier::external_body]
fn parse_mailbox(s: &str) -> (r: Result<lettre::message::Mailbox, String>)
    ensures
        r is Ok <==> mailbox_parse_error(s@) is None,
        r matches Err(e) ==> mailbox_parse_error(s@) == Some(e@),
{
    match s.parse::<lettre::message::Mailbox>() {
        Ok(m) => Ok(m),
        Err(e) => Err(e.to_string()),
    }
}

/// A message ready to be sent: sender and recipient as mailbox texts that
/// `lettre` has parsed.
pub struct EmailDraft {
    pub from: String,
    pub to: String,
    pub subject: String,
    pub body: String,
}

/// The link with which a voter reaches a ballot token.
pub open spec fn token_link(base_url: Seq<char>, election_id: Seq<char>, token_id: Seq<char>) -> Seq<char> {
    base_url + "/elections/"@ + election_id + "/tokens/"@ + token_id
}

pub open spec fn token_subject(title: Seq<char>) -> Seq<char> {
    "Your ballot for: "@ + title
}

pub open spec fn token_body(title: Seq<char>, link: Seq<char>) -> Seq<char> {
    "You have been invited to vote in the election \""@ + title
        + "\".\n\nUse the link below to access your ballot:\n"@ + link
        + "\n\nThis link is unique to you. Do not share it with anyone.\n\nIf you did not expect this invitation, please ignore this message."@
}

pub open spec fn test_subject(title: Seq<char>) -> Seq<char> {
    title + " — SMTP Test"@
}

pub open spec fn test_body(c: SmtpConfig, election_id: Seq<char>, base_url: Seq<char>) -> Seq<char> {
    "This is a test email from the STVote election system.\nYour SMTP configuration is working correctly.\n\nWhen you send ballot tokens, voters will receive an email with a link like:\n"@
        + base_url + "/elections/"@ + election_id + "/tokens/<TOKEN>\n\nSMTP Host: "@ + c.smtp_host@
        + "\nFrom: "@ + c.from_name@ + " <"@ + c.from_email@ + ">\n\nYou can safely disregard this message."@
}

/// The sender as a mailbox text: `Name <address>`.
pub open spec fn sender(c: SmtpConfig) -> Seq<char> {
    c.from_name@ + " <"@ + c.from_email@ + ">"@
}

/// The draft of a message to `to_email`: an error naming the sender or the
/// recipient when `lettre` cannot parse it, else the draft with these texts.
pub open spec fn drafted(
    r: Result<EmailDraft, String>,
    c: SmtpConfig,
    to_email: Seq<char>,
    subject: Seq<char>,
    body: Seq<char>,
) -> bool {
    match mailbox_parse_error(sender(c)) {
        Some(e) => r matches Err(m) && m@ == "Invalid from address: "@ + e,
        None => match mailbox_parse_error(to_email) {
            Some(e) => r matches Err(m) && m@ == "Invalid to address '"@ + to_email + "': "@ + e,
            None => r matches Ok(d) && d.from@ == sender(c) && d.to@ == to_email && d.subject@
                == subject && d.body@ == body,
        },
    }
}

fn sender_text(c: &SmtpConfig) -> (r: String)
    ensures
        r@ == sender(*c),
{
    let mut r = String::from_str(c.from_name.as_str());
    r.append(" <");
    r.append(c.from_email.as_str());
    r.append(">");
    r
}

fn draft(c: &SmtpConfig, to_email: &str, subject: String, body: String) -> (r: Result<EmailDraft, String>)
    ensures
        drafted(r, *c, to_email@, subject@, body@),
{
    let from = sender_text(c);
    match parse_mailbox(from.as_str()) {
        Ok(_) => {},
        Err(e) => {
            let mut m = String::from_str("Invalid from address: ");
            m.append(e.as_str());
            return Err(m);
        },
    };
    match parse_mailbox(to_email) {
        Ok(_) => {},
        Err(e) => {
            let mut m = String::from_str("Invalid to address '");
            m.append(to_email);
            m.append("': ");
            m.append(e.as_str());
            return Err(m);
        },
    };
    Ok(EmailDraft { from, to: String::from_str(to_email), subject, body })
}

/// The message that hands a voter a ballot token.
pub fn prepare_token_email(
    config: &SmtpConfig,
    to_email: &str,
    election_title: &str,
    election_id: &str,
    token_id: &str,
    base_url: &str,
) -> (r: Result<EmailDraft, String>)
    ensures
        drafted(
            r,
            *config,
            to_email@,
            token_subject(election_title@),
            token_body(election_title@, token_link(base_url@, election_id@, token_id@)),
        ),
{
    let mut link = String::from_str(base_url);
    link.append("/elections/");
    link.append(election_id);
    link.append("/tokens/");
    link.append(token_id);
    let mut subject = String::from_str("Your ballot for: ");
    subject.append(election_title);
    let mut body = String::from_str("You have been invited to vote in the election \"");
    body.append(election_title);
    body.append("\".\n\nUse the link below to access your ballot:\n");
    body.append(link.as_str());
    body.append(
        "\n\nThis link is unique to you. Do not share it with anyone.\n\nIf you did not expect this invitation, please ignore this message.",
    );
    draft(config, to_email, subject, body)
}

/// The message that checks an SMTP configuration.
pub fn prepare_test_email(
    config: &SmtpConfig,
    to_email: &str,
    election_title: &str,
    election_id: &str,
    base_url: &str,
) -> (r: Result<EmailDraft, String>)
    ensures
        drafted(r, *config, to_email@, test_subject(election_title@), test_body(*config, election_id@, base_url@)),
{
    let mut subject = String::from_str(election_title);
    subject.append(" — SMTP Test");
    let mut body = String::from_str(
        "This is a test email from the STVote election system.\nYour SMTP configuration is working correctly.\n\nWhen you send ballot tokens, voters will receive an email with a link like:\n",
    );
    body.append(base_url);
    body.append("/elections/");
    body.append(election_id);
    body.append("/tokens/<TOKEN>\n\nSMTP Host: ");
    body.append(config.smtp_host.as_str());
    body.append("\nFrom: ");
    body.append(config.from_name.as_str());
    body.append(" <");
    body.append(config.from_email.as_str());
    body.append(">\n\nYou can safely disregard this message.");
    draft(config, to_email, subject, body)
}

} // verus!
