use vstd::prelude::*;

use crate::log::{
    ActionModel, ActionTypeModel, CountModel, CountingLog, CountingLogActionType,
    CountingLogCandidateStatus, LogModel, RoundModel,
};
use crate::counting::{elected_model, Elected, ElectionResult, GroupConfig, GroupResult};
use crate::text::{decimal_string, push_char};

verus! {

// ---------------------------------------------------------------------------
// Escaping and labels
// ---------------------------------------------------------------------------

/// The HTML entity that stands for a character, or the character itself.
pub open spec fn escape_char(c: char) -> Seq<char> {
    if c == '&' {
        "&amp;"@
    } else if c == '<' {
        "&lt;"@
    } else if c == '>' {
        "&gt;"@
    } else if c == '"' {
        "&quot;"@
    } else if c == '\'' {
        "&#39;"@
    } else {
        seq![c]
    }
}

/// `s` with the five characters that HTML treats specially replaced by entities.
pub open spec fn escaped(s: Seq<char>) -> Seq<char>
    decreases s.len(),
{
    if s.len() == 0 {
        Seq::empty()
    } else {
        escaped(s.drop_last()) + escape_char(s.last())
    }
}

/// Escapes `&`, `<`, `>`, `"` and `'` for HTML text and attributes.
pub fn html_escape(s: &str) -> (r: String)
    ensures
        r@ == escaped(s@),
{
    let chars = crate::text::chars_of(s);
    let mut r = String::new();
    let mut i: usize = 0;
    while i < chars.len()
        invariant
            i <= chars.len(),
            chars@ == s@,
            r@ == escaped(chars@.take(i as int)),
        decreases chars.len() - i,
    {
        let c = chars[i];
        if c == '&' {
            r.append("&amp;");
        } else if c == '<' {
            r.append("&lt;");
        } else if c == '>' {
            r.append("&gt;");
        } else if c == '"' {
            r.append("&quot;");
        } else if c == '\'' {
            r.append("&#39;");
        } else {
            push_char(&mut r, c);
        }
        proof {
            assert(chars@.take(i + 1).drop_last() =~= chars@.take(i as int));
        }
        i += 1;
    }
    proof {
        assert(chars@.take(i as int) =~= s@);
    }
    r
}

pub open spec fn is_markup(c: char) -> bool {
    c == '&' || c == '<' || c == '>' || c == '"' || c == '\''
}

proof fn lemma_escape_char(c: char)
    ensures
        escape_char(c).len() >= 1,
        is_markup(c) ==> escape_char(c)[0] == '&' && escape_char(c).len() >= 2,
        !is_markup(c) ==> escape_char(c) == seq![c],
        forall|i: int| 0 <= i < escape_char(c).len() ==> !(#[trigger] escape_char(c)[i] == '<' || escape_char(c)[i]
            == '>' || escape_char(c)[i] == '"' || escape_char(c)[i] == '\''),
        c == '&' ==> escape_char(c)[1] == 'a',
        c == '<' ==> escape_char(c)[1] == 'l',
        c == '>' ==> escape_char(c)[1] == 'g',
        c == '"' ==> escape_char(c)[1] == 'q',
        c == '\'' ==> escape_char(c)[1] == '#',
{
    reveal_strlit("&amp;");
    reveal_strlit("&lt;");
    reveal_strlit("&gt;");
    reveal_strlit("&quot;");
    reveal_strlit("&#39;");
}

/// Escaped text holds no `<`, `>`, `"` or `'`: it cannot open a tag or close an attribute.
pub proof fn lemma_escaped_plain(s: Seq<char>)
    ensures
        forall|i: int| 0 <= i < escaped(s).len() ==> !(#[trigger] escaped(s)[i] == '<' || escaped(s)[i] == '>'
            || escaped(s)[i] == '"' || escaped(s)[i] == '\''),
    decreases s.len(),
{
    if s.len() > 0 {
        lemma_escaped_plain(s.drop_last());
        lemma_escape_char(s.last());
        let a = escaped(s.drop_last());
        let b = escape_char(s.last());
        assert forall|i: int| 0 <= i < escaped(s).len() implies !(#[trigger] escaped(s)[i] == '<' || escaped(s)[i]
            == '>' || escaped(s)[i] == '"' || escaped(s)[i] == '\'') by {
            if i < a.len() {
                assert(escaped(s)[i] == a[i]);
            } else {
                assert(escaped(s)[i] == b[i - a.len()]);
            }
        }
    }
}

/// Escaping text piece by piece escapes the whole.
pub proof fn lemma_escaped_append(a: Seq<char>, b: Seq<char>)
    ensures
        escaped(a + b) == escaped(a) + escaped(b),
    decreases b.len(),
{
    if b.len() == 0 {
        assert(a + b =~= a);
        assert(escaped(a) + escaped(b) =~= escaped(a));
    } else {
        lemma_escaped_append(a, b.drop_last());
        assert((a + b).drop_last() =~= a + b.drop_last());
        assert((a + b).last() == b.last());
        assert(escaped(a + b) =~= escaped(a) + escaped(b));
    }
}

proof fn lemma_escaped_first(s: Seq<char>)
    requires
        s.len() > 0,
    ensures
        escaped(s) == escape_char(s[0]) + escaped(s.skip(1)),
{
    assert(s =~= seq![s[0]] + s.skip(1));
    lemma_escaped_append(seq![s[0]], s.skip(1));
    assert(seq![s[0]].drop_last() =~= Seq::<char>::empty());
    assert(seq![s[0]].last() == s[0]);
    assert(escaped(Seq::<char>::empty()) == Seq::<char>::empty());
    assert(escaped(seq![s[0]]) == escaped(Seq::<char>::empty()) + escape_char(s[0]));
    assert(escaped(seq![s[0]]) =~= escape_char(s[0]));
}

/// Different texts escape differently: escaping loses nothing.
pub proof fn lemma_escaped_injective(a: Seq<char>, b: Seq<char>)
    requires
        escaped(a) == escaped(b),
    ensures
        a == b,
    decreases a.len() + b.len(),
{
    if a.len() == 0 || b.len() == 0 {
        if a.len() > 0 {
            lemma_escaped_first(a);
            lemma_escape_char(a[0]);
        }
        if b.len() > 0 {
            lemma_escaped_first(b);
            lemma_escape_char(b[0]);
        }
        assert(a =~= b);
    } else {
        lemma_escaped_first(a);
        lemma_escaped_first(b);
        let x = a[0];
        let y = b[0];
        lemma_escape_char(x);
        lemma_escape_char(y);
        let e = escaped(a);
        assert(e[0] == escape_char(x)[0]);
        assert(e[0] == escape_char(y)[0]);
        if is_markup(x) {
            assert(is_markup(y));
            assert(e[1] == escape_char(x)[1]);
            assert(e[1] == escape_char(y)[1]);
        } else {
            assert(!is_markup(y));
        }
        assert(x == y);
        let n = escape_char(x).len();
        assert(escaped(a.skip(1)) =~= e.skip(n as int));
        assert(escaped(b.skip(1)) =~= e.skip(n as int));
        lemma_escaped_injective(a.skip(1), b.skip(1));
        assert(a =~= seq![x] + a.skip(1));
        assert(b =~= seq![y] + b.skip(1));
    }
}

/// The parts joined with `sep` between each two.
pub open spec fn join(parts: Seq<Seq<char>>, sep: Seq<char>) -> Seq<char>
    decreases parts.len(),
{
    if parts.len() == 0 {
        Seq::empty()
    } else if parts.len() == 1 {
        parts[0]
    } else {
        join(parts.drop_last(), sep) + sep + parts.last()
    }
}

/// The strings joined with `sep` between each two (`[String]::join`).
pub fn join_strings(parts: &[String], sep: &str) -> (r: String)
    ensures
        r@ == join(crate::log::strings_view(parts@), sep@),
{
    let ghost v = crate::log::strings_view(parts@);
    let mut r = String::new();
    let mut i: usize = 0;
    while i < parts.len()
        invariant
            i <= parts.len(),
            v == crate::log::strings_view(parts@),
            r@ == join(v.take(i as int), sep@),
        decreases parts.len() - i,
    {
        if i > 0 {
            r.append(sep);
        }
        r.append(parts[i].as_str());
        proof {
            assert(v.take(i + 1).drop_last() =~= v.take(i as int));
            if i == 0 {
                assert(r@ =~= v.take(1)[0]);
            }
        }
        i += 1;
    }
    proof {
        assert(v.take(i as int) =~= v);
    }
    r
}

/// The text that describes an action of the count.
pub open spec fn action_label(a: ActionTypeModel) -> Seq<char> {
    match a {
        ActionTypeModel::BeginCount => "Begin Count"@,
        ActionTypeModel::Elect { candidate } => "Elect: "@ + candidate,
        ActionTypeModel::ElectRemaining { candidate } => "Elect remaining: "@ + candidate,
        ActionTypeModel::Iterate { reason } => "Iterate ("@ + reason + ")"@,
        ActionTypeModel::Defeat { reason, candidate } => "Defeat ("@ + reason + "): "@ + candidate,
        ActionTypeModel::DefeatRemaining { candidate } => "Defeat remaining: "@ + candidate,
        ActionTypeModel::BreakTie { candidates, defeated } => "Break tie (defeat): ["@ + join(
            candidates,
            ", "@,
        ) + "] -> "@ + defeated,
        ActionTypeModel::CountComplete => "Count Complete"@,
    }
}

pub fn action_type_label(at: &CountingLogActionType) -> (r: String)
    ensures
        r@ == action_label(at@),
{
    match at {
        CountingLogActionType::BeginCount => String::from_str("Begin Count"),
        CountingLogActionType::Elect { candidate } => {
            let mut r = String::from_str("Elect: ");
            r.append(candidate.as_str());
            r
        },
        CountingLogActionType::ElectRemaining { candidate } => {
            let mut r = String::from_str("Elect remaining: ");
            r.append(candidate.as_str());
            r
        },
        CountingLogActionType::Iterate { reason } => {
            let mut r = String::from_str("Iterate (");
            r.append(reason.as_str());
            r.append(")");
            r
        },
        CountingLogActionType::Defeat { reason, candidate } => {
            let mut r = String::from_str("Defeat (");
            r.append(reason.as_str());
            r.append("): ");
            r.append(candidate.as_str());
            r
        },
        CountingLogActionType::DefeatRemaining { candidate } => {
            let mut r = String::from_str("Defeat remaining: ");
            r.append(candidate.as_str());
            r
        },
        CountingLogActionType::BreakTie { candidates, defeated } => {
            let cs = join_strings(candidates.as_slice(), ", ");
            let mut r = String::from_str("Break tie (defeat): [");
            r.append(cs.as_str());
            r.append("] -> ");
            r.append(defeated.as_str());
            r
        },
        CountingLogActionType::CountComplete => String::from_str("Count Complete"),
    }
}

proof fn lemma_join_front(parts: Seq<Seq<char>>, sep: Seq<char>)
    requires
        parts.len() >= 2,
    ensures
        join(parts, sep) == parts[0] + sep + join(parts.skip(1), sep),
    decreases parts.len(),
{
    if parts.len() == 2 {
        assert(parts.drop_last() =~= seq![parts[0]]);
        assert(parts.skip(1) =~= seq![parts[1]]);
        assert(join(parts.drop_last(), sep) == parts[0]);
        assert(join(parts.skip(1), sep) == parts[1]);
        assert(parts.last() == parts[1]);
    } else {
        lemma_join_front(parts.drop_last(), sep);
        assert(parts.drop_last().skip(1) =~= parts.skip(1).drop_last());
        assert(parts.skip(1).last() == parts.last());
        assert(join(parts, sep) =~= parts[0] + sep + join(parts.skip(1), sep));
    }
}

/// Splitting at `", "` the names joined with `", "` gives the names back, when
/// none of them holds `", "`.
proof fn lemma_split_join(parts: Seq<Seq<char>>)
    requires
        parts.len() > 0,
        forall|i: int| 0 <= i < parts.len() ==> crate::text::find(#[trigger] parts[i], ", "@) == -1,
    ensures
        crate::text::split_on(join(parts, ", "@), ", "@) == parts,
    decreases parts.len(),
{
    reveal_strlit(", ");
    let sep = ", "@;
    if parts.len() == 1 {
        assert(crate::text::find(parts[0], sep) == -1);
        assert(seq![parts[0]] =~= parts);
    } else {
        lemma_join_front(parts, sep);
        let a = parts[0];
        let rest = join(parts.skip(1), sep);
        let s = a + sep + rest;
        assert(crate::text::find(a, sep) == -1);
        crate::text::lemma_find_from_found(a, sep, 0);
        assert forall|j: int| 0 <= j < a.len() implies !crate::text::occurs_at(s, sep, j) by {
            if crate::text::occurs_at(s, sep, j) {
                if j + 2 <= a.len() {
                    assert(a.subrange(j, j + 2) =~= s.subrange(j, j + 2));
                    assert(crate::text::occurs_at(a, sep, j));
                } else {
                    assert(s.subrange(j, j + 2)[1] == s[a.len() as int]);
                    assert(s[a.len() as int] == ',');
                }
            }
        }
        assert(s.subrange(a.len() as int, a.len() + 2int) =~= sep);
        crate::text::lemma_find_from(s, sep, 0, a.len() as int);
        assert(s.take(a.len() as int) =~= a);
        assert(s.skip(a.len() + 2int) =~= rest);
        assert forall|i: int| 0 <= i < parts.skip(1).len() implies crate::text::find(
            #[trigger] parts.skip(1)[i],
            ", "@,
        ) == -1 by {
            assert(parts.skip(1)[i] == parts[i + 1]);
        }
        lemma_split_join(parts.skip(1));
        assert(seq![a] + parts.skip(1) =~= parts);
    }
}

/// In a defeat's label, the first `): ` after `Defeat (` ends the reason, when
/// the reason holds none.
proof fn lemma_defeat_separator(reason: Seq<char>, candidate: Seq<char>)
    requires
        crate::text::find(reason, "): "@) == -1,
    ensures
        crate::text::find(reason + "): "@ + candidate, "): "@) == reason.len(),
{
    reveal_strlit("): ");
    let sep = "): "@;
    let body = reason + sep + candidate;
    let n = reason.len() as int;
    crate::text::lemma_find_from_found(reason, sep, 0);
    assert forall|j: int| 0 <= j < n implies !crate::text::occurs_at(body, sep, j) by {
        if crate::text::occurs_at(body, sep, j) {
            if j + 3 <= n {
                assert(reason.subrange(j, j + 3) =~= body.subrange(j, j + 3));
                assert(crate::text::occurs_at(reason, sep, j));
            } else {
                assert(body[n] == ')');
                assert(body.subrange(j, j + 3)[n - j] == body[n]);
                assert(sep[n - j] != ')');
            }
        }
    }
    assert(body.subrange(n, n + 3) =~= sep);
    crate::text::lemma_find_from(body, sep, 0, n);
}

/// The label of an action reads back, through the counting log's action
/// parser, as the action it labels, for the names and reasons that the label's
/// punctuation leaves unambiguous: the parser drops trailing `)` from a reason
/// or a defeated candidate, looks for the first `): ` after `Defeat (` (so a
/// defeat's reason must not hold `): `), splits a
/// tie's candidates at `, ` and looks for the first ` -> ` after them, and
/// drops the brackets around them.
pub proof fn lemma_action_label_read_back(a: ActionTypeModel)
    requires
        a matches ActionTypeModel::Iterate { reason } ==> !(reason.len() > 0 && reason.last() == ')'),
        a matches ActionTypeModel::Defeat { reason, candidate } ==> crate::text::find(reason, "): "@) == -1
            && !(candidate.len() > 0 && candidate.last() == ')'),
        a matches ActionTypeModel::BreakTie { candidates, .. } ==> {
            let j = join(candidates, ", "@);
            &&& candidates.len() > 0
            &&& forall|i: int| 0 <= i < candidates.len() ==> crate::text::find(#[trigger] candidates[i], ", "@) == -1
            &&& crate::text::find(j, " -> "@) == -1
            &&& !(j.len() > 0 && j[0] == '[')
            &&& !(j.len() > 0 && j.last() == ']')
        },
    ensures
        crate::log::action_type_of(action_label(a)) == a,
{
    reveal_strlit("Begin Count");
    reveal_strlit("Count Complete");
    reveal_strlit("Elect remaining: ");
    reveal_strlit("Elect: ");
    reveal_strlit("Defeat remaining: ");
    reveal_strlit("Break tie (defeat): ");
    reveal_strlit("Iterate (");
    reveal_strlit(")");
    reveal_strlit("Defeat (");
    reveal_strlit("): ");
    reveal_strlit("] -> ");
    reveal_strlit("Break tie (defeat): [");
    reveal_strlit(" -> ");
    reveal_strlit("[");
    reveal_strlit("]");
    let l = action_label(a);
    match a {
        ActionTypeModel::BeginCount => {},
        ActionTypeModel::CountComplete => {
            assert(l != "Begin Count"@) by {
                assert(l[0] != "Begin Count"@[0]);
            }
        },
        ActionTypeModel::Elect { candidate } => {
            assert(l[0] == 'E' && l[5] == ':');
            assert(l != "Begin Count"@ && l != "Count Complete"@);
            assert(!crate::text::has_prefix(l, "Elect remaining: "@)) by {
                if l.len() >= 17 {
                    assert(l.take(17)[5] != "Elect remaining: "@[5]);
                }
            }
            assert(l.take(7) =~= "Elect: "@);
            assert(l.skip(7) =~= candidate);
        },
        ActionTypeModel::ElectRemaining { candidate } => {
            assert(l[0] == 'E');
            assert(l != "Begin Count"@ && l != "Count Complete"@);
            assert(l.take(17) =~= "Elect remaining: "@);
            assert(l.skip(17) =~= candidate);
        },
        ActionTypeModel::DefeatRemaining { candidate } => {
            assert(l[0] == 'D');
            assert(l != "Begin Count"@ && l != "Count Complete"@);
            assert(!crate::text::has_prefix(l, "Elect remaining: "@)) by {
                if l.len() >= 17 {
                    assert(l.take(17)[0] != "Elect remaining: "@[0]);
                }
            }
            assert(!crate::text::has_prefix(l, "Elect: "@)) by {
                if l.len() >= 7 {
                    assert(l.take(7)[0] != "Elect: "@[0]);
                }
            }
            assert(l.take(18) =~= "Defeat remaining: "@);
            assert(l.skip(18) =~= candidate);
        },
        ActionTypeModel::Iterate { reason } => {
            assert(l[0] == 'I');
            assert(l != "Begin Count"@ && l != "Count Complete"@);
            assert(!crate::text::has_prefix(l, "Elect remaining: "@)) by {
                if l.len() >= 17 {
                    assert(l.take(17)[0] != "Elect remaining: "@[0]);
                }
            }
            assert(!crate::text::has_prefix(l, "Elect: "@)) by {
                if l.len() >= 7 {
                    assert(l.take(7)[0] != "Elect: "@[0]);
                }
            }
            assert(!crate::text::has_prefix(l, "Defeat remaining: "@)) by {
                if l.len() >= 18 {
                    assert(l.take(18)[0] != "Defeat remaining: "@[0]);
                }
            }
            assert(!crate::text::has_prefix(l, "Break tie (defeat): "@)) by {
                if l.len() >= 20 {
                    assert(l.take(20)[0] != "Break tie (defeat): "@[0]);
                }
            }
            assert(l.take(9) =~= "Iterate ("@);
            let rest = l.skip(9);
            assert(rest =~= reason + ")"@);
            assert(rest.drop_last() =~= reason);
            assert(crate::text::strip_trailing(rest, ')') == crate::text::strip_trailing(reason, ')'));
        },
        ActionTypeModel::Defeat { reason, candidate } => {
            assert(l[0] == 'D' && l[7] == '(');
            assert(l != "Begin Count"@ && l != "Count Complete"@);
            assert(!crate::text::has_prefix(l, "Elect remaining: "@)) by {
                if l.len() >= 17 {
                    assert(l.take(17)[0] != "Elect remaining: "@[0]);
                }
            }
            assert(!crate::text::has_prefix(l, "Elect: "@)) by {
                if l.len() >= 7 {
                    assert(l.take(7)[0] != "Elect: "@[0]);
                }
            }
            assert(!crate::text::has_prefix(l, "Defeat remaining: "@)) by {
                if l.len() >= 18 {
                    assert(l.take(18)[7] != "Defeat remaining: "@[7]);
                }
            }
            assert(!crate::text::has_prefix(l, "Break tie (defeat): "@)) by {
                if l.len() >= 20 {
                    assert(l.take(20)[0] != "Break tie (defeat): "@[0]);
                }
            }
            assert(!crate::text::has_prefix(l, "Iterate ("@)) by {
                if l.len() >= 9 {
                    assert(l.take(9)[0] != "Iterate ("@[0]);
                }
            }
            assert(l.take(8) =~= "Defeat ("@);
            let body = l.skip(8);
            assert(body =~= reason + "): "@ + candidate);
            assert(crate::text::strip_trailing(body, ')') == body) by {
                if candidate.len() > 0 {
                    assert(body.last() == candidate.last());
                } else {
                    assert(body.last() == ' ');
                }
            }
            let sep = "): "@;
            let n = reason.len() as int;
            lemma_defeat_separator(reason, candidate);
            assert(body.take(n) =~= reason);
            assert(body.skip(n + 3) =~= candidate);
        },
        ActionTypeModel::BreakTie { candidates, defeated } => {
            let j = join(candidates, ", "@);
            assert(l[0] == 'B' && l[1] == 'r');
            assert(l != "Begin Count"@) by {
                assert(l[1] != "Begin Count"@[1]);
            }
            assert(l != "Count Complete"@);
            assert(!crate::text::has_prefix(l, "Elect remaining: "@)) by {
                if l.len() >= 17 {
                    assert(l.take(17)[0] != "Elect remaining: "@[0]);
                }
            }
            assert(!crate::text::has_prefix(l, "Elect: "@)) by {
                if l.len() >= 7 {
                    assert(l.take(7)[0] != "Elect: "@[0]);
                }
            }
            assert(!crate::text::has_prefix(l, "Defeat remaining: "@)) by {
                if l.len() >= 18 {
                    assert(l.take(18)[0] != "Defeat remaining: "@[0]);
                }
            }
            assert(l.take(20) =~= "Break tie (defeat): "@);
            let rest = l.skip(20);
            assert(rest =~= "["@ + j + "] -> "@ + defeated);
            let arrow = " -> "@;
            let k = j.len() + 2int;
            crate::text::lemma_find_from_found(j, arrow, 0);
            assert forall|i: int| 0 <= i < k implies !crate::text::occurs_at(rest, arrow, i) by {
                if crate::text::occurs_at(rest, arrow, i) {
                    assert(rest.subrange(i, i + 4)[0] == rest[i]);
                    if i == 0 {
                        assert(rest[0] == '[');
                    } else if i + 4 <= j.len() + 1 {
                        assert(j.subrange(i - 1, i + 3) =~= rest.subrange(i, i + 4));
                        assert(crate::text::occurs_at(j, arrow, i - 1));
                    } else {
                        assert(rest[j.len() + 1int] == ']');
                        assert(rest.subrange(i, i + 4)[j.len() + 1 - i] == rest[j.len() + 1int]);
                    }
                }
            }
            assert(rest.subrange(k, k + 4) =~= arrow);
            crate::text::lemma_find_from(rest, arrow, 0, k);
            let cs = rest.take(k);
            assert(cs =~= "["@ + j + "]"@);
            assert(cs.drop_first() =~= j + "]"@);
            assert(crate::text::strip_leading(cs, '[') == crate::text::strip_leading(j + "]"@, '['));
            assert(crate::text::strip_leading(j + "]"@, '[') == j + "]"@) by {
                if j.len() == 0 {
                    assert((j + "]"@)[0] == ']');
                } else {
                    assert((j + "]"@)[0] == j[0]);
                }
            }
            assert((j + "]"@).drop_last() =~= j);
            assert(crate::text::strip_trailing(j + "]"@, ']') == crate::text::strip_trailing(j, ']'));
            lemma_split_join(candidates);
            assert(rest.skip(k + 4) =~= defeated);
        },
        _ => {},
    }
}

/// The word for a candidate's status.
pub open spec fn status_text(s: CountingLogCandidateStatus) -> Seq<char> {
    match s {
        CountingLogCandidateStatus::Elected => "Elected"@,
        CountingLogCandidateStatus::Hopeful => "Hopeful"@,
        CountingLogCandidateStatus::Defeated => "Defeated"@,
    }
}

pub fn status_label(s: &CountingLogCandidateStatus) -> (r: &'static str)
    ensures
        r@ == status_text(*s),
{
    match s {
        CountingLogCandidateStatus::Elected => "Elected",
        CountingLogCandidateStatus::Hopeful => "Hopeful",
        CountingLogCandidateStatus::Defeated => "Defeated",
    }
}


// ---------------------------------------------------------------------------
// The counting log as HTML
// ---------------------------------------------------------------------------

/// The CSS class for a candidate's status.
pub open spec fn status_class(s: CountingLogCandidateStatus) -> Seq<char> {
    match s {
        CountingLogCandidateStatus::Elected => "elected"@,
        CountingLogCandidateStatus::Defeated => "defeated"@,
        CountingLogCandidateStatus::Hopeful => "hopeful"@,
    }
}

pub open spec fn count_row(c: CountModel) -> Seq<char> {
    "<tr class=\"candidate-row\"><td>"@ + escaped(c.name) + "</td><td class=\""@ + status_class(c.status)
        + "\">"@ + status_text(c.status) + "</td><td>"@ + escaped(c.votes) + "</td></tr>\n"@
}

pub open spec fn count_rows(cs: Seq<CountModel>) -> Seq<char>
    decreases cs.len(),
{
    if cs.len() == 0 {
        Seq::empty()
    } else {
        count_rows(cs.drop_last()) + count_row(cs.last())
    }
}

/// One action: a table headed by the action and its statistics, with a row per
/// candidate count in candidate order.
pub open spec fn action_html(a: ActionModel, candidates: Seq<Seq<char>>) -> Seq<char> {
    "<table>\n<tr class=\"action\"><th colspan=\"4\">Action: "@ + escaped(action_label(a.action_type))
        + "</th><th colspan=\"3\" class=\"stats\">Quota: "@ + escaped(a.stats.quota) + " | Total: "@
        + escaped(a.stats.total) + " | Surplus: "@ + escaped(a.stats.surplus) + "</th></tr>\n"@
        + "<tr><th>Candidate</th><th>Status</th><th>Votes</th></tr>\n"@ + count_rows(
        crate::log::in_candidate_order(a.candidate_counts, candidates),
    ) + "</table>\n"@
}

pub open spec fn actions_html(acts: Seq<ActionModel>, candidates: Seq<Seq<char>>) -> Seq<char>
    decreases acts.len(),
{
    if acts.len() == 0 {
        Seq::empty()
    } else {
        actions_html(acts.drop_last(), candidates) + action_html(acts.last(), candidates)
    }
}

pub open spec fn round_html(r: RoundModel, candidates: Seq<Seq<char>>) -> Seq<char> {
    "<h3>Round "@ + crate::text::decimal(r.round_number as nat) + "</h3>\n"@ + actions_html(r.actions, candidates)
}

pub open spec fn rounds_html(rs: Seq<RoundModel>, candidates: Seq<Seq<char>>) -> Seq<char>
    decreases rs.len(),
{
    if rs.len() == 0 {
        Seq::empty()
    } else {
        rounds_html(rs.drop_last(), candidates) + round_html(rs.last(), candidates)
    }
}

/// The counting log as HTML: a heading per round and a table per action.
pub open spec fn log_html(l: LogModel, candidates: Seq<Seq<char>>) -> Seq<char> {
    rounds_html(l.rounds, candidates)
}

fn count_row_exec(cc: &crate::log::CountingLogCandidateCount) -> (r: String)
    ensures
        r@ == count_row(cc@),
{
    let mut html = String::from_str("<tr class=\"candidate-row\"><td>");
    html.append(html_escape(cc.name.as_str()).as_str());
    html.append("</td><td class=\"");
    let cls = match cc.status {
        CountingLogCandidateStatus::Elected => "elected",
        CountingLogCandidateStatus::Defeated => "defeated",
        CountingLogCandidateStatus::Hopeful => "hopeful",
    };
    html.append(cls);
    html.append("\">");
    html.append(status_label(&cc.status));
    html.append("</td><td>");
    html.append(html_escape(cc.votes.as_str()).as_str());
    html.append("</td></tr>\n");
    html
}

fn action_html_exec(a: &crate::log::CountingLogAction, candidates: &[String]) -> (r: String)
    ensures
        r@ == action_html(a@, crate::log::strings_view(candidates@)),
{
    let mut html = String::from_str("<table>\n<tr class=\"action\"><th colspan=\"4\">Action: ");
    let label = action_type_label(&a.action_type);
    html.append(html_escape(label.as_str()).as_str());
    html.append("</th><th colspan=\"3\" class=\"stats\">Quota: ");
    html.append(html_escape(a.stats.quota.as_str()).as_str());
    html.append(" | Total: ");
    html.append(html_escape(a.stats.total.as_str()).as_str());
    html.append(" | Surplus: ");
    html.append(html_escape(a.stats.surplus.as_str()).as_str());
    html.append("</th></tr>\n");
    html.append("<tr><th>Candidate</th><th>Status</th><th>Votes</th></tr>\n");
    let sorted = crate::log::sort_candidate_count_slice(&a.candidate_counts, candidates);
    let ghost sm = crate::log::counts_model(sorted@);
    let ghost head = html@;
    let mut k: usize = 0;
    while k < sorted.len()
        invariant
            k <= sorted.len(),
            sm == crate::log::counts_model(sorted@),
            html@ == head + count_rows(sm.take(k as int)),
        decreases sorted.len() - k,
    {
        let cc = &sorted[k];
        let row = count_row_exec(cc);
        html.append(row.as_str());
        proof {
            assert(sm[k as int] == cc@);
            assert(sm.take(k + 1).drop_last() =~= sm.take(k as int));
            assert(sm.take(k + 1).last() == sm[k as int]);
        }
        k += 1;
    }
    html.append("</table>\n");
    proof {
        assert(sm.take(k as int) =~= sm);
    }
    html
}

/// The counting log as HTML, candidate counts in the order of `candidates`.
pub fn generate_log_html(log: &CountingLog, candidates: &[String]) -> (r: String)
    ensures
        r@ == log_html(log@, crate::log::strings_view(candidates@)),
{
    let ghost cs = crate::log::strings_view(candidates@);
    let ghost rs = log@.rounds;
    let mut html = String::new();
    let mut i: usize = 0;
    while i < log.rounds.len()
        invariant
            i <= log.rounds.len(),
            cs == crate::log::strings_view(candidates@),
            rs == log@.rounds,
            html@ == rounds_html(rs.take(i as int), cs),
        decreases log.rounds.len() - i,
    {
        let round = &log.rounds[i];
        let ghost before = html@;
        html.append("<h3>Round ");
        html.append(decimal_string(round.round_number).as_str());
        html.append("</h3>\n");
        let ghost head = html@;
        let mut j: usize = 0;
        while j < round.actions.len()
            invariant
                j <= round.actions.len(),
                round == &log.rounds[i as int],
                cs == crate::log::strings_view(candidates@),
                html@ == head + actions_html(round@.actions.take(j as int), cs),
            decreases round.actions.len() - j,
        {
            let a = action_html_exec(&round.actions[j], candidates);
            html.append(a.as_str());
            proof {
                assert(round@.actions[j as int] == round.actions@[j as int]@);
                assert(round@.actions.take(j + 1).drop_last() =~= round@.actions.take(j as int));
                assert(round@.actions.take(j + 1).last() == round@.actions[j as int]);
            }
            j += 1;
        }
        proof {
            assert(round@.actions.take(j as int) =~= round@.actions);
            assert(rs[i as int] == round@);
            assert(rs.take(i + 1).drop_last() =~= rs.take(i as int));
            assert(rs.take(i + 1).last() == rs[i as int]);
        }
        i += 1;
    }
    proof {
        assert(rs.take(i as int) =~= rs);
    }
    html
}


// ---------------------------------------------------------------------------
// The archive's README
// ---------------------------------------------------------------------------

/// An election as the export reads it, its times already in RFC 3339.
pub struct ElectionRecord {
    pub uuid: String,
    pub title: String,
    pub description: Option<String>,
    pub candidates: Vec<String>,
    pub num_seats: u32,
    pub election_type: String,
    pub start_time: String,
    pub end_time: String,
    pub groups: Vec<GroupConfig>,
    pub candidate_groups: Vec<String>,
}

/// A ballot as stored: its id, and its ranks once it has been cast.
pub struct BallotRecord {
    pub id: String,
    pub ranks: Option<Vec<Option<usize>>>,
}

/// A ballot as `ballots.json` lists it.
pub struct BallotJsonEntry {
    pub id: String,
    pub ranks: Option<Vec<Option<usize>>>,
}

/// What the README says of the files in the archive.
pub const README_FILES: &'static str = "

This archive contains the complete data for this STV election.

## Files

### `election.json`
Election configuration and metadata in JSON format.
- `title` — Election title
- `description` — Optional description
- `candidates` — List of candidate names
- `seats` — Number of seats to fill
- `election_type` — Voting algorithm used (`stv-md`, `stv-md-coperland`, or `stv-md-grouped`)
- `start_time` / `end_time` — Election period (ISO 8601)
- `number_of_ballots` — Total number of ballot tokens issued
- `ballot_ids` — List of all ballot IDs (visible after election ends)
- `groups` — (Grouped elections only) Group definitions with name and seat count
- `candidate_groups` — (Grouped elections only) Group assignment per candidate

### `ballots.json`
All cast ballots with their ranking preferences.
- `id` — Unique ballot identifier
- `ranks` — Array of rank preferences per candidate position (null = unranked). The index in the array corresponds to the candidate position in `election.json` candidates list. The value is the rank number (0-based), or null if the voter did not rank that candidate.

### `results.json`
Full election results including elected candidates, pairwise comparison matrix (Copeland), and the complete structured counting log.
- `type` — Result type (`stv-md`, `stv-md-coperland`, or `stv-md-grouped`)
- `elected` — List of elected candidates in order
- `order` — (Copeland only) Final candidate ranking by Copeland score
- `pairwise_matrix` — (Copeland only) Head-to-head comparison matrix
- `log` — (Non-grouped only) Structured counting log with per-round actions, candidate counts, and stats
- `groups` — (Grouped only) Group configuration
- `group_results` — (Grouped only) Per-group results with sub-election, log, and elected candidates

### `report.html`
Human-readable election report. Self-contained HTML (no external dependencies). Open in any browser and print to PDF if desired.

## Summary

- **Election UUID**: ";

/// Number of the first `n` ballots that have been cast.
pub open spec fn cast_upto(ballots: Seq<BallotRecord>, n: int) -> nat
    decreases n,
{
    if n <= 0 {
        0
    } else {
        cast_upto(ballots, n - 1) + if ballots[n - 1].ranks is Some {
            1nat
        } else {
            0nat
        }
    }
}

pub open spec fn description_line(d: Option<String>) -> Seq<char> {
    match d {
        Some(d) => "- **Description**: "@ + d@ + "\n"@,
        None => Seq::empty(),
    }
}

/// The README of the archive: what each file holds, and a summary of the election.
pub open spec fn readme(e: ElectionRecord, tokens: usize, ballots: Seq<BallotRecord>) -> Seq<char> {
    let cast = cast_upto(ballots, ballots.len() as int);
    "# Election Export: "@ + e.title@ + README_FILES@ + e.uuid@ + "\n- **Title**: "@ + e.title@ + "\n"@
        + description_line(e.description) + "- **Candidates**: "@ + join(
        crate::log::strings_view(e.candidates@),
        ", "@,
    ) + "\n- **Seats**: "@ + crate::text::decimal(e.num_seats as nat) + "\n- **Election type**: "@
        + e.election_type@ + "\n- **Start**: "@ + e.start_time@ + "\n- **End**: "@ + e.end_time@
        + "\n- **Tokens issued**: "@ + crate::text::decimal(tokens as nat) + "\n- **Ballots cast**: "@
        + crate::text::decimal(cast) + "\n- **Abstained**: "@ + crate::text::decimal(
        (ballots.len() - cast) as nat,
    ) + "\n"@
}

proof fn lemma_cast_bounded(ballots: Seq<BallotRecord>, n: int)
    requires
        0 <= n,
    ensures
        cast_upto(ballots, n) <= n,
    decreases n,
{
    if n > 0 {
        lemma_cast_bounded(ballots, n - 1);
    }
}

/// The README of the export archive, for `tokens` ballot tokens issued.
pub fn generate_readme(election: &ElectionRecord, tokens: usize, ballots: &[BallotRecord]) -> (r: String)
    ensures
        r@ == readme(*election, tokens, ballots@),
{
    let mut cast: usize = 0;
    let mut i: usize = 0;
    while i < ballots.len()
        invariant
            i <= ballots.len(),
            cast == cast_upto(ballots@, i as int),
            cast <= i,
        decreases ballots.len() - i,
    {
        proof {
            lemma_cast_bounded(ballots@, i + 1);
        }
        if ballots[i].ranks.is_some() {
            cast = cast + 1;
        }
        i += 1;
    }
    let abstained = ballots.len() - cast;
    let mut r = String::from_str("# Election Export: ");
    r.append(election.title.as_str());
    r.append(README_FILES);
    r.append(election.uuid.as_str());
    r.append("\n- **Title**: ");
    r.append(election.title.as_str());
    r.append("\n");
    match &election.description {
        Some(d) => {
            r.append("- **Description**: ");
            r.append(d.as_str());
            r.append("\n");
        },
        None => {},
    }
    r.append("- **Candidates**: ");
    r.append(join_strings(election.candidates.as_slice(), ", ").as_str());
    r.append("\n- **Seats**: ");
    r.append(decimal_string(election.num_seats as usize).as_str());
    r.append("\n- **Election type**: ");
    r.append(election.election_type.as_str());
    r.append("\n- **Start**: ");
    r.append(election.start_time.as_str());
    r.append("\n- **End**: ");
    r.append(election.end_time.as_str());
    r.append("\n- **Tokens issued**: ");
    r.append(decimal_string(tokens).as_str());
    r.append("\n- **Ballots cast**: ");
    r.append(decimal_string(cast).as_str());
    r.append("\n- **Abstained**: ");
    r.append(decimal_string(abstained).as_str());
    r.append("\n");
    r
}

/// An election's archive is there once the election has ended; before, it is
/// not found.
pub fn check_export(now: crate::tokens::Timestamp, end: crate::tokens::Timestamp) -> (r: Result<(), crate::error::Error>)
    ensures
        crate::tokens::earlier(now, end) ==> r matches Err(crate::error::Error::NotFound),
        !crate::tokens::earlier(now, end) ==> r is Ok,
{
    if crate::tokens::has_ended(now, end) {
        Ok(())
    } else {
        Err(crate::error::Error::NotFound)
    }
}

/// The rankings of the cast ballots, in their order; a ballot without ranks
/// was not cast.
pub open spec fn cast_rankings(ballots: Seq<BallotRecord>) -> Seq<Seq<Option<usize>>> {
    ballots.filter(|b: BallotRecord| b.ranks is Some).map_values(|b: BallotRecord| b.ranks->Some_0@)
}

/// The ballots that are counted: those that were cast, with their ranks.
pub fn ballots_for_counting(ballots: &[BallotRecord]) -> (r: Vec<crate::counting::Ballot>)
    ensures
        r@.map_values(|b: crate::counting::Ballot| b.ranks@) == cast_rankings(ballots@),
{
    let ghost f = |b: BallotRecord| b.ranks is Some;
    let ghost g = |b: BallotRecord| b.ranks->Some_0@;
    let ghost h = |b: crate::counting::Ballot| b.ranks@;
    let mut r: Vec<crate::counting::Ballot> = Vec::new();
    let mut i: usize = 0;
    while i < ballots.len()
        invariant
            i <= ballots.len(),
            f == (|b: BallotRecord| b.ranks is Some),
            g == (|b: BallotRecord| b.ranks->Some_0@),
            h == (|b: crate::counting::Ballot| b.ranks@),
            r@.map_values(h) == ballots@.take(i as int).filter(f).map_values(g),
        decreases ballots.len() - i,
    {
        let ghost before = r@;
        proof {
            assert(ballots@.take(i + 1).drop_last() =~= ballots@.take(i as int));
            reveal(Seq::filter);
        }
        if let Some(ranks) = &ballots[i].ranks {
            let copy = crate::counting::copy_ranks(ranks.as_slice());
            r.push(crate::counting::Ballot { ranks: copy });
            proof {
                assert(r@.map_values(h) =~= before.map_values(h).push(ranks@));
            }
        }
        proof {
            reveal(Seq::filter);
            assert(r@.map_values(h) =~= ballots@.take(i + 1).filter(f).map_values(g));
        }
        i += 1;
    }
    proof {
        assert(ballots@.take(i as int) =~= ballots@);
    }
    r
}

/// The ids of all ballots, cast or not, once the election that ends at `end`
/// has ended at `now`; before, none are shown.
pub fn ballot_ids_once_ended(
    now: crate::tokens::Timestamp,
    end: crate::tokens::Timestamp,
    ballots: &[BallotRecord],
) -> (r: Option<Vec<String>>)
    ensures
        crate::tokens::earlier(now, end) ==> r is None,
        !crate::tokens::earlier(now, end) ==> (r matches Some(v) && crate::log::strings_view(v@)
            == ballots@.map_values(|b: BallotRecord| b.id@)),
{
    if !crate::tokens::has_ended(now, end) {
        return None;
    }
    let mut v: Vec<String> = Vec::new();
    let mut i: usize = 0;
    while i < ballots.len()
        invariant
            i <= ballots.len(),
            crate::log::strings_view(v@) == ballots@.take(i as int).map_values(|b: BallotRecord| b.id@),
        decreases ballots.len() - i,
    {
        let id = ballots[i].id.clone();
        let ghost before = v@;
        v.push(id);
        proof {
            assert(crate::log::strings_view(v@) =~= crate::log::strings_view(before).push(id@));
            assert(ballots@.take(i + 1) =~= ballots@.take(i as int).push(ballots@[i as int]));
            assert(ballots@.take(i + 1).map_values(|b: BallotRecord| b.id@) =~= ballots@.take(i as int).map_values(
                |b: BallotRecord| b.id@,
            ).push(ballots@[i as int].id@));
        }
        i += 1;
    }
    proof {
        assert(ballots@.take(i as int) =~= ballots@);
    }
    Some(v)
}

/// The entries of `ballots.json`: every ballot's id and ranks.
pub fn ballots_json_data(ballots: &[BallotRecord]) -> (r: Vec<BallotJsonEntry>)
    ensures
        r@.len() == ballots@.len(),
        forall|i: int| 0 <= i < ballots@.len() ==> (#[trigger] r@[i]).id@ == ballots@[i].id@ && match (r@[i].ranks, ballots@[i].ranks) {
            (Some(a), Some(b)) => a@ == b@,
            (None, None) => true,
            _ => false,
        },
{
    let mut r: Vec<BallotJsonEntry> = Vec::new();
    let mut i: usize = 0;
    while i < ballots.len()
        invariant
            i <= ballots.len(),
            r@.len() == i,
            forall|k: int| 0 <= k < i ==> (#[trigger] r@[k]).id@ == ballots@[k].id@ && match (r@[k].ranks, ballots@[k].ranks) {
                (Some(a), Some(b)) => a@ == b@,
                (None, None) => true,
                _ => false,
            },
        decreases ballots.len() - i,
    {
        let ranks = match &ballots[i].ranks {
            Some(v) => Some(crate::counting::copy_ranks(v.as_slice())),
            None => None,
        };
        r.push(BallotJsonEntry { id: ballots[i].id.clone(), ranks });
        i += 1;
    }
    r
}


// ---------------------------------------------------------------------------
// The HTML report
// ---------------------------------------------------------------------------

/// The start of the report, up to the title.
pub const REPORT_HEAD: &'static str = "<!DOCTYPE html>
<html lang=\"en\">
<head>
<meta charset=\"UTF-8\">
<meta name=\"viewport\" content=\"width=device-width, initial-scale=1.0\">
<title>Election Report &mdash; ";

/// The report's style sheet, between the title in the head and the title in the body.
pub const REPORT_STYLE: &'static str = "</title>
<style>
  body { font-family: -apple-system, BlinkMacSystemFont, 'Segoe UI', Roboto, 'Helvetica Neue', Arial, sans-serif; margin: 2em; color: #1a1a1a; background: #fff; line-height: 1.5; }
  h1 { border-bottom: 2px solid #333; padding-bottom: 0.3em; }
  h2 { margin-top: 1.5em; border-bottom: 1px solid #ccc; padding-bottom: 0.2em; }
  h3 { margin-top: 1.2em; color: #444; }
  .desc { font-size: 1.1em; color: #555; }
  table { border-collapse: collapse; margin: 1em 0; min-width: 300px; }
  th, td { border: 1px solid #ccc; padding: 0.5em 0.8em; text-align: left; }
  th { background: #f5f5f5; font-weight: 600; }
  .diag { background: #eee; text-align: center; }
  .win { background: #d4edda; text-align: center; }
  .loss { background: #f8d7da; text-align: center; }
  .round { background: #e8f0fe; font-weight: 600; }
  .action { background: #fef9e7; }
  .action-type { font-style: italic; }
  .candidate-row td { padding: 0.3em 0.8em; }
  .candidate-row td:first-child { padding-left: 2em; }
  .stats { font-size: 0.9em; color: #666; }
  .elected { color: #155724; font-weight: 600; }
  .defeated { color: #721c24; }
  .hopeful { color: #333; }
  ul { list-style: none; padding: 0; }
  li { margin: 0.3em 0; }
  @media print { body { margin: 1em; } }
</style>
</head>
<body>
<h1>";

/// The pieces, one after the other.
pub open spec fn concat(parts: Seq<Seq<char>>) -> Seq<char>
    decreases parts.len(),
{
    if parts.len() == 0 {
        Seq::empty()
    } else {
        concat(parts.drop_last()) + parts.last()
    }
}

proof fn lemma_concat_step(f: spec_fn(int) -> Seq<char>, k: nat)
    ensures
        concat(Seq::new(k + 1, f)) == concat(Seq::new(k, f)) + f(k as int),
{
    assert(Seq::new(k + 1, f).drop_last() =~= Seq::new(k, f));
}

proof fn lemma_join_step(f: spec_fn(int) -> Seq<char>, k: nat, sep: Seq<char>)
    ensures
        join(Seq::new(k + 1, f), sep) == if k == 0 {
            f(0)
        } else {
            join(Seq::new(k, f), sep) + sep + f(k as int)
        },
{
    assert(Seq::new(k + 1, f).drop_last() =~= Seq::new(k, f));
}

pub open spec fn description_html(d: Option<String>) -> Seq<char> {
    match d {
        Some(d) => "<p class=\"desc\">"@ + escaped(d@) + "</p>"@,
        None => Seq::empty(),
    }
}

/// The list item of candidate `i`, with its group when one is assigned.
pub open spec fn candidate_item(names: Seq<Seq<char>>, groups: Seq<Seq<char>>, i: int) -> Seq<char> {
    let group_info = if i < groups.len() {
        " &mdash; <em>"@ + escaped(groups[i]) + "</em>"@
    } else {
        Seq::empty()
    };
    "<li><strong>"@ + escaped(names[i]) + "</strong> (index "@ + crate::text::decimal(i as nat) + ")"@
        + group_info + "</li>"@
}

/// The list item of the `i`-th candidate of a group.
pub open spec fn group_candidate_item(names: Seq<Seq<char>>, i: int) -> Seq<char> {
    "<li><strong>"@ + escaped(names[i]) + "</strong> (index "@ + crate::text::decimal(i as nat) + ")</li>"@
}

pub open spec fn elected_row(els: Seq<(Seq<char>, usize)>, i: int) -> Seq<char> {
    "<tr><td>"@ + crate::text::decimal((i + 1) as nat) + "</td><td>"@ + escaped(els[i].0) + "</td></tr>\n"@
}

pub open spec fn elected_rows(els: Seq<(Seq<char>, usize)>) -> Seq<char> {
    concat(Seq::new(els.len(), |i: int| elected_row(els, i)))
}

pub open spec fn elected_table(els: Seq<(Seq<char>, usize)>) -> Seq<char> {
    if els.len() == 0 {
        "<p>No candidates were elected.</p>\n"@
    } else {
        "<table>\n<tr><th>Seat</th><th>Candidate</th></tr>\n"@ + elected_rows(els) + "</table>\n"@
    }
}

pub open spec fn group_item(g: GroupConfig) -> Seq<char> {
    "<li><strong>"@ + escaped(g.name@) + "</strong> &mdash; "@ + crate::text::decimal(g.seats as nat)
        + " seats</li>\n"@
}

pub open spec fn groups_info(gs: Seq<GroupConfig>) -> Seq<char> {
    if gs.len() == 0 {
        Seq::empty()
    } else {
        "<h2>Groups</h2>\n<ul>\n"@ + concat(Seq::new(gs.len(), |i: int| group_item(gs[i]))) + "</ul>\n"@
    }
}

/// A group's section: its elected candidates, its candidates and its counting log.
pub open spec fn group_section(gr: GroupResult) -> Seq<char> {
    let names = crate::log::strings_view(gr.election.cands());
    "<h2>Group: "@ + escaped(gr.group@) + " ("@ + crate::text::decimal(gr.seats as nat) + " seats)</h2>\n"@
        + "<h3>Elected</h3>\n<table>\n<tr><th>Seat</th><th>Candidate</th></tr>\n"@ + elected_rows(
        elected_model(gr.elected@),
    ) + "</table>\n"@ + "<h3>Group Candidates</h3>\n<ul>"@ + join(
        Seq::new(names.len(), |i: int| group_candidate_item(names, i)),
        "\n"@,
    ) + "</ul>\n"@ + "<h3>Counting Log</h3>\n"@ + log_html(gr.log@, names)
}

/// The CSS class of cell `(i, j)` of the pairwise matrix.
pub open spec fn cell_class(m: Seq<Seq<usize>>, i: int, j: int) -> Seq<char> {
    if i == j {
        " class=\"diag\""@
    } else if m[i][j] > m[j][i] {
        " class=\"win\""@
    } else if m[i][j] < m[j][i] {
        " class=\"loss\""@
    } else {
        Seq::empty()
    }
}

pub open spec fn matrix_row(m: Seq<Seq<usize>>, names: Seq<Seq<char>>, i: int) -> Seq<char> {
    "<tr><th>"@ + escaped(names[i]) + "</th>"@ + concat(
        Seq::new(
            m[i].len(),
            |j: int| "<td"@ + cell_class(m, i, j) + ">"@ + crate::text::decimal(m[i][j] as nat) + "</td>"@,
        ),
    ) + "</tr>\n"@
}

/// The pairwise matrix as a table, a winning cell marked `win`, a losing one `loss`.
pub open spec fn matrix_html(m: Seq<Seq<usize>>, names: Seq<Seq<char>>) -> Seq<char> {
    "<h2>Pairwise Comparison Matrix (Copeland)</h2>\n"@ + "<table>\n<tr><th></th>"@ + concat(
        Seq::new(names.len(), |i: int| "<th>"@ + escaped(names[i]) + "</th>"@),
    ) + "</tr>\n"@ + concat(Seq::new(m.len(), |i: int| matrix_row(m, names, i))) + "</table>\n"@
}

/// A matrix whose cells can be compared with their mirror cells, with a name for every row.
pub open spec fn matrix_fits(m: Seq<Seq<usize>>, n: int) -> bool {
    &&& m.len() <= n
    &&& forall|i: int, j: int|
        #![trigger m[i][j]]
        0 <= i < m.len() && 0 <= j < m[i].len() && i != j ==> j < m.len() && i < m[j].len()
}

pub open spec fn matrix_model(m: Seq<Vec<usize>>) -> Seq<Seq<usize>> {
    m.map_values(|r: Vec<usize>| r@)
}

/// The results part of the report.
pub open spec fn results_html(e: ElectionRecord, r: ElectionResult, names: Seq<Seq<char>>) -> Seq<char> {
    match r {
        ElectionResult::StvMdGrouped { group_results, .. } => groups_info(e.groups@) + concat(
            Seq::new(group_results@.len(), |i: int| group_section(group_results@[i])),
        ),
        ElectionResult::StvMdCoperland { elected, pairwise_matrix, log, .. } => elected_table(
            elected_model(elected@),
        ) + matrix_html(matrix_model(pairwise_matrix@), names) + "<h2>Counting Log</h2>\n"@ + log_html(
            log@,
            names,
        ),
        ElectionResult::StvMd { elected, log, .. } => elected_table(elected_model(elected@))
            + "<h2>Counting Log</h2>\n"@ + log_html(log@, names),
    }
}

/// The whole report.
pub open spec fn report_html(e: ElectionRecord, r: ElectionResult, names: Seq<Seq<char>>) -> Seq<char> {
    let title = escaped(e.title@);
    let cg = crate::log::strings_view(e.candidate_groups@);
    REPORT_HEAD@ + title + REPORT_STYLE@ + title + "</h1>\n"@ + description_html(e.description)
        + "\n<div class=\"meta\">\n<p><strong>Election UUID:</strong> "@ + escaped(e.uuid@)
        + "</p>\n<p><strong>Election type:</strong> "@ + escaped(e.election_type@)
        + "</p>\n<p><strong>Seats:</strong> "@ + crate::text::decimal(e.num_seats as nat)
        + "</p>\n<p><strong>Start:</strong> "@ + e.start_time@ + "</p>\n<p><strong>End:</strong> "@
        + e.end_time@ + "</p>\n</div>\n\n<h2>Candidates</h2>\n<ul>"@ + join(
        Seq::new(names.len(), |i: int| candidate_item(names, cg, i)),
        "\n"@,
    ) + "</ul>\n\n<h2>Results</h2>\n"@ + results_html(e, r, names) + "\n</body>\n</html>"@
}

fn elected_rows_exec(els: &[Elected]) -> (r: String)
    ensures
        r@ == elected_rows(elected_model(els@)),
{
    let ghost m = elected_model(els@);
    let ghost f = |i: int| elected_row(m, i);
    let mut r = String::new();
    let mut i: usize = 0;
    while i < els.len()
        invariant
            i <= els.len(),
            m == elected_model(els@),
            f == (|i: int| elected_row(m, i)),
            r@ == concat(Seq::new(i as nat, f)),
        decreases els.len() - i,
    {
        r.append("<tr><td>");
        r.append(decimal_string(i + 1).as_str());
        r.append("</td><td>");
        r.append(html_escape(els[i].candidate.as_str()).as_str());
        r.append("</td></tr>\n");
        proof {
            lemma_concat_step(f, i as nat);
        }
        i += 1;
    }
    proof {
        assert(Seq::new(els@.len(), f) =~= Seq::new(m.len(), |i: int| elected_row(m, i)));
    }
    r
}

fn elected_table_exec(els: &[Elected]) -> (r: String)
    ensures
        r@ == elected_table(elected_model(els@)),
{
    if els.len() == 0 {
        String::from_str("<p>No candidates were elected.</p>\n")
    } else {
        let mut r = String::from_str("<table>\n<tr><th>Seat</th><th>Candidate</th></tr>\n");
        r.append(elected_rows_exec(els).as_str());
        r.append("</table>\n");
        r
    }
}

fn groups_info_exec(gs: &[GroupConfig]) -> (r: String)
    ensures
        r@ == groups_info(gs@),
{
    if gs.len() == 0 {
        return String::new();
    }
    let ghost f = |i: int| group_item(gs@[i]);
    let mut items = String::new();
    let mut i: usize = 0;
    while i < gs.len()
        invariant
            i <= gs.len(),
            f == (|i: int| group_item(gs@[i])),
            items@ == concat(Seq::new(i as nat, f)),
        decreases gs.len() - i,
    {
        items.append("<li><strong>");
        items.append(html_escape(gs[i].name.as_str()).as_str());
        items.append("</strong> &mdash; ");
        items.append(decimal_string(gs[i].seats as usize).as_str());
        items.append(" seats</li>\n");
        proof {
            lemma_concat_step(f, i as nat);
        }
        i += 1;
    }
    let mut r = String::from_str("<h2>Groups</h2>\n<ul>\n");
    r.append(items.as_str());
    r.append("</ul>\n");
    r
}

fn group_candidates_exec(names: &[String]) -> (r: String)
    ensures
        r@ == join(
            Seq::new(names@.len(), |i: int| group_candidate_item(crate::log::strings_view(names@), i)),
            "\n"@,
        ),
{
    let ghost v = crate::log::strings_view(names@);
    let ghost f = |i: int| group_candidate_item(v, i);
    let mut r = String::new();
    let mut i: usize = 0;
    while i < names.len()
        invariant
            i <= names.len(),
            v == crate::log::strings_view(names@),
            f == (|i: int| group_candidate_item(v, i)),
            r@ == join(Seq::new(i as nat, f), "\n"@),
        decreases names.len() - i,
    {
        let ghost before = r@;
        let mut item = String::from_str("<li><strong>");
        item.append(html_escape(names[i].as_str()).as_str());
        item.append("</strong> (index ");
        item.append(decimal_string(i).as_str());
        item.append(")</li>");
        assert(item@ == f(i as int));
        if i > 0 {
            r.append("\n");
        }
        r.append(item.as_str());
        proof {
            lemma_join_step(f, i as nat, "\n"@);
            if i == 0 {
                assert(r@ =~= item@);
            }
        }
        i += 1;
    }
    r
}

fn group_section_exec(gr: &GroupResult) -> (r: String)
    ensures
        r@ == group_section(*gr),
{
    let names = gr.election.candidates();
    let mut r = String::from_str("<h2>Group: ");
    r.append(html_escape(gr.group.as_str()).as_str());
    r.append(" (");
    r.append(decimal_string(gr.seats).as_str());
    r.append(" seats)</h2>\n");
    r.append("<h3>Elected</h3>\n<table>\n<tr><th>Seat</th><th>Candidate</th></tr>\n");
    r.append(elected_rows_exec(gr.elected.as_slice()).as_str());
    r.append("</table>\n");
    r.append("<h3>Group Candidates</h3>\n<ul>");
    r.append(group_candidates_exec(names).as_str());
    r.append("</ul>\n");
    r.append("<h3>Counting Log</h3>\n");
    r.append(generate_log_html(&gr.log, names).as_str());
    r
}


fn candidates_html_exec(names: &[String], groups: &[String]) -> (r: String)
    ensures
        r@ == join(
            Seq::new(
                names@.len(),
                |i: int| candidate_item(crate::log::strings_view(names@), crate::log::strings_view(groups@), i),
            ),
            "\n"@,
        ),
{
    let ghost v = crate::log::strings_view(names@);
    let ghost cg = crate::log::strings_view(groups@);
    let ghost f = |i: int| candidate_item(v, cg, i);
    let mut r = String::new();
    let mut i: usize = 0;
    while i < names.len()
        invariant
            i <= names.len(),
            v == crate::log::strings_view(names@),
            cg == crate::log::strings_view(groups@),
            f == (|i: int| candidate_item(v, cg, i)),
            r@ == join(Seq::new(i as nat, f), "\n"@),
        decreases names.len() - i,
    {
        let mut item = String::from_str("<li><strong>");
        item.append(html_escape(names[i].as_str()).as_str());
        item.append("</strong> (index ");
        item.append(decimal_string(i).as_str());
        item.append(")");
        if i < groups.len() {
            item.append(" &mdash; <em>");
            item.append(html_escape(groups[i].as_str()).as_str());
            item.append("</em>");
        }
        item.append("</li>");
        assert(item@ == f(i as int));
        if i > 0 {
            r.append("\n");
        }
        r.append(item.as_str());
        proof {
            lemma_join_step(f, i as nat, "\n"@);
            if i == 0 {
                assert(r@ =~= item@);
            }
        }
        i += 1;
    }
    r
}

fn matrix_row_exec(m: &Vec<Vec<usize>>, names: &[String], i: usize) -> (r: String)
    requires
        i < m@.len(),
        matrix_fits(matrix_model(m@), names@.len() as int),
    ensures
        r@ == matrix_row(matrix_model(m@), crate::log::strings_view(names@), i as int),
{
    let ghost mm = matrix_model(m@);
    let ghost f = |j: int| "<td"@ + cell_class(mm, i as int, j) + ">"@ + crate::text::decimal(mm[i as int][j] as nat) + "</td>"@;
    let row = &m[i];
    let mut cells = String::new();
    let mut j: usize = 0;
    while j < row.len()
        invariant
            j <= row.len(),
            i < m@.len(),
            row == &m@[i as int],
            mm == matrix_model(m@),
            matrix_fits(mm, names@.len() as int),
            f == (|j: int| "<td"@ + cell_class(mm, i as int, j) + ">"@ + crate::text::decimal(mm[i as int][j] as nat) + "</td>"@),
            cells@ == concat(Seq::new(j as nat, f)),
        decreases row.len() - j,
    {
        let val = row[j];
        assert(mm[i as int][j as int] == val);
        let cls: &str = if i == j {
            " class=\"diag\""
        } else {
            assert(j < mm.len() && i < mm[j as int].len());
            let other = m[j][i];
            if val > other {
                " class=\"win\""
            } else if val < other {
                " class=\"loss\""
            } else {
                ""
            }
        };
        assert(cls@ == cell_class(mm, i as int, j as int)) by {
            reveal_strlit("");
        }
        cells.append("<td");
        cells.append(cls);
        cells.append(">");
        cells.append(decimal_string(val).as_str());
        cells.append("</td>");
        proof {
            lemma_concat_step(f, j as nat);
        }
        j += 1;
    }
    let mut r = String::from_str("<tr><th>");
    r.append(html_escape(names[i].as_str()).as_str());
    r.append("</th>");
    r.append(cells.as_str());
    r.append("</tr>\n");
    proof {
        assert(Seq::new(j as nat, f) =~= Seq::new(
            mm[i as int].len(),
            |j: int| "<td"@ + cell_class(mm, i as int, j) + ">"@ + crate::text::decimal(mm[i as int][j] as nat) + "</td>"@,
        ));
    }
    r
}

fn matrix_html_exec(m: &Vec<Vec<usize>>, names: &[String]) -> (r: String)
    requires
        matrix_fits(matrix_model(m@), names@.len() as int),
    ensures
        r@ == matrix_html(matrix_model(m@), crate::log::strings_view(names@)),
{
    let ghost mm = matrix_model(m@);
    let ghost v = crate::log::strings_view(names@);
    let ghost fh = |i: int| "<th>"@ + escaped(v[i]) + "</th>"@;
    let mut heads = String::new();
    let mut i: usize = 0;
    while i < names.len()
        invariant
            i <= names.len(),
            v == crate::log::strings_view(names@),
            fh == (|i: int| "<th>"@ + escaped(v[i]) + "</th>"@),
            heads@ == concat(Seq::new(i as nat, fh)),
        decreases names.len() - i,
    {
        heads.append("<th>");
        heads.append(html_escape(names[i].as_str()).as_str());
        heads.append("</th>");
        proof {
            lemma_concat_step(fh, i as nat);
        }
        i += 1;
    }
    let ghost fr = |i: int| matrix_row(mm, v, i);
    let mut rows = String::new();
    let mut i: usize = 0;
    while i < m.len()
        invariant
            i <= m.len(),
            mm == matrix_model(m@),
            v == crate::log::strings_view(names@),
            matrix_fits(mm, names@.len() as int),
            fr == (|i: int| matrix_row(mm, v, i)),
            rows@ == concat(Seq::new(i as nat, fr)),
        decreases m.len() - i,
    {
        rows.append(matrix_row_exec(m, names, i).as_str());
        proof {
            lemma_concat_step(fr, i as nat);
        }
        i += 1;
    }
    let mut r = String::from_str("<h2>Pairwise Comparison Matrix (Copeland)</h2>\n");
    r.append("<table>\n<tr><th></th>");
    r.append(heads.as_str());
    r.append("</tr>\n");
    r.append(rows.as_str());
    r.append("</table>\n");
    r
}

fn group_sections_exec(group_results: &Vec<GroupResult>) -> (r: String)
    ensures
        r@ == concat(Seq::new(group_results@.len(), |i: int| group_section(group_results@[i]))),
{
    let ghost f = |i: int| group_section(group_results@[i]);
    let mut r = String::new();
    let mut i: usize = 0;
    while i < group_results.len()
        invariant
            i <= group_results.len(),
            f == (|i: int| group_section(group_results@[i])),
            r@ == concat(Seq::new(i as nat, f)),
        decreases group_results.len() - i,
    {
        r.append(group_section_exec(&group_results[i]).as_str());
        proof {
            lemma_concat_step(f, i as nat);
        }
        i += 1;
    }
    r
}

fn results_html_exec(election: &ElectionRecord, result: &ElectionResult, candidates: &[String]) -> (r: String)
    requires
        result matches ElectionResult::StvMdCoperland { pairwise_matrix, .. } ==> matrix_fits(
            matrix_model(pairwise_matrix@),
            candidates@.len() as int,
        ),
    ensures
        r@ == results_html(*election, *result, crate::log::strings_view(candidates@)),
{
    match result {
        ElectionResult::StvMdGrouped { group_results, .. } => {
            let mut r = groups_info_exec(election.groups.as_slice());
            r.append(group_sections_exec(group_results).as_str());
            r
        },
        ElectionResult::StvMdCoperland { elected, pairwise_matrix, log, .. } => {
            let mut r = elected_table_exec(elected.as_slice());
            r.append(matrix_html_exec(pairwise_matrix, candidates).as_str());
            r.append("<h2>Counting Log</h2>\n");
            r.append(generate_log_html(log, candidates).as_str());
            r
        },
        ElectionResult::StvMd { elected, log, .. } => {
            let mut r = elected_table_exec(elected.as_slice());
            r.append("<h2>Counting Log</h2>\n");
            r.append(generate_log_html(log, candidates).as_str());
            r
        },
    }
}

/// The self-contained HTML report of an election and its result.
#[verifier::spinoff_prover]
pub fn generate_report_html(election: &ElectionRecord, result: &ElectionResult, candidates: &[String]) -> (r: String)
    requires
        result matches ElectionResult::StvMdCoperland { pairwise_matrix, .. } ==> matrix_fits(
            matrix_model(pairwise_matrix@),
            candidates@.len() as int,
        ),
    ensures
        r@ == report_html(*election, *result, crate::log::strings_view(candidates@)),
{
    let title = html_escape(election.title.as_str());
    let mut r = String::from_str(REPORT_HEAD);
    r.append(title.as_str());
    r.append(REPORT_STYLE);
    r.append(title.as_str());
    r.append("</h1>\n");
    match &election.description {
        Some(d) => {
            r.append("<p class=\"desc\">");
            r.append(html_escape(d.as_str()).as_str());
            r.append("</p>");
        },
        None => {},
    }
    r.append("\n<div class=\"meta\">\n<p><strong>Election UUID:</strong> ");
    r.append(html_escape(election.uuid.as_str()).as_str());
    r.append("</p>\n<p><strong>Election type:</strong> ");
    r.append(html_escape(election.election_type.as_str()).as_str());
    r.append("</p>\n<p><strong>Seats:</strong> ");
    r.append(decimal_string(election.num_seats as usize).as_str());
    r.append("</p>\n<p><strong>Start:</strong> ");
    r.append(election.start_time.as_str());
    r.append("</p>\n<p><strong>End:</strong> ");
    r.append(election.end_time.as_str());
    r.append("</p>\n</div>\n\n<h2>Candidates</h2>\n<ul>");
    r.append(candidates_html_exec(candidates, election.candidate_groups.as_slice()).as_str());
    r.append("</ul>\n\n<h2>Results</h2>\n");
    r.append(results_html_exec(election, result, candidates).as_str());
    r.append("\n</body>\n</html>");
    r
}

// ---------------------------------------------------------------------------
// What the report shows
// ---------------------------------------------------------------------------

proof fn lemma_concat_contains(parts: Seq<Seq<char>>, k: int, pat: Seq<char>)
    requires
        0 <= k < parts.len(),
        crate::text::contains_text(parts[k], pat),
    ensures
        crate::text::contains_text(concat(parts), pat),
    decreases parts.len(),
{
    let init = parts.drop_last();
    if k < parts.len() - 1 {
        assert(init[k] == parts[k]);
        lemma_concat_contains(init, k, pat);
    }
    crate::text::lemma_contains_sides(concat(init), parts.last(), pat);
}

/// The heading of an action's table with its statistics.
spec fn stats_heading(a: ActionModel) -> Seq<char> {
    "</th><th colspan=\"3\" class=\"stats\">Quota: "@ + escaped(a.stats.quota) + " | Total: "@
        + escaped(a.stats.total) + " | Surplus: "@ + escaped(a.stats.surplus) + "</th></tr>\n"@
}

proof fn lemma_action_html_stats(a: ActionModel, c: Seq<Seq<char>>)
    ensures
        crate::text::contains_text(action_html(a, c), stats_heading(a)),
{
    let x = "<table>\n<tr class=\"action\"><th colspan=\"4\">Action: "@ + escaped(action_label(a.action_type));
    let m = stats_heading(a);
    let h = action_html(a, c);
    assert(h.subrange(x.len() as int, (x.len() + m.len()) as int) =~= m);
    crate::text::lemma_contains_self(m);
    crate::text::lemma_contains_part(h, m, x.len() as int, m);
}

proof fn lemma_actions_html_stats(acts: Seq<ActionModel>, c: Seq<Seq<char>>, j: int)
    requires
        0 <= j < acts.len(),
    ensures
        crate::text::contains_text(actions_html(acts, c), stats_heading(acts[j])),
    decreases acts.len(),
{
    let init = acts.drop_last();
    if j < acts.len() - 1 {
        assert(init[j] == acts[j]);
        lemma_actions_html_stats(init, c, j);
    } else {
        lemma_action_html_stats(acts.last(), c);
    }
    crate::text::lemma_contains_sides(actions_html(init, c), action_html(acts.last(), c), stats_heading(acts[j]));
}

proof fn lemma_rounds_html_stats(rs: Seq<RoundModel>, c: Seq<Seq<char>>, i: int, j: int)
    requires
        0 <= i < rs.len(),
        0 <= j < rs[i].actions.len(),
    ensures
        crate::text::contains_text(rounds_html(rs, c), stats_heading(rs[i].actions[j])),
    decreases rs.len(),
{
    let init = rs.drop_last();
    let pat = stats_heading(rs[i].actions[j]);
    if i < rs.len() - 1 {
        assert(init[i] == rs[i]);
        lemma_rounds_html_stats(init, c, i, j);
    } else {
        let r = rs.last();
        lemma_actions_html_stats(r.actions, c, j);
        crate::text::lemma_contains_sides(
            "<h3>Round "@ + crate::text::decimal(r.round_number as nat) + "</h3>\n"@,
            actions_html(r.actions, c),
            pat,
        );
    }
    crate::text::lemma_contains_sides(rounds_html(init, c), round_html(rs.last(), c), pat);
}

/// Every action of the counting log shows, in the heading of its table, its own
/// quota, total and surplus.
pub proof fn lemma_log_html_stats(l: LogModel, candidates: Seq<Seq<char>>, i: int, j: int)
    requires
        0 <= i < l.rounds.len(),
        0 <= j < l.rounds[i].actions.len(),
    ensures
        crate::text::contains_text(
            log_html(l, candidates),
            "</th><th colspan=\"3\" class=\"stats\">Quota: "@ + escaped(l.rounds[i].actions[j].stats.quota)
                + " | Total: "@ + escaped(l.rounds[i].actions[j].stats.total) + " | Surplus: "@ + escaped(
                l.rounds[i].actions[j].stats.surplus,
            ) + "</th></tr>\n"@,
        ),
{
    lemma_rounds_html_stats(l.rounds, candidates, i, j);
}

/// The row of seat `k + 1` holding `name`.
spec fn seat_text(k: int, name: Seq<char>) -> Seq<char> {
    "<tr><td>"@ + crate::text::decimal((k + 1) as nat) + "</td><td>"@ + escaped(name) + "</td></tr>\n"@
}

proof fn lemma_rows_seat(els: Seq<(Seq<char>, usize)>, k: int)
    requires
        0 <= k < els.len(),
    ensures
        crate::text::contains_text(elected_rows(els), seat_text(k, els[k].0)),
{
    let parts = Seq::new(els.len(), |i: int| elected_row(els, i));
    assert(parts[k] == seat_text(k, els[k].0));
    crate::text::lemma_contains_self(seat_text(k, els[k].0));
    lemma_concat_contains(parts, k, seat_text(k, els[k].0));
}

proof fn lemma_results_seat(e: ElectionRecord, r: ElectionResult, names: Seq<Seq<char>>, k: int)
    requires
        !(r is StvMdGrouped),
        0 <= k < r.elected_seq().len(),
    ensures
        crate::text::contains_text(results_html(e, r, names), seat_text(k, r.elected_seq()[k].candidate@)),
{
    let em = elected_model(r.elected_seq());
    let pat = seat_text(k, r.elected_seq()[k].candidate@);
    assert(em[k].0 == r.elected_seq()[k].candidate@);
    lemma_rows_seat(em, k);
    let head = "<table>\n<tr><th>Seat</th><th>Candidate</th></tr>\n"@;
    crate::text::lemma_contains_sides(head, elected_rows(em), pat);
    crate::text::lemma_contains_sides(head + elected_rows(em), "</table>\n"@, pat);
    let t = elected_table(em);
    match r {
        ElectionResult::StvMd { log, .. } => {
            crate::text::lemma_contains_sides(t, "<h2>Counting Log</h2>\n"@, pat);
            crate::text::lemma_contains_sides(t + "<h2>Counting Log</h2>\n"@, log_html(log@, names), pat);
        },
        ElectionResult::StvMdCoperland { pairwise_matrix, log, .. } => {
            let mx = matrix_html(matrix_model(pairwise_matrix@), names);
            crate::text::lemma_contains_sides(t, mx, pat);
            crate::text::lemma_contains_sides(t + mx, "<h2>Counting Log</h2>\n"@, pat);
            crate::text::lemma_contains_sides(t + mx + "<h2>Counting Log</h2>\n"@, log_html(log@, names), pat);
        },
        ElectionResult::StvMdGrouped { .. } => {},
    }
}

proof fn lemma_group_section_seat(gr: GroupResult, k: int)
    requires
        0 <= k < gr.elected@.len(),
    ensures
        crate::text::contains_text(group_section(gr), seat_text(k, gr.elected@[k].candidate@)),
{
    let em = elected_model(gr.elected@);
    let pat = seat_text(k, gr.elected@[k].candidate@);
    assert(em[k].0 == gr.elected@[k].candidate@);
    lemma_rows_seat(em, k);
    let g = "<h2>Group: "@ + escaped(gr.group@) + " ("@ + crate::text::decimal(gr.seats as nat) + " seats)</h2>\n"@
        + "<h3>Elected</h3>\n<table>\n<tr><th>Seat</th><th>Candidate</th></tr>\n"@;
    let rows = elected_rows(em);
    let s = group_section(gr);
    assert(s.subrange(g.len() as int, (g.len() + rows.len()) as int) =~= rows);
    crate::text::lemma_contains_part(s, rows, g.len() as int, pat);
}

proof fn lemma_report_has_results(e: ElectionRecord, r: ElectionResult, names: Seq<Seq<char>>, pat: Seq<char>)
    requires
        crate::text::contains_text(results_html(e, r, names), pat),
    ensures
        crate::text::contains_text(report_html(e, r, names), pat),
{
    let rep = report_html(e, r, names);
    let res = results_html(e, r, names);
    let tail = "\n</body>\n</html>"@;
    let k = rep.len() - tail.len() - res.len();
    assert(rep.subrange(k, k + res.len()) =~= res);
    crate::text::lemma_contains_part(rep, res, k, pat);
}

/// In the report, seat `k + 1` of an elected table names the `k`-th elected
/// candidate: of the elected list of a single count, and of each group's list
/// for a grouped count.
pub proof fn lemma_report_seats(e: ElectionRecord, r: ElectionResult, names: Seq<Seq<char>>)
    ensures
        !(r is StvMdGrouped) ==> forall|k: int|
            0 <= k < r.elected_seq().len() ==> crate::text::contains_text(
                report_html(e, r, names),
                "<tr><td>"@ + crate::text::decimal((k + 1) as nat) + "</td><td>"@ + escaped(
                    (#[trigger] r.elected_seq()[k]).candidate@,
                ) + "</td></tr>\n"@,
            ),
        r matches ElectionResult::StvMdGrouped { group_results, .. } ==> forall|g: int, k: int|
            0 <= g < group_results@.len() && 0 <= k < group_results@[g].elected@.len()
                ==> crate::text::contains_text(
                report_html(e, r, names),
                "<tr><td>"@ + crate::text::decimal((k + 1) as nat) + "</td><td>"@ + escaped(
                    (#[trigger] group_results@[g].elected@[k]).candidate@,
                ) + "</td></tr>\n"@,
            ),
{
    if !(r is StvMdGrouped) {
        assert forall|k: int| 0 <= k < r.elected_seq().len() implies crate::text::contains_text(
            report_html(e, r, names),
            "<tr><td>"@ + crate::text::decimal((k + 1) as nat) + "</td><td>"@ + escaped(
                (#[trigger] r.elected_seq()[k]).candidate@,
            ) + "</td></tr>\n"@,
        ) by {
            lemma_results_seat(e, r, names, k);
            lemma_report_has_results(e, r, names, seat_text(k, r.elected_seq()[k].candidate@));
        }
    }
    if let ElectionResult::StvMdGrouped { group_results, .. } = r {
        let sections = Seq::new(group_results@.len(), |i: int| group_section(group_results@[i]));
        assert forall|g: int, k: int| 0 <= g < group_results@.len() && 0 <= k < group_results@[g].elected@.len()
            implies crate::text::contains_text(
            report_html(e, r, names),
            "<tr><td>"@ + crate::text::decimal((k + 1) as nat) + "</td><td>"@ + escaped(
                (#[trigger] group_results@[g].elected@[k]).candidate@,
            ) + "</td></tr>\n"@,
        ) by {
            let pat = seat_text(k, group_results@[g].elected@[k].candidate@);
            lemma_group_section_seat(group_results@[g], k);
            assert(sections[g] == group_section(group_results@[g]));
            lemma_concat_contains(sections, g, pat);
            crate::text::lemma_contains_sides(groups_info(e.groups@), concat(sections), pat);
            lemma_report_has_results(e, r, names, pat);
        }
    }
}

} // verus!
