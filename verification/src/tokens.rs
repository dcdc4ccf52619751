use vstd::prelude::*;

use crate::error::Error;

verus! {

// ---------------------------------------------------------------------------
// Time
// ---------------------------------------------------------------------------

/// An instant in UTC: seconds since the Unix epoch and the nanoseconds past them.
#[derive(Clone, Copy)]
pub struct Timestamp {
    pub seconds: i64,
    pub nanos: u32,
}

/// `a` comes strictly before `b`.
pub open spec fn earlier(a: Timestamp, b: Timestamp) -> bool {
    a.seconds < b.seconds || (a.seconds == b.seconds && a.nanos < b.nanos)
}

/// Whether the election that ends at `end` has ended at `now`.
pub fn has_ended(now: Timestamp, end: Timestamp) -> (r: bool)
    ensures
        r == !earlier(now, end),
{
    !(now.seconds < end.seconds || (now.seconds == end.seconds && now.nanos < end.nanos))
}

/// Results are published once the election has ended and a ballot has been cast.
pub fn results_published(now: Timestamp, end: Timestamp, casted: usize) -> (r: bool)
    ensures
        r == (!earlier(now, end) && casted > 0),
{
    has_ended(now, end) && casted > 0
}

// ---------------------------------------------------------------------------
// Ballot tokens
// ---------------------------------------------------------------------------

/// A ballot token as it is handed out: its id, and the address it is meant for.
pub struct CreateTokenResult {
    pub id: String,
    pub email: Option<String>,
}

/// A request for ballot tokens: a number of anonymous tokens, or one per recipient.
pub struct CreateTokensBody {
    pub count: Option<u64>,
    pub recipients: Option<Vec<String>>,
}

/// A request to mail ballot tokens: all unsent ones when `token_ids` is empty.
pub struct SendEmailsRequest {
    pub base_url: String,
    pub token_ids: Vec<String>,
}

/// The outcome of mailing one token.
pub struct SendEmailResult {
    pub token_id: String,
    pub error: Option<String>,
}

/// Index of the first address that repeats an earlier one, among those from `j` on.
pub open spec fn first_repeat_from(v: Seq<Seq<char>>, j: int) -> Option<int>
    decreases v.len() - j,
{
    if j < 0 || j >= v.len() {
        None
    } else if v.take(j).contains(v[j]) {
        Some(j)
    } else {
        first_repeat_from(v, j + 1)
    }
}

pub open spec fn duplicate_message(e: Seq<char>) -> Seq<char> {
    "Duplicate recipient email: "@ + e
}

/// What a token request asks for: the number of tokens and the recipients, one
/// per token in order. Both or neither of a count and recipients is refused, and
/// so is a recipient list that names an address twice.
pub open spec fn token_plan(count: Option<u64>, recipients: Option<Seq<Seq<char>>>) -> Result<(u64, Seq<Seq<char>>), Seq<char>> {
    match (count, recipients) {
        (Some(n), None) => Ok((n, Seq::empty())),
        (None, Some(v)) => match first_repeat_from(v, 0) {
            Some(j) => Err(duplicate_message(v[j])),
            None => Ok((v.len() as u64, v)),
        },
        (Some(_), Some(_)) => Err("Provide either 'count' or 'recipients', not both"@),
        (None, None) => Err("Provide either 'count' or 'recipients'"@),
    }
}

/// Checks a token request: how many tokens to make, and the recipient of each.
pub fn plan_tokens(body: CreateTokensBody) -> (r: Result<(u64, Vec<String>), Error>)
    ensures
        match token_plan(
            body.count,
            match body.recipients {
                Some(v) => Some(crate::log::strings_view(v@)),
                None => None,
            },
        ) {
            Ok((n, v)) => r matches Ok((m, w)) && m == n && crate::log::strings_view(w@) == v,
            Err(msg) => r matches Err(Error::BadRequest(x)) && x@ == msg,
        },
{
    let ghost orig = body;
    match (body.count, body.recipients) {
        (Some(n), None) => Ok((n, Vec::new())),
        (None, Some(emails)) => {
            let ghost v = crate::log::strings_view(emails@);
            let mut j: usize = 0;
            while j < emails.len()
                invariant
                    j <= emails.len(),
                    v == crate::log::strings_view(emails@),
                    orig == body,
                    orig.count is None,
                    orig.recipients == Some(emails),
                    first_repeat_from(v, 0) == first_repeat_from(v, j as int),
                decreases emails.len() - j,
            {
                let mut i: usize = 0;
                while i < j
                    invariant
                        i <= j,
                        j < emails.len(),
                        v == crate::log::strings_view(emails@),
                        orig == body,
                        orig.count is None,
                        orig.recipients == Some(emails),
                        first_repeat_from(v, 0) == first_repeat_from(v, j as int),
                        forall|k: int| 0 <= k < i ==> v[k] != v[j as int],
                    decreases j - i,
                {
                    if emails[i] == emails[j] {
                        proof {
                            assert(v.take(j as int)[i as int] == v[j as int]);
                            assert(v.take(j as int).contains(v[j as int]));
                            assert(first_repeat_from(v, j as int) == Some(j as int));
                            assert(v[j as int] == emails@[j as int]@);
                        }
                        let mut m = String::from_str("Duplicate recipient email: ");
                        m.append(emails[j].as_str());
                        assert(m@ == duplicate_message(v[j as int]));
                        return Err(Error::BadRequest(m));
                    }
                    i += 1;
                }
                proof {
                    assert(!v.take(j as int).contains(v[j as int])) by {
                        if v.take(j as int).contains(v[j as int]) {
                            let k = choose|k: int| 0 <= k < j && v.take(j as int)[k] == v[j as int];
                            assert(v[k] == v[j as int]);
                        }
                    }
                }
                j += 1;
            }
            let n = emails.len() as u64;
            Ok((n, emails))
        },
        (Some(_), Some(_)) => Err(
            Error::BadRequest(String::from_str("Provide either 'count' or 'recipients', not both")),
        ),
        (None, None) => Err(Error::BadRequest(String::from_str("Provide either 'count' or 'recipients'"))),
    }
}

/// The ids of the tokens whose mail went out.
pub fn successful_ids(results: &[SendEmailResult]) -> (r: Vec<String>)
    ensures
        crate::log::strings_view(r@) == results@.filter(|x: SendEmailResult| x.error is None).map_values(
            |x: SendEmailResult| x.token_id@,
        ),
{
    let ghost f = |x: SendEmailResult| x.error is None;
    let ghost g = |x: SendEmailResult| x.token_id@;
    let mut r: Vec<String> = Vec::new();
    let mut i: usize = 0;
    while i < results.len()
        invariant
            i <= results.len(),
            f == (|x: SendEmailResult| x.error is None),
            g == (|x: SendEmailResult| x.token_id@),
            crate::log::strings_view(r@) == results@.take(i as int).filter(f).map_values(g),
        decreases results.len() - i,
    {
        let ghost before = r@;
        proof {
            assert(results@.take(i + 1).drop_last() =~= results@.take(i as int));
            reveal(Seq::filter);
            assert(results@.take(i + 1) =~= results@.take(i as int).push(results@[i as int]));
        }
        if results[i].error.is_none() {
            let id = results[i].token_id.clone();
            r.push(id);
            proof {
                assert(crate::log::strings_view(r@) =~= crate::log::strings_view(before).push(id@));
            }
        }
        proof {
            reveal(Seq::filter);
            assert(crate::log::strings_view(r@) =~= results@.take(i + 1).filter(f).map_values(g));
        }
        i += 1;
    }
    proof {
        assert(results@.take(i as int) =~= results@);
    }
    r
}

/// The answer to mailing one token: the first result, or a token that was not found.
pub fn first_send_result(results: Vec<SendEmailResult>) -> (r: SendEmailResult)
    ensures
        results@.len() > 0 ==> r == results@[0],
        results@.len() == 0 ==> r.token_id@ == Seq::<char>::empty() && (r.error matches Some(e) && e@
            == "Token not found"@),
{
    let mut results = results;
    if results.len() > 0 {
        results.swap_remove(0)
    } else {
        SendEmailResult { token_id: String::new(), error: Some(String::from_str("Token not found")) }
    }
}

/// A stored ballot token as the mailing reads it: its id, the address it is
/// meant for, and whether its mail has gone out.
pub struct TokenRecord {
    pub id: String,
    pub email: Option<String>,
    pub sent: bool,
}

/// A token that mail can go to: it has an address, its mail has not gone out,
/// and it is among `ids`, or `ids` is empty.
pub open spec fn sendable(t: TokenRecord, ids: Seq<Seq<char>>) -> bool {
    t.email is Some && !t.sent && (ids.len() == 0 || ids.contains(t.id@))
}

/// The tokens of `found` that a mailing for `ids` sends to, in their order.
pub open spec fn to_send(ids: Seq<Seq<char>>, found: Seq<TokenRecord>) -> Seq<TokenRecord> {
    found.filter(|t: TokenRecord| sendable(t, ids))
}

pub open spec fn not_configured_message() -> Seq<char> {
    "Email not configured for this election. Set up SMTP configuration first."@
}

fn listed(ids: &[String], id: &String) -> (r: bool)
    ensures
        r == crate::log::strings_view(ids@).contains(id@),
{
    let ghost v = crate::log::strings_view(ids@);
    let mut i: usize = 0;
    while i < ids.len()
        invariant
            i <= ids.len(),
            v == crate::log::strings_view(ids@),
            forall|k: int| 0 <= k < i ==> v[k] != id@,
        decreases ids.len() - i,
    {
        if ids[i] == *id {
            assert(v[i as int] == id@);
            return true;
        }
        i += 1;
    }
    false
}

/// Which tokens a mailing goes to. Without an SMTP configuration for the
/// election the request is refused. With `token_ids` empty, every token with an
/// address whose mail has not gone out; otherwise those of them named in
/// `token_ids`, and not found unless there are as many as ids were asked for.
/// Nothing to send is an empty answer.
pub fn plan_sends(token_ids: &[String], found: &[TokenRecord], configured: bool) -> (r: Result<Vec<TokenRecord>, Error>)
    ensures
        !configured ==> (r matches Err(Error::BadRequest(m)) && m@ == not_configured_message()),
        configured && token_ids@.len() > 0 && to_send(crate::log::strings_view(token_ids@), found@).len()
            != token_ids@.len() ==> r matches Err(Error::NotFound),
        configured && (token_ids@.len() == 0 || to_send(crate::log::strings_view(token_ids@), found@).len()
            == token_ids@.len()) ==> (r matches Ok(v) && v@ == to_send(
            crate::log::strings_view(token_ids@),
            found@,
        )),
{
    if !configured {
        return Err(Error::BadRequest(
            String::from_str("Email not configured for this election. Set up SMTP configuration first."),
        ));
    }
    let ghost ids = crate::log::strings_view(token_ids@);
    let ghost f = |t: TokenRecord| sendable(t, ids);
    let mut picked: Vec<TokenRecord> = Vec::new();
    let mut i: usize = 0;
    while i < found.len()
        invariant
            i <= found.len(),
            ids == crate::log::strings_view(token_ids@),
            f == (|t: TokenRecord| sendable(t, ids)),
            picked@ == found@.take(i as int).filter(f),
        decreases found.len() - i,
    {
        proof {
            assert(found@.take(i + 1).drop_last() =~= found@.take(i as int));
            reveal(Seq::filter);
        }
        let t = &found[i];
        if t.email.is_some() && !t.sent && (token_ids.len() == 0 || listed(token_ids, &t.id)) {
            let email = match &t.email {
                Some(e) => Some(e.clone()),
                None => None,
            };
            picked.push(TokenRecord { id: t.id.clone(), email, sent: t.sent });
        }
        proof {
            reveal(Seq::filter);
            assert(picked@ =~= found@.take(i + 1).filter(f));
        }
        i += 1;
    }
    proof {
        assert(found@.take(i as int) =~= found@);
    }
    if token_ids.len() > 0 && picked.len() != token_ids.len() {
        return Err(Error::NotFound);
    }
    Ok(picked)
}

/// Whether a token can be redeemed at `now` in an election that ends at `end`:
/// not once the election has ended, not when the token does not exist
/// (`token_redeemed` is `None`), and not twice.
pub fn check_redeem(now: Timestamp, end: Timestamp, token_redeemed: Option<bool>) -> (r: Result<(), Error>)
    ensures
        !earlier(now, end) ==> (r matches Err(Error::BadRequest(m)) && m@
            == "Election is closed. Tokens can no longer be redeemed."@),
        earlier(now, end) && token_redeemed is None ==> r matches Err(Error::NotFound),
        earlier(now, end) && token_redeemed == Some(true) ==> (r matches Err(Error::BadRequest(m)) && m@
            == "Token already redeemed"@),
        earlier(now, end) && token_redeemed == Some(false) ==> r is Ok,
{
    if has_ended(now, end) {
        return Err(Error::BadRequest(String::from_str("Election is closed. Tokens can no longer be redeemed.")));
    }
    match token_redeemed {
        None => Err(Error::NotFound),
        Some(true) => Err(Error::BadRequest(String::from_str("Token already redeemed"))),
        Some(false) => Ok(()),
    }
}

/// Redeems a ballot token at `now` for the election that ends at `end`: refused
/// as `check_redeem` says, else a blank ballot under the fresh id `ballot_id`.
/// The ballot is made of that id alone and holds nothing of the token, so the
/// link between the voter and the ballot ends here.
pub fn redeem_token(
    now: Timestamp,
    end: Timestamp,
    token_redeemed: Option<bool>,
    ballot_id: String,
) -> (r: Result<crate::export::BallotRecord, Error>)
    ensures
        !earlier(now, end) ==> (r matches Err(Error::BadRequest(m)) && m@
            == "Election is closed. Tokens can no longer be redeemed."@),
        earlier(now, end) && token_redeemed is None ==> r matches Err(Error::NotFound),
        earlier(now, end) && token_redeemed == Some(true) ==> (r matches Err(Error::BadRequest(m)) && m@
            == "Token already redeemed"@),
        earlier(now, end) && token_redeemed == Some(false) ==> (r matches Ok(b) && b.id@ == ballot_id@
            && b.ranks is None),
{
    match check_redeem(now, end, token_redeemed) {
        Ok(()) => Ok(crate::export::BallotRecord { id: ballot_id, ranks: None }),
        Err(e) => Err(e),
    }
}

/// Whether a ballot can be filled in at `now`: every rank names a candidate, and
/// voting is open (from `start`, until `end`).
pub fn check_ballot_update(
    ranks: &[Option<usize>],
    n_candidates: usize,
    now: Timestamp,
    start: Timestamp,
    end: Timestamp,
) -> (r: Result<(), Error>)
    ensures
        (exists|c: int| 0 <= c < ranks@.len() && (#[trigger] ranks@[c] matches Some(x) && x >= n_candidates))
            ==> (r matches Err(Error::BadRequest(m)) && m@ == "Invalid candidate index"@),
        (forall|c: int| 0 <= c < ranks@.len() ==> !(#[trigger] ranks@[c] matches Some(x) && x >= n_candidates))
            ==> {
            &&& earlier(now, start) ==> (r matches Err(Error::BadRequest(m)) && m@ == "Voting has not started"@)
            &&& !earlier(now, start) && !earlier(now, end) ==> (r matches Err(Error::BadRequest(m)) && m@
                == "Voting has ended"@)
            &&& !earlier(now, start) && earlier(now, end) ==> r is Ok
        },
{
    let mut c: usize = 0;
    while c < ranks.len()
        invariant
            c <= ranks.len(),
            forall|k: int| 0 <= k < c ==> !(#[trigger] ranks@[k] matches Some(x) && x >= n_candidates),
        decreases ranks.len() - c,
    {
        if let Some(x) = ranks[c] {
            if x >= n_candidates {
                assert(ranks@[c as int] matches Some(x) && x >= n_candidates);
                return Err(Error::BadRequest(String::from_str("Invalid candidate index")));
            }
        }
        c += 1;
    }
    if !has_ended(now, start) {
        return Err(Error::BadRequest(String::from_str("Voting has not started")));
    }
    if has_ended(now, end) {
        return Err(Error::BadRequest(String::from_str("Voting has ended")));
    }
    Ok(())
}

} // verus!
