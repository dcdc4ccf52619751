use vstd::prelude::*;

use crate::counting::{ElectionType, GroupConfig};
use crate::tokens::Timestamp;
use crate::error::Error;
use crate::text::{chars_eq, chars_of};

verus! {

/// The name under which an election type is stored.
pub open spec fn stored_type_name(t: ElectionType) -> Seq<char> {
    match t {
        ElectionType::StvMd => "stv-md"@,
        ElectionType::StvMdCoperland => "stv-md-coperland"@,
        ElectionType::StvMdGrouped => "stv-md-grouped"@,
    }
}

/// The election type a stored name stands for, if any.
pub open spec fn type_of_name(s: Seq<char>) -> Option<ElectionType> {
    if s == "stv-md"@ {
        Some(ElectionType::StvMd)
    } else if s == "stv-md-coperland"@ {
        Some(ElectionType::StvMdCoperland)
    } else if s == "stv-md-grouped"@ {
        Some(ElectionType::StvMdGrouped)
    } else {
        None
    }
}

pub fn election_type_to_string(t: ElectionType) -> (r: String)
    ensures
        r@ == stored_type_name(t),
{
    match t {
        ElectionType::StvMd => String::from_str("stv-md"),
        ElectionType::StvMdCoperland => String::from_str("stv-md-coperland"),
        ElectionType::StvMdGrouped => String::from_str("stv-md-grouped"),
    }
}

/// Whether the text of a string literal equals `s`.
fn is_literal(s: &[char], lit: &str) -> (r: bool)
    ensures
        r == (s@ == lit@),
{
    let l = chars_of(lit);
    chars_eq(s, &l)
}

/// Reads a stored election type; an unknown name is an internal error.
pub fn parse_election_type(s: &str) -> (r: Result<ElectionType, Error>)
    ensures
        type_of_name(s@) matches Some(t) ==> (r matches Ok(u) && u == t),
        type_of_name(s@) is None ==> (r matches Err(Error::Internal(m)) && m@ == "Invalid election_type '"@
            + s@ + "'"@),
{
    let v = chars_of(s);
    if is_literal(&v, "stv-md") {
        Ok(ElectionType::StvMd)
    } else if is_literal(&v, "stv-md-coperland") {
        Ok(ElectionType::StvMdCoperland)
    } else if is_literal(&v, "stv-md-grouped") {
        Ok(ElectionType::StvMdGrouped)
    } else {
        let mut m = String::from_str("Invalid election_type '");
        m.append(s);
        m.append("'");
        Err(Error::Internal(m))
    }
}

/// The election type of a stored name, `stv-md` for any name it does not know.
pub open spec fn type_or_default(s: Seq<char>) -> ElectionType {
    if s == "stv-md-coperland"@ {
        ElectionType::StvMdCoperland
    } else if s == "stv-md-grouped"@ {
        ElectionType::StvMdGrouped
    } else {
        ElectionType::StvMd
    }
}

/// Stored election type names read back as the types they were written from.
pub proof fn lemma_type_name_roundtrip(t: ElectionType)
    ensures
        type_of_name(stored_type_name(t)) == Some(t),
        type_or_default(stored_type_name(t)) == t,
{
    reveal_strlit("stv-md");
    reveal_strlit("stv-md-coperland");
    reveal_strlit("stv-md-grouped");
    assert("stv-md"@.len() == 6 && "stv-md-coperland"@.len() == 16 && "stv-md-grouped"@.len() == 14);
    assert("stv-md"@ != "stv-md-coperland"@ && "stv-md"@ != "stv-md-grouped"@);
    assert("stv-md-coperland"@ != "stv-md-grouped"@) by {
        assert("stv-md-coperland"@[7] != "stv-md-grouped"@[7]);
    }
}

// ---------------------------------------------------------------------------
// Editing an election
// ---------------------------------------------------------------------------

pub open spec fn option_view(o: Option<String>) -> Option<Seq<char>> {
    match o {
        Some(s) => Some(s@),
        None => None,
    }
}

pub open spec fn locked_edit_message() -> Seq<char> {
    "Cannot modify election title, description, or candidates after ballots have been issued. Tokens have already been redeemed."@
}

fn same_strings(a: &[String], b: &[String]) -> (r: bool)
    ensures
        r == (crate::log::strings_view(a@) == crate::log::strings_view(b@)),
{
    if a.len() != b.len() {
        proof {
            assert(crate::log::strings_view(a@).len() != crate::log::strings_view(b@).len());
        }
        return false;
    }
    let mut i: usize = 0;
    while i < a.len()
        invariant
            i <= a.len(),
            a.len() == b.len(),
            forall|k: int| 0 <= k < i ==> a@[k]@ == b@[k]@,
        decreases a.len() - i,
    {
        if a[i] != b[i] {
            proof {
                assert(crate::log::strings_view(a@)[i as int] != crate::log::strings_view(b@)[i as int]);
            }
            return false;
        }
        i += 1;
    }
    proof {
        assert(crate::log::strings_view(a@) =~= crate::log::strings_view(b@));
    }
    true
}

fn same_option(a: &Option<String>, b: &Option<String>) -> (r: bool)
    ensures
        r == (option_view(*a) == option_view(*b)),
{
    match (a, b) {
        (Some(x), Some(y)) => *x == *y,
        (None, None) => true,
        _ => false,
    }
}

/// Whether an election may be changed as requested: once a token has been
/// redeemed, its title, description and candidates are fixed.
pub fn check_election_update(
    title: &str,
    description: &Option<String>,
    candidates: &[String],
    new_title: &str,
    new_description: &Option<String>,
    new_candidates: &[String],
    is_locked: bool,
) -> (r: Result<(), Error>)
    ensures
        r is Err <==> is_locked && (title@ != new_title@ || option_view(*description) != option_view(
            *new_description,
        ) || crate::log::strings_view(candidates@) != crate::log::strings_view(new_candidates@)),
        r matches Err(e) ==> (e matches Error::BadRequest(m) && m@ == locked_edit_message()),
{
    let title_changed = !chars_eq(&chars_of(title), &chars_of(new_title));
    let description_changed = !same_option(description, new_description);
    let candidates_changed = !same_strings(candidates, new_candidates);
    if (title_changed || description_changed || candidates_changed) && is_locked {
        return Err(
            Error::BadRequest(
                String::from_str(
                    "Cannot modify election title, description, or candidates after ballots have been issued. Tokens have already been redeemed.",
                ),
            ),
        );
    }
    Ok(())
}


// ---------------------------------------------------------------------------
// Requests and responses
// ---------------------------------------------------------------------------

/// A request to create or change an election.
pub enum CreateElectionRequest {
    StvMd {
        title: String,
        description: Option<String>,
        candidates: Vec<String>,
        num_seats: u32,
        start_time: Timestamp,
        end_time: Timestamp,
    },
    StvMdCoperland {
        title: String,
        description: Option<String>,
        candidates: Vec<String>,
        num_seats: u32,
        start_time: Timestamp,
        end_time: Timestamp,
    },
    StvMdGrouped {
        title: String,
        description: Option<String>,
        candidates: Vec<String>,
        num_seats: u32,
        start_time: Timestamp,
        end_time: Timestamp,
        groups: Vec<GroupConfig>,
        candidate_groups: Vec<String>,
    },
}

/// An election as its administrator sees it.
pub enum ElectionResponse {
    StvMd {
        uuid: String,
        admin_uuid: String,
        title: String,
        description: Option<String>,
        candidates: Vec<String>,
        num_seats: u32,
        start_time: Timestamp,
        end_time: Timestamp,
        is_locked: bool,
    },
    StvMdCoperland {
        uuid: String,
        admin_uuid: String,
        title: String,
        description: Option<String>,
        candidates: Vec<String>,
        num_seats: u32,
        start_time: Timestamp,
        end_time: Timestamp,
        is_locked: bool,
    },
    StvMdGrouped {
        uuid: String,
        admin_uuid: String,
        title: String,
        description: Option<String>,
        candidates: Vec<String>,
        num_seats: u32,
        start_time: Timestamp,
        end_time: Timestamp,
        is_locked: bool,
        groups: Vec<GroupConfig>,
        candidate_groups: Vec<String>,
    },
}

impl CreateElectionRequest {
    pub open spec fn kind(self) -> ElectionType {
        match self {
            CreateElectionRequest::StvMd { .. } => ElectionType::StvMd,
            CreateElectionRequest::StvMdCoperland { .. } => ElectionType::StvMdCoperland,
            CreateElectionRequest::StvMdGrouped { .. } => ElectionType::StvMdGrouped,
        }
    }

    pub fn election_type(&self) -> (r: ElectionType)
        ensures
            r == self.kind(),
    {
        match self {
            CreateElectionRequest::StvMd { .. } => ElectionType::StvMd,
            CreateElectionRequest::StvMdCoperland { .. } => ElectionType::StvMdCoperland,
            CreateElectionRequest::StvMdGrouped { .. } => ElectionType::StvMdGrouped,
        }
    }

    pub fn title(&self) -> (r: &str)
        ensures
            self matches CreateElectionRequest::StvMd { title, .. } ==> r@ == title@,
            self matches CreateElectionRequest::StvMdCoperland { title, .. } ==> r@ == title@,
            self matches CreateElectionRequest::StvMdGrouped { title, .. } ==> r@ == title@,
    {
        match self {
            CreateElectionRequest::StvMd { title, .. } => title.as_str(),
            CreateElectionRequest::StvMdCoperland { title, .. } => title.as_str(),
            CreateElectionRequest::StvMdGrouped { title, .. } => title.as_str(),
        }
    }

    pub fn description(&self) -> (r: &Option<String>)
        ensures
            self matches CreateElectionRequest::StvMd { description, .. } ==> *r == description,
            self matches CreateElectionRequest::StvMdCoperland { description, .. } ==> *r == description,
            self matches CreateElectionRequest::StvMdGrouped { description, .. } ==> *r == description,
    {
        match self {
            CreateElectionRequest::StvMd { description, .. } => description,
            CreateElectionRequest::StvMdCoperland { description, .. } => description,
            CreateElectionRequest::StvMdGrouped { description, .. } => description,
        }
    }

    pub fn candidates(&self) -> (r: &[String])
        ensures
            self matches CreateElectionRequest::StvMd { candidates, .. } ==> r@ == candidates@,
            self matches CreateElectionRequest::StvMdCoperland { candidates, .. } ==> r@ == candidates@,
            self matches CreateElectionRequest::StvMdGrouped { candidates, .. } ==> r@ == candidates@,
    {
        match self {
            CreateElectionRequest::StvMd { candidates, .. } => candidates.as_slice(),
            CreateElectionRequest::StvMdCoperland { candidates, .. } => candidates.as_slice(),
            CreateElectionRequest::StvMdGrouped { candidates, .. } => candidates.as_slice(),
        }
    }

    pub fn num_seats(&self) -> (r: u32)
        ensures
            self matches CreateElectionRequest::StvMd { num_seats, .. } ==> r == num_seats,
            self matches CreateElectionRequest::StvMdCoperland { num_seats, .. } ==> r == num_seats,
            self matches CreateElectionRequest::StvMdGrouped { num_seats, .. } ==> r == num_seats,
    {
        match self {
            CreateElectionRequest::StvMd { num_seats, .. } => *num_seats,
            CreateElectionRequest::StvMdCoperland { num_seats, .. } => *num_seats,
            CreateElectionRequest::StvMdGrouped { num_seats, .. } => *num_seats,
        }
    }

    pub fn start_time(&self) -> (r: &Timestamp)
        ensures
            self matches CreateElectionRequest::StvMd { start_time, .. } ==> *r == start_time,
            self matches CreateElectionRequest::StvMdCoperland { start_time, .. } ==> *r == start_time,
            self matches CreateElectionRequest::StvMdGrouped { start_time, .. } ==> *r == start_time,
    {
        match self {
            CreateElectionRequest::StvMd { start_time, .. } => start_time,
            CreateElectionRequest::StvMdCoperland { start_time, .. } => start_time,
            CreateElectionRequest::StvMdGrouped { start_time, .. } => start_time,
        }
    }

    pub fn end_time(&self) -> (r: &Timestamp)
        ensures
            self matches CreateElectionRequest::StvMd { end_time, .. } ==> *r == end_time,
            self matches CreateElectionRequest::StvMdCoperland { end_time, .. } ==> *r == end_time,
            self matches CreateElectionRequest::StvMdGrouped { end_time, .. } ==> *r == end_time,
    {
        match self {
            CreateElectionRequest::StvMd { end_time, .. } => end_time,
            CreateElectionRequest::StvMdCoperland { end_time, .. } => end_time,
            CreateElectionRequest::StvMdGrouped { end_time, .. } => end_time,
        }
    }

    pub fn groups(&self) -> (r: &[GroupConfig])
        ensures
            self matches CreateElectionRequest::StvMdGrouped { groups, .. } ==> r@ == groups@,
            !(self is StvMdGrouped) ==> r@.len() == 0,
    {
        match self {
            CreateElectionRequest::StvMdGrouped { groups, .. } => groups.as_slice(),
            _ => &[],
        }
    }

    pub fn candidate_groups(&self) -> (r: &[String])
        ensures
            self matches CreateElectionRequest::StvMdGrouped { candidate_groups, .. } ==> r@ == candidate_groups@,
            !(self is StvMdGrouped) ==> r@.len() == 0,
    {
        match self {
            CreateElectionRequest::StvMdGrouped { candidate_groups, .. } => candidate_groups.as_slice(),
            _ => &[],
        }
    }
}
} // verus!
