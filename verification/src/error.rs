use vstd::prelude::*;

verus! {

/// Why a request failed.
#[derive(Debug)]
pub enum Error {
    /// The election, token or ballot does not exist (or is not visible yet).
    NotFound,
    /// The request cannot be served as it stands; the text says why.
    BadRequest(String),
    /// Something failed on the server's side; the text says what.
    Internal(String),
}

} // verus!
