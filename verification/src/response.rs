//! What a client makes of a server's response.
use vstd::prelude::*;

verus! {

/// A decoded response: success with its body, a missing key, or a server
/// error with its message.
#[derive(Debug)]
pub enum Response {
    Success(Vec<u8>),
    NotFound,
    Error(String),
}

} // verus!
