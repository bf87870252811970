use vstd::prelude::*;

verus! {

/// The envelope a successful operation's payload travels in: a short
/// human-readable message and the data itself.  The boundary serializes
/// it; the library only fills it.
#[derive(Debug)]
pub struct ApiResponseWithData<T> {
    pub message: String,
    pub data: T,
}

/// The envelope of an operation that carries no payload, or of a failure:
/// the message alone.
#[derive(Debug)]
pub struct ApiResponse {
    pub message: String,
}

} // verus!
