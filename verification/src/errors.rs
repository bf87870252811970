use vstd::prelude::*;

verus! {

/// Every failure a repository operation can report, as a kind the caller can
/// match on.  The library only classifies; turning a kind into a user-facing
/// message or status code is the boundary's concern.
#[derive(Debug, PartialEq, Eq)]
pub enum Error {
    /// Inserting a rating would violate the one-rating-per-user-per-match rule.
    UsernameAlreadyUsed,
    /// A single-row lookup by identifier matched zero rows.
    ResourceDoesNotExists,
    /// A submitted rating payload was outside the accepted domain.
    WrongRating,
    /// A page number below 1 was requested.
    InvalidPage,
    /// A language code matched none of the known languages.
    UnrecognizedLanguage { raw: String },
    /// The store could not be reached or a connection could not be acquired.
    StoreUnavailable { detail: String },
    /// Any other underlying store failure.
    StoreError { detail: String },
}

} // verus!
