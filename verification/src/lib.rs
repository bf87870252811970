//! A read-mostly catalog and rating library for combat-sports events.
//!
//! Events contain matches, matches carry localized descriptions, and users
//! submit ratings that are aggregated into averages.  The heart of the crate
//! is a generic paginator that turns any ordered, filtered row set into a
//! bounded page of rows plus a total-page count, a strict bidirectional codec
//! for the closed set of language codes, and a decimal aggregator that keeps
//! "no ratings yet" distinct from an average of zero.

pub mod api;
pub mod decimal;
pub mod entities;
pub mod errors;
pub mod filtering;
pub mod language;
pub mod pagination;
pub mod store;
