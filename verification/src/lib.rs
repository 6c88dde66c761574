//! Sortable unique id generation without a central coordinator: 64-bit
//! Snowflake-style ids packed from a millisecond timestamp, a worker id and
//! a sequence counter, and 27-character KSUID strings built from a
//! second-resolution timestamp, random bytes and a base62 rendering.

pub mod base62;
pub mod ksuid;
pub mod snowflake_id;

use vstd::prelude::*;

verus! {

/// Errors surfaced by the id generators.
///
/// `ClockRegression`: the wall clock read earlier than the last timestamp an
/// id was issued at; issuing an id then would break monotonicity, so the call
/// fails instead.
/// `SystemClockUnavailable`: the wall clock could not be read at all.
#[derive(Clone, Copy, Debug, PartialEq, Eq, Structural)]
pub enum IdError {
    ClockRegression,
    SystemClockUnavailable,
}

} // verus!
