//! A persistent, append-mostly array of JSON-valued elements over an ordered
//! key-value store, with named incremental aggregations ("reducers") whose
//! running state is updated atomically with every push.

use vstd::prelude::*;

pub mod bytes;
pub mod codec;
pub mod merge;
pub mod store;
pub mod array;
pub mod reducer;
pub mod cli;

verus! {

/// What can go wrong inside the array engine itself.  Storage faults of an
/// outside engine and script failures are the caller's to report; see the
/// operations' contracts for exactly when each variant is returned.
#[derive(Clone, Copy, Debug, PartialEq, Eq, Structural)]
pub enum Error {
    /// A stored value is not in the form the engine writes (wrong width,
    /// negative length, or text that is not valid UTF-8).
    Corrupt,
    /// An attach was asked for under the reserved name `length`.
    ReservedName,
    /// The array length would leave the signed 32-bit range.
    Overflow,
}

} // verus!
