use vstd::prelude::*;

verus! {

/// The failure taxonomy of the collection engines.
///
/// `Capacity` is internal to the tree engines: every public operation
/// pre-checks occupancy before delegating to chunk storage, and its contract
/// proves that `Capacity` never escapes to a caller.
#[derive(Clone, Copy, Debug, PartialEq, Eq, Structural)]
pub enum Error {
    /// Indexed access or split beyond the current length.
    IndexOutOfBounds,
    /// Removal from an empty sequence.
    Empty,
    /// A chunk operation would exceed `CHUNK_SIZE` elements.
    Capacity,
}

} // verus!
