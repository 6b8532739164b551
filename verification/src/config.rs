use vstd::prelude::*;

verus! {

/// The branching factor of both tree engines: the maximum number of elements
/// (or children) a single node chunk may hold. Chosen as the number of bits in
/// a machine word on 64-bit targets; it must be an even power of two so that
/// B-tree nodes can split evenly.
pub const CHUNK_SIZE: usize = 64;

} // verus!
