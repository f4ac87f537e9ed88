use vstd::prelude::*;

verus! {

/// The ways an operation of the allocator can fail.
#[derive(Debug, Clone, Copy, PartialEq, Eq, Structural)]
pub enum FreelistError {
    /// The element type is smaller than a free-block header, so a free slot
    /// could not hold its header.
    Construction,
    /// Growing a header would reach into the next linked block, or a range
    /// handed back is not wholly in use.
    Overlap,
    /// Shrinking a header would leave it with no element.
    Underflow,
    /// The capacity asked for cannot be indexed by a header or counted in
    /// bytes.
    CapacityOverflow,
    /// The growth policy did not produce a block large enough for a request.
    Capacity,
    /// A block chosen for a request was smaller than the request.
    InvariantViolation,
}

} // verus!
