//! Errors of the allocator, the object codec and the collector.
use vstd::prelude::*;

verus! {

/// Failures of allocation, encoding and decoding.
#[derive(Debug, Clone, Copy, PartialEq, Eq, Structural)]
pub enum AllocatorError {
    /// The heap was torn down.
    AllocatorClosed,
    /// A region or object of the requested size cannot be had.
    LayoutInvalid,
    /// The number of supplied fields differs from the schema's.
    SizeMismatch,
    /// A composite field is not one of the primitive kinds.
    UnsupportedFieldKind,
    /// A supplied or stored value is not of the kind that the schema states.
    DataReadFailed,
    /// The handle does not point at an object of this heap.
    InvalidObject(usize),
}

/// Failures of a collection cycle.
#[derive(Debug, Clone, Copy, PartialEq, Eq, Structural)]
pub enum GCError {
    /// The header at this address holds no known type signature.
    InvalidObject(usize),
    /// A root lies in no region, or at no live object.
    InvalidRoots,
    /// An address lies in no region.
    InvalidAddress,
    /// The heap was torn down.
    AllocatorClosed,
}

} // verus!
