//! Attachment points for the hosting server: per-entry metadata and the
//! response statuses it shapes answers with. The cache stores metadata with
//! each entry and destroys it with the entry; it never inspects it.

use vstd::prelude::*;

verus! {

/// Per-entry metadata attached at insert time. The cache only stores a
/// value of this type in each node; what it means is the host's business.
pub trait Meta: Sized {
    /// Fresh metadata for a newly inserted entry.
    fn new() -> Self;
}

/// The trivial metadata: nothing is recorded.
impl Meta for () {
    fn new() -> Self {
    }
}

/// Response statuses of the hosting server. Response shaping is layered on
/// top of the cache and is not its concern; the enumeration is exposed here
/// as the typed vocabulary the host wires in.
pub enum Status<V> {
    /// A complete answer.
    Success(V),
    /// Nothing to send back.
    NoContent,
    /// A partial answer.
    Partial(V),
    /// The cached answer is still fresh.
    NotModified,
    /// The request may not be answered.
    Forbidden,
    /// No resource to answer with.
    NotFound,
    /// The requested range cannot be served.
    RangeNotSatisfiable,
    /// An internal failure.
    Error,
}

} // verus!
