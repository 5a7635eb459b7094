use vstd::prelude::*;

verus! {

/// The error type of the byte codec that encodes the free list.
#[verifier::external_type_specification]
#[verifier::external_body]
pub struct ExPostcardError(postcard::Error);

/// What an operation of the store can fail with.
#[derive(Debug)]
pub enum VeloxGraphError {
    /// A snapshot could not be written or read back: a length does not fit
    /// its four bytes, the snapshot is cut short, or it does not describe a
    /// consistent graph.
    FileFail(String),
    /// The byte codec refused a block.
    PostcardError(postcard::Error),
    /// A stored node identifier does not fit the identifier width in use.
    Overflow,
    /// The slot index is at or beyond the end of the slot sequence.
    SlotNotAllocated(usize),
    /// The slot exists but holds no node.
    SlotNotUsed(usize),
    /// No forward connection to this target is stored.
    ConnectionNotSet(usize),
}

} // verus!
