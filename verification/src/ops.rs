use vstd::prelude::*;
use crate::chunk::ByteId;

verus! {

/// A serialized insert operation, carrying everything a remote peer needs to
/// merge it deterministically: the origin identity of the new bytes and the
/// identities of the bytes that were adjacent at creation time.
pub struct InsertRecord {
    /// Peer that issued the insert.
    pub peer: u64,
    /// Clock of the first inserted byte; byte `i` has clock `clock + i`.
    pub clock: u64,
    /// The inserted bytes.
    pub content: Vec<u8>,
    /// Identity of the byte immediately left of the insertion point when the
    /// insert was issued; `None` at the start of the document.
    pub left_origin: Option<ByteId>,
    /// Identity of the byte immediately right of the insertion point when
    /// the insert was issued; `None` at the end of the document.
    pub right_origin: Option<ByteId>,
}

/// A serialized delete operation: tombstone the bytes whose identities are
/// `(peer, clock)` through `(peer, clock + len - 1)`. Deletes are monotone;
/// re-delivering a delete is a no-op.
#[derive(Clone, Copy)]
pub struct DeleteRecord {
    /// Peer that inserted the target bytes (not the deleting peer).
    pub peer: u64,
    /// Clock of the first target byte.
    pub clock: u64,
    /// Number of consecutive target bytes.
    pub len: u64,
}

/// One operation of a transaction's change summary, ready for the transport
/// layer to replay on other peers.
pub enum TextOp {
    Insert(InsertRecord),
    Delete(DeleteRecord),
}

} // verus!
