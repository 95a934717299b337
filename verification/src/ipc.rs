//! The events a peer task's mailbox carries: wire messages pushed by the
//! connection's reader subtask, and coordination events pushed by the
//! download when other peers complete work.

use vstd::prelude::*;

use crate::codec::Message;

verus! {

/// One mailbox event.
#[derive(Clone)]
pub enum IPC {
    /// A wire message from the remote peer.
    Message(Message),
    /// Some peer stored block `(piece, block)`: cancel a duplicate request.
    BlockComplete(u32, u32),
    /// Piece `piece` is complete and verified: advertise it with `Have`.
    PieceComplete(u32),
    /// Every piece is complete: wind the connection down.
    DownloadComplete,
}

} // verus!
