//! Core of a single-file BitTorrent leecher/seeder: the shared download
//! state machine, the per-peer wire-protocol engine, and the coordination
//! fabric that fans completed-block events out to every connected peer.

pub mod codec;
pub mod download;
pub mod hash;
pub mod ipc;
pub mod metainfo;
pub mod peer;
pub mod request_queue;
pub mod tracker;

use vstd::prelude::*;

verus! {

/// The error kinds the engine itself can report; each is fatal to the peer
/// connection it occurs on, never to the download.  File and socket failures
/// belong to the surrounding process, and a piece whose hash mismatches is
/// no error at all: its blocks are discarded and downloaded again.
#[derive(Clone, Copy, Debug, PartialEq, Eq, Structural)]
pub enum Error {
    /// Bad tag, short frame, ill-sized bitmap, or an impossible piece or
    /// offset.
    Protocol,
    /// The remote handshake carries a different info hash than ours.
    InvalidInfoHash,
    /// The remote handshake carries our own peer id.
    ConnectingToSelf,
    /// Block data was requested from a piece that is not complete.
    MissingPieceData,
}

} // verus!
