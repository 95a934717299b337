//! The torrent descriptor the engine consumes: file name and length, piece
//! length, and one 20-byte SHA-1 digest per piece.

use vstd::prelude::*;

verus! {

/// The `info` dictionary of a torrent descriptor.
pub struct Info {
    pub piece_length: u32,
    pub pieces: Vec<Vec<u8>>,
    pub num_pieces: u32,
    pub name: String,
    pub length: u64,
}

/// A parsed torrent descriptor.  `info_hash` identifies the swarm: it is the
/// SHA-1 digest of the bencoded `info` dictionary.
pub struct Metainfo {
    pub announce: String,
    pub info: Info,
    pub info_hash: Vec<u8>,
    pub created_by: String,
}

impl Info {
    /// A consistent manifest: one 20-byte digest per piece, every piece
    /// `piece_length` bytes except a shorter, nonempty final piece, and a
    /// total length this machine can address.
    pub open spec fn wf(&self) -> bool {
        &&& self.num_pieces == self.pieces@.len()
        &&& self.piece_length > 0
        &&& (forall|i: int| 0 <= i < self.pieces@.len() ==> self.pieces@[i]@.len() == 20)
        &&& self.length > (self.num_pieces - 1) * self.piece_length
        &&& self.length <= self.num_pieces * self.piece_length
        &&& self.length + 7 <= usize::MAX
    }

    /// The length of piece `i`: `piece_length` for all but the last piece,
    /// which takes the bytes that remain.
    pub open spec fn spec_piece_len(&self, i: int) -> u32 {
        if i < self.num_pieces - 1 {
            self.piece_length
        } else {
            (self.length - (self.num_pieces - 1) * self.piece_length) as u32
        }
    }

    /// Where piece `i` starts in the file.
    pub open spec fn spec_piece_offset(&self, i: int) -> int {
        i * self.piece_length
    }
}

impl Metainfo {
    /// A consistent descriptor: a consistent manifest and a 20-byte swarm id.
    pub open spec fn wf(&self) -> bool {
        &&& self.info.wf()
        &&& self.info_hash@.len() == 20
    }
}

/// A consistent manifest has no more pieces than bytes, so a bitfield of
/// `ceil(num_pieces / 8)` bytes is always addressable.
pub proof fn lemma_num_pieces_bound(info: Info)
    requires
        info.wf(),
    ensures
        info.num_pieces <= info.length,
        info.num_pieces + 7 <= usize::MAX,
{
    if info.num_pieces > 0 {
        assert((info.num_pieces - 1) * info.piece_length >= info.num_pieces - 1)
            by (nonlinear_arith)
            requires
                info.piece_length >= 1,
                info.num_pieces >= 1,
        ;
    }
}

/// Piece layout facts that follow from a consistent manifest: every piece is
/// nonempty, at most `piece_length` long, lies inside the file, and piece
/// `i + 1` starts where piece `i` ends.
pub proof fn lemma_piece_layout(info: Info, i: int)
    requires
        info.wf(),
        0 <= i < info.num_pieces,
    ensures
        0 < info.spec_piece_len(i) <= info.piece_length,
        0 <= info.spec_piece_offset(i),
        info.spec_piece_offset(i) + info.spec_piece_len(i) <= info.length,
        i < info.num_pieces - 1 ==> info.spec_piece_offset(i) + info.spec_piece_len(i)
            == info.spec_piece_offset(i + 1),
        i == info.num_pieces - 1 ==> info.spec_piece_offset(i) + info.spec_piece_len(i)
            == info.length,
{
    let n = info.num_pieces as int;
    let pl = info.piece_length as int;
    let len = info.length as int;
    assert(i * pl >= 0) by (nonlinear_arith)
        requires
            i >= 0,
            pl > 0,
    ;
    if i < n - 1 {
        assert(i * pl + pl == (i + 1) * pl) by (nonlinear_arith);
        assert((i + 1) * pl <= (n - 1) * pl) by (nonlinear_arith)
            requires
                i + 1 <= n - 1,
                pl > 0,
        ;
    } else {
        assert(i == n - 1);
        assert((n - 1) * pl + pl == n * pl) by (nonlinear_arith);
        assert(len - (n - 1) * pl <= pl);
        assert(len - (n - 1) * pl > 0);
    }
}

} // verus!
