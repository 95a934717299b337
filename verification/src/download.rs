//! The shared download state: the piece/block table, the on-disk image of
//! the output file, hash verification, and the broadcast fan-out to every
//! connected peer.

use vstd::prelude::*;

use crate::Error;
use crate::hash::{calculate_sha1, sha1_of};
use crate::ipc::IPC;
use crate::metainfo::{lemma_piece_layout, Metainfo};
use crate::request_queue::{RequestMetadata, RequestQueue};
use vstd::arithmetic::div_mod::{lemma_fundamental_div_mod, lemma_mod_bound};

verus! {

/// The fixed size of a block, the unit of request; the last block of a piece
/// may be shorter.
pub const BLOCK_SIZE: u32 = 16384;

/// The number of blocks of a piece of `length` bytes: `ceil(length / BLOCK_SIZE)`.
pub open spec fn spec_num_blocks(length: u32) -> int {
    (length + BLOCK_SIZE - 1) / (BLOCK_SIZE as int)
}

/// The length of block `b` of a piece of `length` bytes: `BLOCK_SIZE` for
/// all but the last block, which takes the bytes that remain.
pub open spec fn spec_block_len(length: u32, b: int) -> u32 {
    if b < spec_num_blocks(length) - 1 {
        BLOCK_SIZE
    } else {
        (length - (spec_num_blocks(length) - 1) * BLOCK_SIZE) as u32
    }
}

/// Block layout facts for a nonempty piece: every block is nonempty, at most
/// `BLOCK_SIZE` long, and lies inside the piece; the last block ends exactly
/// at the piece's end.
pub proof fn lemma_block_layout(length: u32, b: int)
    requires
        length > 0,
        0 <= b < spec_num_blocks(length),
    ensures
        0 < spec_block_len(length, b) <= BLOCK_SIZE,
        0 <= b * BLOCK_SIZE,
        b * BLOCK_SIZE + spec_block_len(length, b) <= length,
        b == spec_num_blocks(length) - 1 ==> b * BLOCK_SIZE + spec_block_len(length, b) == length,
{
    let bs = BLOCK_SIZE as int;
    let s = length + bs - 1;
    let nb = spec_num_blocks(length);
    lemma_fundamental_div_mod(s, bs);
    lemma_mod_bound(s, bs);
    assert(nb * bs == s - s % bs);
    assert(nb * bs >= length);
    assert((nb - 1) * bs == nb * bs - bs) by (nonlinear_arith);
    assert((nb - 1) * bs < length);
    assert(b * bs >= 0) by (nonlinear_arith)
        requires
            b >= 0,
            bs > 0,
    ;
    if b < nb - 1 {
        assert(b * bs + bs == (b + 1) * bs) by (nonlinear_arith);
        assert((b + 1) * bs <= (nb - 1) * bs) by (nonlinear_arith)
            requires
                b + 1 <= nb - 1,
                bs > 0,
        ;
    }
}

/// The sum of the lengths of blocks `0..k` of a piece of `length` bytes.
pub open spec fn spec_block_len_sum(length: u32, k: int) -> int
    decreases k,
{
    if k <= 0 {
        0
    } else {
        spec_block_len_sum(length, k - 1) + spec_block_len(length, k - 1)
    }
}

proof fn lemma_block_sum_prefix(length: u32, k: int)
    requires
        length > 0,
        0 <= k <= spec_num_blocks(length) - 1,
    ensures
        spec_block_len_sum(length, k) == k * (BLOCK_SIZE as int),
    decreases k,
{
    if k > 0 {
        lemma_block_sum_prefix(length, k - 1);
        assert(spec_block_len(length, k - 1) == BLOCK_SIZE);
        assert((k - 1) * (BLOCK_SIZE as int) + BLOCK_SIZE == k * (BLOCK_SIZE as int))
            by (nonlinear_arith);
    } else {
        assert(0 * (BLOCK_SIZE as int) == 0) by (nonlinear_arith);
    }
}

/// The block table tiles the piece exactly: the block lengths of a nonempty
/// piece sum to the piece's length.
pub proof fn lemma_block_lengths_sum_to_piece_length(length: u32)
    requires
        length > 0,
    ensures
        spec_block_len_sum(length, spec_num_blocks(length)) == length,
{
    let bs = BLOCK_SIZE as int;
    let s = length + bs - 1;
    let nb = spec_num_blocks(length);
    lemma_fundamental_div_mod(s, bs);
    lemma_mod_bound(s, bs);
    assert(nb * bs == s - s % bs);
    assert(nb * bs >= length);
    assert(nb >= 1) by (nonlinear_arith)
        requires
            nb * bs >= 1,
            bs == 16384,
    ;
    lemma_block_layout(length, nb - 1);
    lemma_block_sum_prefix(length, nb - 1);
}

/// `file` with `data` written in place at offset `at`.
pub open spec fn spec_splice(file: Seq<u8>, at: int, data: Seq<u8>) -> Seq<u8> {
    file.subrange(0, at) + data + file.skip(at + data.len())
}

/// Copies `len` bytes of `file` starting at `at`.
fn read_range(file: &Vec<u8>, at: usize, len: usize) -> (r: Vec<u8>)
    requires
        at + len <= file@.len(),
    ensures
        r@ == file@.subrange(at as int, at + len),
{
    let flen = file.len();
    let mut r: Vec<u8> = Vec::new();
    let mut k: usize = 0;
    while k < len
        invariant
            k <= len,
            at + len <= flen,
            flen == file@.len(),
            r@.len() == k,
            forall|j: int| 0 <= j < k ==> r@[j] == file@[at + j],
        decreases len - k,
    {
        r.push(file[at + k]);
        k += 1;
    }
    proof {
        assert(r@ =~= file@.subrange(at as int, at + len));
    }
    r
}

/// Writes `data` into `file` at offset `at`, in place.
fn write_at(file: &mut Vec<u8>, at: usize, data: &Vec<u8>)
    requires
        at + data@.len() <= old(file)@.len(),
    ensures
        final(file)@ == spec_splice(old(file)@, at as int, data@),
        final(file)@.len() == old(file)@.len(),
{
    let dlen = data.len();
    let flen = file.len();
    let mut k: usize = 0;
    while k < dlen
        invariant
            k <= dlen,
            dlen == data@.len(),
            at + dlen <= flen,
            flen == file@.len(),
            file@.len() == old(file)@.len(),
            forall|j: int| 0 <= j < file@.len() && !(at <= j < at + k) ==> file@[j] == old(
                file)@[j],
            forall|j: int| 0 <= j < k ==> file@[at + j] == data@[j],
        decreases data@.len() - k,
    {
        file[at + k] = data[k];
        k += 1;
    }
    proof {
        assert(file@ =~= spec_splice(old(file)@, at as int, data@));
    }
}

/// Copies a byte vector.
fn clone_bytes(v: &Vec<u8>) -> (r: Vec<u8>)
    ensures
        r@ == v@,
{
    let r = read_range(v, 0, v.len());
    proof {
        assert(v@.subrange(0, v@.len() as int) =~= v@);
    }
    r
}

/// One block of a piece: its index and length, and whether its bytes have
/// been written to the file at their final offset.
#[derive(Clone, Copy, Debug, PartialEq, Eq, Structural)]
pub struct Block {
    pub index: u32,
    pub length: u32,
    pub is_present: bool,
}

impl Block {
    /// A block whose bytes have not arrived yet.
    pub fn new(index: u32, length: u32) -> (b: Block)
        ensures
            b == (Block { index, length, is_present: false }),
    {
        Block { index, length, is_present: false }
    }
}

/// `blocks` with block `b` marked present.
pub open spec fn spec_with_present(blocks: Seq<Block>, b: int) -> Seq<Block> {
    blocks.update(b, Block { is_present: true, ..blocks[b] })
}

/// Every block of `blocks` marked present.
pub open spec fn spec_all_present(blocks: Seq<Block>) -> bool {
    forall|b: int| 0 <= b < blocks.len() ==> blocks[b].is_present
}

/// The total length recorded across a block table.
pub open spec fn spec_blocks_total(blocks: Seq<Block>) -> int
    decreases blocks.len(),
{
    if blocks.len() == 0 {
        0
    } else {
        spec_blocks_total(blocks.drop_last()) + blocks.last().length
    }
}

proof fn lemma_blocks_total_matches(blocks: Seq<Block>, length: u32, k: int)
    requires
        length > 0,
        0 <= k <= blocks.len(),
        blocks.len() == spec_num_blocks(length),
        forall|b: int| 0 <= b < blocks.len() ==> (#[trigger] blocks[b]).length == spec_block_len(
            length, b),
    ensures
        spec_blocks_total(blocks.subrange(0, k)) == spec_block_len_sum(length, k),
    decreases k,
{
    if k > 0 {
        lemma_blocks_total_matches(blocks, length, k - 1);
        assert(blocks.subrange(0, k).drop_last() =~= blocks.subrange(0, k - 1));
        assert(blocks.subrange(0, k).last() == blocks[k - 1]);
    }
}

/// One piece of the file: its position and length, its 20-byte digest from
/// the manifest, its block table, and whether its bytes in the file have
/// been verified against the digest.
pub struct Piece {
    pub index: u32,
    pub length: u32,
    pub offset: u64,
    pub hash: Vec<u8>,
    pub blocks: Vec<Block>,
    pub is_complete: bool,
}

impl Piece {
    /// A well-shaped piece: a 20-byte digest and a block table that tiles
    /// the piece exactly.
    pub open spec fn wf(&self) -> bool {
        &&& self.hash@.len() == 20
        &&& self.length > 0
        &&& self.blocks@.len() == spec_num_blocks(self.length)
        &&& (forall|b: int|
            0 <= b < self.blocks@.len() ==> (#[trigger] self.blocks@[b]).index == b
                && self.blocks@[b].length == spec_block_len(self.length, b))
    }

    /// The bytes of this piece within the file image.
    pub open spec fn spec_data(&self, file: Seq<u8>) -> Seq<u8> {
        file.subrange(self.offset as int, self.offset + self.length)
    }

    /// No block has arrived (fresh piece, or discarded after a corrupt
    /// download).
    pub open spec fn no_blocks_present(&self) -> bool {
        forall|b: int| 0 <= b < self.blocks@.len() ==> !(#[trigger] self.blocks@[b]).is_present
    }

    /// A well-shaped piece's length equals the sum of its blocks' lengths.
    pub proof fn lemma_length_is_sum_of_block_lengths(&self)
        requires
            self.wf(),
        ensures
            spec_blocks_total(self.blocks@) == self.length,
    {
        lemma_blocks_total_matches(self.blocks@, self.length, self.blocks@.len() as int);
        assert(self.blocks@.subrange(0, self.blocks@.len() as int) =~= self.blocks@);
        lemma_block_lengths_sum_to_piece_length(self.length);
    }

    /// Builds the block table of a fresh piece and checks the file image for
    /// bytes already downloaded by an earlier run, so that a restart
    /// recognizes finished pieces at once.
    pub fn new(index: u32, length: u32, piece_length: u32, hash: Vec<u8>, file: &Vec<u8>) -> (p:
        Piece)
        requires
            length > 0,
            hash@.len() == 20,
            index * piece_length + length <= file@.len(),
        ensures
            p.wf(),
            p.index == index,
            p.length == length,
            p.offset == index * piece_length,
            p.hash@ == hash@,
            p.no_blocks_present(),
            p.is_complete == (sha1_of(p.spec_data(file@)) == hash@),
    {
        let mut blocks: Vec<Block> = Vec::new();
        let num_blocks: u32 = (length - 1) / BLOCK_SIZE + 1;
        proof {
            lemma_fundamental_div_mod(length - 1, BLOCK_SIZE as int);
            lemma_mod_bound(length - 1, BLOCK_SIZE as int);
            lemma_fundamental_div_mod(length + BLOCK_SIZE - 1, BLOCK_SIZE as int);
            lemma_mod_bound(length + BLOCK_SIZE - 1, BLOCK_SIZE as int);
            assert(num_blocks == spec_num_blocks(length)) by (nonlinear_arith)
                requires
                    length > 0,
                    num_blocks == (length - 1) as int / (BLOCK_SIZE as int) + 1,
            ;
        }
        let mut i: u32 = 0;
        while i < num_blocks
            invariant
                i <= num_blocks,
                length > 0,
                num_blocks == spec_num_blocks(length),
                blocks@.len() == i,
                forall|b: int|
                    0 <= b < i ==> (#[trigger] blocks@[b]) == (Block {
                        index: b as u32,
                        length: spec_block_len(length, b),
                        is_present: false,
                    }),
            decreases num_blocks - i,
        {
            proof {
                lemma_block_layout(length, i as int);
                if i == num_blocks - 1 {
                    assert((num_blocks - 1) * BLOCK_SIZE == (spec_num_blocks(length) - 1)
                        * (BLOCK_SIZE as int));
                }
            }
            let len: u32 = if i < num_blocks - 1 {
                BLOCK_SIZE
            } else {
                length - (num_blocks - 1) * BLOCK_SIZE
            };
            blocks.push(Block::new(i, len));
            i += 1;
        }
        proof {
            assert(index as int * piece_length as int <= 0xffff_ffff * 0xffff_ffff)
                by (nonlinear_arith)
                requires
                    index <= 0xffff_ffffu32,
                    piece_length <= 0xffff_ffffu32,
            ;
        }
        let offset: u64 = index as u64 * piece_length as u64;
        let mut piece = Piece { index, length, offset, hash, blocks, is_complete: false };
        piece.verify(file);
        piece
    }

    /// Reads this piece's bytes from the file image, hashes them, and sets
    /// `is_complete` to whether the digest matches the manifest.  This is
    /// the sole place where `is_complete` becomes true.
    pub fn verify(&mut self, file: &Vec<u8>) -> (r: bool)
        requires
            old(self).offset + old(self).length <= file@.len(),
        ensures
            r == (sha1_of(old(self).spec_data(file@)) == old(self).hash@),
            *final(self) == (Piece { is_complete: r, ..*old(self) }),
    {
        let flen = file.len();
        assert(self.offset + self.length <= flen);
        let buf = read_range(file, self.offset as usize, self.length as usize);
        let digest = calculate_sha1(buf.as_slice());
        let ok = crate::codec::bytes_eq(&digest, &self.hash);
        self.is_complete = ok;
        ok
    }

    /// Whether block `block_index` has been stored.
    pub fn has_block(&self, block_index: u32) -> (r: bool)
        requires
            block_index < self.blocks@.len(),
        ensures
            r == self.blocks@[block_index as int].is_present,
    {
        self.blocks[block_index as usize].is_present
    }

    /// Whether every block of this piece has been stored.
    pub fn have_all_blocks(&self) -> (r: bool)
        ensures
            r == spec_all_present(self.blocks@),
    {
        let mut b: usize = 0;
        while b < self.blocks.len()
            invariant
                b <= self.blocks@.len(),
                forall|j: int| 0 <= j < b ==> (#[trigger] self.blocks@[j]).is_present,
            decreases self.blocks@.len() - b,
        {
            if !self.blocks[b].is_present {
                return false;
            }
            b += 1;
        }
        true
    }

    /// Marks every block absent, so that a corrupt piece is downloaded again
    /// from scratch.
    pub fn clear_block_data(&mut self)
        ensures
            final(self).no_blocks_present(),
            final(self).blocks@.len() == old(self).blocks@.len(),
            forall|b: int|
                0 <= b < old(self).blocks@.len() ==> (#[trigger] final(self).blocks@[b]) == (Block {
                    is_present: false,
                    ..old(self).blocks@[b]
                }),
            final(self).index == old(self).index,
            final(self).length == old(self).length,
            final(self).offset == old(self).offset,
            final(self).hash == old(self).hash,
            final(self).is_complete == old(self).is_complete,
    {
        let mut b: usize = 0;
        while b < self.blocks.len()
            invariant
                b <= self.blocks@.len(),
                self.blocks@.len() == old(self).blocks@.len(),
                forall|j: int|
                    0 <= j < b ==> (#[trigger] self.blocks@[j]) == (Block {
                        is_present: false,
                        ..old(self).blocks@[j]
                    }),
                forall|j: int| b <= j < self.blocks@.len() ==> (#[trigger] self.blocks@[j]) == old(
                    self).blocks@[j],
                self.index == old(self).index,
                self.length == old(self).length,
                self.offset == old(self).offset,
                self.hash == old(self).hash,
                self.is_complete == old(self).is_complete,
            decreases self.blocks@.len() - b,
        {
            let mut blk = self.blocks[b];
            blk.is_present = false;
            self.blocks[b] = blk;
            b += 1;
        }
    }

    /// Writes one block's bytes into the file image at the block's final
    /// offset and marks it present.  When it was the last missing block the
    /// piece is verified: a matching digest completes the piece, a mismatch
    /// (a corrupt block from some peer) discards every block so the piece is
    /// downloaded again.
    pub fn store(&mut self, file: &mut Vec<u8>, block_index: u32, data: Vec<u8>) -> (r: Result<
        (), Error>)
        requires
            old(self).wf(),
            !old(self).is_complete,
            block_index < old(self).blocks@.len(),
            !old(self).blocks@[block_index as int].is_present,
            data@.len() == old(self).blocks@[block_index as int].length,
            old(self).offset + old(self).length <= old(file)@.len(),
        ensures
            r is Ok,
            final(self).wf(),
            final(file)@ == spec_splice(old(file)@, old(self).offset + block_index * BLOCK_SIZE,
                data@),
            final(file)@.len() == old(file)@.len(),
            final(self).index == old(self).index,
            final(self).length == old(self).length,
            final(self).offset == old(self).offset,
            final(self).hash@ == old(self).hash@,
            final(self).is_complete == (spec_all_present(spec_with_present(old(self).blocks@,
                block_index as int)) && sha1_of(final(self).spec_data(final(file)@)) == old(
                self).hash@),
            final(self).is_complete ==> final(self).blocks@ == spec_with_present(
                old(self).blocks@, block_index as int),
            !spec_all_present(spec_with_present(old(self).blocks@, block_index as int)) ==> final(
                self).blocks@ == spec_with_present(old(self).blocks@, block_index as int),
            (spec_all_present(spec_with_present(old(self).blocks@, block_index as int)) && !final(
                self).is_complete) ==> final(self).no_blocks_present(),
    {
        proof {
            lemma_block_layout(self.length, block_index as int);
            assert(block_index as int * BLOCK_SIZE as int + data@.len() <= self.length);
            assert(self.offset + block_index as int * BLOCK_SIZE as int + data@.len()
                <= file@.len());
        }
        let flen = file.len();
        assert(self.offset + block_index as int * BLOCK_SIZE as int + data@.len() <= flen);
        let at: u64 = self.offset + (block_index as u64) * (BLOCK_SIZE as u64);
        write_at(file, at as usize, &data);
        let mut blk = self.blocks[block_index as usize];
        blk.is_present = true;
        self.blocks[block_index as usize] = blk;
        proof {
            assert(self.blocks@ =~= spec_with_present(old(self).blocks@, block_index as int));
        }
        if self.have_all_blocks() {
            let ok = self.verify(file);
            if !ok {
                self.clear_block_data();
            }
        }
        Ok(())
    }
}

#[verifier::external_type_specification]
#[verifier::external_body]
#[verifier::reject_recursive_types(T)]
pub struct ExSender<T>(std::sync::mpsc::Sender<T>);

/// Relies on `std::sync::mpsc::Sender::send`: hands a clone of the event to
/// the receiving mailbox, failing exactly when the receiver is gone.  No
/// outcome is assumed of it here.
#[verifier::external_body]
fn ipc_send(channel: &std::sync::mpsc::Sender<IPC>, event: &IPC) -> bool {
    channel.send(event.clone()).is_ok()
}

/// The bytes `s` brought to length `n`: truncated, or padded with zeros.
pub open spec fn spec_sized_to(s: Seq<u8>, n: int) -> Seq<u8> {
    if s.len() >= n {
        s.subrange(0, n)
    } else {
        s + Seq::new((n - s.len()) as nat, |i: int| 0u8)
    }
}

/// The process-wide download state, shared by every peer task under one
/// lock: the piece table, the image of the output file, and one mailbox
/// send-handle per live peer connection.
pub struct Download {
    pub our_peer_id: Vec<u8>,
    pub metainfo: Metainfo,
    pub pieces: Vec<Piece>,
    pub file: Vec<u8>,
    pub peer_channels: Vec<std::sync::mpsc::Sender<IPC>>,
}

impl Download {
    /// A well-shaped download: a consistent descriptor, a file image of
    /// exactly the torrent's length, and one well-shaped piece per manifest
    /// digest, each at its offset `index * piece_length`.
    pub open spec fn wf(&self) -> bool {
        &&& self.metainfo.wf()
        &&& self.file@.len() == self.metainfo.info.length
        &&& self.pieces@.len() == self.metainfo.info.num_pieces
        &&& (forall|i: int|
            0 <= i < self.pieces@.len() ==> {
                &&& (#[trigger] self.pieces@[i]).wf()
                &&& self.pieces@[i].index == i
                &&& self.pieces@[i].offset == self.metainfo.info.spec_piece_offset(i)
                &&& self.pieces@[i].length == self.metainfo.info.spec_piece_len(i)
                &&& self.pieces@[i].hash@ == self.metainfo.info.pieces@[i]@
            })
    }

    /// Hash correctness: a piece is marked complete only while its bytes in
    /// the file hash to its digest from the manifest.
    pub open spec fn hash_correct(&self) -> bool {
        forall|p: int|
            0 <= p < self.pieces@.len() && (#[trigger] self.pieces@[p]).is_complete ==> sha1_of(
                self.pieces@[p].spec_data(self.file@)) == self.pieces@[p].hash@
    }

    /// The invariant every operation preserves.
    pub open spec fn inv(&self) -> bool {
        self.wf() && self.hash_correct()
    }

    /// Every piece is complete.
    pub open spec fn spec_is_complete(&self) -> bool {
        forall|p: int| 0 <= p < self.pieces@.len() ==> (#[trigger] self.pieces@[p]).is_complete
    }

    /// Piece `i` lies inside the file image.
    pub proof fn lemma_piece_in_file(&self, i: int)
        requires
            self.wf(),
            0 <= i < self.pieces@.len(),
        ensures
            self.pieces@[i].offset + self.pieces@[i].length <= self.file@.len(),
            0 < self.pieces@[i].length,
    {
        lemma_piece_layout(self.metainfo.info, i);
    }

    /// Distinct pieces occupy disjoint ranges of the file.
    pub proof fn lemma_pieces_disjoint(&self, q: int, p: int)
        requires
            self.wf(),
            0 <= q < p < self.pieces@.len(),
        ensures
            self.pieces@[q].offset + self.pieces@[q].length <= self.pieces@[p].offset,
    {
        let info = self.metainfo.info;
        let pl = info.piece_length as int;
        lemma_piece_layout(info, q);
        assert(q * pl + pl == (q + 1) * pl) by (nonlinear_arith);
        assert((q + 1) * pl <= p * pl) by (nonlinear_arith)
            requires
                q + 1 <= p,
                pl > 0,
        ;
    }

    /// Opens the download over the given file image: the image is brought to
    /// exactly the torrent's length (grown with zeros or truncated), the
    /// piece table is built, and every piece is verified against the image,
    /// so that a restart recognizes pieces a previous run finished.
    pub fn new(our_peer_id: Vec<u8>, metainfo: Metainfo, file: Vec<u8>) -> (r: Result<Download,
        Error>)
        requires
            metainfo.wf(),
        ensures
            r is Ok,
            r matches Ok(d) ==> d.inv() && d.our_peer_id == our_peer_id && d.metainfo == metainfo
                && d.file@.len() == metainfo.info.length && d.file@ == spec_sized_to(file@,
                metainfo.info.length as int) && d.peer_channels@.len() == 0,
            r matches Ok(d) ==> forall|p: int|
                0 <= p < d.pieces@.len() ==> ((#[trigger] d.pieces@[p]).is_complete == (sha1_of(
                    d.pieces@[p].spec_data(d.file@)) == metainfo.info.pieces@[p]@)
                    && d.pieces@[p].no_blocks_present()),
    {
        let file_length = metainfo.info.length;
        let piece_length = metainfo.info.piece_length;
        let num_pieces = metainfo.info.num_pieces;
        let mut file = file;
        let target: usize = file_length as usize;
        let ghost input = file@;
        if file.len() > target {
            file.truncate(target);
        } else {
            while file.len() < target
                invariant
                    input.len() <= target ==> (file@.len() <= target && file@ == input + Seq::new(
                        (file@.len() - input.len()) as nat, |i: int| 0u8)),
                    input.len() > target ==> file@ == input,
                    target == file_length,
                decreases target - file@.len(),
            {
                file.push(0u8);
                proof {
                    assert(file@ =~= input + Seq::new((file@.len() - input.len()) as nat,
                        |i: int| 0u8));
                }
            }
        }
        proof {
            assert(file@ =~= spec_sized_to(input, file_length as int));
        }
        let mut pieces: Vec<Piece> = Vec::new();
        let mut i: u32 = 0;
        while i < num_pieces
            invariant
                i <= num_pieces,
                metainfo.wf(),
                num_pieces == metainfo.info.num_pieces,
                piece_length == metainfo.info.piece_length,
                file_length == metainfo.info.length,
                file@.len() == file_length,
                pieces@.len() == i,
                forall|p: int|
                    0 <= p < i ==> {
                        &&& (#[trigger] pieces@[p]).wf()
                        &&& pieces@[p].index == p
                        &&& pieces@[p].offset == metainfo.info.spec_piece_offset(p)
                        &&& pieces@[p].length == metainfo.info.spec_piece_len(p)
                        &&& pieces@[p].hash@ == metainfo.info.pieces@[p]@
                        &&& pieces@[p].no_blocks_present()
                        &&& pieces@[p].is_complete == (sha1_of(pieces@[p].spec_data(file@))
                            == metainfo.info.pieces@[p]@)
                    },
            decreases num_pieces - i,
        {
            proof {
                lemma_piece_layout(metainfo.info, i as int);
            }
            proof {
                assert(piece_length as int * (num_pieces - 1) as int <= 0xffff_ffff * 0xffff_ffff)
                    by (nonlinear_arith)
                    requires
                        piece_length <= 0xffff_ffffu32,
                        1 <= num_pieces <= 0xffff_ffffu32,
                ;
                assert(piece_length as int * (num_pieces - 1) as int == (num_pieces - 1) as int
                    * piece_length as int) by (nonlinear_arith);
            }
            let len: u32 = if i < num_pieces - 1 {
                piece_length
            } else {
                (file_length - (piece_length as u64 * (num_pieces as u64 - 1))) as u32
            };
            let hash = clone_bytes(&metainfo.info.pieces[i as usize]);
            let piece = Piece::new(i, len, piece_length, hash, &file);
            pieces.push(piece);
            i += 1;
        }
        let d = Download { our_peer_id, metainfo, pieces, file, peer_channels: Vec::new() };
        proof {
            assert forall|p: int|
                0 <= p < d.pieces@.len() && (#[trigger] d.pieces@[p]).is_complete implies sha1_of(
                d.pieces@[p].spec_data(d.file@)) == d.pieces@[p].hash@ by {}
        }
        Ok(d)
    }

    /// Adds a peer mailbox to the broadcast set.
    pub fn register_peer(&mut self, channel: std::sync::mpsc::Sender<IPC>)
        ensures
            final(self).peer_channels@ == old(self).peer_channels@.push(channel),
            final(self).pieces == old(self).pieces,
            final(self).file == old(self).file,
            final(self).metainfo == old(self).metainfo,
            final(self).our_peer_id == old(self).our_peer_id,
    {
        self.peer_channels.push(channel);
    }

    /// Sends a clone of `ipc` to every registered mailbox and drops every
    /// mailbox whose send fails: a failed send means its peer task has
    /// exited, and this is the only path that collects dead mailboxes.
    fn broadcast(&mut self, ipc: IPC)
        ensures
            final(self).pieces == old(self).pieces,
            final(self).file == old(self).file,
            final(self).metainfo == old(self).metainfo,
            final(self).our_peer_id == old(self).our_peer_id,
            final(self).peer_channels@.len() <= old(self).peer_channels@.len(),
    {
        let ghost n = self.peer_channels@.len();
        let mut kept: Vec<std::sync::mpsc::Sender<IPC>> = Vec::new();
        while self.peer_channels.len() > 0
            invariant
                kept@.len() + self.peer_channels@.len() <= n,
                self.pieces == old(self).pieces,
                self.file == old(self).file,
                self.metainfo == old(self).metainfo,
                self.our_peer_id == old(self).our_peer_id,
            decreases self.peer_channels@.len(),
        {
            if let Some(channel) = self.peer_channels.pop() {
                if ipc_send(&channel, &ipc) {
                    kept.push(channel);
                }
            }
        }
        self.peer_channels = kept;
    }

    /// Snapshots per-piece completion flags.
    pub fn have_pieces(&self) -> (r: Vec<bool>)
        ensures
            r@.len() == self.pieces@.len(),
            forall|i: int| 0 <= i < r@.len() ==> r@[i] == self.pieces@[i].is_complete,
    {
        let mut r: Vec<bool> = Vec::new();
        let mut i: usize = 0;
        while i < self.pieces.len()
            invariant
                i <= self.pieces@.len(),
                r@.len() == i,
                forall|j: int| 0 <= j < i ==> r@[j] == self.pieces@[j].is_complete,
            decreases self.pieces@.len() - i,
        {
            r.push(self.pieces[i].is_complete);
            i += 1;
        }
        r
    }

    fn is_complete(&self) -> (r: bool)
        ensures
            r == self.spec_is_complete(),
    {
        let mut p: usize = 0;
        while p < self.pieces.len()
            invariant
                p <= self.pieces@.len(),
                forall|j: int| 0 <= j < p ==> (#[trigger] self.pieces@[j]).is_complete,
            decreases self.pieces@.len() - p,
        {
            if !self.pieces[p].is_complete {
                return false;
            }
            p += 1;
        }
        true
    }

    /// True iff some piece that is not locally complete is advertised by the
    /// peer.
    pub open spec fn spec_is_interested(&self, peer_has: Seq<bool>) -> bool {
        exists|i: int|
            0 <= i < self.pieces@.len() && !(#[trigger] self.pieces@[i]).is_complete && peer_has[i]
    }

    /// Whether the peer advertising `peer_has_pieces` has anything we still
    /// need.
    pub fn is_interested(&self, peer_has_pieces: &[bool]) -> (r: bool)
        requires
            peer_has_pieces@.len() == self.pieces@.len(),
        ensures
            r == self.spec_is_interested(peer_has_pieces@),
    {
        let mut i: usize = 0;
        while i < self.pieces.len()
            invariant
                i <= self.pieces@.len(),
                peer_has_pieces@.len() == self.pieces@.len(),
                forall|j: int|
                    0 <= j < i ==> !(!(#[trigger] self.pieces@[j]).is_complete
                        && peer_has_pieces@[j]),
            decreases self.pieces@.len() - i,
        {
            if !self.pieces[i].is_complete && peer_has_pieces[i] {
                return true;
            }
            i += 1;
        }
        false
    }

    /// A duplicate delivery of `(piece_index, block_index)`: the piece is
    /// already complete or the block already present; `store` drops it with
    /// no side effect.
    pub open spec fn spec_store_dup(&self, piece_index: u32, block_index: u32) -> bool
        recommends
            piece_index < self.pieces@.len(),
            block_index < self.pieces@[piece_index as int].blocks@.len(),
    {
        self.pieces@[piece_index as int].is_complete || self.pieces@[piece_index as int].blocks@[
            block_index as int].is_present
    }

    /// Stores one delivered block.  A duplicate is dropped silently; a fresh
    /// block is written to the file image at its final offset, and when it
    /// was the last missing block the piece is verified: a matching digest
    /// completes the piece, a mismatch discards all of its blocks.  Peers are
    /// then told of the completed block, of a completed piece, and of a
    /// completed download.
    pub fn store(&mut self, piece_index: u32, block_index: u32, data: Vec<u8>) -> (r: Result<
        (), Error>)
        requires
            old(self).inv(),
            piece_index < old(self).pieces@.len(),
            block_index < old(self).pieces@[piece_index as int].blocks@.len(),
            !old(self).spec_store_dup(piece_index, block_index) ==> data@.len() == old(
                self).pieces@[piece_index as int].blocks@[block_index as int].length,
        ensures
            r is Ok,
            final(self).inv(),
            final(self).metainfo == old(self).metainfo,
            final(self).our_peer_id == old(self).our_peer_id,
            final(self).pieces@.len() == old(self).pieces@.len(),
            final(self).file@.len() == old(self).file@.len(),
            old(self).spec_store_dup(piece_index, block_index) ==> final(self).pieces == old(
                self).pieces && final(self).file == old(self).file && final(self).peer_channels
                == old(self).peer_channels,
            !old(self).spec_store_dup(piece_index, block_index) ==> ({
                let op = old(self).pieces@[piece_index as int];
                let np = final(self).pieces@[piece_index as int];
                let stored = spec_with_present(op.blocks@, block_index as int);
                &&& final(self).file@ == spec_splice(old(self).file@, op.offset + block_index
                    * BLOCK_SIZE, data@)
                &&& (forall|q: int|
                    0 <= q < old(self).pieces@.len() && q != piece_index ==> final(self).pieces@[q]
                        == old(self).pieces@[q])
                &&& np.index == op.index
                &&& np.length == op.length
                &&& np.offset == op.offset
                &&& np.hash@ == op.hash@
                &&& np.is_complete == (spec_all_present(stored) && sha1_of(np.spec_data(final(
                    self).file@)) == op.hash@)
                &&& (np.is_complete ==> np.blocks@ == stored)
                &&& (!spec_all_present(stored) ==> np.blocks@ == stored)
                &&& ((spec_all_present(stored) && !np.is_complete) ==> np.no_blocks_present())
            }),
    {
        proof {
            self.lemma_piece_in_file(piece_index as int);
        }
        let dup = {
            let piece = &self.pieces[piece_index as usize];
            piece.is_complete || piece.has_block(block_index)
        };
        if dup {
            return Ok(());
        }
        let mut piece = self.pieces.remove(piece_index as usize);
        let _stored = piece.store(&mut self.file, block_index, data);
        let piece_now_complete = piece.is_complete;
        self.pieces.insert(piece_index as usize, piece);
        proof {
            let ghost pi = piece_index as int;
            let ghost op = old(self).pieces@[pi];
            assert(self.pieces@ =~= old(self).pieces@.update(pi, self.pieces@[pi]));
            lemma_block_layout(op.length, block_index as int);
            assert(self.wf());
            assert forall|q: int|
                0 <= q < self.pieces@.len() && (#[trigger] self.pieces@[q]).is_complete implies
                sha1_of(self.pieces@[q].spec_data(self.file@)) == self.pieces@[q].hash@ by {
                if q != pi {
                    old(self).lemma_piece_in_file(q);
                    if q < pi {
                        old(self).lemma_pieces_disjoint(q, pi);
                    } else {
                        old(self).lemma_pieces_disjoint(pi, q);
                    }
                    lemma_splice_preserves_subrange(old(self).file@, op.offset + block_index
                        * BLOCK_SIZE, data@, self.pieces@[q].offset as int, self.pieces@[q].offset
                        + self.pieces@[q].length);
                }
            }
        }
        self.broadcast(IPC::BlockComplete(piece_index, block_index));
        if piece_now_complete {
            self.broadcast(IPC::PieceComplete(piece_index));
        }
        if self.is_complete() {
            self.broadcast(IPC::DownloadComplete);
        }
        Ok(())
    }

    /// Reads a completed piece's bytes back for serving a peer's request; on
    /// an incomplete piece nothing is served.
    pub fn retrive_data(&mut self, request: &RequestMetadata) -> (r: Result<Vec<u8>, Error>)
        requires
            old(self).wf(),
            request.piece_index < old(self).pieces@.len(),
            request.offset + request.block_length <= old(self).pieces@[request.piece_index
                as int].length,
        ensures
            *final(self) == *old(self),
            old(self).pieces@[request.piece_index as int].is_complete ==> (r matches Ok(data)
                && data@ == old(self).file@.subrange(old(self).pieces@[request.piece_index
                as int].offset + request.offset, old(self).pieces@[request.piece_index
                as int].offset + request.offset + request.block_length)),
            !old(self).pieces@[request.piece_index as int].is_complete ==> r == Err::<Vec<u8>,
                Error>(Error::MissingPieceData),
    {
        proof {
            self.lemma_piece_in_file(request.piece_index as int);
        }
        let complete = self.pieces[request.piece_index as usize].is_complete;
        if complete {
            let piece_offset = self.pieces[request.piece_index as usize].offset;
            let flen = self.file.len();
            let at: u64 = piece_offset + request.offset as u64;
            let buf = read_range(&self.file, at as usize, request.block_length as usize);
            Ok(buf)
        } else {
            Err(Error::MissingPieceData)
        }
    }

    /// Whether block `b` of piece `p` is worth requesting from a peer
    /// advertising `peer_has`: the piece is incomplete and advertised, and
    /// the block neither present nor already queued in `rq`.
    pub open spec fn spec_wanted(&self, peer_has: Seq<bool>, rq: RequestQueue, p: u32, b: u32)
        -> bool {
        &&& p < self.pieces@.len()
        &&& !self.pieces@[p as int].is_complete
        &&& peer_has[p as int]
        &&& b < self.pieces@[p as int].blocks@.len()
        &&& !self.pieces@[p as int].blocks@[b as int].is_present
        &&& !rq.spec_has(p, b)
    }

    /// Every block still worth requesting from this peer: its piece is
    /// incomplete and advertised, and the block is neither present nor in
    /// the caller's queue of outstanding requests.  Each entry carries the
    /// block's length; no key appears twice.
    pub fn incomplete_blocks_of_interest(&self, peer_has_pieces: &[bool],
        request_queue: &RequestQueue) -> (r: Vec<(u32, u32, u32)>)
        requires
            self.wf(),
            peer_has_pieces@.len() == self.pieces@.len(),
        ensures
            forall|k: int|
                0 <= k < r@.len() ==> self.spec_wanted(peer_has_pieces@, *request_queue, (
                #[trigger] r@[k]).0, r@[k].1) && r@[k].2 == self.pieces@[r@[k].0 as int].blocks@[
                    r@[k].1 as int].length,
            forall|p: u32, b: u32|
                #[trigger] self.spec_wanted(peer_has_pieces@, *request_queue, p, b) ==> exists|
                    k: int|
                    0 <= k < r@.len() && r@[k] == (p, b, self.pieces@[p as int].blocks@[b
                        as int].length),
            forall|k1: int, k2: int|
                #![trigger r@[k1], r@[k2]]
                0 <= k1 < k2 < r@.len() ==> !(r@[k1].0 == r@[k2].0 && r@[k1].1 == r@[k2].1),
    {
        let mut out: Vec<(u32, u32, u32)> = Vec::new();
        let mut p: usize = 0;
        while p < self.pieces.len()
            invariant
                p <= self.pieces@.len(),
                self.wf(),
                peer_has_pieces@.len() == self.pieces@.len(),
                forall|k: int|
                    0 <= k < out@.len() ==> ((#[trigger] out@[k]).0 < p && self.spec_wanted(
                        peer_has_pieces@, *request_queue, out@[k].0, out@[k].1) && out@[k].2
                        == self.pieces@[out@[k].0 as int].blocks@[out@[k].1 as int].length),
                forall|p2: u32, b2: u32|
                    #[trigger] self.spec_wanted(peer_has_pieces@, *request_queue, p2, b2) && p2 < p
                        ==> exists|k: int|
                        0 <= k < out@.len() && out@[k] == (p2, b2, self.pieces@[p2
                            as int].blocks@[b2 as int].length),
                forall|k1: int, k2: int|
                    #![trigger out@[k1], out@[k2]]
                    0 <= k1 < k2 < out@.len() ==> (out@[k1].0 < out@[k2].0 || (out@[k1].0
                        == out@[k2].0 && out@[k1].1 < out@[k2].1)),
            decreases self.pieces@.len() - p,
        {
            if !self.pieces[p].is_complete && peer_has_pieces[p] {
                let nblocks = self.pieces[p].blocks.len();
                let mut b: usize = 0;
                while b < nblocks
                    invariant
                        b <= nblocks,
                        p < self.pieces@.len(),
                        self.wf(),
                        peer_has_pieces@.len() == self.pieces@.len(),
                        nblocks == self.pieces@[p as int].blocks@.len(),
                        !self.pieces@[p as int].is_complete,
                        peer_has_pieces@[p as int],
                        forall|k: int|
                            0 <= k < out@.len() ==> (((#[trigger] out@[k]).0 < p || (out@[k].0 == p
                                && out@[k].1 < b)) && self.spec_wanted(peer_has_pieces@,
                                *request_queue, out@[k].0, out@[k].1) && out@[k].2
                                == self.pieces@[out@[k].0 as int].blocks@[out@[k].1
                                as int].length),
                        forall|p2: u32, b2: u32|
                            #[trigger] self.spec_wanted(peer_has_pieces@, *request_queue, p2, b2)
                                && (p2 < p || (p2 == p && b2 < b)) ==> exists|k: int|
                                0 <= k < out@.len() && out@[k] == (p2, b2, self.pieces@[p2
                                    as int].blocks@[b2 as int].length),
                        forall|k1: int, k2: int|
                            #![trigger out@[k1], out@[k2]]
                            0 <= k1 < k2 < out@.len() ==> (out@[k1].0 < out@[k2].0 || (out@[k1].0
                                == out@[k2].0 && out@[k1].1 < out@[k2].1)),
                    decreases nblocks - b,
                {
                    if !self.pieces[p].blocks[b].is_present && !request_queue.has(
                        self.pieces[p].index, self.pieces[p].blocks[b].index) {
                        let ghost before = out@;
                        out.push((p as u32, b as u32, self.pieces[p].blocks[b].length));
                        proof {
                            assert(out@[out@.len() - 1] == (p as u32, b as u32, self.pieces@[
                                p as int].blocks@[b as int].length));
                            assert(forall|k: int| 0 <= k < before.len() ==> out@[k] == before[k]);
                        }
                    }
                    b += 1;
                }
            }
            p += 1;
        }
        out
    }
}

/// Splicing new bytes into one range of a file leaves every disjoint range
/// unchanged.
proof fn lemma_splice_preserves_subrange(file: Seq<u8>, at: int, data: Seq<u8>, lo: int, hi: int)
    requires
        0 <= lo <= hi <= file.len(),
        0 <= at,
        at + data.len() <= file.len(),
        hi <= at || at + data.len() <= lo,
    ensures
        spec_splice(file, at, data).subrange(lo, hi) == file.subrange(lo, hi),
{
    assert(spec_splice(file, at, data).len() == file.len());
    assert(spec_splice(file, at, data).subrange(lo, hi) =~= file.subrange(lo, hi));
}

} // verus!
