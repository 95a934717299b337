//! The per-peer protocol engine: choke/interest state, the bounded pipeline
//! of in-flight block requests, and the handling of wire messages and of
//! coordination events from the download.  The surrounding process owns the
//! socket and the mailbox; every decision is made here, as a function from
//! state and event to new state and the messages to send.

use vstd::prelude::*;

use crate::Error;
use crate::codec::{encode_bitfield, spec_encode_bitfield, Message, MessageView};
use crate::download::{Download, BLOCK_SIZE, lemma_block_layout};
use crate::ipc::IPC;
use crate::request_queue::{RequestMetadata, RequestQueue};

verus! {

/// The most block requests a peer keeps in flight at once.
pub const MAX_CONCURRENT_REQUESTS: u32 = 10;

/// One side's view of a connection: which pieces that side has, and its
/// choke and interest flags.
pub struct PeerMetadata {
    pub has_pieces: Vec<bool>,
    pub is_choked: bool,
    pub is_interested: bool,
}

impl PeerMetadata {
    /// The initial view of a side: choked and not interested.
    pub fn new(has_pieces: Vec<bool>) -> (m: PeerMetadata)
        ensures
            m.has_pieces == has_pieces,
            m.is_choked,
            !m.is_interested,
    {
        PeerMetadata { has_pieces, is_choked: true, is_interested: false }
    }
}

/// The state a peer connection's main task keeps: our side (`me`), the
/// remote side (`them`), the halt flag, and the outstanding block requests.
pub struct PeerConnection {
    pub halt: bool,
    pub me: PeerMetadata,
    pub them: PeerMetadata,
    pub requests_in_progress: RequestQueue,
}

/// Everything the handling of one wire message guarantees of the
/// connection, the download, and the replies, shared by `process_message`
/// and by `process` for mailbox events that carry a wire message.
pub open spec fn spec_message_effects(pre: PeerConnection, pre_dl: Download, m: MessageView,
    post: PeerConnection, post_dl: Download, r: Result<Vec<Message>, Error>) -> bool {
    &&& post.halt == pre.halt
    &&& post.me.has_pieces == pre.me.has_pieces
    &&& (m matches MessageView::Cancel(p, o, l) ==> (post == pre && post_dl == pre_dl && (r
        matches Ok(v) && v@.len() == 0)))
    &&& (m matches MessageView::Port ==> (post == pre && post_dl == pre_dl && (r matches Ok(v)
        && v@.len() == 0)))
    &&& (r matches Err(e) ==> e == Error::Protocol)
    &&& (m matches MessageView::KeepAlive ==> (post == pre && post_dl == pre_dl && (r matches Ok(v) && v@.len() == 0)))
    &&& (m matches MessageView::Choke ==> (post.me.is_choked && post.me.is_interested == pre.me.is_interested && post.them == pre.them && post.requests_in_progress == pre.requests_in_progress
                && post_dl == pre_dl && (r matches Ok(v) && v@.len() == 0)))
    &&& (m matches MessageView::Unchoke ==> (!post.me.is_choked && post.me.is_interested == pre.me.is_interested && post.them == pre.them && post_dl == pre_dl && r is Ok))
    &&& (m matches MessageView::Interested ==> (post.them.is_interested && !post.them.is_choked && post.them.has_pieces == pre.them.has_pieces
                && post.me == pre.me && post.requests_in_progress == pre.requests_in_progress && post_dl == pre_dl && (r matches Ok(
                v) && (pre.them.is_choked ==> v@.len() == 1 && v@[0]@
                == MessageView::Unchoke) && (!pre.them.is_choked ==> v@.len() == 0))))
    &&& (m matches MessageView::NotInterested ==> (!post.them.is_interested
                && post.them.is_choked == pre.them.is_choked && post.them.has_pieces == pre.them.has_pieces && post.me == pre.me && post.requests_in_progress == pre.requests_in_progress
                && post_dl == pre_dl && (r matches Ok(v) && v@.len() == 0)))
    &&& (m matches MessageView::Have(i) ==> (post_dl == pre_dl && (i
                >= pre_dl.pieces@.len() ==> (r == Err::<Vec<Message>, Error>(
                Error::Protocol) && post == pre)) && (i < pre_dl.pieces@.len() ==> (r is Ok && post.them.has_pieces@ == pre.them.has_pieces@.update(i as int, true) && post.them.is_choked == pre.them.is_choked && post.them.is_interested == pre.them.is_interested && post.me.is_choked == pre.me.is_choked))))
    &&& (m matches MessageView::Bitfield(bytes) ==> (post_dl == pre_dl
                && (bytes.len() != (pre_dl.pieces@.len() + 7) / 8 ==> (r == Err::<Vec<
                Message>, Error>(Error::Protocol) && post == pre)) && (bytes.len()
                == (pre_dl.pieces@.len() + 7) / 8 ==> (r is Ok && post.them.has_pieces@ == crate::codec::spec_decode_bitfield(bytes, pre_dl.pieces@.len() as nat) && post.them.is_choked == pre.them.is_choked && post.them.is_interested == pre.them.is_interested && post.me.is_choked == pre.me.is_choked))))
    &&& (m matches MessageView::Request(p, o, l) ==> (post_dl == pre_dl
                && ((p >= pre_dl.pieces@.len() || o + l > pre_dl.pieces@[p
                as int].length) ==> (r == Err::<Vec<Message>, Error>(Error::Protocol) && post == pre)) && ((p < pre_dl.pieces@.len() && o + l <= pre_dl.pieces@[p as int].length) ==> (post == pre && (r matches Ok(
                v) && ((!pre.them.is_choked && pre_dl.pieces@[p as int].is_complete)
                ==> (v@.len() == 1 && v@[0]@ == MessageView::Piece(p, o, pre_dl.file@.subrange(pre_dl.pieces@[p as int].offset + o, pre_dl.pieces@[p as int].offset + o + l)))) && ((pre.them.is_choked
                || !pre_dl.pieces@[p as int].is_complete) ==> v@.len() == 0))))))
    &&& (m matches MessageView::Piece(p, o, d) ==> (post.them == pre.them
                && post.me.is_choked == pre.me.is_choked && ((p < pre_dl.pieces@.len() && (o / BLOCK_SIZE) < pre_dl.pieces@[p
                as int].blocks@.len() && (pre_dl.spec_store_dup(p, o / BLOCK_SIZE)
                || d.len() == pre_dl.pieces@[p as int].blocks@[(o / BLOCK_SIZE)
                as int].length)) ==> (r is Ok && (!pre_dl.spec_store_dup(p, o / BLOCK_SIZE)
                ==> post_dl.file@ == crate::download::spec_splice(pre_dl.file@, pre_dl.pieces@[p as int].offset + (o / BLOCK_SIZE) * BLOCK_SIZE, d)) && (pre_dl.spec_store_dup(p, o / BLOCK_SIZE) ==> post_dl.pieces == pre_dl.pieces && post_dl.file == pre_dl.file)))))
}

impl PeerConnection {
    /// The request pipeline never exceeds `MAX_CONCURRENT_REQUESTS` entries.
    pub open spec fn pipeline_bounded(&self) -> bool {
        self.requests_in_progress.requests@.len() <= MAX_CONCURRENT_REQUESTS
    }

    /// Shape agreement with the download this connection serves, and the
    /// pipeline bound.
    pub open spec fn wf(&self, download: Download) -> bool {
        &&& self.me.has_pieces@.len() == download.pieces@.len()
        &&& self.them.has_pieces@.len() == download.pieces@.len()
        &&& self.pipeline_bounded()
    }

    /// A fresh connection: our pieces snapshot, nothing known of the remote,
    /// both sides choked and not interested, no requests in flight.
    pub fn new(have_pieces: Vec<bool>) -> (c: PeerConnection)
        ensures
            !c.halt,
            c.me.has_pieces == have_pieces,
            c.me.is_choked,
            !c.me.is_interested,
            c.them.has_pieces@.len() == have_pieces@.len(),
            forall|i: int| 0 <= i < c.them.has_pieces@.len() ==> !c.them.has_pieces@[i],
            c.them.is_choked,
            !c.them.is_interested,
            c.requests_in_progress.requests@.len() == 0,
    {
        let n = have_pieces.len();
        let mut them_has: Vec<bool> = Vec::new();
        let mut i: usize = 0;
        while i < n
            invariant
                i <= n,
                them_has@.len() == i,
                forall|j: int| 0 <= j < i ==> !them_has@[j],
            decreases n - i,
        {
            them_has.push(false);
            i += 1;
        }
        PeerConnection {
            halt: false,
            me: PeerMetadata::new(have_pieces),
            them: PeerMetadata::new(them_has),
            requests_in_progress: RequestQueue::new(),
        }
    }

    /// The `Bitfield` message advertising our current pieces.
    pub fn bitfield_message(&self) -> (m: Message)
        requires
            self.me.has_pieces@.len() + 7 <= usize::MAX,
        ensures
            m@ == MessageView::Bitfield(spec_encode_bitfield(self.me.has_pieces@)),
    {
        Message::Bitfield(encode_bitfield(&self.me.has_pieces))
    }

    /// Re-queries interest against the remote's advertised pieces.  The flag
    /// flips only when the download's interest disagrees with it (interest
    /// monotonicity); on a flip the matching `Interested` or `NotInterested`
    /// message is returned to be sent.
    pub fn update_my_interested_status(&mut self, download: &Download) -> (r: Option<Message>)
        requires
            old(self).them.has_pieces@.len() == download.pieces@.len(),
        ensures
            final(self).me.is_interested == download.spec_is_interested(old(
                self).them.has_pieces@),
            final(self).me.has_pieces == old(self).me.has_pieces,
            final(self).me.is_choked == old(self).me.is_choked,
            final(self).them == old(self).them,
            final(self).halt == old(self).halt,
            final(self).requests_in_progress == old(self).requests_in_progress,
            old(self).me.is_interested == download.spec_is_interested(old(self).them.has_pieces@)
                ==> (*final(self) == *old(self) && r is None),
            old(self).me.is_interested != download.spec_is_interested(old(self).them.has_pieces@)
                ==> r == Some(
                if download.spec_is_interested(old(self).them.has_pieces@) {
                    Message::Interested
                } else {
                    Message::NotInterested
                },
            ),
    {
        let am_interested = download.is_interested(self.them.has_pieces.as_slice());
        if self.me.is_interested != am_interested {
            self.me.is_interested = am_interested;
            let message = if am_interested {
                Message::Interested
            } else {
                Message::NotInterested
            };
            Some(message)
        } else {
            None
        }
    }

    /// While the pipeline has room and the download still wants blocks this
    /// peer advertises, records a request for each and returns the `Request`
    /// messages to send.  Afterwards either the pipeline is full or no block
    /// is left worth requesting from this peer.
    pub fn request_more_blocks(&mut self, download: &Download) -> (r: Vec<Message>)
        requires
            download.wf(),
            old(self).wf(*download),
        ensures
            final(self).wf(*download),
            final(self).me == old(self).me,
            final(self).them == old(self).them,
            final(self).halt == old(self).halt,
            (old(self).me.is_choked || !old(self).me.is_interested) ==> (*final(self) == *old(
                self) && r@.len() == 0),
            final(self).requests_in_progress.requests@.len() >= old(
                self).requests_in_progress.requests@.len(),
            r@.len() == final(self).requests_in_progress.requests@.len() - old(
                self).requests_in_progress.requests@.len(),
            forall|i: int|
                0 <= i < old(self).requests_in_progress.requests@.len() ==> final(
                    self).requests_in_progress.requests@[i] == old(
                    self).requests_in_progress.requests@[i],
            forall|j: int|
                #![trigger r@[j]]
                0 <= j < r@.len() ==> ({
                    let m = final(self).requests_in_progress.requests@[old(
                        self).requests_in_progress.requests@.len() + j];
                    &&& r@[j]@ == MessageView::Request(m.piece_index, m.offset, m.block_length)
                    &&& m.offset == m.block_index * BLOCK_SIZE
                    &&& download.spec_wanted(old(self).them.has_pieces@, old(
                        self).requests_in_progress, m.piece_index, m.block_index)
                    &&& m.block_length == download.pieces@[m.piece_index as int].blocks@[
                        m.block_index as int].length
                }),
            (!old(self).me.is_choked && old(self).me.is_interested && final(
                self).requests_in_progress.requests@.len() < MAX_CONCURRENT_REQUESTS) ==> forall|
                p: u32, b: u32|
                !(#[trigger] download.spec_wanted(old(self).them.has_pieces@, final(
                    self).requests_in_progress, p, b)),
    {
        if self.me.is_choked || !self.me.is_interested {
            return Vec::new();
        }
        let candidates = download.incomplete_blocks_of_interest(self.them.has_pieces.as_slice(),
            &self.requests_in_progress);
        let ghost old_q = old(self).requests_in_progress;
        let ghost old_len = old_q.requests@.len();
        let ghost them_has = old(self).them.has_pieces@;
        let mut msgs: Vec<Message> = Vec::new();
        let mut k: usize = 0;
        while k < candidates.len() && self.requests_in_progress.len() < (MAX_CONCURRENT_REQUESTS
            as usize)
            invariant
                k <= candidates@.len(),
                download.wf(),
                self.me == old(self).me,
                self.them == old(self).them,
                self.halt == old(self).halt,
                them_has == self.them.has_pieces@,
                them_has.len() == download.pieces@.len(),
                old_q == old(self).requests_in_progress,
                old_len == old_q.requests@.len(),
                old_len <= MAX_CONCURRENT_REQUESTS,
                self.requests_in_progress.requests@.len() == old_len + msgs@.len(),
                self.requests_in_progress.requests@.len() <= MAX_CONCURRENT_REQUESTS,
                forall|i: int|
                    0 <= i < old_len ==> self.requests_in_progress.requests@[i]
                        == old_q.requests@[i],
                forall|j: int|
                    #![trigger msgs@[j]]
                    0 <= j < msgs@.len() ==> ({
                        let m = self.requests_in_progress.requests@[old_len + j];
                        &&& msgs@[j]@ == MessageView::Request(m.piece_index, m.offset,
                            m.block_length)
                        &&& m.offset == m.block_index * BLOCK_SIZE
                        &&& download.spec_wanted(them_has, old_q, m.piece_index, m.block_index)
                        &&& m.block_length == download.pieces@[m.piece_index as int].blocks@[
                            m.block_index as int].length
                    }),
                forall|i: int|
                    0 <= i < k ==> self.requests_in_progress.spec_has(
                        (#[trigger] candidates@[i]).0, candidates@[i].1),
                forall|i: int|
                    0 <= i < candidates@.len() ==> download.spec_wanted(them_has, old_q, (
                    #[trigger] candidates@[i]).0, candidates@[i].1) && candidates@[i].2
                        == download.pieces@[candidates@[i].0 as int].blocks@[candidates@[i].1
                        as int].length,
                forall|p: u32, b: u32|
                    #[trigger] download.spec_wanted(them_has, old_q, p, b) ==> exists|i: int|
                        0 <= i < candidates@.len() && candidates@[i] == (p, b, download.pieces@[p
                            as int].blocks@[b as int].length),
            decreases candidates@.len() - k,
        {
            let (piece_index, block_index, block_length) = candidates[k];
            proof {
                assert(download.spec_wanted(them_has, old_q, piece_index, block_index));
                lemma_block_layout(download.pieces@[piece_index as int].length,
                    block_index as int);
            }
            let offset = block_index * BLOCK_SIZE;
            let ghost q_before = self.requests_in_progress;
            let added = self.requests_in_progress.add(piece_index, block_index, offset,
                block_length);
            if added {
                msgs.push(Message::Request(piece_index, offset, block_length));
            }
            proof {
                let q = self.requests_in_progress;
                if added {
                    assert(q.requests@[q.requests@.len() - 1].spec_matches(piece_index,
                        block_index));
                }
                assert forall|i: int| 0 <= i < k + 1 implies q.spec_has(
                    (#[trigger] candidates@[i]).0, candidates@[i].1) by {
                    if i < k {
                        let w = choose|w: int|
                            0 <= w < q_before.requests@.len() && q_before.requests@[w].spec_matches(
                                candidates@[i].0, candidates@[i].1);
                        assert(q.requests@[w].spec_matches(candidates@[i].0, candidates@[i].1));
                    } else {
                        if added {
                            assert(q.requests@[q.requests@.len() - 1].spec_matches(
                                candidates@[i].0, candidates@[i].1));
                        }
                    }
                }
            }
            k += 1;
        }
        proof {
            if self.requests_in_progress.requests.len() < MAX_CONCURRENT_REQUESTS {
                assert(k == candidates@.len());
                assert forall|p: u32, b: u32|
                    !(#[trigger] download.spec_wanted(them_has, self.requests_in_progress, p,
                        b)) by {
                    if download.spec_wanted(them_has, self.requests_in_progress, p, b) {
                        assert(!self.requests_in_progress.spec_has(p, b));
                        assert(forall|i: int|
                            0 <= i < old_len ==> self.requests_in_progress.requests@[i]
                                == old_q.requests@[i]);
                        assert(!old_q.spec_has(p, b)) by {
                            if old_q.spec_has(p, b) {
                                let i = choose|i: int|
                                    0 <= i < old_q.requests@.len()
                                        && old_q.requests@[i].spec_matches(p, b);
                                assert(self.requests_in_progress.requests@[i].spec_matches(p, b));
                            }
                        }
                        assert(download.spec_wanted(them_has, old_q, p, b));
                    }
                }
            }
        }
        msgs
    }

    fn unchoke_them(&mut self) -> (r: Option<Message>)
        ensures
            !final(self).them.is_choked,
            final(self).them.has_pieces == old(self).them.has_pieces,
            final(self).them.is_interested == old(self).them.is_interested,
            final(self).me == old(self).me,
            final(self).halt == old(self).halt,
            final(self).requests_in_progress == old(self).requests_in_progress,
            old(self).them.is_choked ==> r == Some(Message::Unchoke),
            !old(self).them.is_choked ==> (r is None && *final(self) == *old(self)),
    {
        if self.them.is_choked {
            self.them.is_choked = false;
            Some(Message::Unchoke)
        } else {
            None
        }
    }

    /// Handles one wire message from the remote peer, returning the messages
    /// to send back.  Impossible piece or block coordinates, an ill-sized
    /// bitmap, and block data of the wrong length are protocol errors, fatal
    /// to this connection.
    pub fn process_message(&mut self, download: &mut Download, message: Message) -> (r: Result<
        Vec<Message>, Error>)
        requires
            old(download).inv(),
            old(self).wf(*old(download)),
        ensures
            final(download).inv(),
            final(self).wf(*final(download)),
            final(download).metainfo == old(download).metainfo,
            final(download).our_peer_id == old(download).our_peer_id,
            final(download).pieces@.len() == old(download).pieces@.len(),
            final(download).file@.len() == old(download).file@.len(),
            final(self).me.is_interested != old(self).me.is_interested ==> final(
                self).me.is_interested == final(download).spec_is_interested(final(
                self).them.has_pieces@),
            spec_message_effects(*old(self), *old(download), message@, *final(self), *final(
                download), r),
    {
        match message {
            Message::KeepAlive => Ok(Vec::new()),
            Message::Choke => {
                self.me.is_choked = true;
                Ok(Vec::new())
            },
            Message::Unchoke => {
                if self.me.is_choked {
                    self.me.is_choked = false;
                    Ok(self.request_more_blocks(download))
                } else {
                    Ok(Vec::new())
                }
            },
            Message::Interested => {
                self.them.is_interested = true;
                let mut v: Vec<Message> = Vec::new();
                if let Some(m) = self.unchoke_them() {
                    v.push(m);
                }
                Ok(v)
            },
            Message::NotInterested => {
                self.them.is_interested = false;
                Ok(Vec::new())
            },
            Message::Have(have_index) => {
                if (have_index as usize) >= self.them.has_pieces.len() {
                    return Err(Error::Protocol);
                }
                self.them.has_pieces[have_index as usize] = true;
                let mut v: Vec<Message> = Vec::new();
                if let Some(m) = self.update_my_interested_status(download) {
                    v.push(m);
                }
                let mut reqs = self.request_more_blocks(download);
                v.append(&mut reqs);
                Ok(v)
            },
            Message::Bitfield(bytes) => {
                proof {
                    crate::metainfo::lemma_num_pieces_bound(download.metainfo.info);
                }
                let num_pieces = self.them.has_pieces.len();
                let decoded = match crate::codec::decode_bitfield(bytes.as_slice(), num_pieces) {
                    Ok(d) => d,
                    Err(e) => {
                        return Err(e);
                    },
                };
                self.them.has_pieces = decoded;
                let mut v: Vec<Message> = Vec::new();
                if let Some(m) = self.update_my_interested_status(download) {
                    v.push(m);
                }
                let mut reqs = self.request_more_blocks(download);
                v.append(&mut reqs);
                Ok(v)
            },
            Message::Request(piece_index, offset, length) => {
                if (piece_index as usize) >= download.pieces.len() {
                    return Err(Error::Protocol);
                }
                if (offset as u64) + (length as u64) > (download.pieces[piece_index
                    as usize].length as u64) {
                    return Err(Error::Protocol);
                }
                let mut v: Vec<Message> = Vec::new();
                if !self.them.is_choked && download.pieces[piece_index as usize].is_complete {
                    let request = RequestMetadata {
                        piece_index,
                        block_index: offset / BLOCK_SIZE,
                        offset,
                        block_length: length,
                    };
                    match download.retrive_data(&request) {
                        Ok(data) => {
                            v.push(Message::Piece(piece_index, offset, data));
                        },
                        Err(e) => {
                            return Err(e);
                        },
                    }
                }
                Ok(v)
            },
            Message::Piece(piece_index, offset, data) => {
                let block_index = offset / BLOCK_SIZE;
                while self.requests_in_progress.has(piece_index, block_index)
                    invariant
                        self.me == old(self).me,
                        self.them == old(self).them,
                        self.halt == old(self).halt,
                        self.requests_in_progress.requests@.len() <= old(
                            self).requests_in_progress.requests@.len(),
                    decreases self.requests_in_progress.requests@.len(),
                {
                    let _removed = self.requests_in_progress.remove(piece_index, block_index);
                }
                if (piece_index as usize) >= download.pieces.len() {
                    return Err(Error::Protocol);
                }
                if (block_index as usize) >= download.pieces[piece_index as usize].blocks.len() {
                    return Err(Error::Protocol);
                }
                let dup = download.pieces[piece_index as usize].is_complete
                    || download.pieces[piece_index as usize].has_block(block_index);
                if !dup && data.len() != (download.pieces[piece_index as usize].blocks[block_index
                    as usize].length as usize) {
                    return Err(Error::Protocol);
                }
                let _stored = download.store(piece_index, block_index, data);
                let mut v: Vec<Message> = Vec::new();
                if let Some(m) = self.update_my_interested_status(download) {
                    v.push(m);
                }
                let mut reqs = self.request_more_blocks(download);
                v.append(&mut reqs);
                Ok(v)
            },
            Message::Cancel(_piece_index, _offset, _length) => {
                // a peer may cancel a request it made; serving-side
                // cancellation is not needed for correctness, so it is
                // acknowledged and ignored
                Ok(Vec::new())
            },
            Message::Port => Ok(Vec::new()),
        }
    }

    /// Handles one mailbox event: a wire message from the remote, or a
    /// coordination event from the download (another peer completed a block
    /// or a piece, or the download finished).
    pub fn process(&mut self, download: &mut Download, ipc: IPC) -> (r: Result<Vec<Message>,
        Error>)
        requires
            old(download).inv(),
            old(self).wf(*old(download)),
            ipc matches IPC::PieceComplete(p) ==> (p as int) < old(self).me.has_pieces@.len(),
        ensures
            final(download).inv(),
            final(self).wf(*final(download)),
            final(download).metainfo == old(download).metainfo,
            final(download).our_peer_id == old(download).our_peer_id,
            final(download).pieces@.len() == old(download).pieces@.len(),
            final(download).file@.len() == old(download).file@.len(),
            final(self).me.is_interested != old(self).me.is_interested ==> final(
                self).me.is_interested == final(download).spec_is_interested(final(
                self).them.has_pieces@),
            final(self).halt == (old(self).halt || ipc matches IPC::DownloadComplete),
            ipc matches IPC::Message(msg) ==> spec_message_effects(*old(self), *old(download),
                msg@, *final(self), *final(download), r),
            ipc matches IPC::BlockComplete(p, b) ==> (*final(download) == *old(download) && final(
                self).me == old(self).me && final(self).them == old(self).them && (old(
                self).requests_in_progress.spec_has(p, b) ==> (r matches Ok(v) && v@.len() == 1
                && exists|k: int|
                {
                    &&& 0 <= k < old(self).requests_in_progress.requests@.len()
                    &&& (#[trigger] old(self).requests_in_progress.requests@[k]).spec_matches(p, b)
                    &&& v@[0]@ == MessageView::Cancel(old(
                        self).requests_in_progress.requests@[k].piece_index, old(
                        self).requests_in_progress.requests@[k].offset, old(
                        self).requests_in_progress.requests@[k].block_length)
                    &&& final(self).requests_in_progress.requests@ == old(
                        self).requests_in_progress.requests@.remove(k)
                })) && (!old(self).requests_in_progress.spec_has(p, b) ==> (*final(self) == *old(
                self) && (r matches Ok(v) && v@.len() == 0)))),
            ipc matches IPC::PieceComplete(p) ==> (*final(download) == *old(download) && final(
                self).me.has_pieces@ == old(self).me.has_pieces@.update(p as int, true) && final(
                self).them == old(self).them && final(self).requests_in_progress == old(
                self).requests_in_progress && (r matches Ok(v) && 1 <= v@.len() <= 2 && v@[v@.len()
                - 1]@ == MessageView::Have(p) && (v@.len() == 2 <==> old(self).me.is_interested
                != old(download).spec_is_interested(old(self).them.has_pieces@)) && (v@.len() == 2
                ==> v@[0]@ == (if old(download).spec_is_interested(old(self).them.has_pieces@) {
                MessageView::Interested
            } else {
                MessageView::NotInterested
            })))),
            ipc matches IPC::DownloadComplete ==> (*final(download) == *old(download) && final(
                self).halt && final(self).me.has_pieces == old(self).me.has_pieces && final(
                self).them == old(self).them && final(self).requests_in_progress == old(
                self).requests_in_progress && (r matches Ok(v) && v@.len() <= 1 && (v@.len() == 1
                <==> old(self).me.is_interested != old(download).spec_is_interested(old(
                self).them.has_pieces@)) && (v@.len() == 1 ==> v@[0]@ == (
            if old(download).spec_is_interested(old(self).them.has_pieces@) {
                MessageView::Interested
            } else {
                MessageView::NotInterested
            })))),
    {
        match ipc {
            IPC::Message(message) => self.process_message(download, message),
            IPC::BlockComplete(piece_index, block_index) => {
                let ghost oldq = self.requests_in_progress;
                let mut v: Vec<Message> = Vec::new();
                match self.requests_in_progress.remove(piece_index, block_index) {
                    Some(removed) => {
                        v.push(Message::Cancel(removed.piece_index, removed.offset,
                            removed.block_length));
                        proof {
                            let k = choose|k: int|
                                {
                                    &&& 0 <= k < oldq.requests@.len()
                                    &&& oldq.requests@[k].spec_matches(piece_index, block_index)
                                    &&& Some(removed) == Some(oldq.requests@[k])
                                    &&& self.requests_in_progress.requests@
                                        == oldq.requests@.remove(k)
                                };
                            assert(v@[0]@ == MessageView::Cancel(oldq.requests@[k].piece_index,
                                oldq.requests@[k].offset, oldq.requests@[k].block_length));
                        }
                    },
                    None => {},
                }
                Ok(v)
            },
            IPC::PieceComplete(piece_index) => {
                self.me.has_pieces[piece_index as usize] = true;
                let mut v: Vec<Message> = Vec::new();
                if let Some(m) = self.update_my_interested_status(download) {
                    v.push(m);
                }
                v.push(Message::Have(piece_index));
                Ok(v)
            },
            IPC::DownloadComplete => {
                self.halt = true;
                let mut v: Vec<Message> = Vec::new();
                if let Some(m) = self.update_my_interested_status(download) {
                    v.push(m);
                }
                Ok(v)
            },
        }
    }
}

} // verus!
