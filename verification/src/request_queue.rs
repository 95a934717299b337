//! The per-peer set of outstanding block requests, keyed by
//! `(piece_index, block_index)`.

use vstd::prelude::*;

verus! {

/// One outstanding block request.  Membership in a queue is keyed by
/// `(piece_index, block_index)`; `offset` and `block_length` are payload.
#[derive(Clone, Copy, Debug, PartialEq, Eq, Structural)]
pub struct RequestMetadata {
    pub piece_index: u32,
    pub block_index: u32,
    pub offset: u32,
    pub block_length: u32,
}

impl RequestMetadata {
    /// Whether this entry is keyed by `(piece_index, block_index)`.
    pub fn matches(&self, piece_index: u32, block_index: u32) -> (r: bool)
        ensures
            r == self.spec_matches(piece_index, block_index),
    {
        self.piece_index == piece_index && self.block_index == block_index
    }

    /// Whether this entry is keyed by `(piece_index, block_index)`.
    pub open spec fn spec_matches(&self, piece_index: u32, block_index: u32) -> bool {
        self.piece_index == piece_index && self.block_index == block_index
    }
}

/// An ordered list of outstanding requests with set semantics on the key
/// `(piece_index, block_index)`: `add` is idempotent and `remove` takes out
/// the matching entry.
pub struct RequestQueue {
    pub requests: Vec<RequestMetadata>,
}

impl RequestQueue {
    /// Whether some entry with the given key is in the queue.
    pub open spec fn spec_has(&self, piece_index: u32, block_index: u32) -> bool {
        exists|k: int|
            0 <= k < self.requests@.len() && self.requests@[k].spec_matches(piece_index,
                block_index)
    }

    /// An empty queue.
    pub fn new() -> (q: RequestQueue)
        ensures
            q.requests@.len() == 0,
    {
        RequestQueue { requests: Vec::new() }
    }

    fn position(&self, piece_index: u32, block_index: u32) -> (r: Option<usize>)
        ensures
            match r {
                Some(k) => 0 <= k < self.requests@.len() && self.requests@[k as int].spec_matches(
                    piece_index, block_index) && (forall|j: int|
                    0 <= j < k ==> !self.requests@[j].spec_matches(piece_index, block_index)),
                None => !self.spec_has(piece_index, block_index),
            },
    {
        let mut k: usize = 0;
        while k < self.requests.len()
            invariant
                k <= self.requests@.len(),
                forall|j: int| 0 <= j < k ==> !self.requests@[j].spec_matches(piece_index,
                    block_index),
            decreases self.requests@.len() - k,
        {
            if self.requests[k].matches(piece_index, block_index) {
                return Some(k);
            }
            k += 1;
        }
        None
    }

    /// Whether the queue holds an entry keyed by `(piece_index, block_index)`.
    pub fn has(&self, piece_index: u32, block_index: u32) -> (r: bool)
        ensures
            r == self.spec_has(piece_index, block_index),
    {
        self.position(piece_index, block_index).is_some()
    }

    /// Appends a request unless its key is already present; returns whether
    /// it was inserted.
    pub fn add(&mut self, piece_index: u32, block_index: u32, offset: u32, block_length: u32) -> (r:
        bool)
        ensures
            r == !old(self).spec_has(piece_index, block_index),
            r ==> final(self).requests@ == old(self).requests@.push(RequestMetadata {
                piece_index,
                block_index,
                offset,
                block_length,
            }),
            !r ==> final(self).requests@ == old(self).requests@,
    {
        if !self.has(piece_index, block_index) {
            let r = RequestMetadata { piece_index, block_index, offset, block_length };
            self.requests.push(r);
            true
        } else {
            false
        }
    }

    /// Removes the first entry keyed by `(piece_index, block_index)` and
    /// returns it, or returns `None` when no entry has that key.
    pub fn remove(&mut self, piece_index: u32, block_index: u32) -> (r: Option<RequestMetadata>)
        ensures
            !old(self).spec_has(piece_index, block_index) ==> (r is None && *final(self) == *old(
                self)),
            old(self).spec_has(piece_index, block_index) ==> exists|k: int|
                {
                    &&& 0 <= k < old(self).requests@.len()
                    &&& old(self).requests@[k].spec_matches(piece_index, block_index)
                    &&& r == Some(old(self).requests@[k])
                    &&& final(self).requests@ == old(self).requests@.remove(k)
                },
    {
        match self.position(piece_index, block_index) {
            Some(k) => {
                let r = self.requests.remove(k);
                Some(r)
            },
            None => None,
        }
    }

    /// The number of outstanding requests.
    pub fn len(&self) -> (r: usize)
        ensures
            r == self.requests@.len(),
    {
        self.requests.len()
    }
}

} // verus!
