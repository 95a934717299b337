//! Wire codec: fixed big-endian 32-bit integers and the length-prefixed
//! peer-protocol frames of BitTorrent peer-protocol v1.

use vstd::prelude::*;

use crate::Error;

verus! {

/// The four bytes of `n` in big-endian order.
pub open spec fn u32_be_bytes(n: u32) -> Seq<u8> {
    seq![(n >> 24) as u8, (n >> 16) as u8, (n >> 8) as u8, n as u8]
}

/// The `u32` read from four big-endian bytes.
pub open spec fn be_u32_of(b: Seq<u8>) -> u32
    recommends
        b.len() == 4,
{
    (((b[0] as u32) << 24) | ((b[1] as u32) << 16) | ((b[2] as u32) << 8) | (b[3] as u32)) as u32
}

/// Decoding the big-endian bytes of any `u32` gives that `u32` back.
pub proof fn lemma_be_round_trip(n: u32)
    ensures
        be_u32_of(u32_be_bytes(n)) == n,
{
    assert((((((n >> 24) as u8) as u32) << 24) | ((((n >> 16) as u8) as u32) << 16) | ((((n >> 8)
        as u8) as u32) << 8) | ((n as u8) as u32)) as u32 == n) by (bit_vector);
}

/// Serializes `integer` as four big-endian bytes.
pub fn u32_to_bytes(integer: u32) -> (r: Vec<u8>)
    ensures
        r@ == u32_be_bytes(integer),
        r@.len() == 4,
{
    let mut v: Vec<u8> = Vec::new();
    v.push((integer >> 24) as u8);
    v.push((integer >> 16) as u8);
    v.push((integer >> 8) as u8);
    v.push(integer as u8);
    proof {
        assert(v@ =~= u32_be_bytes(integer));
    }
    v
}

/// Reads a `u32` from four big-endian bytes.
pub fn bytes_to_u32(bytes: &[u8]) -> (r: u32)
    requires
        bytes@.len() == 4,
    ensures
        r == be_u32_of(bytes@),
{
    ((bytes[0] as u32) << 24) | ((bytes[1] as u32) << 16) | ((bytes[2] as u32) << 8) | (bytes[3]
        as u32)
}

/// A peer wire message.  The tag byte of each variant is fixed by the
/// protocol; a zero-length frame stands for `KeepAlive`.
#[derive(Clone, Debug, PartialEq)]
pub enum Message {
    KeepAlive,
    Choke,
    Unchoke,
    Interested,
    NotInterested,
    Have(u32),
    Bitfield(Vec<u8>),
    Request(u32, u32, u32),
    Piece(u32, u32, Vec<u8>),
    Cancel(u32, u32, u32),
    Port,
}

/// The mathematical image of a `Message`: payload bytes as sequences.
pub enum MessageView {
    KeepAlive,
    Choke,
    Unchoke,
    Interested,
    NotInterested,
    Have(u32),
    Bitfield(Seq<u8>),
    Request(u32, u32, u32),
    Piece(u32, u32, Seq<u8>),
    Cancel(u32, u32, u32),
    Port,
}

impl View for Message {
    type V = MessageView;

    open spec fn view(&self) -> MessageView {
        match self {
            Message::KeepAlive => MessageView::KeepAlive,
            Message::Choke => MessageView::Choke,
            Message::Unchoke => MessageView::Unchoke,
            Message::Interested => MessageView::Interested,
            Message::NotInterested => MessageView::NotInterested,
            Message::Have(i) => MessageView::Have(*i),
            Message::Bitfield(b) => MessageView::Bitfield(b@),
            Message::Request(i, o, l) => MessageView::Request(*i, *o, *l),
            Message::Piece(i, o, d) => MessageView::Piece(*i, *o, d@),
            Message::Cancel(i, o, l) => MessageView::Cancel(*i, *o, *l),
            Message::Port => MessageView::Port,
        }
    }
}

/// The payload of a message: its tag byte followed by its body.
/// `KeepAlive` has no payload at all.
pub open spec fn spec_payload(m: MessageView) -> Seq<u8> {
    match m {
        MessageView::KeepAlive => Seq::empty(),
        MessageView::Choke => seq![0u8],
        MessageView::Unchoke => seq![1u8],
        MessageView::Interested => seq![2u8],
        MessageView::NotInterested => seq![3u8],
        MessageView::Have(i) => seq![4u8] + u32_be_bytes(i),
        MessageView::Bitfield(b) => seq![5u8] + b,
        MessageView::Request(i, o, l) => seq![6u8] + u32_be_bytes(i) + u32_be_bytes(o)
            + u32_be_bytes(l),
        MessageView::Piece(i, o, d) => seq![7u8] + u32_be_bytes(i) + u32_be_bytes(o) + d,
        MessageView::Cancel(i, o, l) => seq![8u8] + u32_be_bytes(i) + u32_be_bytes(o)
            + u32_be_bytes(l),
        MessageView::Port => seq![9u8],
    }
}

/// A message is serializable when its payload length fits the 4-byte
/// big-endian length prefix (with room for the fixed header bytes).
pub open spec fn msg_wf(m: MessageView) -> bool {
    match m {
        MessageView::Bitfield(b) => b.len() + 13 <= u32::MAX,
        MessageView::Piece(_, _, d) => d.len() + 13 <= u32::MAX,
        _ => true,
    }
}

/// A full frame: the payload length as four big-endian bytes, then the
/// payload itself.
pub open spec fn spec_frame(m: MessageView) -> Seq<u8> {
    u32_be_bytes(spec_payload(m).len() as u32) + spec_payload(m)
}

/// Parsing one frame body, given its tag byte and the bytes after the tag.
/// Any tag outside the protocol is a protocol error, as is a body whose
/// length does not fit its tag.
pub open spec fn spec_parse_body(tag: u8, body: Seq<u8>) -> Result<MessageView, Error> {
    if tag == 0 {
        if body.len() == 0 {
            Ok(MessageView::Choke)
        } else {
            Err(Error::Protocol)
        }
    } else if tag == 1 {
        if body.len() == 0 {
            Ok(MessageView::Unchoke)
        } else {
            Err(Error::Protocol)
        }
    } else if tag == 2 {
        if body.len() == 0 {
            Ok(MessageView::Interested)
        } else {
            Err(Error::Protocol)
        }
    } else if tag == 3 {
        if body.len() == 0 {
            Ok(MessageView::NotInterested)
        } else {
            Err(Error::Protocol)
        }
    } else if tag == 4 {
        if body.len() == 4 {
            Ok(MessageView::Have(be_u32_of(body)))
        } else {
            Err(Error::Protocol)
        }
    } else if tag == 5 {
        Ok(MessageView::Bitfield(body))
    } else if tag == 6 {
        if body.len() == 12 {
            Ok(MessageView::Request(be_u32_of(body.subrange(0, 4)), be_u32_of(body.subrange(4, 8)),
                be_u32_of(body.subrange(8, 12))))
        } else {
            Err(Error::Protocol)
        }
    } else if tag == 7 {
        if body.len() >= 8 {
            Ok(MessageView::Piece(be_u32_of(body.subrange(0, 4)), be_u32_of(body.subrange(4, 8)),
                body.skip(8)))
        } else {
            Err(Error::Protocol)
        }
    } else if tag == 8 {
        if body.len() == 12 {
            Ok(MessageView::Cancel(be_u32_of(body.subrange(0, 4)), be_u32_of(body.subrange(4, 8)),
                be_u32_of(body.subrange(8, 12))))
        } else {
            Err(Error::Protocol)
        }
    } else if tag == 9 {
        Ok(MessageView::Port)
    } else {
        Err(Error::Protocol)
    }
}

/// Decoding a whole frame: four length bytes, then exactly that many payload
/// bytes.  A zero-length payload is `KeepAlive`.
pub open spec fn spec_decode(frame: Seq<u8>) -> Result<MessageView, Error> {
    if frame.len() < 4 {
        Err(Error::Protocol)
    } else {
        let n = be_u32_of(frame.subrange(0, 4));
        if frame.len() == n + 4 {
            if n == 0 {
                Ok(MessageView::KeepAlive)
            } else {
                spec_parse_body(frame[4], frame.skip(5))
            }
        } else {
            Err(Error::Protocol)
        }
    }
}

/// The view of a parse result, for relating executable results to
/// `spec_parse_body` and `spec_decode`.
pub open spec fn msg_res_view(r: Result<Message, Error>) -> Result<MessageView, Error> {
    match r {
        Ok(m) => Ok(m@),
        Err(e) => Err(e),
    }
}

impl Message {
    /// Serializes the message as a full frame: 4-byte big-endian payload
    /// length, then the payload.
    pub fn serialize(self) -> (r: Vec<u8>)
        requires
            msg_wf(self@),
        ensures
            r@ == spec_frame(self@),
    {
        let ghost me = self@;
        let mut payload: Vec<u8> = Vec::new();
        match self {
            Message::KeepAlive => {},
            Message::Choke => payload.push(0),
            Message::Unchoke => payload.push(1),
            Message::Interested => payload.push(2),
            Message::NotInterested => payload.push(3),
            Message::Have(index) => {
                payload.push(4);
                let mut b = u32_to_bytes(index);
                payload.append(&mut b);
            },
            Message::Bitfield(mut bytes) => {
                payload.push(5);
                payload.append(&mut bytes);
            },
            Message::Request(index, offset, length) => {
                payload.push(6);
                let mut b = u32_to_bytes(index);
                payload.append(&mut b);
                let mut b = u32_to_bytes(offset);
                payload.append(&mut b);
                let mut b = u32_to_bytes(length);
                payload.append(&mut b);
            },
            Message::Piece(index, offset, mut data) => {
                payload.push(7);
                let mut b = u32_to_bytes(index);
                payload.append(&mut b);
                let mut b = u32_to_bytes(offset);
                payload.append(&mut b);
                payload.append(&mut data);
            },
            Message::Cancel(index, offset, length) => {
                payload.push(8);
                let mut b = u32_to_bytes(index);
                payload.append(&mut b);
                let mut b = u32_to_bytes(offset);
                payload.append(&mut b);
                let mut b = u32_to_bytes(length);
                payload.append(&mut b);
            },
            Message::Port => payload.push(9),
        };
        proof {
            assert(payload@ =~= spec_payload(me));
        }
        let mut frame = u32_to_bytes(payload.len() as u32);
        frame.append(&mut payload);
        proof {
            assert(frame@ =~= spec_frame(me));
        }
        frame
    }

    /// Parses one frame body from its tag byte and the bytes that follow it,
    /// rejecting unknown tags and ill-sized bodies as protocol errors.
    pub fn new(id: &u8, body: &[u8]) -> (r: Result<Message, Error>)
        ensures
            msg_res_view(r) == spec_parse_body(*id, body@),
    {
        let n = body.len();
        match *id {
            0 => if n == 0 {
                Ok(Message::Choke)
            } else {
                Err(Error::Protocol)
            },
            1 => if n == 0 {
                Ok(Message::Unchoke)
            } else {
                Err(Error::Protocol)
            },
            2 => if n == 0 {
                Ok(Message::Interested)
            } else {
                Err(Error::Protocol)
            },
            3 => if n == 0 {
                Ok(Message::NotInterested)
            } else {
                Err(Error::Protocol)
            },
            4 => if n == 4 {
                Ok(Message::Have(bytes_to_u32(body)))
            } else {
                Err(Error::Protocol)
            },
            5 => Ok(Message::Bitfield(vstd::slice::slice_to_vec(body))),
            6 => if n == 12 {
                let index = bytes_to_u32(&body[0..4]);
                let offset = bytes_to_u32(&body[4..8]);
                let length = bytes_to_u32(&body[8..12]);
                Ok(Message::Request(index, offset, length))
            } else {
                Err(Error::Protocol)
            },
            7 => if n >= 8 {
                let index = bytes_to_u32(&body[0..4]);
                let offset = bytes_to_u32(&body[4..8]);
                let data = vstd::slice::slice_to_vec(&body[8..n]);
                proof {
                    assert(data@ =~= body@.skip(8));
                }
                Ok(Message::Piece(index, offset, data))
            } else {
                Err(Error::Protocol)
            },
            8 => if n == 12 {
                let index = bytes_to_u32(&body[0..4]);
                let offset = bytes_to_u32(&body[4..8]);
                let length = bytes_to_u32(&body[8..12]);
                Ok(Message::Cancel(index, offset, length))
            } else {
                Err(Error::Protocol)
            },
            9 => Ok(Message::Port),
            _ => Err(Error::Protocol),
        }
    }
}

/// Decodes a whole frame, length prefix included.
pub fn decode(frame: &[u8]) -> (r: Result<Message, Error>)
    ensures
        msg_res_view(r) == spec_decode(frame@),
{
    if frame.len() < 4 {
        return Err(Error::Protocol);
    }
    let n = bytes_to_u32(&frame[0..4]);
    if n as u64 != (frame.len() - 4) as u64 {
        return Err(Error::Protocol);
    }
    if n == 0 {
        return Ok(Message::KeepAlive);
    }
    let tag = frame[4];
    let r = Message::new(&tag, &frame[5..frame.len()]);
    proof {
        assert(frame@.subrange(5, frame@.len() as int) =~= frame@.skip(5));
    }
    r
}

/// For every well-formed message, decoding its encoding gives the message
/// back: `decode(encode(m)) == m`.
pub proof fn lemma_wire_round_trip(m: MessageView)
    requires
        msg_wf(m),
    ensures
        spec_decode(spec_frame(m)) == Ok::<MessageView, Error>(m),
{
    let p = spec_payload(m);
    let f = spec_frame(m);
    assert(p.len() <= u32::MAX);
    lemma_be_round_trip(p.len() as u32);
    assert(f.subrange(0, 4) =~= u32_be_bytes(p.len() as u32));
    assert(f.len() == p.len() + 4);
    if p.len() == 0 {
        assert(m is KeepAlive);
    } else {
        assert(f[4] == p[0]);
        let body = f.skip(5);
        assert(body =~= p.skip(1));
        match m {
            MessageView::KeepAlive => {},
            MessageView::Choke => {
                assert(body.len() == 0);
            },
            MessageView::Unchoke => {},
            MessageView::Interested => {},
            MessageView::NotInterested => {},
            MessageView::Have(i) => {
                assert(body =~= u32_be_bytes(i));
                lemma_be_round_trip(i);
            },
            MessageView::Bitfield(b) => {
                assert(body =~= b);
            },
            MessageView::Request(i, o, l) => {
                assert(body.subrange(0, 4) =~= u32_be_bytes(i));
                assert(body.subrange(4, 8) =~= u32_be_bytes(o));
                assert(body.subrange(8, 12) =~= u32_be_bytes(l));
                lemma_be_round_trip(i);
                lemma_be_round_trip(o);
                lemma_be_round_trip(l);
            },
            MessageView::Piece(i, o, d) => {
                assert(body.subrange(0, 4) =~= u32_be_bytes(i));
                assert(body.subrange(4, 8) =~= u32_be_bytes(o));
                assert(body.skip(8) =~= d);
                lemma_be_round_trip(i);
                lemma_be_round_trip(o);
            },
            MessageView::Cancel(i, o, l) => {
                assert(body.subrange(0, 4) =~= u32_be_bytes(i));
                assert(body.subrange(4, 8) =~= u32_be_bytes(o));
                assert(body.subrange(8, 12) =~= u32_be_bytes(l));
                lemma_be_round_trip(i);
                lemma_be_round_trip(o);
                lemma_be_round_trip(l);
            },
            MessageView::Port => {},
        }
    }
}

/// Whether `flags` advertises piece `i` (false beyond the end of `flags`).
pub open spec fn bit_set(flags: Seq<bool>, i: int) -> bool {
    0 <= i < flags.len() && flags[i]
}

/// The MSB-first mask of bit position `j` within a byte: piece `8*b + j`
/// lives in bit `7 - j` of byte `b`.
pub open spec fn spec_bit_mask(j: int) -> u8 {
    if j == 0 {
        128u8
    } else if j == 1 {
        64u8
    } else if j == 2 {
        32u8
    } else if j == 3 {
        16u8
    } else if j == 4 {
        8u8
    } else if j == 5 {
        4u8
    } else if j == 6 {
        2u8
    } else {
        1u8
    }
}

/// Byte `b` of the MSB-first encoding of `flags`; pad bits are zero.
pub open spec fn spec_bitfield_byte(flags: Seq<bool>, b: int) -> u8 {
    ((if bit_set(flags, 8 * b + 0) {
        128int
    } else {
        0int
    }) + (if bit_set(flags, 8 * b + 1) {
        64int
    } else {
        0int
    }) + (if bit_set(flags, 8 * b + 2) {
        32int
    } else {
        0int
    }) + (if bit_set(flags, 8 * b + 3) {
        16int
    } else {
        0int
    }) + (if bit_set(flags, 8 * b + 4) {
        8int
    } else {
        0int
    }) + (if bit_set(flags, 8 * b + 5) {
        4int
    } else {
        0int
    }) + (if bit_set(flags, 8 * b + 6) {
        2int
    } else {
        0int
    }) + (if bit_set(flags, 8 * b + 7) {
        1int
    } else {
        0int
    })) as u8
}

/// The MSB-first packed encoding of a bit vector, `ceil(len / 8)` bytes.
pub open spec fn spec_encode_bitfield(flags: Seq<bool>) -> Seq<u8> {
    Seq::new(((flags.len() + 7) / 8) as nat, |b: int| spec_bitfield_byte(flags, b))
}

/// Bit `i` of the packed bitmap `bytes`, MSB-first within each byte.
pub open spec fn spec_bitfield_bit(bytes: Seq<u8>, i: int) -> bool {
    bytes[i / 8] & spec_bit_mask(i % 8) != 0
}

/// The first `n` bits of the packed bitmap `bytes`, pad bits ignored.
pub open spec fn spec_decode_bitfield(bytes: Seq<u8>, n: nat) -> Seq<bool> {
    Seq::new(n, |i: int| spec_bitfield_bit(bytes, i))
}

fn bit_mask(j: usize) -> (r: u8)
    requires
        j < 8,
    ensures
        r == spec_bit_mask(j as int),
{
    if j == 0 {
        128
    } else if j == 1 {
        64
    } else if j == 2 {
        32
    } else if j == 3 {
        16
    } else if j == 4 {
        8
    } else if j == 5 {
        4
    } else if j == 6 {
        2
    } else {
        1
    }
}

/// Packs per-piece flags into an MSB-first bitmap of `ceil(len / 8)` bytes,
/// with zero pad bits.
pub fn encode_bitfield(flags: &Vec<bool>) -> (r: Vec<u8>)
    requires
        flags@.len() + 7 <= usize::MAX,
    ensures
        r@ == spec_encode_bitfield(flags@),
{
    let n = flags.len();
    let nbytes = (n + 7) / 8;
    let mut out: Vec<u8> = Vec::new();
    let mut b: usize = 0;
    while b < nbytes
        invariant
            b <= nbytes,
            n == flags@.len(),
            n + 7 <= usize::MAX,
            nbytes == (n + 7) / 8,
            out@.len() == b,
            forall|k: int| 0 <= k < b ==> out@[k] == spec_bitfield_byte(flags@, k),
        decreases nbytes - b,
    {
        let mut byte: u8 = 0;
        if 8 * b < n && flags[8 * b] {
            byte += 128;
        }
        if 8 * b + 1 < n && flags[8 * b + 1] {
            byte += 64;
        }
        if 8 * b + 2 < n && flags[8 * b + 2] {
            byte += 32;
        }
        if 8 * b + 3 < n && flags[8 * b + 3] {
            byte += 16;
        }
        if 8 * b + 4 < n && flags[8 * b + 4] {
            byte += 8;
        }
        if 8 * b + 5 < n && flags[8 * b + 5] {
            byte += 4;
        }
        if 8 * b + 6 < n && flags[8 * b + 6] {
            byte += 2;
        }
        if 8 * b + 7 < n && flags[8 * b + 7] {
            byte += 1;
        }
        assert(byte == spec_bitfield_byte(flags@, b as int));
        out.push(byte);
        b += 1;
    }
    proof {
        assert(out@ =~= spec_encode_bitfield(flags@));
    }
    out
}

/// Unpacks an MSB-first bitmap into `num_pieces` flags.  The bitmap must be
/// exactly `ceil(num_pieces / 8)` bytes, else it is a protocol error.
pub fn decode_bitfield(bytes: &[u8], num_pieces: usize) -> (r: Result<Vec<bool>, Error>)
    requires
        num_pieces + 7 <= usize::MAX,
    ensures
        bytes@.len() == (num_pieces + 7) / 8 ==> (r matches Ok(v) && v@ == spec_decode_bitfield(
            bytes@, num_pieces as nat)),
        bytes@.len() != (num_pieces + 7) / 8 ==> r == Err::<Vec<bool>, Error>(Error::Protocol),
{
    let nbytes = (num_pieces + 7) / 8;
    if bytes.len() != nbytes {
        return Err(Error::Protocol);
    }
    let mut out: Vec<bool> = Vec::new();
    let mut i: usize = 0;
    while i < num_pieces
        invariant
            i <= num_pieces,
            num_pieces + 7 <= usize::MAX,
            bytes@.len() == (num_pieces + 7) / 8,
            out@.len() == i,
            forall|k: int| 0 <= k < i ==> out@[k] == spec_bitfield_bit(bytes@, k),
        decreases num_pieces - i,
    {
        let byte = bytes[i / 8];
        let value = byte & bit_mask(i % 8) != 0;
        out.push(value);
        i += 1;
    }
    proof {
        assert(out@ =~= spec_decode_bitfield(bytes@, num_pieces as nat));
    }
    Ok(out)
}

proof fn lemma_bits_of_byte(b0: u8, b1: u8, b2: u8, b3: u8, b4: u8, b5: u8, b6: u8, b7: u8)
    by (bit_vector)
    requires
        b0 <= 1,
        b1 <= 1,
        b2 <= 1,
        b3 <= 1,
        b4 <= 1,
        b5 <= 1,
        b6 <= 1,
        b7 <= 1,
    ensures
        ((b0 * 128 + b1 * 64 + b2 * 32 + b3 * 16 + b4 * 8 + b5 * 4 + b6 * 2 + b7) as u8 & 128u8
            != 0) == (b0 == 1),
        ((b0 * 128 + b1 * 64 + b2 * 32 + b3 * 16 + b4 * 8 + b5 * 4 + b6 * 2 + b7) as u8 & 64u8
            != 0) == (b1 == 1),
        ((b0 * 128 + b1 * 64 + b2 * 32 + b3 * 16 + b4 * 8 + b5 * 4 + b6 * 2 + b7) as u8 & 32u8
            != 0) == (b2 == 1),
        ((b0 * 128 + b1 * 64 + b2 * 32 + b3 * 16 + b4 * 8 + b5 * 4 + b6 * 2 + b7) as u8 & 16u8
            != 0) == (b3 == 1),
        ((b0 * 128 + b1 * 64 + b2 * 32 + b3 * 16 + b4 * 8 + b5 * 4 + b6 * 2 + b7) as u8 & 8u8
            != 0) == (b4 == 1),
        ((b0 * 128 + b1 * 64 + b2 * 32 + b3 * 16 + b4 * 8 + b5 * 4 + b6 * 2 + b7) as u8 & 4u8
            != 0) == (b5 == 1),
        ((b0 * 128 + b1 * 64 + b2 * 32 + b3 * 16 + b4 * 8 + b5 * 4 + b6 * 2 + b7) as u8 & 2u8
            != 0) == (b6 == 1),
        ((b0 * 128 + b1 * 64 + b2 * 32 + b3 * 16 + b4 * 8 + b5 * 4 + b6 * 2 + b7) as u8 & 1u8
            != 0) == (b7 == 1),
{
}

/// Reading bit `i` of the encoded bitmap gives flag `i` back; every pad bit
/// beyond the flags reads as zero.
pub proof fn lemma_bitfield_bit_of_encoding(flags: Seq<bool>, i: int)
    requires
        0 <= i < 8 * spec_encode_bitfield(flags).len(),
    ensures
        spec_bitfield_bit(spec_encode_bitfield(flags), i) == bit_set(flags, i),
{
    let enc = spec_encode_bitfield(flags);
    let b = i / 8;
    let j = i % 8;
    assert(i == 8 * b + j && 0 <= j < 8 && 0 <= b < enc.len()) by (nonlinear_arith)
        requires
            0 <= i < 8 * enc.len(),
            b == i / 8,
            j == i % 8,
    ;
    let b0: u8 = if bit_set(flags, 8 * b + 0) {
        1
    } else {
        0
    };
    let b1: u8 = if bit_set(flags, 8 * b + 1) {
        1
    } else {
        0
    };
    let b2: u8 = if bit_set(flags, 8 * b + 2) {
        1
    } else {
        0
    };
    let b3: u8 = if bit_set(flags, 8 * b + 3) {
        1
    } else {
        0
    };
    let b4: u8 = if bit_set(flags, 8 * b + 4) {
        1
    } else {
        0
    };
    let b5: u8 = if bit_set(flags, 8 * b + 5) {
        1
    } else {
        0
    };
    let b6: u8 = if bit_set(flags, 8 * b + 6) {
        1
    } else {
        0
    };
    let b7: u8 = if bit_set(flags, 8 * b + 7) {
        1
    } else {
        0
    };
    lemma_bits_of_byte(b0, b1, b2, b3, b4, b5, b6, b7);
    assert(enc[b] == spec_bitfield_byte(flags, b));
    assert(spec_bitfield_byte(flags, b) == (b0 * 128 + b1 * 64 + b2 * 32 + b3 * 16 + b4 * 8 + b5
        * 4 + b6 * 2 + b7) as u8);
}

/// Decoding the MSB-first encoding of any bit vector gives the vector back
/// (the pad bits do not reach the decoder's output).
pub proof fn lemma_bitfield_round_trip(flags: Seq<bool>)
    ensures
        spec_decode_bitfield(spec_encode_bitfield(flags), flags.len()) == flags,
{
    let enc = spec_encode_bitfield(flags);
    assert(8 * ((flags.len() + 7) / 8) >= flags.len()) by (nonlinear_arith);
    assert forall|i: int| 0 <= i < flags.len() implies spec_bitfield_bit(enc, i) == flags[i] by {
        lemma_bitfield_bit_of_encoding(flags, i);
    }
    assert(spec_decode_bitfield(enc, flags.len()) =~= flags);
}

/// The 20 fixed leading bytes of a handshake: the length byte 19, then the
/// ASCII bytes of "BitTorrent protocol".
pub open spec fn spec_protocol_header() -> Seq<u8> {
    seq![
        19u8,
        66u8,
        105u8,
        116u8,
        84u8,
        111u8,
        114u8,
        114u8,
        101u8,
        110u8,
        116u8,
        32u8,
        112u8,
        114u8,
        111u8,
        116u8,
        111u8,
        99u8,
        111u8,
        108u8,
    ]
}

/// The 68-byte handshake frame: protocol header, 8 reserved zero bytes, the
/// 20-byte info hash, the 20-byte peer id.
pub open spec fn spec_handshake(info_hash: Seq<u8>, peer_id: Seq<u8>) -> Seq<u8> {
    spec_protocol_header() + Seq::new(8, |i: int| 0u8) + info_hash + peer_id
}

/// Appends all of `data` to `out`.
pub fn push_all(out: &mut Vec<u8>, data: &Vec<u8>)
    ensures
        final(out)@ == old(out)@ + data@,
{
    let mut k: usize = 0;
    while k < data.len()
        invariant
            k <= data@.len(),
            out@.len() == old(out)@.len() + k,
            out@ == old(out)@ + data@.subrange(0, k as int),
        decreases data@.len() - k,
    {
        out.push(data[k]);
        proof {
            assert(out@ =~= old(out)@ + data@.subrange(0, k + 1));
        }
        k += 1;
    }
    proof {
        assert(data@.subrange(0, data@.len() as int) =~= data@);
    }
}

/// Builds the 68-byte handshake frame for the given info hash and peer id.
pub fn build_handshake(info_hash: &Vec<u8>, peer_id: &Vec<u8>) -> (r: Vec<u8>)
    requires
        info_hash@.len() == 20,
        peer_id@.len() == 20,
    ensures
        r@ == spec_handshake(info_hash@, peer_id@),
        r@.len() == 68,
{
    let mut r: Vec<u8> = Vec::new();
    r.push(19);
    r.push(66);
    r.push(105);
    r.push(116);
    r.push(84);
    r.push(111);
    r.push(114);
    r.push(114);
    r.push(101);
    r.push(110);
    r.push(116);
    r.push(32);
    r.push(112);
    r.push(114);
    r.push(111);
    r.push(116);
    r.push(111);
    r.push(99);
    r.push(111);
    r.push(108);
    proof {
        assert(r@ =~= spec_protocol_header());
    }
    r.push(0);
    r.push(0);
    r.push(0);
    r.push(0);
    r.push(0);
    r.push(0);
    r.push(0);
    r.push(0);
    proof {
        assert(r@ =~= spec_protocol_header() + Seq::new(8, |i: int| 0u8));
    }
    push_all(&mut r, info_hash);
    push_all(&mut r, peer_id);
    proof {
        assert(r@ =~= spec_handshake(info_hash@, peer_id@));
    }
    r
}

/// Compares two byte vectors for equality of contents.
pub fn bytes_eq(a: &Vec<u8>, b: &Vec<u8>) -> (r: bool)
    ensures
        r == (a@ == b@),
{
    if a.len() != b.len() {
        return false;
    }
    let mut i: usize = 0;
    while i < a.len()
        invariant
            i <= a@.len(),
            a@.len() == b@.len(),
            forall|k: int| 0 <= k < i ==> a@[k] == b@[k],
        decreases a@.len() - i,
    {
        if a[i] != b[i] {
            return false;
        }
        i += 1;
    }
    proof {
        assert(a@ =~= b@);
    }
    true
}

/// Checks the fields read from a remote handshake against our own swarm and
/// identity: a foreign info hash is fatal, and a peer that presents our own
/// peer id is ourselves.
pub fn validate_handshake(info_hash: &Vec<u8>, peer_id: &Vec<u8>, expected_info_hash: &Vec<u8>,
    our_peer_id: &Vec<u8>) -> (r: Result<(), Error>)
    ensures
        r matches Ok(u) <==> (info_hash@ == expected_info_hash@ && peer_id@ != our_peer_id@),
        (r matches Err(e) && e == Error::InvalidInfoHash) <==> info_hash@ != expected_info_hash@,
        (r matches Err(e) && e == Error::ConnectingToSelf) <==> (info_hash@ == expected_info_hash@
            && peer_id@ == our_peer_id@),
{
    if !bytes_eq(info_hash, expected_info_hash) {
        Err(Error::InvalidInfoHash)
    } else if bytes_eq(peer_id, our_peer_id) {
        Err(Error::ConnectingToSelf)
    } else {
        Ok(())
    }
}

} // verus!
