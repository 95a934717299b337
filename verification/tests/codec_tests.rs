use rusty_torrent::codec::{
    build_handshake, bytes_to_u32, decode, decode_bitfield, encode_bitfield, u32_to_bytes,
    validate_handshake, Message,
};
use rusty_torrent::Error;

fn wire_round_trip(m: Message) -> Message {
    let frame = m.serialize();
    decode(&frame).expect("canonical frame must decode")
}

#[test]
fn be_bytes_of_known_value() {
    assert_eq!(u32_to_bytes(0xDEADBEEF), vec![0xDE, 0xAD, 0xBE, 0xEF]);
    assert_eq!(u32_to_bytes(0), vec![0, 0, 0, 0]);
    assert_eq!(u32_to_bytes(1), vec![0, 0, 0, 1]);
}

#[test]
fn be_round_trip_samples() {
    for n in [0u32, 1, 255, 256, 65535, 65536, 0x01020304, u32::MAX] {
        assert_eq!(bytes_to_u32(&u32_to_bytes(n)), n);
    }
}

#[test]
fn serialize_known_frames() {
    assert_eq!(Message::KeepAlive.serialize(), vec![0, 0, 0, 0]);
    assert_eq!(Message::Choke.serialize(), vec![0, 0, 0, 1, 0]);
    assert_eq!(Message::Unchoke.serialize(), vec![0, 0, 0, 1, 1]);
    assert_eq!(Message::Interested.serialize(), vec![0, 0, 0, 1, 2]);
    assert_eq!(Message::NotInterested.serialize(), vec![0, 0, 0, 1, 3]);
    assert_eq!(Message::Have(1).serialize(), vec![0, 0, 0, 5, 4, 0, 0, 0, 1]);
    assert_eq!(
        Message::Request(1, 16384, 16384).serialize(),
        vec![0, 0, 0, 13, 6, 0, 0, 0, 1, 0, 0, 64, 0, 0, 0, 64, 0]
    );
    // the Piece tag byte is 7
    assert_eq!(
        Message::Piece(1, 0, vec![0xAB, 0xCD]).serialize(),
        vec![0, 0, 0, 11, 7, 0, 0, 0, 1, 0, 0, 0, 0, 0xAB, 0xCD]
    );
    assert_eq!(
        Message::Cancel(0, 0, 16384).serialize(),
        vec![0, 0, 0, 13, 8, 0, 0, 0, 0, 0, 0, 0, 0, 0, 0, 64, 0]
    );
    assert_eq!(Message::Port.serialize(), vec![0, 0, 0, 1, 9]);
}

#[test]
fn wire_round_trip_every_variant() {
    let samples = vec![
        Message::KeepAlive,
        Message::Choke,
        Message::Unchoke,
        Message::Interested,
        Message::NotInterested,
        Message::Have(42),
        Message::Bitfield(vec![0b1010_0000, 0x01]),
        Message::Request(3, 16384, 16384),
        Message::Piece(3, 16384, vec![1, 2, 3, 4, 5]),
        Message::Cancel(3, 16384, 16384),
        Message::Port,
    ];
    for m in samples {
        assert_eq!(wire_round_trip(m.clone()), m);
    }
}

#[test]
fn keepalive_is_the_empty_frame() {
    assert_eq!(decode(&[0, 0, 0, 0]), Ok(Message::KeepAlive));
}

#[test]
fn port_bodies_are_accepted_and_ignored() {
    assert_eq!(Message::new(&9, &[0x1A, 0xE1]), Ok(Message::Port));
}

#[test]
fn bad_tag_is_a_protocol_error() {
    // a frame carrying tag byte 99
    let frame = vec![0, 0, 0, 1, 99];
    assert_eq!(decode(&frame), Err(Error::Protocol));
    assert_eq!(Message::new(&99, &[]), Err(Error::Protocol));
}

#[test]
fn short_bodies_are_protocol_errors() {
    assert_eq!(Message::new(&4, &[0, 0, 1]), Err(Error::Protocol));
    assert_eq!(Message::new(&6, &[0; 11]), Err(Error::Protocol));
    assert_eq!(Message::new(&7, &[0; 7]), Err(Error::Protocol));
    assert_eq!(Message::new(&8, &[0; 13]), Err(Error::Protocol));
    // a frame whose length prefix disagrees with its payload
    assert_eq!(decode(&[0, 0, 0, 2, 0]), Err(Error::Protocol));
    assert_eq!(decode(&[0, 0, 0]), Err(Error::Protocol));
}

#[test]
fn bitfield_msb_first_layout() {
    // pieces 0 and 2 of five: bits 7 and 5 of the single byte
    let flags = vec![true, false, true, false, false];
    let bytes = encode_bitfield(&flags);
    assert_eq!(bytes, vec![0b1010_0000]);
    // nine pieces take two bytes; piece 8 is the top bit of byte 1
    let mut nine = vec![false; 9];
    nine[8] = true;
    assert_eq!(encode_bitfield(&nine), vec![0x00, 0b1000_0000]);
}

#[test]
fn bitfield_round_trip_and_pad_bits() {
    let flags = vec![true, false, true, true, false, false, true, false, true, true, false];
    let bytes = encode_bitfield(&flags);
    assert_eq!(bytes.len(), (flags.len() + 7) / 8);
    // pad bits beyond the flag count are zero
    assert_eq!(bytes[1] & 0b0001_1111, 0);
    let decoded = decode_bitfield(&bytes, flags.len()).expect("sizes agree");
    assert_eq!(decoded, flags);
}

#[test]
fn bitfield_wrong_length_is_a_protocol_error() {
    assert_eq!(decode_bitfield(&[0x00], 9), Err(Error::Protocol));
    assert_eq!(decode_bitfield(&[0x00, 0x00], 8), Err(Error::Protocol));
}

#[test]
fn handshake_layout() {
    let info_hash = vec![0xAAu8; 20];
    let peer_id: Vec<u8> = b"-RC0001-abcdefghijkl"[..20].to_vec();
    let hs = build_handshake(&info_hash, &peer_id);
    assert_eq!(hs.len(), 68);
    assert_eq!(hs[0], 19);
    assert_eq!(&hs[1..20], b"BitTorrent protocol");
    assert_eq!(&hs[20..28], &[0u8; 8]);
    assert_eq!(&hs[28..48], &info_hash[..]);
    assert_eq!(&hs[48..68], &peer_id[..]);
}

#[test]
fn handshake_validation() {
    let ours = vec![0xAAu8; 20];
    let theirs = vec![0xBBu8; 20];
    let our_id: Vec<u8> = vec![1u8; 20];
    let their_id: Vec<u8> = vec![2u8; 20];
    assert_eq!(validate_handshake(&ours, &their_id, &ours, &our_id), Ok(()));
    assert_eq!(
        validate_handshake(&theirs, &their_id, &ours, &our_id),
        Err(Error::InvalidInfoHash)
    );
    // a peer that answers with our own peer id is ourselves
    assert_eq!(
        validate_handshake(&ours, &our_id, &ours, &our_id),
        Err(Error::ConnectingToSelf)
    );
}
