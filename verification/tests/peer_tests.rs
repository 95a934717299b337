use std::collections::VecDeque;
use std::sync::mpsc::{channel, Receiver};

use rusty_torrent::codec::{decode, Message};
use rusty_torrent::download::Download;
use rusty_torrent::hash::calculate_sha1;
use rusty_torrent::ipc::IPC;
use rusty_torrent::metainfo::{Info, Metainfo};
use rusty_torrent::peer::PeerConnection;
use rusty_torrent::Error;

fn payload(len: usize) -> Vec<u8> {
    (0..len).map(|i| (i % 251) as u8).collect()
}

fn make_metainfo(content: &[u8], piece_length: u32) -> Metainfo {
    let total = content.len() as u64;
    let num_pieces = ((total + piece_length as u64 - 1) / piece_length as u64) as u32;
    let mut pieces = Vec::new();
    for i in 0..num_pieces as usize {
        let start = i * piece_length as usize;
        let end = std::cmp::min(start + piece_length as usize, content.len());
        pieces.push(calculate_sha1(&content[start..end]));
    }
    Metainfo {
        announce: String::from("http://tracker.invalid/announce"),
        info: Info {
            piece_length,
            pieces,
            num_pieces,
            name: String::from("payload.bin"),
            length: total,
        },
        info_hash: vec![7u8; 20],
        created_by: String::new(),
    }
}

/// Passes a message across the simulated wire: serialize, then decode.
fn wire(m: Message) -> Message {
    decode(&m.serialize()).expect("a canonical frame decodes")
}

fn all_true(n: usize) -> Vec<u8> {
    rusty_torrent::codec::encode_bitfield(&vec![true; n])
}

#[test]
fn initial_peer_flags() {
    let conn = PeerConnection::new(vec![false, false]);
    assert!(conn.me.is_choked);
    assert!(!conn.me.is_interested);
    assert!(conn.them.is_choked);
    assert!(!conn.them.is_interested);
    assert!(!conn.halt);
    assert_eq!(conn.requests_in_progress.len(), 0);
}

#[test]
fn request_pipeline_is_bounded_by_ten() {
    // one piece of twelve blocks: more candidates than the pipeline holds
    let content = payload(16384 * 12);
    let metainfo = make_metainfo(&content, 16384 * 16);
    let mut d = Download::new(vec![b'L'; 20], metainfo, Vec::new()).unwrap();
    let mut conn = PeerConnection::new(d.have_pieces());

    let replies = conn
        .process_message(&mut d, Message::Bitfield(all_true(1)))
        .unwrap();
    // interested, but still choked: no requests yet
    assert_eq!(replies, vec![Message::Interested]);
    assert_eq!(conn.requests_in_progress.len(), 0);

    let replies = conn.process_message(&mut d, Message::Unchoke).unwrap();
    assert_eq!(replies.len(), 10);
    assert!(replies.iter().all(|m| matches!(m, Message::Request(_, _, _))));
    assert_eq!(conn.requests_in_progress.len(), 10);

    // a served block frees one slot, which is refilled at once
    let first = content[0..16384].to_vec();
    let replies = conn
        .process_message(&mut d, Message::Piece(0, 0, first))
        .unwrap();
    assert!(conn.requests_in_progress.len() <= 10);
    assert!(replies.iter().all(|m| matches!(m, Message::Request(_, _, _))));
}

#[test]
fn choke_and_interest_flags_follow_messages() {
    let content = payload(40000);
    let metainfo = make_metainfo(&content, 32768);
    let mut d = Download::new(vec![b'L'; 20], metainfo, Vec::new()).unwrap();
    let mut conn = PeerConnection::new(d.have_pieces());

    conn.process_message(&mut d, Message::Unchoke).unwrap();
    assert!(!conn.me.is_choked);
    conn.process_message(&mut d, Message::Choke).unwrap();
    assert!(conn.me.is_choked);

    let replies = conn.process_message(&mut d, Message::Interested).unwrap();
    assert!(conn.them.is_interested);
    assert!(!conn.them.is_choked);
    assert_eq!(replies, vec![Message::Unchoke]);

    conn.process_message(&mut d, Message::NotInterested).unwrap();
    assert!(!conn.them.is_interested);
}

#[test]
fn have_message_out_of_range_is_fatal_but_local() {
    let content = payload(40000);
    let metainfo = make_metainfo(&content, 32768);
    let mut d = Download::new(vec![b'L'; 20], metainfo, Vec::new()).unwrap();
    let mut conn = PeerConnection::new(d.have_pieces());
    assert_eq!(
        conn.process_message(&mut d, Message::Have(99)),
        Err(Error::Protocol)
    );
    // the download is untouched and still serves other peers
    d.store(0, 0, content[0..16384].to_vec()).unwrap();
    d.store(0, 1, content[16384..32768].to_vec()).unwrap();
    assert_eq!(d.have_pieces(), vec![true, false]);
}

#[test]
fn request_is_served_only_unchoked_and_complete() {
    let content = payload(40000);
    let metainfo = make_metainfo(&content, 32768);
    let mut d = Download::new(vec![b'S'; 20], metainfo, content.clone()).unwrap();
    let mut conn = PeerConnection::new(d.have_pieces());

    // while we choke them, a request is dropped
    let replies = conn
        .process_message(&mut d, Message::Request(0, 0, 16384))
        .unwrap();
    assert!(replies.is_empty());

    conn.process_message(&mut d, Message::Interested).unwrap();
    let replies = conn
        .process_message(&mut d, Message::Request(0, 16384, 100))
        .unwrap();
    assert_eq!(replies.len(), 1);
    match &replies[0] {
        Message::Piece(0, 16384, data) => assert_eq!(&data[..], &content[16384..16484]),
        other => panic!("expected a Piece message, got {:?}", other),
    }

    // impossible coordinates are a protocol error
    assert_eq!(
        conn.process_message(&mut d, Message::Request(2, 0, 1)),
        Err(Error::Protocol)
    );
    assert_eq!(
        conn.process_message(&mut d, Message::Request(1, 7000, 1000)),
        Err(Error::Protocol)
    );
}

#[test]
fn block_cancel_after_another_peer_supplies_it() {
    // one incomplete piece of two blocks, served by two remote peers
    let content = payload(32768);
    let metainfo = make_metainfo(&content, 32768);
    let mut d = Download::new(vec![b'L'; 20], metainfo, Vec::new()).unwrap();
    let (tx_x, rx_x) = channel::<IPC>();
    let (tx_y, rx_y) = channel::<IPC>();
    d.register_peer(tx_x);
    d.register_peer(tx_y);
    let mut conn_x = PeerConnection::new(d.have_pieces());
    let mut conn_y = PeerConnection::new(d.have_pieces());

    // both advertise the piece and unchoke us: both pipelines request both blocks
    conn_x.process_message(&mut d, Message::Bitfield(all_true(1))).unwrap();
    conn_x.process_message(&mut d, Message::Unchoke).unwrap();
    conn_y.process_message(&mut d, Message::Bitfield(all_true(1))).unwrap();
    conn_y.process_message(&mut d, Message::Unchoke).unwrap();
    assert!(conn_x.requests_in_progress.has(0, 0));
    assert!(conn_y.requests_in_progress.has(0, 0));

    // peer X answers first
    conn_x
        .process_message(&mut d, Message::Piece(0, 0, content[0..16384].to_vec()))
        .unwrap();

    // the broadcast tells Y's task, which cancels its duplicate request
    let mut cancels = Vec::new();
    while let Ok(e) = rx_y.try_recv() {
        for m in conn_y.process(&mut d, e).unwrap() {
            if matches!(m, Message::Cancel(_, _, _)) {
                cancels.push(m);
            }
        }
    }
    assert_eq!(cancels, vec![Message::Cancel(0, 0, 16384)]);
    assert!(!conn_y.requests_in_progress.has(0, 0));
    // X's own queue no longer holds the block either, and no cancel went out
    while let Ok(e) = rx_x.try_recv() {
        for m in conn_x.process(&mut d, e).unwrap() {
            assert!(!matches!(m, Message::Cancel(_, _, _)));
        }
    }
    assert!(!conn_x.requests_in_progress.has(0, 0));
}

fn pump(
    conn: &mut PeerConnection,
    d: &mut Download,
    rx: &Receiver<IPC>,
    outbound: &mut VecDeque<Message>,
) -> bool {
    let mut progressed = false;
    while let Ok(e) = rx.try_recv() {
        progressed = true;
        for m in conn.process(d, e).expect("coordination events never fail") {
            outbound.push_back(m);
        }
    }
    progressed
}

#[test]
fn two_piece_loopback() {
    let content = payload(40000);
    let mut a = Download::new(vec![b'A'; 20], make_metainfo(&content, 32768), content.clone())
        .unwrap();
    let mut b =
        Download::new(vec![b'B'; 20], make_metainfo(&content, 32768), Vec::new()).unwrap();
    assert_eq!(a.have_pieces(), vec![true, true]);
    assert_eq!(b.have_pieces(), vec![false, false]);

    let (tx_a, rx_a) = channel::<IPC>();
    a.register_peer(tx_a);
    let (tx_b, rx_b) = channel::<IPC>();
    b.register_peer(tx_b);
    let mut conn_a = PeerConnection::new(a.have_pieces());
    let mut conn_b = PeerConnection::new(b.have_pieces());

    let mut to_a: VecDeque<Message> = VecDeque::new();
    let mut to_b: VecDeque<Message> = VecDeque::new();
    to_b.push_back(conn_a.bitfield_message());
    to_a.push_back(conn_b.bitfield_message());

    let mut b_haves = 0;
    let mut b_interested = 0;
    let mut b_not_interested = 0;

    loop {
        let mut progressed = false;
        if let Some(m) = to_a.pop_front() {
            progressed = true;
            for reply in conn_a.process(&mut a, IPC::Message(wire(m))).unwrap() {
                to_b.push_back(reply);
            }
        }
        if let Some(m) = to_b.pop_front() {
            progressed = true;
            for reply in conn_b.process(&mut b, IPC::Message(wire(m))).unwrap() {
                match reply {
                    Message::Have(_) => b_haves += 1,
                    Message::Interested => b_interested += 1,
                    Message::NotInterested => b_not_interested += 1,
                    _ => {},
                }
                to_a.push_back(reply);
            }
        }
        let mut coord_b: VecDeque<Message> = VecDeque::new();
        if pump(&mut conn_b, &mut b, &rx_b, &mut coord_b) {
            progressed = true;
            for reply in coord_b {
                match reply {
                    Message::Have(_) => b_haves += 1,
                    Message::Interested => b_interested += 1,
                    Message::NotInterested => b_not_interested += 1,
                    _ => {},
                }
                to_a.push_back(reply);
            }
        }
        let mut coord_a: VecDeque<Message> = VecDeque::new();
        if pump(&mut conn_a, &mut a, &rx_a, &mut coord_a) {
            progressed = true;
            for reply in coord_a {
                to_b.push_back(reply);
            }
        }
        if !progressed {
            break;
        }
    }

    // the leecher holds a byte-identical copy of exactly the right length
    assert_eq!(b.file.len(), 40000);
    assert_eq!(b.file, a.file);
    assert_eq!(b.have_pieces(), vec![true, true]);
    assert_eq!(a.have_pieces(), vec![true, true]);
    // one Have per completed piece, no more
    assert_eq!(b_haves, 2);
    // interest flipped on once and off once over the whole run
    assert_eq!(b_interested, 1);
    assert_eq!(b_not_interested, 1);
    // the download-complete event wound the leecher's connection down
    assert!(conn_b.halt);
}
