use std::sync::mpsc::{channel, Receiver};

use rusty_torrent::download::{Download, BLOCK_SIZE};
use rusty_torrent::hash::calculate_sha1;
use rusty_torrent::ipc::IPC;
use rusty_torrent::metainfo::{Info, Metainfo};
use rusty_torrent::request_queue::{RequestMetadata, RequestQueue};
use rusty_torrent::Error;

fn payload(len: usize) -> Vec<u8> {
    (0..len).map(|i| (i % 251) as u8).collect()
}

fn make_metainfo(content: &[u8], piece_length: u32) -> Metainfo {
    let total = content.len() as u64;
    let num_pieces = ((total + piece_length as u64 - 1) / piece_length as u64) as u32;
    let mut pieces = Vec::new();
    for i in 0..num_pieces as usize {
        let start = i * piece_length as usize;
        let end = std::cmp::min(start + piece_length as usize, content.len());
        pieces.push(calculate_sha1(&content[start..end]));
    }
    Metainfo {
        announce: String::from("http://tracker.invalid/announce"),
        info: Info {
            piece_length,
            pieces,
            num_pieces,
            name: String::from("payload.bin"),
            length: total,
        },
        info_hash: vec![7u8; 20],
        created_by: String::new(),
    }
}

fn drain(rx: &Receiver<IPC>) -> Vec<IPC> {
    let mut out = Vec::new();
    while let Ok(e) = rx.try_recv() {
        out.push(e);
    }
    out
}

#[test]
fn sha1_of_known_input() {
    let digest = calculate_sha1(b"abc");
    assert_eq!(
        digest,
        vec![
            0xa9, 0x99, 0x3e, 0x36, 0x47, 0x06, 0x81, 0x6a, 0xba, 0x3e, 0x25, 0x71, 0x78, 0x50,
            0xc2, 0x6c, 0x9c, 0xd0, 0xd8, 0x9d
        ]
    );
}

#[test]
fn file_length_invariant_after_new() {
    let content = payload(40000);
    let metainfo = make_metainfo(&content, 32768);
    let d = Download::new(vec![b'A'; 20], metainfo, Vec::new()).unwrap();
    assert_eq!(d.file.len(), 40000);
    assert!(d.have_pieces().iter().all(|&c| !c));
    // an oversized image is trimmed to exactly the torrent's length
    let metainfo = make_metainfo(&content, 32768);
    let mut long = content.clone();
    long.extend_from_slice(&[0u8; 123]);
    let d = Download::new(vec![b'A'; 20], metainfo, long).unwrap();
    assert_eq!(d.file.len(), 40000);
}

#[test]
fn restart_recovery_marks_pieces_complete() {
    let content = payload(40000);
    let metainfo = make_metainfo(&content, 32768);
    let d = Download::new(vec![b'A'; 20], metainfo, content.clone()).unwrap();
    assert_eq!(d.have_pieces(), vec![true, true]);
    assert_eq!(d.file, content);
}

#[test]
fn storing_all_blocks_completes_a_piece() {
    let content = payload(40000);
    let metainfo = make_metainfo(&content, 32768);
    let mut d = Download::new(vec![b'A'; 20], metainfo, Vec::new()).unwrap();
    let bs = BLOCK_SIZE as usize;
    d.store(0, 0, content[0..bs].to_vec()).unwrap();
    assert_eq!(d.have_pieces(), vec![false, false]);
    d.store(0, 1, content[bs..2 * bs].to_vec()).unwrap();
    assert_eq!(d.have_pieces(), vec![true, false]);
    d.store(1, 0, content[2 * bs..].to_vec()).unwrap();
    assert_eq!(d.have_pieces(), vec![true, true]);
    assert_eq!(d.file, content);

    let request =
        RequestMetadata { piece_index: 0, block_index: 1, offset: 16384, block_length: 16384 };
    let data = d.retrive_data(&request).unwrap();
    assert_eq!(data, &content[bs..2 * bs]);
}

#[test]
fn retrieve_fails_on_an_incomplete_piece() {
    let content = payload(40000);
    let metainfo = make_metainfo(&content, 32768);
    let mut d = Download::new(vec![b'A'; 20], metainfo, Vec::new()).unwrap();
    let request =
        RequestMetadata { piece_index: 0, block_index: 0, offset: 0, block_length: 16384 };
    assert_eq!(d.retrive_data(&request), Err(Error::MissingPieceData));
}

#[test]
fn duplicate_store_is_a_silent_drop() {
    let content = payload(40000);
    let metainfo = make_metainfo(&content, 32768);
    let mut d = Download::new(vec![b'A'; 20], metainfo, Vec::new()).unwrap();
    let bs = BLOCK_SIZE as usize;
    d.store(0, 0, content[0..bs].to_vec()).unwrap();
    // a second delivery of the same block carries different bytes: dropped
    d.store(0, 0, vec![0xFFu8; bs]).unwrap();
    d.store(0, 1, content[bs..2 * bs].to_vec()).unwrap();
    // the piece verified against the first delivery, so it completed
    assert_eq!(d.have_pieces(), vec![true, false]);
    // and a store on a complete piece is also dropped
    d.store(0, 0, vec![0xEEu8; bs]).unwrap();
    assert_eq!(&d.file[0..bs], &content[0..bs]);
}

#[test]
fn corrupt_piece_is_discarded_and_redownloaded() {
    let content = payload(40000);
    let metainfo = make_metainfo(&content, 32768);
    let mut d = Download::new(vec![b'A'; 20], metainfo, Vec::new()).unwrap();
    let (tx, rx) = channel::<IPC>();
    d.register_peer(tx);
    let bs = BLOCK_SIZE as usize;

    d.store(0, 0, content[0..bs].to_vec()).unwrap();
    let mut corrupt = content[bs..2 * bs].to_vec();
    corrupt[0] ^= 0xFF;
    d.store(0, 1, corrupt).unwrap();

    // the hash mismatched: the piece stays incomplete and no piece event is sent
    assert_eq!(d.have_pieces(), vec![false, false]);
    let events = drain(&rx);
    assert_eq!(events.len(), 2);
    assert!(events.iter().all(|e| matches!(e, IPC::BlockComplete(0, _))));

    // a subsequent correct delivery of both blocks completes the piece
    d.store(0, 0, content[0..bs].to_vec()).unwrap();
    d.store(0, 1, content[bs..2 * bs].to_vec()).unwrap();
    assert_eq!(d.have_pieces(), vec![true, false]);
    let events = drain(&rx);
    assert!(events.iter().any(|e| matches!(e, IPC::PieceComplete(0))));
    assert!(!events.iter().any(|e| matches!(e, IPC::DownloadComplete)));
}

#[test]
fn completion_events_reach_registered_mailboxes() {
    let content = payload(40000);
    let metainfo = make_metainfo(&content, 32768);
    let mut d = Download::new(vec![b'A'; 20], metainfo, Vec::new()).unwrap();
    let (tx, rx) = channel::<IPC>();
    d.register_peer(tx);
    let bs = BLOCK_SIZE as usize;
    d.store(0, 0, content[0..bs].to_vec()).unwrap();
    d.store(0, 1, content[bs..2 * bs].to_vec()).unwrap();
    d.store(1, 0, content[2 * bs..].to_vec()).unwrap();
    let events = drain(&rx);
    assert!(events.iter().any(|e| matches!(e, IPC::PieceComplete(0))));
    assert!(events.iter().any(|e| matches!(e, IPC::PieceComplete(1))));
    assert!(events.iter().any(|e| matches!(e, IPC::DownloadComplete)));
}

#[test]
fn dead_mailboxes_are_dropped_on_broadcast() {
    let content = payload(40000);
    let metainfo = make_metainfo(&content, 32768);
    let mut d = Download::new(vec![b'A'; 20], metainfo, Vec::new()).unwrap();
    let (tx, rx) = channel::<IPC>();
    d.register_peer(tx);
    assert_eq!(d.peer_channels.len(), 1);
    drop(rx);
    // the next broadcast notices the closed mailbox and removes it
    d.store(0, 0, payload(16384)).unwrap();
    assert_eq!(d.peer_channels.len(), 0);
}

#[test]
fn interest_follows_missing_pieces() {
    let content = payload(40000);
    let metainfo = make_metainfo(&content, 32768);
    let empty = Download::new(vec![b'A'; 20], metainfo, Vec::new()).unwrap();
    assert!(empty.is_interested(&[true, false]));
    assert!(empty.is_interested(&[false, true]));
    assert!(!empty.is_interested(&[false, false]));

    let metainfo = make_metainfo(&content, 32768);
    let full = Download::new(vec![b'A'; 20], metainfo, content.clone()).unwrap();
    assert!(!full.is_interested(&[true, true]));
}

#[test]
fn blocks_of_interest_exclude_present_and_queued() {
    let content = payload(40000);
    let metainfo = make_metainfo(&content, 32768);
    let mut d = Download::new(vec![b'A'; 20], metainfo, Vec::new()).unwrap();
    d.store(0, 0, content[0..16384].to_vec()).unwrap();
    let mut queue = RequestQueue::new();
    queue.add(1, 0, 0, 7232);
    let wanted = d.incomplete_blocks_of_interest(&[true, true], &queue);
    // block (0,0) is present and (1,0) queued; only (0,1) remains
    assert_eq!(wanted, vec![(0, 1, 16384)]);
    // a peer with nothing yields nothing
    let wanted = d.incomplete_blocks_of_interest(&[false, false], &RequestQueue::new());
    assert!(wanted.is_empty());
}
