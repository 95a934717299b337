use rusty_torrent::request_queue::{RequestMetadata, RequestQueue};
use rusty_torrent::tracker::encode_query_params;

#[test]
fn metadata_matches_on_its_key() {
    let r = RequestMetadata { piece_index: 2, block_index: 3, offset: 49152, block_length: 16384 };
    assert!(r.matches(2, 3));
    assert!(!r.matches(2, 4));
    assert!(!r.matches(1, 3));
}

#[test]
fn add_is_idempotent_on_the_key() {
    let mut q = RequestQueue::new();
    assert_eq!(q.len(), 0);
    assert!(q.add(0, 0, 0, 16384));
    assert!(q.add(0, 1, 16384, 16384));
    // a second add of the same key changes nothing, payload regardless
    assert!(!q.add(0, 0, 999, 1));
    assert_eq!(q.len(), 2);
    assert!(q.has(0, 0));
    assert!(q.has(0, 1));
    assert!(!q.has(1, 0));
}

#[test]
fn remove_returns_the_entry() {
    let mut q = RequestQueue::new();
    q.add(5, 7, 114688, 4096);
    let removed = q.remove(5, 7).expect("entry was present");
    assert_eq!(removed.piece_index, 5);
    assert_eq!(removed.block_index, 7);
    assert_eq!(removed.offset, 114688);
    assert_eq!(removed.block_length, 4096);
    assert_eq!(q.len(), 0);
    assert!(q.remove(5, 7).is_none());
}

#[test]
fn query_params_are_joined_with_ampersands() {
    assert_eq!(encode_query_params(&[]), "");
    assert_eq!(encode_query_params(&[("left", "40000")]), "left=40000");
    assert_eq!(
        encode_query_params(&[("left", "40000"), ("event", "started"), ("port", "6881")]),
        "left=40000&event=started&port=6881"
    );
}
