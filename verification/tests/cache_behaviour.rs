//! The byte-bounded LRU cache: budget holds across inserts, eviction
//! removes the least recently used entries and their backing files, and
//! the persisted snapshot restores.

use vpfs::types::{Location, VPFSNode, NodeId};
use vpfs::store::FileTable;
use vpfs::cache::{LruState, parse_snapshot};

fn loc(n: &[u8], u: &[u8]) -> Location {
    Location { node_name: n.to_vec(), uri: u.to_vec() }
}

fn body(n: usize) -> Vec<u8> {
    vec![7u8; n]
}

#[test]
fn insert_stays_within_budget() {
    let mut files = FileTable::new();
    let mut cache = LruState::new(64);
    let root: Option<VPFSNode> = None;
    cache.insert(&mut files, &loc(b"B", b"a"), body(30).as_slice(), &root);
    assert_eq!(cache.used, 30);
    cache.insert(&mut files, &loc(b"B", b"b"), body(30).as_slice(), &root);
    assert_eq!(cache.used, 60);
    assert_eq!(cache.count(), 2);
    assert!(cache.used <= cache.max);
}

#[test]
fn eviction_drops_least_recent_and_its_file() {
    let mut files = FileTable::new();
    let mut cache = LruState::new(64);
    let root: Option<VPFSNode> = None;
    cache.insert(&mut files, &loc(b"B", b"a"), body(30).as_slice(), &root);
    cache.insert(&mut files, &loc(b"B", b"b"), body(30).as_slice(), &root);
    // two files back the two entries
    assert_eq!(files.files.len(), 2);
    cache.insert(&mut files, &loc(b"B", b"c"), body(30).as_slice(), &root);
    // the oldest entry went, with its backing file
    assert_eq!(cache.count(), 2);
    assert!(cache.used <= 64);
    assert_eq!(cache.used, 60);
    assert_eq!(files.files.len(), 2);
    assert!(cache.lookup(&loc(b"B", b"a")).is_none());
    assert!(cache.lookup(&loc(b"B", b"b")).is_some());
    assert!(cache.lookup(&loc(b"B", b"c")).is_some());
}

#[test]
fn oversized_body_passes_through_and_leaves_cache_empty() {
    let mut files = FileTable::new();
    let mut cache = LruState::new(64);
    let root: Option<VPFSNode> = None;
    cache.insert(&mut files, &loc(b"B", b"big"), body(100).as_slice(), &root);
    assert_eq!(cache.count(), 0);
    assert!(files.files.is_empty());
}

#[test]
fn lookup_promotes_an_entry_past_eviction() {
    let mut files = FileTable::new();
    let mut cache = LruState::new(64);
    let root: Option<VPFSNode> = None;
    cache.insert(&mut files, &loc(b"B", b"a"), body(30).as_slice(), &root);
    cache.insert(&mut files, &loc(b"B", b"b"), body(30).as_slice(), &root);
    // touch `a` so `b` becomes least recently used
    assert!(cache.lookup(&loc(b"B", b"a")).is_some());
    cache.insert(&mut files, &loc(b"B", b"c"), body(30).as_slice(), &root);
    assert!(cache.lookup(&loc(b"B", b"a")).is_some());
    assert!(cache.lookup(&loc(b"B", b"b")).is_none());
    assert!(cache.lookup(&loc(b"B", b"c")).is_some());
}

#[test]
fn overwrite_keeps_one_entry_per_location() {
    let mut files = FileTable::new();
    let mut cache = LruState::new(1024);
    let root: Option<VPFSNode> = None;
    cache.insert(&mut files, &loc(b"B", b"a"), body(10).as_slice(), &root);
    cache.insert(&mut files, &loc(b"B", b"a"), body(20).as_slice(), &root);
    assert_eq!(cache.count(), 1);
    assert_eq!(files.files.len(), 1);
    // the backing file holds the newer body
    let uri = cache.lookup(&loc(b"B", b"a")).expect("entry").uri;
    assert_eq!(files.read(uri.as_slice()).expect("body").len(), 20);
}

#[test]
fn snapshot_parses_back_what_insert_persisted() {
    let mut files = FileTable::new();
    let mut cache = LruState::new(1024);
    let root = Some(VPFSNode { name: b"R".to_vec(), endpoint_id: NodeId { bytes: vec![1] } });
    cache.insert(&mut files, &loc(b"B", b"a"), body(3).as_slice(), &root);
    cache.insert(&mut files, &loc(b"B", b"b"), body(4).as_slice(), &root);
    let (got_root, used, pairs) = parse_snapshot(cache.snapshot.as_slice()).expect("parse");
    assert_eq!(got_root.expect("root").name, b"R".to_vec());
    assert_eq!(used, 7);
    assert_eq!(pairs.len(), 2);
    // most recently used first
    assert_eq!(pairs[0].0.uri, b"b".to_vec());
    assert_eq!(pairs[1].0.uri, b"a".to_vec());
}

#[test]
fn restore_rebuilds_entries_with_real_sizes() {
    let mut files = FileTable::new();
    let mut cache = LruState::new(1024);
    let root = Some(VPFSNode { name: b"R".to_vec(), endpoint_id: NodeId { bytes: vec![1] } });
    cache.insert(&mut files, &loc(b"B", b"a"), body(3).as_slice(), &root);
    cache.insert(&mut files, &loc(b"B", b"b"), body(4).as_slice(), &root);
    let snapshot = cache.snapshot.clone();
    let (mut restored, got_root) = LruState::restore(snapshot.as_slice(), &files, 1024);
    assert_eq!(got_root.expect("root").name, b"R".to_vec());
    assert_eq!(restored.count(), 2);
    assert_eq!(restored.used, 7);
    assert!(restored.lookup(&loc(b"B", b"a")).is_some());
    assert!(restored.lookup(&loc(b"B", b"b")).is_some());
}

#[test]
fn malformed_snapshot_restores_empty() {
    let files = FileTable::new();
    let garbage = vec![9u8, 9u8, 9u8];
    let (restored, root) = LruState::restore(garbage.as_slice(), &files, 64);
    assert!(root.is_none());
    assert_eq!(restored.count(), 0);
    assert_eq!(restored.used, 0);
}

#[test]
fn restore_skips_entries_without_backing_files() {
    let mut files = FileTable::new();
    let mut cache = LruState::new(1024);
    let root: Option<VPFSNode> = None;
    cache.insert(&mut files, &loc(b"B", b"a"), body(3).as_slice(), &root);
    cache.insert(&mut files, &loc(b"B", b"b"), body(4).as_slice(), &root);
    let snapshot = cache.snapshot.clone();
    // the backing file of `a` disappears before the restart
    let uri_a = cache.lookup(&loc(b"B", b"a")).expect("entry a").uri;
    assert!(files.remove(uri_a.as_slice()));
    let (mut restored, _) = LruState::restore(snapshot.as_slice(), &files, 1024);
    assert_eq!(restored.count(), 1);
    assert_eq!(restored.used, 4);
    assert!(restored.lookup(&loc(b"B", b"a")).is_none());
    assert!(restored.lookup(&loc(b"B", b"b")).is_some());
}

#[test]
fn snapshot_with_trailing_garbage_restores_empty() {
    let mut files = FileTable::new();
    let mut cache = LruState::new(1024);
    let root: Option<VPFSNode> = None;
    cache.insert(&mut files, &loc(b"B", b"a"), body(3).as_slice(), &root);
    let mut snapshot = cache.snapshot.clone();
    // a valid header and one valid pair followed by one stray byte
    snapshot.push(7u8);
    let (restored, got_root) = LruState::restore(snapshot.as_slice(), &files, 1024);
    assert!(got_root.is_none());
    assert_eq!(restored.count(), 0);
    assert_eq!(restored.used, 0);
}

#[test]
fn truncated_snapshot_restores_empty() {
    let mut files = FileTable::new();
    let mut cache = LruState::new(1024);
    let root: Option<VPFSNode> = None;
    cache.insert(&mut files, &loc(b"B", b"a"), body(3).as_slice(), &root);
    let mut snapshot = cache.snapshot.clone();
    snapshot.pop();
    let (restored, _) = LruState::restore(snapshot.as_slice(), &files, 1024);
    assert_eq!(restored.count(), 0);
    assert_eq!(restored.used, 0);
}
