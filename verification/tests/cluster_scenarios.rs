//! End-to-end scenarios on a two-node cluster model: root `R` and peer
//! `B`, empty working directories, byte budget 64 on `R` unless a
//! scenario says otherwise.

use vpfs::types::{NodeId, VPFSNode, Location, DirectoryEntry};
use vpfs::errors::VPFSError;
use vpfs::store::FileTable;
use vpfs::cache::LruState;
use vpfs::daemon::{DaemonState, OpenFiles};
use vpfs::wire::{Hello, HelloResponse, DaemonRequest, DaemonResponse};
use vpfs::cluster::Cluster;
use vpfs::client::VPFS;
use vpfs::codec::read_entry;

fn nid(b: u8) -> NodeId {
    NodeId { bytes: vec![b] }
}

fn vnode(name: &[u8], b: u8) -> VPFSNode {
    VPFSNode { name: name.to_vec(), endpoint_id: nid(b) }
}

fn fresh_daemon(local: VPFSNode, root: Option<VPFSNode>, cache_size: usize) -> DaemonState {
    DaemonState {
        local,
        root,
        known_hosts: Vec::new(),
        connections: Vec::new(),
        files: FileTable::new(),
        cache: LruState::new(cache_size),
        open_files: OpenFiles::new(),
    }
}

fn append_on(state: &mut DaemonState, dir_uri: &[u8], e: DirectoryEntry) {
    let req = DaemonRequest::AppendDirectoryEntry(dir_uri.to_vec(), e);
    match state.handle_daemon_request(&req, None) {
        (DaemonResponse::AppendDirectoryEntry(Ok(())), _) => {},
        _ => panic!("seed append failed"),
    }
}

/// Root `R` and peer `B`, after their startup handshake.
fn two_node_cluster(r_cache: usize) -> Cluster {
    let r_node = vnode(b"R", 1);
    let b_node = vnode(b"B", 2);
    let mut r = fresh_daemon(r_node.clone(), Some(r_node.clone()), r_cache);
    // the root creates its root directory with its self links
    assert!(r.files.create(b"root", b""));
    let root_loc = Location { node_name: b"R".to_vec(), uri: b"root".to_vec() };
    append_on(
        &mut r,
        b"root",
        DirectoryEntry { location: root_loc.clone(), name: b".".to_vec(), is_dir: true },
    );
    append_on(
        &mut r,
        b"root",
        DirectoryEntry { location: root_loc, name: b"..".to_vec(), is_dir: true },
    );
    // B contacts the root and learns the host directory
    let mut b = fresh_daemon(b_node.clone(), None, 65536);
    b.connections.push(b"R".to_vec());
    match r.handle_hello(&Hello::RootHello(b_node), &nid(2)) {
        HelloResponse::RootHello(root_node, hosts) => {
            b.known_hosts = hosts;
            b.known_hosts.push((b"R".to_vec(), nid(1)));
            b.root = Some(root_node);
        },
        _ => panic!("root hello failed"),
    }
    Cluster { nodes: vec![r, b], up: vec![true, true] }
}

#[test]
fn local_create_and_fetch() {
    let mut c = two_node_cluster(64);
    let client = VPFS::attach(b"R".to_vec());
    client.store(&mut c, 0, b"x", b"abc").expect("store");
    let entry = client.find(&mut c, 0, b"x").expect("find");
    assert_eq!(entry.location.node_name, b"R".to_vec());
    assert!(!entry.is_dir);
    let body = client.fetch(&mut c, 0, b"x").expect("fetch");
    assert_eq!(body, b"abc".to_vec());
}

#[test]
fn cross_node_create_and_fetch() {
    let mut c = two_node_cluster(64);
    let client = VPFS::attach(b"R".to_vec());
    let location = client.place(&mut c, 0, b"y", b"B").expect("place");
    assert_eq!(location.node_name, b"B".to_vec());
    client.write(&mut c, 0, &location, b"hello").expect("write");
    let entry = client.find(&mut c, 0, b"y").expect("find");
    assert_eq!(entry.location.node_name, b"B".to_vec());
    // a client of B reads the same bytes
    let client_b = VPFS::attach(b"B".to_vec());
    let body = client_b.fetch(&mut c, 1, b"y").expect("fetch from B");
    assert_eq!(body, b"hello".to_vec());
}

#[test]
fn mkdir_seeds_dot_and_dotdot() {
    let mut c = two_node_cluster(64);
    let client = VPFS::attach(b"R".to_vec());
    let d_loc = client.mkdir(&mut c, 0, b"d", b"R").expect("mkdir");
    let blob = client.read(&mut c, 0, &d_loc).expect("read d blob");
    let (dot, p1) = read_entry(blob.as_slice(), 0).expect("first record");
    assert_eq!(dot.name, b".".to_vec());
    assert!(dot.is_dir);
    assert_eq!(dot.location.node_name, d_loc.node_name);
    assert_eq!(dot.location.uri, d_loc.uri);
    let (dotdot, p2) = read_entry(blob.as_slice(), p1).expect("second record");
    assert_eq!(dotdot.name, b"..".to_vec());
    assert!(dotdot.is_dir);
    assert_eq!(dotdot.location.node_name, b"R".to_vec());
    assert_eq!(dotdot.location.uri, b"root".to_vec());
    // exactly two records
    assert_eq!(p2, blob.len());
}

#[test]
fn degraded_traversal_serves_from_cache() {
    let mut c = two_node_cluster(65536);
    let client = VPFS::attach(b"R".to_vec());
    // populate /d/f on B and read it once from R, filling R's cache
    client.mkdir(&mut c, 0, b"d", b"B").expect("mkdir d at B");
    let f_loc = client.place(&mut c, 0, b"d/f", b"B").expect("place d/f");
    client.write(&mut c, 0, &f_loc, b"payload").expect("write f");
    let body = client.fetch(&mut c, 0, b"d/f").expect("warm fetch");
    assert_eq!(body, b"payload".to_vec());
    // B goes down
    c.up[1] = false;
    match client.find(&mut c, 0, b"d/f") {
        Err(VPFSError::CacheNeededForTraversal(entry)) => {
            assert_eq!(entry.location.node_name, b"B".to_vec());
            // a direct read of the authoritative location now names the cache copy
            match client.read(&mut c, 0, &entry.location) {
                Err(VPFSError::OnlyInCache(cache_loc)) => {
                    assert_eq!(cache_loc.node_name, b"R".to_vec());
                    let cached = client.read(&mut c, 0, &cache_loc).expect("cached body");
                    assert_eq!(cached, b"payload".to_vec());
                },
                other => panic!("expected OnlyInCache, got {:?}", other),
            }
        },
        other => panic!("expected CacheNeededForTraversal, got {:?}", other),
    }
}

#[test]
fn name_collision_rolls_back_allocation() {
    let mut c = two_node_cluster(64);
    let client = VPFS::attach(b"R".to_vec());
    let first = client.place(&mut c, 0, b"x", b"B").expect("first place");
    let blobs_after_first = c.nodes[1].files.files.len();
    match client.place(&mut c, 0, b"x", b"B") {
        Err(VPFSError::AlreadyExists(entry)) => {
            assert_eq!(entry.location.node_name, first.node_name);
            assert_eq!(entry.location.uri, first.uri);
        },
        other => panic!("expected AlreadyExists, got {:?}", other),
    }
    // no extra blob remains on B
    assert_eq!(c.nodes[1].files.files.len(), blobs_after_first);
}

#[test]
fn eviction_across_remote_reads() {
    let mut c = two_node_cluster(64);
    let client = VPFS::attach(b"R".to_vec());
    for (name, body) in [
        (b"fa".as_slice(), vec![1u8; 30]),
        (b"fb".as_slice(), vec![2u8; 30]),
        (b"fc".as_slice(), vec![3u8; 30]),
    ] {
        let l = client.place(&mut c, 0, name, b"B").expect("place");
        client.write(&mut c, 0, &l, body.as_slice()).expect("write");
    }
    let a = client.fetch(&mut c, 0, b"fa").expect("fa");
    assert_eq!(a.len(), 30);
    client.fetch(&mut c, 0, b"fb").expect("fb");
    client.fetch(&mut c, 0, b"fc").expect("fc");
    // the budget holds and only the two most recent bodies stay cached
    assert!(c.nodes[0].cache.used <= 64);
    assert_eq!(c.nodes[0].cache.count(), 2);
}

#[test]
fn unchanged_body_answers_not_modified() {
    let r_node = vnode(b"R", 1);
    let mut state = fresh_daemon(r_node.clone(), Some(r_node), 64);
    assert!(state.files.create(b"u", b""));
    assert!(state.files.write(b"u", b"body").is_ok());
    let (_, mtime) = state.files.metadata(b"u").expect("meta");
    // requester's copy is at least as new: not modified
    match state.handle_daemon_request(&DaemonRequest::Read(b"u".to_vec(), Some(mtime)), None) {
        (DaemonResponse::Read(Err(VPFSError::NotModified)), None) => {},
        _ => panic!("expected NotModified"),
    }
    // no timestamp supplied: the body is sent
    match state.handle_daemon_request(&DaemonRequest::Read(b"u".to_vec(), None), None) {
        (DaemonResponse::Read(Ok(())), Some(body)) => assert_eq!(body, b"body".to_vec()),
        _ => panic!("expected body"),
    }
    // the body changed after the requester's copy: it is resent
    assert!(state.files.write(b"u", b"body2").is_ok());
    match state.handle_daemon_request(&DaemonRequest::Read(b"u".to_vec(), Some(mtime)), None) {
        (DaemonResponse::Read(Ok(())), Some(body)) => assert_eq!(body, b"body2".to_vec()),
        _ => panic!("expected fresh body"),
    }
}

#[test]
fn streamed_reads_reach_eof_with_empty_bytes() {
    let mut c = two_node_cluster(64);
    let mut client = VPFS::attach(b"R".to_vec());
    client.store(&mut c, 0, b"s", b"0123456789").expect("store");
    let fd = client.open(&mut c, 0, b"s").expect("open");
    assert_eq!(fd, 3);
    let first = client.read_fd(&mut c, 0, fd, 4).expect("chunk");
    assert_eq!(first, b"0123".to_vec());
    let rest = client.read_fd(&mut c, 0, fd, 100).expect("rest");
    assert_eq!(rest, b"456789".to_vec());
    let empty = client.read_fd(&mut c, 0, fd, 100).expect("eof");
    assert!(empty.is_empty());
    client.close(&mut c, 0, fd).expect("close");
    match client.read_fd(&mut c, 0, fd, 4) {
        Err(VPFSError::FileNotOpen) => {},
        _ => panic!("expected FileNotOpen after close"),
    }
}

#[test]
fn line_reads_end_at_newline_or_eof() {
    let mut c = two_node_cluster(64);
    let mut client = VPFS::attach(b"R".to_vec());
    client.store(&mut c, 0, b"t", b"one\ntwo").expect("store");
    let fd = client.open(&mut c, 0, b"t").expect("open");
    let l1 = client.read_line_fd(&mut c, 0, fd).expect("line one");
    assert_eq!(l1, b"one\n".to_vec());
    let l2 = client.read_line_fd(&mut c, 0, fd).expect("line two");
    assert_eq!(l2, b"two".to_vec());
    let l3 = client.read_line_fd(&mut c, 0, fd).expect("eof");
    assert!(l3.is_empty());
    client.close(&mut c, 0, fd).expect("close");
}

#[test]
fn client_descriptors_reuse_smallest_free_slot() {
    let mut c = two_node_cluster(64);
    let mut client = VPFS::attach(b"R".to_vec());
    client.store(&mut c, 0, b"f1", b"a").expect("store");
    client.store(&mut c, 0, b"f2", b"b").expect("store");
    client.store(&mut c, 0, b"f3", b"c").expect("store");
    let fd1 = client.open(&mut c, 0, b"f1").expect("open 1");
    let fd2 = client.open(&mut c, 0, b"f2").expect("open 2");
    let fd3 = client.open(&mut c, 0, b"f3").expect("open 3");
    assert_eq!((fd1, fd2, fd3), (3, 4, 5));
    client.close(&mut c, 0, fd2).expect("close middle");
    let fd4 = client.open(&mut c, 0, b"f2").expect("reopen");
    assert_eq!(fd4, 4);
}

#[test]
fn resolving_through_a_file_is_refused() {
    let mut c = two_node_cluster(64);
    let client = VPFS::attach(b"R".to_vec());
    client.store(&mut c, 0, b"plain", b"x").expect("store");
    match client.find(&mut c, 0, b"plain/child") {
        Err(VPFSError::NotADirectory) => {},
        other => panic!("expected NotADirectory, got {:?}", other),
    }
}

#[test]
fn missing_path_reports_does_not_exist() {
    let mut c = two_node_cluster(64);
    let client = VPFS::attach(b"R".to_vec());
    match client.find(&mut c, 0, b"nothing") {
        Err(VPFSError::DoesNotExist) => {},
        other => panic!("expected DoesNotExist, got {:?}", other),
    }
}

#[test]
fn unreachable_peer_without_cache_is_not_accessible() {
    let mut c = two_node_cluster(64);
    let client = VPFS::attach(b"R".to_vec());
    let l = client.place(&mut c, 0, b"z", b"B").expect("place");
    client.write(&mut c, 0, &l, b"zz").expect("write");
    c.up[1] = false;
    match client.read(&mut c, 0, &l) {
        Err(VPFSError::NotAccessible) => {},
        other => panic!("expected NotAccessible, got {:?}", other),
    }
}

#[test]
fn mkdir_then_place_then_fetch_round_trips() {
    let mut c = two_node_cluster(64);
    let client = VPFS::attach(b"R".to_vec());
    client.mkdir(&mut c, 0, b"p", b"R").expect("mkdir");
    let f = client.place(&mut c, 0, b"p/f", b"R").expect("place into dir");
    client.write(&mut c, 0, &f, b"content").expect("write");
    let body = client.fetch(&mut c, 0, b"p/f").expect("fetch");
    assert_eq!(body, b"content".to_vec());
}

#[test]
fn storing_twice_overwrites_in_place() {
    let mut c = two_node_cluster(64);
    let client = VPFS::attach(b"R".to_vec());
    client.store(&mut c, 0, b"w", b"first").expect("first store");
    client.store(&mut c, 0, b"w", b"second").expect("second store");
    let body = client.fetch(&mut c, 0, b"w").expect("fetch");
    assert_eq!(body, b"second".to_vec());
    // still a single record in the root directory for this name
    let blob = c.nodes[0].files.read(b"root").expect("root blob");
    let mut count = 0;
    let mut pos = 0;
    while let Some((e, next)) = read_entry(blob.as_slice(), pos) {
        if e.name == b"w".to_vec() {
            count += 1;
        }
        pos = next;
    }
    assert_eq!(count, 1);
}

#[test]
fn unknown_peer_is_resolved_through_the_root() {
    // a third node registers with the root after B's handshake, so B can
    // reach it only by asking the root for its address
    let mut c = two_node_cluster(64);
    let c_node = vnode(b"C", 3);
    let mut cd = fresh_daemon(c_node.clone(), None, 65536);
    cd.connections.push(b"R".to_vec());
    match c.nodes[0].handle_hello(&Hello::RootHello(c_node), &nid(3)) {
        HelloResponse::RootHello(root_node, hosts) => {
            cd.known_hosts = hosts;
            cd.known_hosts.push((b"R".to_vec(), nid(1)));
            cd.root = Some(root_node);
        },
        _ => panic!("root hello failed"),
    }
    c.nodes.push(cd);
    c.up.push(true);
    // B never learned of C directly
    assert!(!c.nodes[1].known_hosts.iter().any(|p| p.0 == b"C".to_vec()));
    let client_b = VPFS::attach(b"B".to_vec());
    let l = client_b.place(&mut c, 1, b"on_c", b"C").expect("place via root lookup");
    assert_eq!(l.node_name, b"C".to_vec());
    client_b.write(&mut c, 1, &l, b"by way of the root").expect("write");
    let body = client_b.fetch(&mut c, 1, b"on_c").expect("fetch");
    assert_eq!(body, b"by way of the root".to_vec());
    // B now remembers C's identity
    assert!(c.nodes[1].known_hosts.iter().any(|p| p.0 == b"C".to_vec()));
}
