//! Wire-codec round trips: every message variant encodes and decodes
//! back to itself (checked through re-encoding, which the deterministic
//! codec makes a faithful comparison), and framing returns the payload.

use vpfs::types::{NodeId, VPFSNode, Location, DirectoryEntry, CacheEntry};
use vpfs::errors::VPFSError;
use vpfs::wire::{Hello, HelloResponse, DaemonRequest, DaemonResponse, ClientRequest,
    ClientResponse, write_hello, read_hello, write_hello_resp, read_hello_resp, write_dreq,
    read_dreq, write_dresp, read_dresp, write_creq, read_creq, write_cresp, read_cresp,
    write_frame, read_frame};

fn nid(b: u8) -> NodeId {
    NodeId { bytes: vec![b, b, b] }
}

fn node(name: &[u8], b: u8) -> VPFSNode {
    VPFSNode { name: name.to_vec(), endpoint_id: nid(b) }
}

fn loc(n: &[u8], u: &[u8]) -> Location {
    Location { node_name: n.to_vec(), uri: u.to_vec() }
}

fn entry(n: &[u8], u: &[u8], name: &[u8], d: bool) -> DirectoryEntry {
    DirectoryEntry { location: loc(n, u), name: name.to_vec(), is_dir: d }
}

fn hello_bytes(m: &Hello) -> Vec<u8> {
    let mut out = Vec::new();
    write_hello(&mut out, m);
    out
}

fn hello_resp_bytes(m: &HelloResponse) -> Vec<u8> {
    let mut out = Vec::new();
    write_hello_resp(&mut out, m);
    out
}

fn dreq_bytes(m: &DaemonRequest) -> Vec<u8> {
    let mut out = Vec::new();
    write_dreq(&mut out, m);
    out
}

fn dresp_bytes(m: &DaemonResponse) -> Vec<u8> {
    let mut out = Vec::new();
    write_dresp(&mut out, m);
    out
}

fn creq_bytes(m: &ClientRequest) -> Vec<u8> {
    let mut out = Vec::new();
    write_creq(&mut out, m);
    out
}

fn cresp_bytes(m: &ClientResponse) -> Vec<u8> {
    let mut out = Vec::new();
    write_cresp(&mut out, m);
    out
}

#[test]
fn hello_variants_round_trip() {
    let msgs = vec![
        Hello::ClientHello,
        Hello::DaemonHello,
        Hello::RootHello(node(b"R", 1)),
    ];
    for m in &msgs {
        let bytes = hello_bytes(m);
        let (back, end) = read_hello(bytes.as_slice(), 0).expect("decode");
        assert_eq!(end, bytes.len());
        assert_eq!(hello_bytes(&back), bytes);
    }
}

#[test]
fn hello_response_variants_round_trip() {
    let msgs = vec![
        HelloResponse::ClientHello(b"R".to_vec()),
        HelloResponse::DaemonHello,
        HelloResponse::RootHello(
            node(b"R", 1),
            vec![(b"B".to_vec(), nid(2)), (b"C".to_vec(), nid(3))],
        ),
    ];
    for m in &msgs {
        let bytes = hello_resp_bytes(m);
        let (back, end) = read_hello_resp(bytes.as_slice(), 0).expect("decode");
        assert_eq!(end, bytes.len());
        assert_eq!(hello_resp_bytes(&back), bytes);
    }
}

#[test]
fn daemon_request_variants_round_trip() {
    let msgs = vec![
        DaemonRequest::Place,
        DaemonRequest::Open(b"u1".to_vec()),
        DaemonRequest::Read(b"u2".to_vec(), None),
        DaemonRequest::Read(b"u2".to_vec(), Some(77)),
        DaemonRequest::ReadFd(5, 1024),
        DaemonRequest::ReadLineFd(6),
        DaemonRequest::Close(7),
        DaemonRequest::Write(b"u3".to_vec()),
        DaemonRequest::Remove(b"u4".to_vec()),
        DaemonRequest::AppendDirectoryEntry(b"dir".to_vec(), entry(b"R", b"u5", b"f", false)),
        DaemonRequest::AddressFor(b"B".to_vec()),
    ];
    for m in &msgs {
        let bytes = dreq_bytes(m);
        let (back, end) = read_dreq(bytes.as_slice(), 0).expect("decode");
        assert_eq!(end, bytes.len());
        assert_eq!(dreq_bytes(&back), bytes);
    }
}

#[test]
fn daemon_response_variants_round_trip() {
    let msgs = vec![
        DaemonResponse::Place(b"u1".to_vec()),
        DaemonResponse::Open(Ok(3)),
        DaemonResponse::Open(Err(VPFSError::DoesNotExist)),
        DaemonResponse::Read(Ok(())),
        DaemonResponse::Read(Err(VPFSError::NotModified)),
        DaemonResponse::ReadFd(Ok(())),
        DaemonResponse::ReadFd(Err(VPFSError::FileNotOpen)),
        DaemonResponse::ReadLineFd(Ok(())),
        DaemonResponse::Close(Ok(())),
        DaemonResponse::Write(Ok(5)),
        DaemonResponse::Remove(Err(VPFSError::DoesNotExist)),
        DaemonResponse::AppendDirectoryEntry(
            Err(VPFSError::AlreadyExists(entry(b"R", b"u", b"f", true))),
        ),
        DaemonResponse::AddressFor(Some(nid(9))),
        DaemonResponse::AddressFor(None),
    ];
    for m in &msgs {
        let bytes = dresp_bytes(m);
        let (back, end) = read_dresp(bytes.as_slice(), 0).expect("decode");
        assert_eq!(end, bytes.len());
        assert_eq!(dresp_bytes(&back), bytes);
    }
}

#[test]
fn client_request_variants_round_trip() {
    let msgs = vec![
        ClientRequest::Find(b"a/b".to_vec()),
        ClientRequest::Place(b"a/b".to_vec(), b"B".to_vec()),
        ClientRequest::Mkdir(b"d".to_vec(), b"R".to_vec()),
        ClientRequest::Open(loc(b"R", b"u")),
        ClientRequest::ReadFd(loc(b"R", b"u"), 4, 1024),
        ClientRequest::ReadLineFd(loc(b"R", b"u"), 4),
        ClientRequest::Close(b"R".to_vec(), 4),
        ClientRequest::Read(loc(b"B", b"v")),
        ClientRequest::Write(loc(b"B", b"v"), 5),
    ];
    for m in &msgs {
        let bytes = creq_bytes(m);
        let (back, end) = read_creq(bytes.as_slice(), 0).expect("decode");
        assert_eq!(end, bytes.len());
        assert_eq!(creq_bytes(&back), bytes);
    }
}

#[test]
fn client_response_variants_round_trip() {
    let msgs = vec![
        ClientResponse::Find(Ok(entry(b"R", b"u", b"x", false))),
        ClientResponse::Find(Err(VPFSError::DoesNotExist)),
        ClientResponse::Find(Err(VPFSError::CacheNeededForTraversal(entry(b"B", b"v", b"f", false)))),
        ClientResponse::Place(Ok(loc(b"B", b"v"))),
        ClientResponse::Place(Err(VPFSError::NotAccessible)),
        ClientResponse::Mkdir(Ok(loc(b"R", b"w"))),
        ClientResponse::Open(Ok(3)),
        ClientResponse::ReadFd(Ok(10)),
        ClientResponse::ReadLineFd(Err(VPFSError::FileNotOpen)),
        ClientResponse::Close(Ok(())),
        ClientResponse::Read(Ok(3)),
        ClientResponse::Read(Err(VPFSError::OnlyInCache(loc(b"R", b"c")))),
        ClientResponse::Write(Ok(3)),
        ClientResponse::Write(Err(VPFSError::Other(b"odd".to_vec()))),
    ];
    for m in &msgs {
        let bytes = cresp_bytes(m);
        let (back, end) = read_cresp(bytes.as_slice(), 0).expect("decode");
        assert_eq!(end, bytes.len());
        assert_eq!(cresp_bytes(&back), bytes);
    }
}

#[test]
fn decoded_fields_match_input() {
    let m = DaemonRequest::Read(b"abc".to_vec(), Some(42));
    let bytes = dreq_bytes(&m);
    match read_dreq(bytes.as_slice(), 0) {
        Some((DaemonRequest::Read(u, t), _)) => {
            assert_eq!(u, b"abc".to_vec());
            assert_eq!(t, Some(42));
        },
        _ => panic!("wrong decode"),
    }
}

#[test]
fn framing_round_trips_and_prefixes_length() {
    let payload = b"hello world".to_vec();
    let mut framed = Vec::new();
    write_frame(&mut framed, payload.as_slice());
    assert_eq!(framed.len(), 8 + payload.len());
    // 8-byte big-endian length header
    assert_eq!(&framed[..8], &[0, 0, 0, 0, 0, 0, 0, 11]);
    let (back, end) = read_frame(framed.as_slice(), 0).expect("decode");
    assert_eq!(back, payload);
    assert_eq!(end, framed.len());
}

#[test]
fn truncated_frame_is_rejected() {
    let payload = b"hello".to_vec();
    let mut framed = Vec::new();
    write_frame(&mut framed, payload.as_slice());
    framed.pop();
    assert!(read_frame(framed.as_slice(), 0).is_none());
}

#[test]
fn bad_tag_is_rejected() {
    let bytes = vec![99u8];
    assert!(read_dreq(bytes.as_slice(), 0).is_none());
    assert!(read_creq(bytes.as_slice(), 0).is_none());
}
