//! The message vocabulary of the two protocols (client-daemon and
//! daemon-daemon), with the structural encoding of every variant and the
//! proof that the codec round-trips each one.

use vstd::prelude::*;
use crate::types::{NodeId, NodeIdView, VPFSNode, VPFSNodeView, Location, LocationView, DirectoryEntry, DirectoryEntryView};
use crate::errors::{VPFSError, VPFSErrorView};
use crate::codec::{enc_bytes, dec_bytes, enc_u64, dec_u64, enc_vnode, dec_vnode, enc_location, dec_location, enc_entry, dec_entry, enc_opt_u64, dec_opt_u64, enc_opt_node_id, dec_opt_node_id, enc_res_u64, dec_res_u64, enc_res_unit, dec_res_unit, enc_res_loc, dec_res_loc, enc_res_entry, dec_res_entry, enc_hosts, dec_hosts, lemma_bytes_round, lemma_u64_round, lemma_vnode_round, lemma_location_round, lemma_entry_round, lemma_opt_u64_round, lemma_opt_node_id_round, lemma_res_u64_round, lemma_res_unit_round, lemma_res_loc_round, lemma_res_entry_round, lemma_hosts_round, lemma_enc_u64_len, lemma_enc_bytes_len, node_id_wf, vnode_wf, loc_wf, entry_wf, err_wf, hosts_wf, hosts_view, lemma_skip_skip, write_bytes, read_bytes, write_u64, read_u64, write_opt_u64, read_opt_u64, write_vnode, read_vnode, write_location, read_location, write_entry, read_entry, write_opt_node_id, read_opt_node_id, write_res_u64, read_res_u64, write_res_unit, read_res_unit, write_res_loc, read_res_loc, write_res_entry, read_res_entry, write_hosts, read_hosts};

verus! {

// ---------------------------------------------------------------------------
// Handshakes
// ---------------------------------------------------------------------------

/// First message on any connection.
pub enum Hello {
    ClientHello,
    DaemonHello,
    RootHello(VPFSNode),
}

/// Answer to a `Hello`.
pub enum HelloResponse {
    /// Carries the daemon's node name.
    ClientHello(Vec<u8>),
    DaemonHello,
    /// Carries the root node and a snapshot of the host directory.
    RootHello(VPFSNode, Vec<(Vec<u8>, NodeId)>),
}

pub ghost enum HelloView {
    ClientHello,
    DaemonHello,
    RootHello(VPFSNodeView),
}

pub ghost enum HelloResponseView {
    ClientHello(Seq<u8>),
    DaemonHello,
    RootHello(VPFSNodeView, Seq<(Seq<u8>, NodeIdView)>),
}

impl View for Hello {
    type V = HelloView;

    open spec fn view(&self) -> HelloView {
        match self {
            Hello::ClientHello => HelloView::ClientHello,
            Hello::DaemonHello => HelloView::DaemonHello,
            Hello::RootHello(n) => HelloView::RootHello(n@),
        }
    }
}

impl View for HelloResponse {
    type V = HelloResponseView;

    open spec fn view(&self) -> HelloResponseView {
        match self {
            HelloResponse::ClientHello(n) => HelloResponseView::ClientHello(n@),
            HelloResponse::DaemonHello => HelloResponseView::DaemonHello,
            HelloResponse::RootHello(n, h) => HelloResponseView::RootHello(n@, hosts_view(h@)),
        }
    }
}

pub open spec fn hello_wf(h: HelloView) -> bool {
    match h {
        HelloView::RootHello(n) => vnode_wf(n),
        _ => true,
    }
}

pub open spec fn hello_resp_wf(h: HelloResponseView) -> bool {
    match h {
        HelloResponseView::ClientHello(n) => n.len() <= usize::MAX,
        HelloResponseView::DaemonHello => true,
        HelloResponseView::RootHello(n, hosts) => vnode_wf(n) && hosts_wf(hosts) && hosts.len()
            <= usize::MAX,
    }
}

pub open spec fn enc_hello(h: HelloView) -> Seq<u8> {
    match h {
        HelloView::ClientHello => seq![0u8],
        HelloView::DaemonHello => seq![1u8],
        HelloView::RootHello(n) => seq![2u8] + enc_vnode(n),
    }
}

pub open spec fn dec_hello(s: Seq<u8>) -> Option<(HelloView, int)> {
    if s.len() >= 1 && s[0] == 0u8 {
        Some((HelloView::ClientHello, 1int))
    } else if s.len() >= 1 && s[0] == 1u8 {
        Some((HelloView::DaemonHello, 1int))
    } else if s.len() >= 1 && s[0] == 2u8 {
        match dec_vnode(s.skip(1)) {
            Some((n, k)) => Some((HelloView::RootHello(n), 1 + k)),
            None => None,
        }
    } else {
        None
    }
}

pub proof fn lemma_hello_round(h: HelloView, rest: Seq<u8>)
    requires
        hello_wf(h),
    ensures
        dec_hello(enc_hello(h) + rest) == Some((h, enc_hello(h).len() as int)),
{
    let whole = enc_hello(h) + rest;
    match h {
        HelloView::RootHello(n) => {
            assert(whole.skip(1) =~= enc_vnode(n) + rest);
            lemma_vnode_round(n, rest);
        },
        _ => {},
    }
}

pub open spec fn enc_hello_resp(h: HelloResponseView) -> Seq<u8> {
    match h {
        HelloResponseView::ClientHello(n) => seq![0u8] + enc_bytes(n),
        HelloResponseView::DaemonHello => seq![1u8],
        HelloResponseView::RootHello(n, hosts) => seq![2u8] + enc_vnode(n) + enc_hosts(hosts),
    }
}

pub open spec fn dec_hello_resp(s: Seq<u8>) -> Option<(HelloResponseView, int)> {
    if s.len() >= 1 && s[0] == 0u8 {
        match dec_bytes(s.skip(1)) {
            Some((n, k)) => Some((HelloResponseView::ClientHello(n), 1 + k)),
            None => None,
        }
    } else if s.len() >= 1 && s[0] == 1u8 {
        Some((HelloResponseView::DaemonHello, 1int))
    } else if s.len() >= 1 && s[0] == 2u8 {
        match dec_vnode(s.skip(1)) {
            Some((n, k1)) => match dec_hosts(s.skip(1 + k1)) {
                Some((hosts, k2)) => Some(
                    (HelloResponseView::RootHello(n, hosts), 1 + k1 + k2),
                ),
                None => None,
            },
            None => None,
        }
    } else {
        None
    }
}

pub proof fn lemma_hello_resp_round(h: HelloResponseView, rest: Seq<u8>)
    requires
        hello_resp_wf(h),
    ensures
        dec_hello_resp(enc_hello_resp(h) + rest) == Some((h, enc_hello_resp(h).len() as int)),
{
    broadcast use lemma_enc_u64_len, lemma_enc_bytes_len;

    let whole = enc_hello_resp(h) + rest;
    match h {
        HelloResponseView::ClientHello(n) => {
            assert(whole.skip(1) =~= enc_bytes(n) + rest);
            lemma_bytes_round(n, rest);
        },
        HelloResponseView::DaemonHello => {},
        HelloResponseView::RootHello(n, hosts) => {
            let t1 = enc_hosts(hosts) + rest;
            assert(whole.skip(1) =~= enc_vnode(n) + t1);
            lemma_vnode_round(n, t1);
            let k1 = enc_vnode(n).len() as int;
            assert(whole.skip(1 + k1) =~= t1);
            lemma_hosts_round(hosts, rest);
        },
    }
}

// ---------------------------------------------------------------------------
// Daemon-to-daemon requests
// ---------------------------------------------------------------------------

/// One request on a peer sub-stream. Descriptors and byte counts travel
/// as unsigned 64-bit values; a modification time is a logical timestamp.
pub enum DaemonRequest {
    Place,
    Open(Vec<u8>),
    Read(Vec<u8>, Option<u64>),
    ReadFd(u64, u64),
    ReadLineFd(u64),
    Close(u64),
    Write(Vec<u8>),
    Remove(Vec<u8>),
    AppendDirectoryEntry(Vec<u8>, DirectoryEntry),
    AddressFor(Vec<u8>),
}

pub ghost enum DaemonRequestView {
    Place,
    Open(Seq<u8>),
    Read(Seq<u8>, Option<u64>),
    ReadFd(u64, u64),
    ReadLineFd(u64),
    Close(u64),
    Write(Seq<u8>),
    Remove(Seq<u8>),
    AppendDirectoryEntry(Seq<u8>, DirectoryEntryView),
    AddressFor(Seq<u8>),
}

impl View for DaemonRequest {
    type V = DaemonRequestView;

    open spec fn view(&self) -> DaemonRequestView {
        match self {
            DaemonRequest::Place => DaemonRequestView::Place,
            DaemonRequest::Open(u) => DaemonRequestView::Open(u@),
            DaemonRequest::Read(u, t) => DaemonRequestView::Read(u@, *t),
            DaemonRequest::ReadFd(fd, n) => DaemonRequestView::ReadFd(*fd, *n),
            DaemonRequest::ReadLineFd(fd) => DaemonRequestView::ReadLineFd(*fd),
            DaemonRequest::Close(fd) => DaemonRequestView::Close(*fd),
            DaemonRequest::Write(u) => DaemonRequestView::Write(u@),
            DaemonRequest::Remove(u) => DaemonRequestView::Remove(u@),
            DaemonRequest::AppendDirectoryEntry(u, e) => DaemonRequestView::AppendDirectoryEntry(
                u@,
                e@,
            ),
            DaemonRequest::AddressFor(n) => DaemonRequestView::AddressFor(n@),
        }
    }
}

pub open spec fn dreq_wf(r: DaemonRequestView) -> bool {
    match r {
        DaemonRequestView::Open(u) => u.len() <= usize::MAX,
        DaemonRequestView::Read(u, _) => u.len() <= usize::MAX,
        DaemonRequestView::Write(u) => u.len() <= usize::MAX,
        DaemonRequestView::Remove(u) => u.len() <= usize::MAX,
        DaemonRequestView::AppendDirectoryEntry(u, e) => u.len() <= usize::MAX && entry_wf(e),
        DaemonRequestView::AddressFor(n) => n.len() <= usize::MAX,
        _ => true,
    }
}

pub open spec fn enc_dreq(r: DaemonRequestView) -> Seq<u8> {
    match r {
        DaemonRequestView::Place => seq![0u8],
        DaemonRequestView::Open(u) => seq![1u8] + enc_bytes(u),
        DaemonRequestView::Read(u, t) => seq![2u8] + enc_bytes(u) + enc_opt_u64(t),
        DaemonRequestView::ReadFd(fd, n) => seq![3u8] + enc_u64(fd) + enc_u64(n),
        DaemonRequestView::ReadLineFd(fd) => seq![4u8] + enc_u64(fd),
        DaemonRequestView::Close(fd) => seq![5u8] + enc_u64(fd),
        DaemonRequestView::Write(u) => seq![6u8] + enc_bytes(u),
        DaemonRequestView::Remove(u) => seq![7u8] + enc_bytes(u),
        DaemonRequestView::AppendDirectoryEntry(u, e) => seq![8u8] + enc_bytes(u) + enc_entry(e),
        DaemonRequestView::AddressFor(n) => seq![9u8] + enc_bytes(n),
    }
}

pub open spec fn dec_dreq(s: Seq<u8>) -> Option<(DaemonRequestView, int)> {
    if s.len() < 1 {
        None
    } else if s[0] == 0u8 {
        Some((DaemonRequestView::Place, 1int))
    } else if s[0] == 1u8 {
        match dec_bytes(s.skip(1)) {
            Some((u, k)) => Some((DaemonRequestView::Open(u), 1 + k)),
            None => None,
        }
    } else if s[0] == 2u8 {
        match dec_bytes(s.skip(1)) {
            Some((u, k1)) => match dec_opt_u64(s.skip(1 + k1)) {
                Some((t, k2)) => Some((DaemonRequestView::Read(u, t), 1 + k1 + k2)),
                None => None,
            },
            None => None,
        }
    } else if s[0] == 3u8 {
        match dec_u64(s.skip(1)) {
            Some((fd, k1)) => match dec_u64(s.skip(1 + k1)) {
                Some((n, k2)) => Some((DaemonRequestView::ReadFd(fd, n), 1 + k1 + k2)),
                None => None,
            },
            None => None,
        }
    } else if s[0] == 4u8 {
        match dec_u64(s.skip(1)) {
            Some((fd, k)) => Some((DaemonRequestView::ReadLineFd(fd), 1 + k)),
            None => None,
        }
    } else if s[0] == 5u8 {
        match dec_u64(s.skip(1)) {
            Some((fd, k)) => Some((DaemonRequestView::Close(fd), 1 + k)),
            None => None,
        }
    } else if s[0] == 6u8 {
        match dec_bytes(s.skip(1)) {
            Some((u, k)) => Some((DaemonRequestView::Write(u), 1 + k)),
            None => None,
        }
    } else if s[0] == 7u8 {
        match dec_bytes(s.skip(1)) {
            Some((u, k)) => Some((DaemonRequestView::Remove(u), 1 + k)),
            None => None,
        }
    } else if s[0] == 8u8 {
        match dec_bytes(s.skip(1)) {
            Some((u, k1)) => match dec_entry(s.skip(1 + k1)) {
                Some((e, k2)) => Some(
                    (DaemonRequestView::AppendDirectoryEntry(u, e), 1 + k1 + k2),
                ),
                None => None,
            },
            None => None,
        }
    } else if s[0] == 9u8 {
        match dec_bytes(s.skip(1)) {
            Some((n, k)) => Some((DaemonRequestView::AddressFor(n), 1 + k)),
            None => None,
        }
    } else {
        None
    }
}

pub proof fn lemma_dreq_round(r: DaemonRequestView, rest: Seq<u8>)
    requires
        dreq_wf(r),
    ensures
        dec_dreq(enc_dreq(r) + rest) == Some((r, enc_dreq(r).len() as int)),
{
    broadcast use lemma_enc_u64_len, lemma_enc_bytes_len;

    let whole = enc_dreq(r) + rest;
    match r {
        DaemonRequestView::Place => {},
        DaemonRequestView::Open(u) => {
            assert(whole.skip(1) =~= enc_bytes(u) + rest);
            lemma_bytes_round(u, rest);
        },
        DaemonRequestView::Read(u, t) => {
            let t1 = enc_opt_u64(t) + rest;
            assert(whole.skip(1) =~= enc_bytes(u) + t1);
            lemma_bytes_round(u, t1);
            let k1 = enc_bytes(u).len() as int;
            assert(whole.skip(1 + k1) =~= t1);
            lemma_opt_u64_round(t, rest);
        },
        DaemonRequestView::ReadFd(fd, n) => {
            let t1 = enc_u64(n) + rest;
            assert(whole.skip(1) =~= enc_u64(fd) + t1);
            lemma_u64_round(fd, t1);
            assert(whole.skip(9) =~= t1);
            lemma_u64_round(n, rest);
        },
        DaemonRequestView::ReadLineFd(fd) => {
            assert(whole.skip(1) =~= enc_u64(fd) + rest);
            lemma_u64_round(fd, rest);
        },
        DaemonRequestView::Close(fd) => {
            assert(whole.skip(1) =~= enc_u64(fd) + rest);
            lemma_u64_round(fd, rest);
        },
        DaemonRequestView::Write(u) => {
            assert(whole.skip(1) =~= enc_bytes(u) + rest);
            lemma_bytes_round(u, rest);
        },
        DaemonRequestView::Remove(u) => {
            assert(whole.skip(1) =~= enc_bytes(u) + rest);
            lemma_bytes_round(u, rest);
        },
        DaemonRequestView::AppendDirectoryEntry(u, e) => {
            let t1 = enc_entry(e) + rest;
            assert(whole.skip(1) =~= enc_bytes(u) + t1);
            lemma_bytes_round(u, t1);
            let k1 = enc_bytes(u).len() as int;
            assert(whole.skip(1 + k1) =~= t1);
            lemma_entry_round(e, rest);
        },
        DaemonRequestView::AddressFor(n) => {
            assert(whole.skip(1) =~= enc_bytes(n) + rest);
            lemma_bytes_round(n, rest);
        },
    }
}

// ---------------------------------------------------------------------------
// Daemon-to-daemon responses
// ---------------------------------------------------------------------------

/// The answer to one `DaemonRequest`, on the same sub-stream.
pub enum DaemonResponse {
    Place(Vec<u8>),
    Open(Result<u64, VPFSError>),
    Read(Result<(), VPFSError>),
    ReadFd(Result<(), VPFSError>),
    ReadLineFd(Result<(), VPFSError>),
    Close(Result<(), VPFSError>),
    Write(Result<u64, VPFSError>),
    Remove(Result<(), VPFSError>),
    AppendDirectoryEntry(Result<(), VPFSError>),
    AddressFor(Option<NodeId>),
}

pub ghost enum DaemonResponseView {
    Place(Seq<u8>),
    Open(Result<u64, VPFSErrorView>),
    Read(Result<(), VPFSErrorView>),
    ReadFd(Result<(), VPFSErrorView>),
    ReadLineFd(Result<(), VPFSErrorView>),
    Close(Result<(), VPFSErrorView>),
    Write(Result<u64, VPFSErrorView>),
    Remove(Result<(), VPFSErrorView>),
    AppendDirectoryEntry(Result<(), VPFSErrorView>),
    AddressFor(Option<NodeIdView>),
}

pub open spec fn res_u64_view(r: Result<u64, VPFSError>) -> Result<u64, VPFSErrorView> {
    match r {
        Ok(x) => Ok(x),
        Err(e) => Err(e@),
    }
}

pub open spec fn res_unit_view(r: Result<(), VPFSError>) -> Result<(), VPFSErrorView> {
    match r {
        Ok(_) => Ok(()),
        Err(e) => Err(e@),
    }
}

impl View for DaemonResponse {
    type V = DaemonResponseView;

    open spec fn view(&self) -> DaemonResponseView {
        match self {
            DaemonResponse::Place(u) => DaemonResponseView::Place(u@),
            DaemonResponse::Open(r) => DaemonResponseView::Open(res_u64_view(*r)),
            DaemonResponse::Read(r) => DaemonResponseView::Read(res_unit_view(*r)),
            DaemonResponse::ReadFd(r) => DaemonResponseView::ReadFd(res_unit_view(*r)),
            DaemonResponse::ReadLineFd(r) => DaemonResponseView::ReadLineFd(res_unit_view(*r)),
            DaemonResponse::Close(r) => DaemonResponseView::Close(res_unit_view(*r)),
            DaemonResponse::Write(r) => DaemonResponseView::Write(res_u64_view(*r)),
            DaemonResponse::Remove(r) => DaemonResponseView::Remove(res_unit_view(*r)),
            DaemonResponse::AppendDirectoryEntry(r) => DaemonResponseView::AppendDirectoryEntry(
                res_unit_view(*r),
            ),
            DaemonResponse::AddressFor(o) => DaemonResponseView::AddressFor(
                match o {
                    Some(id) => Some(id@),
                    None => None,
                },
            ),
        }
    }
}

pub open spec fn res_u64_wf(r: Result<u64, VPFSErrorView>) -> bool {
    match r {
        Ok(_) => true,
        Err(e) => err_wf(e),
    }
}

pub open spec fn res_unit_wf(r: Result<(), VPFSErrorView>) -> bool {
    match r {
        Ok(_) => true,
        Err(e) => err_wf(e),
    }
}

pub open spec fn dresp_wf(r: DaemonResponseView) -> bool {
    match r {
        DaemonResponseView::Place(u) => u.len() <= usize::MAX,
        DaemonResponseView::Open(x) => res_u64_wf(x),
        DaemonResponseView::Read(x) => res_unit_wf(x),
        DaemonResponseView::ReadFd(x) => res_unit_wf(x),
        DaemonResponseView::ReadLineFd(x) => res_unit_wf(x),
        DaemonResponseView::Close(x) => res_unit_wf(x),
        DaemonResponseView::Write(x) => res_u64_wf(x),
        DaemonResponseView::Remove(x) => res_unit_wf(x),
        DaemonResponseView::AppendDirectoryEntry(x) => res_unit_wf(x),
        DaemonResponseView::AddressFor(o) => match o {
            Some(id) => node_id_wf(id),
            None => true,
        },
    }
}

pub open spec fn enc_dresp(r: DaemonResponseView) -> Seq<u8> {
    match r {
        DaemonResponseView::Place(u) => seq![0u8] + enc_bytes(u),
        DaemonResponseView::Open(x) => seq![1u8] + enc_res_u64(x),
        DaemonResponseView::Read(x) => seq![2u8] + enc_res_unit(x),
        DaemonResponseView::ReadFd(x) => seq![3u8] + enc_res_unit(x),
        DaemonResponseView::ReadLineFd(x) => seq![4u8] + enc_res_unit(x),
        DaemonResponseView::Close(x) => seq![5u8] + enc_res_unit(x),
        DaemonResponseView::Write(x) => seq![6u8] + enc_res_u64(x),
        DaemonResponseView::Remove(x) => seq![7u8] + enc_res_unit(x),
        DaemonResponseView::AppendDirectoryEntry(x) => seq![8u8] + enc_res_unit(x),
        DaemonResponseView::AddressFor(o) => seq![9u8] + enc_opt_node_id(o),
    }
}

pub open spec fn dec_dresp(s: Seq<u8>) -> Option<(DaemonResponseView, int)> {
    if s.len() < 1 {
        None
    } else if s[0] == 0u8 {
        match dec_bytes(s.skip(1)) {
            Some((u, k)) => Some((DaemonResponseView::Place(u), 1 + k)),
            None => None,
        }
    } else if s[0] == 1u8 {
        match dec_res_u64(s.skip(1)) {
            Some((x, k)) => Some((DaemonResponseView::Open(x), 1 + k)),
            None => None,
        }
    } else if s[0] == 2u8 {
        match dec_res_unit(s.skip(1)) {
            Some((x, k)) => Some((DaemonResponseView::Read(x), 1 + k)),
            None => None,
        }
    } else if s[0] == 3u8 {
        match dec_res_unit(s.skip(1)) {
            Some((x, k)) => Some((DaemonResponseView::ReadFd(x), 1 + k)),
            None => None,
        }
    } else if s[0] == 4u8 {
        match dec_res_unit(s.skip(1)) {
            Some((x, k)) => Some((DaemonResponseView::ReadLineFd(x), 1 + k)),
            None => None,
        }
    } else if s[0] == 5u8 {
        match dec_res_unit(s.skip(1)) {
            Some((x, k)) => Some((DaemonResponseView::Close(x), 1 + k)),
            None => None,
        }
    } else if s[0] == 6u8 {
        match dec_res_u64(s.skip(1)) {
            Some((x, k)) => Some((DaemonResponseView::Write(x), 1 + k)),
            None => None,
        }
    } else if s[0] == 7u8 {
        match dec_res_unit(s.skip(1)) {
            Some((x, k)) => Some((DaemonResponseView::Remove(x), 1 + k)),
            None => None,
        }
    } else if s[0] == 8u8 {
        match dec_res_unit(s.skip(1)) {
            Some((x, k)) => Some((DaemonResponseView::AppendDirectoryEntry(x), 1 + k)),
            None => None,
        }
    } else if s[0] == 9u8 {
        match dec_opt_node_id(s.skip(1)) {
            Some((o, k)) => Some((DaemonResponseView::AddressFor(o), 1 + k)),
            None => None,
        }
    } else {
        None
    }
}

pub proof fn lemma_dresp_round(r: DaemonResponseView, rest: Seq<u8>)
    requires
        dresp_wf(r),
    ensures
        dec_dresp(enc_dresp(r) + rest) == Some((r, enc_dresp(r).len() as int)),
{
    broadcast use lemma_enc_u64_len, lemma_enc_bytes_len;

    let whole = enc_dresp(r) + rest;
    match r {
        DaemonResponseView::Place(u) => {
            assert(whole.skip(1) =~= enc_bytes(u) + rest);
            lemma_bytes_round(u, rest);
        },
        DaemonResponseView::Open(x) => {
            assert(whole.skip(1) =~= enc_res_u64(x) + rest);
            lemma_res_u64_round(x, rest);
        },
        DaemonResponseView::Read(x) => {
            assert(whole.skip(1) =~= enc_res_unit(x) + rest);
            lemma_res_unit_round(x, rest);
        },
        DaemonResponseView::ReadFd(x) => {
            assert(whole.skip(1) =~= enc_res_unit(x) + rest);
            lemma_res_unit_round(x, rest);
        },
        DaemonResponseView::ReadLineFd(x) => {
            assert(whole.skip(1) =~= enc_res_unit(x) + rest);
            lemma_res_unit_round(x, rest);
        },
        DaemonResponseView::Close(x) => {
            assert(whole.skip(1) =~= enc_res_unit(x) + rest);
            lemma_res_unit_round(x, rest);
        },
        DaemonResponseView::Write(x) => {
            assert(whole.skip(1) =~= enc_res_u64(x) + rest);
            lemma_res_u64_round(x, rest);
        },
        DaemonResponseView::Remove(x) => {
            assert(whole.skip(1) =~= enc_res_unit(x) + rest);
            lemma_res_unit_round(x, rest);
        },
        DaemonResponseView::AppendDirectoryEntry(x) => {
            assert(whole.skip(1) =~= enc_res_unit(x) + rest);
            lemma_res_unit_round(x, rest);
        },
        DaemonResponseView::AddressFor(o) => {
            assert(whole.skip(1) =~= enc_opt_node_id(o) + rest);
            lemma_opt_node_id_round(o, rest);
        },
    }
}

// ---------------------------------------------------------------------------
// Client-to-daemon requests
// ---------------------------------------------------------------------------

/// One request on the local client byte stream.
pub enum ClientRequest {
    Find(Vec<u8>),
    /// Path and the name of the node to create on.
    Place(Vec<u8>, Vec<u8>),
    /// Path and the name of the node to create on.
    Mkdir(Vec<u8>, Vec<u8>),
    Open(Location),
    ReadFd(Location, u64, u64),
    ReadLineFd(Location, u64),
    Close(Vec<u8>, u64),
    Read(Location),
    /// Location and the byte count that follows.
    Write(Location, u64),
}

pub ghost enum ClientRequestView {
    Find(Seq<u8>),
    Place(Seq<u8>, Seq<u8>),
    Mkdir(Seq<u8>, Seq<u8>),
    Open(LocationView),
    ReadFd(LocationView, u64, u64),
    ReadLineFd(LocationView, u64),
    Close(Seq<u8>, u64),
    Read(LocationView),
    Write(LocationView, u64),
}

impl View for ClientRequest {
    type V = ClientRequestView;

    open spec fn view(&self) -> ClientRequestView {
        match self {
            ClientRequest::Find(p) => ClientRequestView::Find(p@),
            ClientRequest::Place(p, a) => ClientRequestView::Place(p@, a@),
            ClientRequest::Mkdir(p, a) => ClientRequestView::Mkdir(p@, a@),
            ClientRequest::Open(l) => ClientRequestView::Open(l@),
            ClientRequest::ReadFd(l, fd, n) => ClientRequestView::ReadFd(l@, *fd, *n),
            ClientRequest::ReadLineFd(l, fd) => ClientRequestView::ReadLineFd(l@, *fd),
            ClientRequest::Close(n, fd) => ClientRequestView::Close(n@, *fd),
            ClientRequest::Read(l) => ClientRequestView::Read(l@),
            ClientRequest::Write(l, n) => ClientRequestView::Write(l@, *n),
        }
    }
}

pub open spec fn creq_wf(r: ClientRequestView) -> bool {
    match r {
        ClientRequestView::Find(p) => p.len() <= usize::MAX,
        ClientRequestView::Place(p, a) => p.len() <= usize::MAX && a.len() <= usize::MAX,
        ClientRequestView::Mkdir(p, a) => p.len() <= usize::MAX && a.len() <= usize::MAX,
        ClientRequestView::Open(l) => loc_wf(l),
        ClientRequestView::ReadFd(l, _, _) => loc_wf(l),
        ClientRequestView::ReadLineFd(l, _) => loc_wf(l),
        ClientRequestView::Close(n, _) => n.len() <= usize::MAX,
        ClientRequestView::Read(l) => loc_wf(l),
        ClientRequestView::Write(l, _) => loc_wf(l),
    }
}

pub open spec fn enc_creq(r: ClientRequestView) -> Seq<u8> {
    match r {
        ClientRequestView::Find(p) => seq![0u8] + enc_bytes(p),
        ClientRequestView::Place(p, a) => seq![1u8] + enc_bytes(p) + enc_bytes(a),
        ClientRequestView::Mkdir(p, a) => seq![2u8] + enc_bytes(p) + enc_bytes(a),
        ClientRequestView::Open(l) => seq![3u8] + enc_location(l),
        ClientRequestView::ReadFd(l, fd, n) => seq![4u8] + enc_location(l) + enc_u64(fd)
            + enc_u64(n),
        ClientRequestView::ReadLineFd(l, fd) => seq![5u8] + enc_location(l) + enc_u64(fd),
        ClientRequestView::Close(n, fd) => seq![6u8] + enc_bytes(n) + enc_u64(fd),
        ClientRequestView::Read(l) => seq![7u8] + enc_location(l),
        ClientRequestView::Write(l, n) => seq![8u8] + enc_location(l) + enc_u64(n),
    }
}

pub open spec fn dec_creq(s: Seq<u8>) -> Option<(ClientRequestView, int)> {
    if s.len() < 1 {
        None
    } else if s[0] == 0u8 {
        match dec_bytes(s.skip(1)) {
            Some((p, k)) => Some((ClientRequestView::Find(p), 1 + k)),
            None => None,
        }
    } else if s[0] == 1u8 {
        match dec_bytes(s.skip(1)) {
            Some((p, k1)) => match dec_bytes(s.skip(1 + k1)) {
                Some((a, k2)) => Some((ClientRequestView::Place(p, a), 1 + k1 + k2)),
                None => None,
            },
            None => None,
        }
    } else if s[0] == 2u8 {
        match dec_bytes(s.skip(1)) {
            Some((p, k1)) => match dec_bytes(s.skip(1 + k1)) {
                Some((a, k2)) => Some((ClientRequestView::Mkdir(p, a), 1 + k1 + k2)),
                None => None,
            },
            None => None,
        }
    } else if s[0] == 3u8 {
        match dec_location(s.skip(1)) {
            Some((l, k)) => Some((ClientRequestView::Open(l), 1 + k)),
            None => None,
        }
    } else if s[0] == 4u8 {
        match dec_location(s.skip(1)) {
            Some((l, k1)) => match dec_u64(s.skip(1 + k1)) {
                Some((fd, k2)) => match dec_u64(s.skip(1 + k1 + k2)) {
                    Some((n, k3)) => Some(
                        (ClientRequestView::ReadFd(l, fd, n), 1 + k1 + k2 + k3),
                    ),
                    None => None,
                },
                None => None,
            },
            None => None,
        }
    } else if s[0] == 5u8 {
        match dec_location(s.skip(1)) {
            Some((l, k1)) => match dec_u64(s.skip(1 + k1)) {
                Some((fd, k2)) => Some((ClientRequestView::ReadLineFd(l, fd), 1 + k1 + k2)),
                None => None,
            },
            None => None,
        }
    } else if s[0] == 6u8 {
        match dec_bytes(s.skip(1)) {
            Some((n, k1)) => match dec_u64(s.skip(1 + k1)) {
                Some((fd, k2)) => Some((ClientRequestView::Close(n, fd), 1 + k1 + k2)),
                None => None,
            },
            None => None,
        }
    } else if s[0] == 7u8 {
        match dec_location(s.skip(1)) {
            Some((l, k)) => Some((ClientRequestView::Read(l), 1 + k)),
            None => None,
        }
    } else if s[0] == 8u8 {
        match dec_location(s.skip(1)) {
            Some((l, k1)) => match dec_u64(s.skip(1 + k1)) {
                Some((n, k2)) => Some((ClientRequestView::Write(l, n), 1 + k1 + k2)),
                None => None,
            },
            None => None,
        }
    } else {
        None
    }
}

pub proof fn lemma_creq_round(r: ClientRequestView, rest: Seq<u8>)
    requires
        creq_wf(r),
    ensures
        dec_creq(enc_creq(r) + rest) == Some((r, enc_creq(r).len() as int)),
{
    broadcast use lemma_enc_u64_len, lemma_enc_bytes_len;

    let whole = enc_creq(r) + rest;
    match r {
        ClientRequestView::Find(p) => {
            assert(whole.skip(1) =~= enc_bytes(p) + rest);
            lemma_bytes_round(p, rest);
        },
        ClientRequestView::Place(p, a) => {
            let t1 = enc_bytes(a) + rest;
            assert(whole.skip(1) =~= enc_bytes(p) + t1);
            lemma_bytes_round(p, t1);
            let k1 = enc_bytes(p).len() as int;
            assert(whole.skip(1 + k1) =~= t1);
            lemma_bytes_round(a, rest);
        },
        ClientRequestView::Mkdir(p, a) => {
            let t1 = enc_bytes(a) + rest;
            assert(whole.skip(1) =~= enc_bytes(p) + t1);
            lemma_bytes_round(p, t1);
            let k1 = enc_bytes(p).len() as int;
            assert(whole.skip(1 + k1) =~= t1);
            lemma_bytes_round(a, rest);
        },
        ClientRequestView::Open(l) => {
            assert(whole.skip(1) =~= enc_location(l) + rest);
            lemma_location_round(l, rest);
        },
        ClientRequestView::ReadFd(l, fd, n) => {
            let t2 = enc_u64(n) + rest;
            let t1 = enc_u64(fd) + t2;
            assert(whole.skip(1) =~= enc_location(l) + t1);
            lemma_location_round(l, t1);
            let k1 = enc_location(l).len() as int;
            assert(whole.skip(1 + k1) =~= t1);
            lemma_u64_round(fd, t2);
            assert(whole.skip(1 + k1 + 8) =~= t2);
            lemma_u64_round(n, rest);
        },
        ClientRequestView::ReadLineFd(l, fd) => {
            let t1 = enc_u64(fd) + rest;
            assert(whole.skip(1) =~= enc_location(l) + t1);
            lemma_location_round(l, t1);
            let k1 = enc_location(l).len() as int;
            assert(whole.skip(1 + k1) =~= t1);
            lemma_u64_round(fd, rest);
        },
        ClientRequestView::Close(n, fd) => {
            let t1 = enc_u64(fd) + rest;
            assert(whole.skip(1) =~= enc_bytes(n) + t1);
            lemma_bytes_round(n, t1);
            let k1 = enc_bytes(n).len() as int;
            assert(whole.skip(1 + k1) =~= t1);
            lemma_u64_round(fd, rest);
        },
        ClientRequestView::Read(l) => {
            assert(whole.skip(1) =~= enc_location(l) + rest);
            lemma_location_round(l, rest);
        },
        ClientRequestView::Write(l, n) => {
            let t1 = enc_u64(n) + rest;
            assert(whole.skip(1) =~= enc_location(l) + t1);
            lemma_location_round(l, t1);
            let k1 = enc_location(l).len() as int;
            assert(whole.skip(1 + k1) =~= t1);
            lemma_u64_round(n, rest);
        },
    }
}

// ---------------------------------------------------------------------------
// Client-to-daemon responses
// ---------------------------------------------------------------------------

/// The answer to one `ClientRequest`.
pub enum ClientResponse {
    Find(Result<DirectoryEntry, VPFSError>),
    Place(Result<Location, VPFSError>),
    Mkdir(Result<Location, VPFSError>),
    Open(Result<u64, VPFSError>),
    ReadFd(Result<u64, VPFSError>),
    ReadLineFd(Result<u64, VPFSError>),
    Close(Result<(), VPFSError>),
    Read(Result<u64, VPFSError>),
    Write(Result<u64, VPFSError>),
}

pub ghost enum ClientResponseView {
    Find(Result<DirectoryEntryView, VPFSErrorView>),
    Place(Result<LocationView, VPFSErrorView>),
    Mkdir(Result<LocationView, VPFSErrorView>),
    Open(Result<u64, VPFSErrorView>),
    ReadFd(Result<u64, VPFSErrorView>),
    ReadLineFd(Result<u64, VPFSErrorView>),
    Close(Result<(), VPFSErrorView>),
    Read(Result<u64, VPFSErrorView>),
    Write(Result<u64, VPFSErrorView>),
}

pub open spec fn res_entry_view(r: Result<DirectoryEntry, VPFSError>) -> Result<
    DirectoryEntryView,
    VPFSErrorView,
> {
    match r {
        Ok(e) => Ok(e@),
        Err(e) => Err(e@),
    }
}

pub open spec fn res_loc_view(r: Result<Location, VPFSError>) -> Result<
    LocationView,
    VPFSErrorView,
> {
    match r {
        Ok(l) => Ok(l@),
        Err(e) => Err(e@),
    }
}

impl View for ClientResponse {
    type V = ClientResponseView;

    open spec fn view(&self) -> ClientResponseView {
        match self {
            ClientResponse::Find(r) => ClientResponseView::Find(res_entry_view(*r)),
            ClientResponse::Place(r) => ClientResponseView::Place(res_loc_view(*r)),
            ClientResponse::Mkdir(r) => ClientResponseView::Mkdir(res_loc_view(*r)),
            ClientResponse::Open(r) => ClientResponseView::Open(res_u64_view(*r)),
            ClientResponse::ReadFd(r) => ClientResponseView::ReadFd(res_u64_view(*r)),
            ClientResponse::ReadLineFd(r) => ClientResponseView::ReadLineFd(res_u64_view(*r)),
            ClientResponse::Close(r) => ClientResponseView::Close(res_unit_view(*r)),
            ClientResponse::Read(r) => ClientResponseView::Read(res_u64_view(*r)),
            ClientResponse::Write(r) => ClientResponseView::Write(res_u64_view(*r)),
        }
    }
}

pub open spec fn res_entry_wf(r: Result<DirectoryEntryView, VPFSErrorView>) -> bool {
    match r {
        Ok(e) => entry_wf(e),
        Err(e) => err_wf(e),
    }
}

pub open spec fn res_loc_wf(r: Result<LocationView, VPFSErrorView>) -> bool {
    match r {
        Ok(l) => loc_wf(l),
        Err(e) => err_wf(e),
    }
}

pub open spec fn cresp_wf(r: ClientResponseView) -> bool {
    match r {
        ClientResponseView::Find(x) => res_entry_wf(x),
        ClientResponseView::Place(x) => res_loc_wf(x),
        ClientResponseView::Mkdir(x) => res_loc_wf(x),
        ClientResponseView::Open(x) => res_u64_wf(x),
        ClientResponseView::ReadFd(x) => res_u64_wf(x),
        ClientResponseView::ReadLineFd(x) => res_u64_wf(x),
        ClientResponseView::Close(x) => res_unit_wf(x),
        ClientResponseView::Read(x) => res_u64_wf(x),
        ClientResponseView::Write(x) => res_u64_wf(x),
    }
}

pub open spec fn enc_cresp(r: ClientResponseView) -> Seq<u8> {
    match r {
        ClientResponseView::Find(x) => seq![0u8] + enc_res_entry(x),
        ClientResponseView::Place(x) => seq![1u8] + enc_res_loc(x),
        ClientResponseView::Mkdir(x) => seq![2u8] + enc_res_loc(x),
        ClientResponseView::Open(x) => seq![3u8] + enc_res_u64(x),
        ClientResponseView::ReadFd(x) => seq![4u8] + enc_res_u64(x),
        ClientResponseView::ReadLineFd(x) => seq![5u8] + enc_res_u64(x),
        ClientResponseView::Close(x) => seq![6u8] + enc_res_unit(x),
        ClientResponseView::Read(x) => seq![7u8] + enc_res_u64(x),
        ClientResponseView::Write(x) => seq![8u8] + enc_res_u64(x),
    }
}

pub open spec fn dec_cresp(s: Seq<u8>) -> Option<(ClientResponseView, int)> {
    if s.len() < 1 {
        None
    } else if s[0] == 0u8 {
        match dec_res_entry(s.skip(1)) {
            Some((x, k)) => Some((ClientResponseView::Find(x), 1 + k)),
            None => None,
        }
    } else if s[0] == 1u8 {
        match dec_res_loc(s.skip(1)) {
            Some((x, k)) => Some((ClientResponseView::Place(x), 1 + k)),
            None => None,
        }
    } else if s[0] == 2u8 {
        match dec_res_loc(s.skip(1)) {
            Some((x, k)) => Some((ClientResponseView::Mkdir(x), 1 + k)),
            None => None,
        }
    } else if s[0] == 3u8 {
        match dec_res_u64(s.skip(1)) {
            Some((x, k)) => Some((ClientResponseView::Open(x), 1 + k)),
            None => None,
        }
    } else if s[0] == 4u8 {
        match dec_res_u64(s.skip(1)) {
            Some((x, k)) => Some((ClientResponseView::ReadFd(x), 1 + k)),
            None => None,
        }
    } else if s[0] == 5u8 {
        match dec_res_u64(s.skip(1)) {
            Some((x, k)) => Some((ClientResponseView::ReadLineFd(x), 1 + k)),
            None => None,
        }
    } else if s[0] == 6u8 {
        match dec_res_unit(s.skip(1)) {
            Some((x, k)) => Some((ClientResponseView::Close(x), 1 + k)),
            None => None,
        }
    } else if s[0] == 7u8 {
        match dec_res_u64(s.skip(1)) {
            Some((x, k)) => Some((ClientResponseView::Read(x), 1 + k)),
            None => None,
        }
    } else if s[0] == 8u8 {
        match dec_res_u64(s.skip(1)) {
            Some((x, k)) => Some((ClientResponseView::Write(x), 1 + k)),
            None => None,
        }
    } else {
        None
    }
}

pub proof fn lemma_cresp_round(r: ClientResponseView, rest: Seq<u8>)
    requires
        cresp_wf(r),
    ensures
        dec_cresp(enc_cresp(r) + rest) == Some((r, enc_cresp(r).len() as int)),
{
    broadcast use lemma_enc_u64_len, lemma_enc_bytes_len;

    let whole = enc_cresp(r) + rest;
    match r {
        ClientResponseView::Find(x) => {
            assert(whole.skip(1) =~= enc_res_entry(x) + rest);
            lemma_res_entry_round(x, rest);
        },
        ClientResponseView::Place(x) => {
            assert(whole.skip(1) =~= enc_res_loc(x) + rest);
            lemma_res_loc_round(x, rest);
        },
        ClientResponseView::Mkdir(x) => {
            assert(whole.skip(1) =~= enc_res_loc(x) + rest);
            lemma_res_loc_round(x, rest);
        },
        ClientResponseView::Open(x) => {
            assert(whole.skip(1) =~= enc_res_u64(x) + rest);
            lemma_res_u64_round(x, rest);
        },
        ClientResponseView::ReadFd(x) => {
            assert(whole.skip(1) =~= enc_res_u64(x) + rest);
            lemma_res_u64_round(x, rest);
        },
        ClientResponseView::ReadLineFd(x) => {
            assert(whole.skip(1) =~= enc_res_u64(x) + rest);
            lemma_res_u64_round(x, rest);
        },
        ClientResponseView::Close(x) => {
            assert(whole.skip(1) =~= enc_res_unit(x) + rest);
            lemma_res_unit_round(x, rest);
        },
        ClientResponseView::Read(x) => {
            assert(whole.skip(1) =~= enc_res_u64(x) + rest);
            lemma_res_u64_round(x, rest);
        },
        ClientResponseView::Write(x) => {
            assert(whole.skip(1) =~= enc_res_u64(x) + rest);
            lemma_res_u64_round(x, rest);
        },
    }
}

// ---------------------------------------------------------------------------
// Framing: every message travels as an 8-byte big-endian length followed by
// that many payload bytes, which is exactly the byte-string encoding
// ---------------------------------------------------------------------------

pub open spec fn enc_frame(payload: Seq<u8>) -> Seq<u8> {
    enc_bytes(payload)
}

pub open spec fn dec_frame(s: Seq<u8>) -> Option<(Seq<u8>, int)> {
    dec_bytes(s)
}

/// Framing round-trips: a framed payload followed by anything decodes to
/// exactly that payload.
pub proof fn lemma_frame_round(payload: Seq<u8>, rest: Seq<u8>)
    requires
        payload.len() <= usize::MAX,
    ensures
        dec_frame(enc_frame(payload) + rest) == Some((payload, 8 + payload.len() as int)),
{
    lemma_bytes_round(payload, rest);
}

// ---------------------------------------------------------------------------
// Executable encoders and decoders for the messages
// ---------------------------------------------------------------------------

pub fn write_hello(out: &mut Vec<u8>, h: &Hello)
    ensures
        final(out)@ == old(out)@ + enc_hello(h@),
{
    match h {
        Hello::ClientHello => {
            out.push(0u8);
            proof {
                assert(out@ =~= old(out)@ + seq![0u8]);
            }
        },
        Hello::DaemonHello => {
            out.push(1u8);
            proof {
                assert(out@ =~= old(out)@ + seq![1u8]);
            }
        },
        Hello::RootHello(n) => {
            out.push(2u8);
            let ghost mid = out@;
            write_vnode(out, n);
            proof {
                assert(mid =~= old(out)@ + seq![2u8]);
                assert(out@ =~= old(out)@ + (seq![2u8] + enc_vnode(n@)));
            }
        },
    }
}

pub fn read_hello(s: &[u8], pos: usize) -> (r: Option<(Hello, usize)>)
    requires
        pos <= s@.len(),
    ensures
        r matches Some((h, end)) ==> pos < end <= s@.len() && dec_hello(s@.skip(pos as int))
            == Some((h@, end - pos)),
        r is None ==> dec_hello(s@.skip(pos as int)) is None,
{
    if s.len() - pos < 1 {
        return None;
    }
    proof {
        lemma_skip_skip(s@, pos as int, 1int);
    }
    if s[pos] == 0 {
        Some((Hello::ClientHello, pos + 1))
    } else if s[pos] == 1 {
        Some((Hello::DaemonHello, pos + 1))
    } else if s[pos] == 2 {
        match read_vnode(s, pos + 1) {
            None => None,
            Some((n, end)) => Some((Hello::RootHello(n), end)),
        }
    } else {
        None
    }
}

pub fn write_hello_resp(out: &mut Vec<u8>, h: &HelloResponse)
    ensures
        final(out)@ == old(out)@ + enc_hello_resp(h@),
{
    match h {
        HelloResponse::ClientHello(n) => {
            out.push(0u8);
            let ghost mid = out@;
            write_bytes(out, n.as_slice());
            proof {
                assert(mid =~= old(out)@ + seq![0u8]);
                assert(out@ =~= old(out)@ + (seq![0u8] + enc_bytes(n@)));
            }
        },
        HelloResponse::DaemonHello => {
            out.push(1u8);
            proof {
                assert(out@ =~= old(out)@ + seq![1u8]);
            }
        },
        HelloResponse::RootHello(n, hosts) => {
            out.push(2u8);
            let ghost mid = out@;
            write_vnode(out, n);
            write_hosts(out, hosts);
            proof {
                assert(mid =~= old(out)@ + seq![2u8]);
                assert(out@ =~= old(out)@ + (seq![2u8] + enc_vnode(n@) + enc_hosts(
                    hosts_view(hosts@),
                )));
            }
        },
    }
}

pub fn read_hello_resp(s: &[u8], pos: usize) -> (r: Option<(HelloResponse, usize)>)
    requires
        pos <= s@.len(),
    ensures
        r matches Some((h, end)) ==> pos < end <= s@.len() && dec_hello_resp(
            s@.skip(pos as int),
        ) == Some((h@, end - pos)),
        r is None ==> dec_hello_resp(s@.skip(pos as int)) is None,
{
    if s.len() - pos < 1 {
        return None;
    }
    proof {
        lemma_skip_skip(s@, pos as int, 1int);
    }
    if s[pos] == 0 {
        match read_bytes(s, pos + 1) {
            None => None,
            Some((n, end)) => Some((HelloResponse::ClientHello(n), end)),
        }
    } else if s[pos] == 1 {
        Some((HelloResponse::DaemonHello, pos + 1))
    } else if s[pos] == 2 {
        match read_vnode(s, pos + 1) {
            None => None,
            Some((n, p1)) => {
                proof {
                    lemma_skip_skip(s@, pos as int, p1 - pos);
                }
                match read_hosts(s, p1) {
                    None => None,
                    Some((hosts, end)) => Some((HelloResponse::RootHello(n, hosts), end)),
                }
            },
        }
    } else {
        None
    }
}

pub fn write_dreq(out: &mut Vec<u8>, m: &DaemonRequest)
    ensures
        final(out)@ == old(out)@ + enc_dreq(m@),
{
    match m {
        DaemonRequest::Place => {
            out.push(0u8);
            proof {
                assert(out@ =~= old(out)@ + seq![0u8]);
            }
        },
        DaemonRequest::Open(u) => {
            out.push(1u8);
            let ghost mid = out@;
            write_bytes(out, u.as_slice());
            proof {
                assert(mid =~= old(out)@ + seq![1u8]);
                assert(out@ =~= old(out)@ + (seq![1u8] + enc_bytes(u@)));
            }
        },
        DaemonRequest::Read(u, t) => {
            out.push(2u8);
            let ghost mid = out@;
            write_bytes(out, u.as_slice());
            write_opt_u64(out, t);
            proof {
                assert(mid =~= old(out)@ + seq![2u8]);
                assert(out@ =~= old(out)@ + (seq![2u8] + enc_bytes(u@) + enc_opt_u64(*t)));
            }
        },
        DaemonRequest::ReadFd(fd, n) => {
            out.push(3u8);
            let ghost mid = out@;
            write_u64(out, *fd);
            write_u64(out, *n);
            proof {
                assert(mid =~= old(out)@ + seq![3u8]);
                assert(out@ =~= old(out)@ + (seq![3u8] + enc_u64(*fd) + enc_u64(*n)));
            }
        },
        DaemonRequest::ReadLineFd(fd) => {
            out.push(4u8);
            let ghost mid = out@;
            write_u64(out, *fd);
            proof {
                assert(mid =~= old(out)@ + seq![4u8]);
                assert(out@ =~= old(out)@ + (seq![4u8] + enc_u64(*fd)));
            }
        },
        DaemonRequest::Close(fd) => {
            out.push(5u8);
            let ghost mid = out@;
            write_u64(out, *fd);
            proof {
                assert(mid =~= old(out)@ + seq![5u8]);
                assert(out@ =~= old(out)@ + (seq![5u8] + enc_u64(*fd)));
            }
        },
        DaemonRequest::Write(u) => {
            out.push(6u8);
            let ghost mid = out@;
            write_bytes(out, u.as_slice());
            proof {
                assert(mid =~= old(out)@ + seq![6u8]);
                assert(out@ =~= old(out)@ + (seq![6u8] + enc_bytes(u@)));
            }
        },
        DaemonRequest::Remove(u) => {
            out.push(7u8);
            let ghost mid = out@;
            write_bytes(out, u.as_slice());
            proof {
                assert(mid =~= old(out)@ + seq![7u8]);
                assert(out@ =~= old(out)@ + (seq![7u8] + enc_bytes(u@)));
            }
        },
        DaemonRequest::AppendDirectoryEntry(u, e) => {
            out.push(8u8);
            let ghost mid = out@;
            write_bytes(out, u.as_slice());
            write_entry(out, e);
            proof {
                assert(mid =~= old(out)@ + seq![8u8]);
                assert(out@ =~= old(out)@ + (seq![8u8] + enc_bytes(u@) + enc_entry(e@)));
            }
        },
        DaemonRequest::AddressFor(n) => {
            out.push(9u8);
            let ghost mid = out@;
            write_bytes(out, n.as_slice());
            proof {
                assert(mid =~= old(out)@ + seq![9u8]);
                assert(out@ =~= old(out)@ + (seq![9u8] + enc_bytes(n@)));
            }
        },
    }
}

pub fn read_dreq(s: &[u8], pos: usize) -> (r: Option<(DaemonRequest, usize)>)
    requires
        pos <= s@.len(),
    ensures
        r matches Some((m, end)) ==> pos < end <= s@.len() && dec_dreq(s@.skip(pos as int))
            == Some((m@, end - pos)),
        r is None ==> dec_dreq(s@.skip(pos as int)) is None,
{
    if s.len() - pos < 1 {
        return None;
    }
    let tag = s[pos];
    proof {
        lemma_skip_skip(s@, pos as int, 1int);
    }
    if tag == 0 {
        Some((DaemonRequest::Place, pos + 1))
    } else if tag == 1 {
        match read_bytes(s, pos + 1) {
            None => None,
            Some((u, end)) => Some((DaemonRequest::Open(u), end)),
        }
    } else if tag == 2 {
        match read_bytes(s, pos + 1) {
            None => None,
            Some((u, p1)) => {
                proof {
                    lemma_skip_skip(s@, pos as int, p1 - pos);
                }
                match read_opt_u64(s, p1) {
                    None => None,
                    Some((t, end)) => Some((DaemonRequest::Read(u, t), end)),
                }
            },
        }
    } else if tag == 3 {
        match read_u64(s, pos + 1) {
            None => None,
            Some((fd, p1)) => {
                proof {
                    lemma_skip_skip(s@, pos as int, p1 - pos);
                }
                match read_u64(s, p1) {
                    None => None,
                    Some((n, end)) => Some((DaemonRequest::ReadFd(fd, n), end)),
                }
            },
        }
    } else if tag == 4 {
        match read_u64(s, pos + 1) {
            None => None,
            Some((fd, end)) => Some((DaemonRequest::ReadLineFd(fd), end)),
        }
    } else if tag == 5 {
        match read_u64(s, pos + 1) {
            None => None,
            Some((fd, end)) => Some((DaemonRequest::Close(fd), end)),
        }
    } else if tag == 6 {
        match read_bytes(s, pos + 1) {
            None => None,
            Some((u, end)) => Some((DaemonRequest::Write(u), end)),
        }
    } else if tag == 7 {
        match read_bytes(s, pos + 1) {
            None => None,
            Some((u, end)) => Some((DaemonRequest::Remove(u), end)),
        }
    } else if tag == 8 {
        match read_bytes(s, pos + 1) {
            None => None,
            Some((u, p1)) => {
                proof {
                    lemma_skip_skip(s@, pos as int, p1 - pos);
                }
                match read_entry(s, p1) {
                    None => None,
                    Some((e, end)) => Some((DaemonRequest::AppendDirectoryEntry(u, e), end)),
                }
            },
        }
    } else if tag == 9 {
        match read_bytes(s, pos + 1) {
            None => None,
            Some((n, end)) => Some((DaemonRequest::AddressFor(n), end)),
        }
    } else {
        None
    }
}

pub fn write_dresp(out: &mut Vec<u8>, m: &DaemonResponse)
    ensures
        final(out)@ == old(out)@ + enc_dresp(m@),
{
    match m {
        DaemonResponse::Place(u) => {
            out.push(0u8);
            let ghost mid = out@;
            write_bytes(out, u.as_slice());
            proof {
                assert(mid =~= old(out)@ + seq![0u8]);
                assert(out@ =~= old(out)@ + (seq![0u8] + enc_bytes(u@)));
            }
        },
        DaemonResponse::Open(x) => {
            out.push(1u8);
            let ghost mid = out@;
            write_res_u64(out, x);
            proof {
                assert(mid =~= old(out)@ + seq![1u8]);
                assert(out@ =~= old(out)@ + (seq![1u8] + enc_res_u64(res_u64_view(*x))));
            }
        },
        DaemonResponse::Read(x) => {
            out.push(2u8);
            let ghost mid = out@;
            write_res_unit(out, x);
            proof {
                assert(mid =~= old(out)@ + seq![2u8]);
                assert(out@ =~= old(out)@ + (seq![2u8] + enc_res_unit(res_unit_view(*x))));
            }
        },
        DaemonResponse::ReadFd(x) => {
            out.push(3u8);
            let ghost mid = out@;
            write_res_unit(out, x);
            proof {
                assert(mid =~= old(out)@ + seq![3u8]);
                assert(out@ =~= old(out)@ + (seq![3u8] + enc_res_unit(res_unit_view(*x))));
            }
        },
        DaemonResponse::ReadLineFd(x) => {
            out.push(4u8);
            let ghost mid = out@;
            write_res_unit(out, x);
            proof {
                assert(mid =~= old(out)@ + seq![4u8]);
                assert(out@ =~= old(out)@ + (seq![4u8] + enc_res_unit(res_unit_view(*x))));
            }
        },
        DaemonResponse::Close(x) => {
            out.push(5u8);
            let ghost mid = out@;
            write_res_unit(out, x);
            proof {
                assert(mid =~= old(out)@ + seq![5u8]);
                assert(out@ =~= old(out)@ + (seq![5u8] + enc_res_unit(res_unit_view(*x))));
            }
        },
        DaemonResponse::Write(x) => {
            out.push(6u8);
            let ghost mid = out@;
            write_res_u64(out, x);
            proof {
                assert(mid =~= old(out)@ + seq![6u8]);
                assert(out@ =~= old(out)@ + (seq![6u8] + enc_res_u64(res_u64_view(*x))));
            }
        },
        DaemonResponse::Remove(x) => {
            out.push(7u8);
            let ghost mid = out@;
            write_res_unit(out, x);
            proof {
                assert(mid =~= old(out)@ + seq![7u8]);
                assert(out@ =~= old(out)@ + (seq![7u8] + enc_res_unit(res_unit_view(*x))));
            }
        },
        DaemonResponse::AppendDirectoryEntry(x) => {
            out.push(8u8);
            let ghost mid = out@;
            write_res_unit(out, x);
            proof {
                assert(mid =~= old(out)@ + seq![8u8]);
                assert(out@ =~= old(out)@ + (seq![8u8] + enc_res_unit(res_unit_view(*x))));
            }
        },
        DaemonResponse::AddressFor(o) => {
            out.push(9u8);
            let ghost mid = out@;
            write_opt_node_id(out, o);
            proof {
                assert(mid =~= old(out)@ + seq![9u8]);
                assert(out@ =~= old(out)@ + (seq![9u8] + enc_opt_node_id(match o {
                    Some(v) => Some(v@),
                    None => None,
                })));
            }
        },
    }
}

pub fn read_dresp(s: &[u8], pos: usize) -> (r: Option<(DaemonResponse, usize)>)
    requires
        pos <= s@.len(),
    ensures
        r matches Some((m, end)) ==> pos < end <= s@.len() && dec_dresp(s@.skip(pos as int))
            == Some((m@, end - pos)),
        r is None ==> dec_dresp(s@.skip(pos as int)) is None,
{
    if s.len() - pos < 1 {
        return None;
    }
    let tag = s[pos];
    proof {
        lemma_skip_skip(s@, pos as int, 1int);
    }
    if tag == 0 {
        match read_bytes(s, pos + 1) {
            None => None,
            Some((u, end)) => Some((DaemonResponse::Place(u), end)),
        }
    } else if tag == 1 {
        match read_res_u64(s, pos + 1) {
            None => None,
            Some((x, end)) => Some((DaemonResponse::Open(x), end)),
        }
    } else if tag == 2 {
        match read_res_unit(s, pos + 1) {
            None => None,
            Some((x, end)) => Some((DaemonResponse::Read(x), end)),
        }
    } else if tag == 3 {
        match read_res_unit(s, pos + 1) {
            None => None,
            Some((x, end)) => Some((DaemonResponse::ReadFd(x), end)),
        }
    } else if tag == 4 {
        match read_res_unit(s, pos + 1) {
            None => None,
            Some((x, end)) => Some((DaemonResponse::ReadLineFd(x), end)),
        }
    } else if tag == 5 {
        match read_res_unit(s, pos + 1) {
            None => None,
            Some((x, end)) => Some((DaemonResponse::Close(x), end)),
        }
    } else if tag == 6 {
        match read_res_u64(s, pos + 1) {
            None => None,
            Some((x, end)) => Some((DaemonResponse::Write(x), end)),
        }
    } else if tag == 7 {
        match read_res_unit(s, pos + 1) {
            None => None,
            Some((x, end)) => Some((DaemonResponse::Remove(x), end)),
        }
    } else if tag == 8 {
        match read_res_unit(s, pos + 1) {
            None => None,
            Some((x, end)) => Some((DaemonResponse::AppendDirectoryEntry(x), end)),
        }
    } else if tag == 9 {
        match read_opt_node_id(s, pos + 1) {
            None => None,
            Some((o, end)) => Some((DaemonResponse::AddressFor(o), end)),
        }
    } else {
        None
    }
}

pub fn write_creq(out: &mut Vec<u8>, m: &ClientRequest)
    ensures
        final(out)@ == old(out)@ + enc_creq(m@),
{
    match m {
        ClientRequest::Find(p) => {
            out.push(0u8);
            let ghost mid = out@;
            write_bytes(out, p.as_slice());
            proof {
                assert(mid =~= old(out)@ + seq![0u8]);
                assert(out@ =~= old(out)@ + (seq![0u8] + enc_bytes(p@)));
            }
        },
        ClientRequest::Place(p, a) => {
            out.push(1u8);
            let ghost mid = out@;
            write_bytes(out, p.as_slice());
            write_bytes(out, a.as_slice());
            proof {
                assert(mid =~= old(out)@ + seq![1u8]);
                assert(out@ =~= old(out)@ + (seq![1u8] + enc_bytes(p@) + enc_bytes(a@)));
            }
        },
        ClientRequest::Mkdir(p, a) => {
            out.push(2u8);
            let ghost mid = out@;
            write_bytes(out, p.as_slice());
            write_bytes(out, a.as_slice());
            proof {
                assert(mid =~= old(out)@ + seq![2u8]);
                assert(out@ =~= old(out)@ + (seq![2u8] + enc_bytes(p@) + enc_bytes(a@)));
            }
        },
        ClientRequest::Open(l) => {
            out.push(3u8);
            let ghost mid = out@;
            write_location(out, l);
            proof {
                assert(mid =~= old(out)@ + seq![3u8]);
                assert(out@ =~= old(out)@ + (seq![3u8] + enc_location(l@)));
            }
        },
        ClientRequest::ReadFd(l, fd, n) => {
            out.push(4u8);
            let ghost mid = out@;
            write_location(out, l);
            write_u64(out, *fd);
            write_u64(out, *n);
            proof {
                assert(mid =~= old(out)@ + seq![4u8]);
                assert(out@ =~= old(out)@ + (seq![4u8] + enc_location(l@) + enc_u64(*fd)
                    + enc_u64(*n)));
            }
        },
        ClientRequest::ReadLineFd(l, fd) => {
            out.push(5u8);
            let ghost mid = out@;
            write_location(out, l);
            write_u64(out, *fd);
            proof {
                assert(mid =~= old(out)@ + seq![5u8]);
                assert(out@ =~= old(out)@ + (seq![5u8] + enc_location(l@) + enc_u64(*fd)));
            }
        },
        ClientRequest::Close(n, fd) => {
            out.push(6u8);
            let ghost mid = out@;
            write_bytes(out, n.as_slice());
            write_u64(out, *fd);
            proof {
                assert(mid =~= old(out)@ + seq![6u8]);
                assert(out@ =~= old(out)@ + (seq![6u8] + enc_bytes(n@) + enc_u64(*fd)));
            }
        },
        ClientRequest::Read(l) => {
            out.push(7u8);
            let ghost mid = out@;
            write_location(out, l);
            proof {
                assert(mid =~= old(out)@ + seq![7u8]);
                assert(out@ =~= old(out)@ + (seq![7u8] + enc_location(l@)));
            }
        },
        ClientRequest::Write(l, n) => {
            out.push(8u8);
            let ghost mid = out@;
            write_location(out, l);
            write_u64(out, *n);
            proof {
                assert(mid =~= old(out)@ + seq![8u8]);
                assert(out@ =~= old(out)@ + (seq![8u8] + enc_location(l@) + enc_u64(*n)));
            }
        },
    }
}

pub fn read_creq(s: &[u8], pos: usize) -> (r: Option<(ClientRequest, usize)>)
    requires
        pos <= s@.len(),
    ensures
        r matches Some((m, end)) ==> pos < end <= s@.len() && dec_creq(s@.skip(pos as int))
            == Some((m@, end - pos)),
        r is None ==> dec_creq(s@.skip(pos as int)) is None,
{
    if s.len() - pos < 1 {
        return None;
    }
    let tag = s[pos];
    proof {
        lemma_skip_skip(s@, pos as int, 1int);
    }
    if tag == 0 {
        match read_bytes(s, pos + 1) {
            None => None,
            Some((p, end)) => Some((ClientRequest::Find(p), end)),
        }
    } else if tag == 1 {
        match read_bytes(s, pos + 1) {
            None => None,
            Some((p, p1)) => {
                proof {
                    lemma_skip_skip(s@, pos as int, p1 - pos);
                }
                match read_bytes(s, p1) {
                    None => None,
                    Some((a, end)) => Some((ClientRequest::Place(p, a), end)),
                }
            },
        }
    } else if tag == 2 {
        match read_bytes(s, pos + 1) {
            None => None,
            Some((p, p1)) => {
                proof {
                    lemma_skip_skip(s@, pos as int, p1 - pos);
                }
                match read_bytes(s, p1) {
                    None => None,
                    Some((a, end)) => Some((ClientRequest::Mkdir(p, a), end)),
                }
            },
        }
    } else if tag == 3 {
        match read_location(s, pos + 1) {
            None => None,
            Some((l, end)) => Some((ClientRequest::Open(l), end)),
        }
    } else if tag == 4 {
        match read_location(s, pos + 1) {
            None => None,
            Some((l, p1)) => {
                proof {
                    lemma_skip_skip(s@, pos as int, p1 - pos);
                }
                match read_u64(s, p1) {
                    None => None,
                    Some((fd, p2)) => {
                        proof {
                            lemma_skip_skip(s@, pos as int, p2 - pos);
                        }
                        match read_u64(s, p2) {
                            None => None,
                            Some((n, end)) => Some((ClientRequest::ReadFd(l, fd, n), end)),
                        }
                    },
                }
            },
        }
    } else if tag == 5 {
        match read_location(s, pos + 1) {
            None => None,
            Some((l, p1)) => {
                proof {
                    lemma_skip_skip(s@, pos as int, p1 - pos);
                }
                match read_u64(s, p1) {
                    None => None,
                    Some((fd, end)) => Some((ClientRequest::ReadLineFd(l, fd), end)),
                }
            },
        }
    } else if tag == 6 {
        match read_bytes(s, pos + 1) {
            None => None,
            Some((n, p1)) => {
                proof {
                    lemma_skip_skip(s@, pos as int, p1 - pos);
                }
                match read_u64(s, p1) {
                    None => None,
                    Some((fd, end)) => Some((ClientRequest::Close(n, fd), end)),
                }
            },
        }
    } else if tag == 7 {
        match read_location(s, pos + 1) {
            None => None,
            Some((l, end)) => Some((ClientRequest::Read(l), end)),
        }
    } else if tag == 8 {
        match read_location(s, pos + 1) {
            None => None,
            Some((l, p1)) => {
                proof {
                    lemma_skip_skip(s@, pos as int, p1 - pos);
                }
                match read_u64(s, p1) {
                    None => None,
                    Some((n, end)) => Some((ClientRequest::Write(l, n), end)),
                }
            },
        }
    } else {
        None
    }
}

pub fn write_cresp(out: &mut Vec<u8>, m: &ClientResponse)
    ensures
        final(out)@ == old(out)@ + enc_cresp(m@),
{
    match m {
        ClientResponse::Find(x) => {
            out.push(0u8);
            let ghost mid = out@;
            write_res_entry(out, x);
            proof {
                assert(mid =~= old(out)@ + seq![0u8]);
                assert(out@ =~= old(out)@ + (seq![0u8] + enc_res_entry(res_entry_view(*x))));
            }
        },
        ClientResponse::Place(x) => {
            out.push(1u8);
            let ghost mid = out@;
            write_res_loc(out, x);
            proof {
                assert(mid =~= old(out)@ + seq![1u8]);
                assert(out@ =~= old(out)@ + (seq![1u8] + enc_res_loc(res_loc_view(*x))));
            }
        },
        ClientResponse::Mkdir(x) => {
            out.push(2u8);
            let ghost mid = out@;
            write_res_loc(out, x);
            proof {
                assert(mid =~= old(out)@ + seq![2u8]);
                assert(out@ =~= old(out)@ + (seq![2u8] + enc_res_loc(res_loc_view(*x))));
            }
        },
        ClientResponse::Open(x) => {
            out.push(3u8);
            let ghost mid = out@;
            write_res_u64(out, x);
            proof {
                assert(mid =~= old(out)@ + seq![3u8]);
                assert(out@ =~= old(out)@ + (seq![3u8] + enc_res_u64(res_u64_view(*x))));
            }
        },
        ClientResponse::ReadFd(x) => {
            out.push(4u8);
            let ghost mid = out@;
            write_res_u64(out, x);
            proof {
                assert(mid =~= old(out)@ + seq![4u8]);
                assert(out@ =~= old(out)@ + (seq![4u8] + enc_res_u64(res_u64_view(*x))));
            }
        },
        ClientResponse::ReadLineFd(x) => {
            out.push(5u8);
            let ghost mid = out@;
            write_res_u64(out, x);
            proof {
                assert(mid =~= old(out)@ + seq![5u8]);
                assert(out@ =~= old(out)@ + (seq![5u8] + enc_res_u64(res_u64_view(*x))));
            }
        },
        ClientResponse::Close(x) => {
            out.push(6u8);
            let ghost mid = out@;
            write_res_unit(out, x);
            proof {
                assert(mid =~= old(out)@ + seq![6u8]);
                assert(out@ =~= old(out)@ + (seq![6u8] + enc_res_unit(res_unit_view(*x))));
            }
        },
        ClientResponse::Read(x) => {
            out.push(7u8);
            let ghost mid = out@;
            write_res_u64(out, x);
            proof {
                assert(mid =~= old(out)@ + seq![7u8]);
                assert(out@ =~= old(out)@ + (seq![7u8] + enc_res_u64(res_u64_view(*x))));
            }
        },
        ClientResponse::Write(x) => {
            out.push(8u8);
            let ghost mid = out@;
            write_res_u64(out, x);
            proof {
                assert(mid =~= old(out)@ + seq![8u8]);
                assert(out@ =~= old(out)@ + (seq![8u8] + enc_res_u64(res_u64_view(*x))));
            }
        },
    }
}

pub fn read_cresp(s: &[u8], pos: usize) -> (r: Option<(ClientResponse, usize)>)
    requires
        pos <= s@.len(),
    ensures
        r matches Some((m, end)) ==> pos < end <= s@.len() && dec_cresp(s@.skip(pos as int))
            == Some((m@, end - pos)),
        r is None ==> dec_cresp(s@.skip(pos as int)) is None,
{
    if s.len() - pos < 1 {
        return None;
    }
    let tag = s[pos];
    proof {
        lemma_skip_skip(s@, pos as int, 1int);
    }
    if tag == 0 {
        match read_res_entry(s, pos + 1) {
            None => None,
            Some((x, end)) => Some((ClientResponse::Find(x), end)),
        }
    } else if tag == 1 {
        match read_res_loc(s, pos + 1) {
            None => None,
            Some((x, end)) => Some((ClientResponse::Place(x), end)),
        }
    } else if tag == 2 {
        match read_res_loc(s, pos + 1) {
            None => None,
            Some((x, end)) => Some((ClientResponse::Mkdir(x), end)),
        }
    } else if tag == 3 {
        match read_res_u64(s, pos + 1) {
            None => None,
            Some((x, end)) => Some((ClientResponse::Open(x), end)),
        }
    } else if tag == 4 {
        match read_res_u64(s, pos + 1) {
            None => None,
            Some((x, end)) => Some((ClientResponse::ReadFd(x), end)),
        }
    } else if tag == 5 {
        match read_res_u64(s, pos + 1) {
            None => None,
            Some((x, end)) => Some((ClientResponse::ReadLineFd(x), end)),
        }
    } else if tag == 6 {
        match read_res_unit(s, pos + 1) {
            None => None,
            Some((x, end)) => Some((ClientResponse::Close(x), end)),
        }
    } else if tag == 7 {
        match read_res_u64(s, pos + 1) {
            None => None,
            Some((x, end)) => Some((ClientResponse::Read(x), end)),
        }
    } else if tag == 8 {
        match read_res_u64(s, pos + 1) {
            None => None,
            Some((x, end)) => Some((ClientResponse::Write(x), end)),
        }
    } else {
        None
    }
}

// ---------------------------------------------------------------------------
// Framing, executable: length header then payload
// ---------------------------------------------------------------------------

pub fn write_frame(out: &mut Vec<u8>, payload: &[u8])
    ensures
        final(out)@ == old(out)@ + enc_frame(payload@),
{
    write_bytes(out, payload);
}

pub fn read_frame(s: &[u8], pos: usize) -> (r: Option<(Vec<u8>, usize)>)
    requires
        pos <= s@.len(),
    ensures
        r matches Some((v, end)) ==> pos < end <= s@.len() && dec_frame(s@.skip(pos as int))
            == Some((v@, end - pos)),
        r is None ==> dec_frame(s@.skip(pos as int)) is None,
{
    read_bytes(s, pos)
}

} // verus!
