//! Byte-level structural encoding: the deterministic, tag-discriminated
//! format every message and every directory blob uses. Each value kind has
//! a spec-level encoder `enc_*`, a spec-level decoder `dec_*` that consumes
//! a prefix and reports how many bytes it took, executable twins, and a
//! proof that decoding an encoding gives the value back.

use vstd::prelude::*;
use crate::types::{NodeId, NodeIdView, VPFSNode, VPFSNodeView, Location, LocationView, DirectoryEntry, DirectoryEntryView, CacheEntry, CacheEntryView};
use crate::errors::{VPFSError, VPFSErrorView};

verus! {

// ---------------------------------------------------------------------------
// Unsigned integers, big-endian
// ---------------------------------------------------------------------------

#[verifier::opaque]
pub open spec fn enc_u64(x: u64) -> Seq<u8> {
    seq![
        (x >> 56) as u8,
        (x >> 48) as u8,
        (x >> 40) as u8,
        (x >> 32) as u8,
        (x >> 24) as u8,
        (x >> 16) as u8,
        (x >> 8) as u8,
        x as u8,
    ]
}

#[verifier::opaque]
pub open spec fn be_u64_of(
    b0: u8,
    b1: u8,
    b2: u8,
    b3: u8,
    b4: u8,
    b5: u8,
    b6: u8,
    b7: u8,
) -> u64 {
    ((b0 as u64) << 56) | ((b1 as u64) << 48) | ((b2 as u64) << 40) | ((b3 as u64) << 32) | ((
    b4 as u64) << 24) | ((b5 as u64) << 16) | ((b6 as u64) << 8) | (b7 as u64)
}

#[verifier::opaque]
pub open spec fn dec_u64(s: Seq<u8>) -> Option<(u64, int)> {
    if s.len() >= 8 {
        Some((be_u64_of(s[0], s[1], s[2], s[3], s[4], s[5], s[6], s[7]), 8int))
    } else {
        None
    }
}

pub broadcast proof fn lemma_enc_u64_len(x: u64)
    ensures
        #[trigger] enc_u64(x).len() == 8,
{
    reveal(enc_u64);
}

pub proof fn lemma_u64_round(x: u64, rest: Seq<u8>)
    ensures
        dec_u64(enc_u64(x) + rest) == Some((x, 8int)),
{
    reveal(enc_u64);
    reveal(dec_u64);
    reveal(be_u64_of);
    let s = enc_u64(x) + rest;
    assert(s[0] == (x >> 56) as u8);
    assert(s[1] == (x >> 48) as u8);
    assert(s[2] == (x >> 40) as u8);
    assert(s[3] == (x >> 32) as u8);
    assert(s[4] == (x >> 24) as u8);
    assert(s[5] == (x >> 16) as u8);
    assert(s[6] == (x >> 8) as u8);
    assert(s[7] == x as u8);
    assert(be_u64_of(
        (x >> 56) as u8,
        (x >> 48) as u8,
        (x >> 40) as u8,
        (x >> 32) as u8,
        (x >> 24) as u8,
        (x >> 16) as u8,
        (x >> 8) as u8,
        x as u8,
    ) == x) by (bit_vector);
}

// ---------------------------------------------------------------------------
// Booleans
// ---------------------------------------------------------------------------

pub open spec fn enc_bool(b: bool) -> Seq<u8> {
    seq![if b { 1u8 } else { 0u8 }]
}

pub open spec fn dec_bool(s: Seq<u8>) -> Option<(bool, int)> {
    if s.len() >= 1 && (s[0] == 0u8 || s[0] == 1u8) {
        Some((s[0] == 1u8, 1int))
    } else {
        None
    }
}

pub proof fn lemma_bool_round(b: bool, rest: Seq<u8>)
    ensures
        dec_bool(enc_bool(b) + rest) == Some((b, 1int)),
{
}

// ---------------------------------------------------------------------------
// Byte strings: a length header followed by the raw bytes
// ---------------------------------------------------------------------------

#[verifier::opaque]
pub open spec fn enc_bytes(s: Seq<u8>) -> Seq<u8> {
    enc_u64(s.len() as u64) + s
}

#[verifier::opaque]
pub open spec fn dec_bytes(s: Seq<u8>) -> Option<(Seq<u8>, int)> {
    match dec_u64(s) {
        Some((n, _)) => if n <= usize::MAX as u64 && s.len() - 8 >= n {
            Some((s.subrange(8, 8 + n as int), 8 + n as int))
        } else {
            None
        },
        None => None,
    }
}

pub broadcast proof fn lemma_enc_bytes_len(s: Seq<u8>)
    ensures
        #[trigger] enc_bytes(s).len() == 8 + s.len(),
{
    reveal(enc_bytes);
    lemma_enc_u64_len(s.len() as u64);
}

pub proof fn lemma_bytes_round(s: Seq<u8>, rest: Seq<u8>)
    requires
        s.len() <= usize::MAX,
    ensures
        dec_bytes(enc_bytes(s) + rest) == Some((s, 8 + s.len() as int)),
{
    reveal(enc_bytes);
    reveal(dec_bytes);
    lemma_enc_u64_len(s.len() as u64);
    let whole = enc_bytes(s) + rest;
    assert(whole =~= enc_u64(s.len() as u64) + (s + rest));
    lemma_u64_round(s.len() as u64, s + rest);
    assert(whole.subrange(8, 8 + s.len() as int) =~= s);
}

// ---------------------------------------------------------------------------
// Helpers for sequential composition
// ---------------------------------------------------------------------------

pub proof fn lemma_skip_concat(a: Seq<u8>, b: Seq<u8>)
    ensures
        (a + b).skip(a.len() as int) =~= b,
{
}

// ---------------------------------------------------------------------------
// Size bounds: every field of a view that a real value can take fits memory
// ---------------------------------------------------------------------------

pub open spec fn node_id_wf(n: NodeIdView) -> bool {
    n.bytes.len() <= usize::MAX
}

pub open spec fn vnode_wf(n: VPFSNodeView) -> bool {
    n.name.len() <= usize::MAX && node_id_wf(n.endpoint_id)
}

pub open spec fn loc_wf(l: LocationView) -> bool {
    l.node_name.len() <= usize::MAX && l.uri.len() <= usize::MAX
}

pub open spec fn entry_wf(e: DirectoryEntryView) -> bool {
    loc_wf(e.location) && e.name.len() <= usize::MAX
}

pub open spec fn cache_entry_wf(c: CacheEntryView) -> bool {
    c.uri.len() <= usize::MAX
}

pub open spec fn err_wf(e: VPFSErrorView) -> bool {
    match e {
        VPFSErrorView::OnlyInCache(l) => loc_wf(l),
        VPFSErrorView::CacheNeededForTraversal(en) => entry_wf(en),
        VPFSErrorView::AlreadyExists(en) => entry_wf(en),
        VPFSErrorView::Other(s) => s.len() <= usize::MAX,
        _ => true,
    }
}

/// The view of every location a program holds is well formed.
pub proof fn lemma_loc_view_wf(l: &Location)
    ensures
        loc_wf(l@),
{
    crate::types::lemma_vec_len_bound(&l.node_name);
    crate::types::lemma_vec_len_bound(&l.uri);
}

pub proof fn lemma_entry_view_wf(e: &DirectoryEntry)
    ensures
        entry_wf(e@),
{
    lemma_loc_view_wf(&e.location);
    crate::types::lemma_vec_len_bound(&e.name);
}

// ---------------------------------------------------------------------------
// Node identities and nodes
// ---------------------------------------------------------------------------

pub open spec fn enc_node_id(n: NodeIdView) -> Seq<u8> {
    enc_bytes(n.bytes)
}

pub open spec fn dec_node_id(s: Seq<u8>) -> Option<(NodeIdView, int)> {
    match dec_bytes(s) {
        Some((b, n)) => Some((NodeIdView { bytes: b }, n)),
        None => None,
    }
}

pub proof fn lemma_node_id_round(v: NodeIdView, rest: Seq<u8>)
    requires
        node_id_wf(v),
    ensures
        dec_node_id(enc_node_id(v) + rest) == Some((v, enc_node_id(v).len() as int)),
{
    broadcast use lemma_enc_u64_len, lemma_enc_bytes_len;
    lemma_bytes_round(v.bytes, rest);
}

pub open spec fn enc_vnode(n: VPFSNodeView) -> Seq<u8> {
    enc_bytes(n.name) + enc_node_id(n.endpoint_id)
}

pub open spec fn dec_vnode(s: Seq<u8>) -> Option<(VPFSNodeView, int)> {
    match dec_bytes(s) {
        Some((name, n1)) => match dec_node_id(s.skip(n1)) {
            Some((id, n2)) => Some((VPFSNodeView { name, endpoint_id: id }, n1 + n2)),
            None => None,
        },
        None => None,
    }
}

pub proof fn lemma_vnode_round(v: VPFSNodeView, rest: Seq<u8>)
    requires
        vnode_wf(v),
    ensures
        dec_vnode(enc_vnode(v) + rest) == Some((v, enc_vnode(v).len() as int)),
{
    broadcast use lemma_enc_u64_len, lemma_enc_bytes_len;
    let tail = enc_node_id(v.endpoint_id) + rest;
    assert(enc_vnode(v) + rest =~= enc_bytes(v.name) + tail);
    lemma_bytes_round(v.name, tail);
    lemma_skip_concat(enc_bytes(v.name), tail);
    lemma_node_id_round(v.endpoint_id, rest);
}

// ---------------------------------------------------------------------------
// Locations, directory entries, cache entries
// ---------------------------------------------------------------------------

pub open spec fn enc_location(l: LocationView) -> Seq<u8> {
    enc_bytes(l.node_name) + enc_bytes(l.uri)
}

pub open spec fn dec_location(s: Seq<u8>) -> Option<(LocationView, int)> {
    match dec_bytes(s) {
        Some((nn, n1)) => match dec_bytes(s.skip(n1)) {
            Some((u, n2)) => Some((LocationView { node_name: nn, uri: u }, n1 + n2)),
            None => None,
        },
        None => None,
    }
}

pub proof fn lemma_location_round(l: LocationView, rest: Seq<u8>)
    requires
        loc_wf(l),
    ensures
        dec_location(enc_location(l) + rest) == Some((l, enc_location(l).len() as int)),
{
    broadcast use lemma_enc_u64_len, lemma_enc_bytes_len;
    let tail = enc_bytes(l.uri) + rest;
    assert(enc_location(l) + rest =~= enc_bytes(l.node_name) + tail);
    lemma_bytes_round(l.node_name, tail);
    lemma_skip_concat(enc_bytes(l.node_name), tail);
    lemma_bytes_round(l.uri, rest);
}

pub open spec fn enc_entry(e: DirectoryEntryView) -> Seq<u8> {
    enc_location(e.location) + enc_bytes(e.name) + enc_bool(e.is_dir)
}

pub open spec fn dec_entry(s: Seq<u8>) -> Option<(DirectoryEntryView, int)> {
    match dec_location(s) {
        Some((l, n1)) => match dec_bytes(s.skip(n1)) {
            Some((name, n2)) => match dec_bool(s.skip(n1 + n2)) {
                Some((d, n3)) => Some(
                    (DirectoryEntryView { location: l, name, is_dir: d }, n1 + n2 + n3),
                ),
                None => None,
            },
            None => None,
        },
        None => None,
    }
}

pub proof fn lemma_entry_round(e: DirectoryEntryView, rest: Seq<u8>)
    requires
        entry_wf(e),
    ensures
        dec_entry(enc_entry(e) + rest) == Some((e, enc_entry(e).len() as int)),
{
    broadcast use lemma_enc_u64_len, lemma_enc_bytes_len;
    let t2 = enc_bool(e.is_dir) + rest;
    let t1 = enc_bytes(e.name) + t2;
    let whole = enc_entry(e) + rest;
    assert(whole =~= enc_location(e.location) + t1);
    lemma_location_round(e.location, t1);
    lemma_skip_concat(enc_location(e.location), t1);
    lemma_bytes_round(e.name, t2);
    let n1 = enc_location(e.location).len() as int;
    let n2 = enc_bytes(e.name).len() as int;
    assert(whole.skip(n1 + n2) =~= t2);
    lemma_bool_round(e.is_dir, rest);
}

pub open spec fn enc_cache_entry(c: CacheEntryView) -> Seq<u8> {
    enc_bytes(c.uri)
}

pub open spec fn dec_cache_entry(s: Seq<u8>) -> Option<(CacheEntryView, int)> {
    match dec_bytes(s) {
        Some((u, n)) => Some((CacheEntryView { uri: u }, n)),
        None => None,
    }
}

pub proof fn lemma_cache_entry_round(c: CacheEntryView, rest: Seq<u8>)
    requires
        cache_entry_wf(c),
    ensures
        dec_cache_entry(enc_cache_entry(c) + rest) == Some((c, enc_cache_entry(c).len() as int)),
{
    broadcast use lemma_enc_u64_len, lemma_enc_bytes_len;

    lemma_bytes_round(c.uri, rest);
}

// ---------------------------------------------------------------------------
// Options
// ---------------------------------------------------------------------------

pub open spec fn enc_opt_u64(o: Option<u64>) -> Seq<u8> {
    match o {
        None => seq![0u8],
        Some(x) => seq![1u8] + enc_u64(x),
    }
}

pub open spec fn dec_opt_u64(s: Seq<u8>) -> Option<(Option<u64>, int)> {
    if s.len() >= 1 && s[0] == 0u8 {
        Some((None, 1int))
    } else if s.len() >= 1 && s[0] == 1u8 {
        match dec_u64(s.skip(1)) {
            Some((x, n)) => Some((Some(x), 1 + n)),
            None => None,
        }
    } else {
        None
    }
}

pub proof fn lemma_opt_u64_round(o: Option<u64>, rest: Seq<u8>)
    ensures
        dec_opt_u64(enc_opt_u64(o) + rest) == Some((o, enc_opt_u64(o).len() as int)),
{
    broadcast use lemma_enc_u64_len, lemma_enc_bytes_len;
    match o {
        None => {},
        Some(x) => {
            let whole = enc_opt_u64(o) + rest;
            assert(whole.skip(1) =~= enc_u64(x) + rest);
            lemma_u64_round(x, rest);
        },
    }
}

pub open spec fn enc_opt_node_id(o: Option<NodeIdView>) -> Seq<u8> {
    match o {
        None => seq![0u8],
        Some(v) => seq![1u8] + enc_node_id(v),
    }
}

pub open spec fn dec_opt_node_id(s: Seq<u8>) -> Option<(Option<NodeIdView>, int)> {
    if s.len() >= 1 && s[0] == 0u8 {
        Some((None, 1int))
    } else if s.len() >= 1 && s[0] == 1u8 {
        match dec_node_id(s.skip(1)) {
            Some((v, n)) => Some((Some(v), 1 + n)),
            None => None,
        }
    } else {
        None
    }
}

pub proof fn lemma_opt_vnode_round(o: Option<VPFSNodeView>, rest: Seq<u8>)
    requires
        o matches Some(v) ==> vnode_wf(v),
    ensures
        dec_opt_vnode(enc_opt_vnode(o) + rest) == Some((o, enc_opt_vnode(o).len() as int)),
{
    broadcast use lemma_enc_u64_len, lemma_enc_bytes_len;

    match o {
        None => {},
        Some(v) => {
            let whole = enc_opt_vnode(o) + rest;
            assert(whole.skip(1) =~= enc_vnode(v) + rest);
            lemma_vnode_round(v, rest);
        },
    }
}

pub proof fn lemma_opt_node_id_round(o: Option<NodeIdView>, rest: Seq<u8>)
    requires
        o matches Some(v) ==> node_id_wf(v),
    ensures
        dec_opt_node_id(enc_opt_node_id(o) + rest) == Some((o, enc_opt_node_id(o).len() as int)),
{
    broadcast use lemma_enc_u64_len, lemma_enc_bytes_len;
    match o {
        None => {},
        Some(v) => {
            let whole = enc_opt_node_id(o) + rest;
            assert(whole.skip(1) =~= enc_node_id(v) + rest);
            lemma_node_id_round(v, rest);
        },
    }
}

pub open spec fn enc_opt_vnode(o: Option<VPFSNodeView>) -> Seq<u8> {
    match o {
        None => seq![0u8],
        Some(v) => seq![1u8] + enc_vnode(v),
    }
}

pub open spec fn dec_opt_vnode(s: Seq<u8>) -> Option<(Option<VPFSNodeView>, int)> {
    if s.len() >= 1 && s[0] == 0u8 {
        Some((None, 1int))
    } else if s.len() >= 1 && s[0] == 1u8 {
        match dec_vnode(s.skip(1)) {
            Some((v, n)) => Some((Some(v), 1 + n)),
            None => None,
        }
    } else {
        None
    }
}

// ---------------------------------------------------------------------------
// Errors
// ---------------------------------------------------------------------------

pub open spec fn enc_err(e: VPFSErrorView) -> Seq<u8> {
    match e {
        VPFSErrorView::OnlyInCache(l) => seq![0u8] + enc_location(l),
        VPFSErrorView::CacheNeededForTraversal(en) => seq![1u8] + enc_entry(en),
        VPFSErrorView::NotModified => seq![2u8],
        VPFSErrorView::DoesNotExist => seq![3u8],
        VPFSErrorView::NotFound => seq![4u8],
        VPFSErrorView::NotAccessible => seq![5u8],
        VPFSErrorView::NotADirectory => seq![6u8],
        VPFSErrorView::AlreadyExists(en) => seq![7u8] + enc_entry(en),
        VPFSErrorView::FileNotOpen => seq![8u8],
        VPFSErrorView::Other(s) => seq![9u8] + enc_bytes(s),
    }
}

pub open spec fn dec_err(s: Seq<u8>) -> Option<(VPFSErrorView, int)> {
    if s.len() < 1 {
        None
    } else if s[0] == 0u8 {
        match dec_location(s.skip(1)) {
            Some((l, n)) => Some((VPFSErrorView::OnlyInCache(l), 1 + n)),
            None => None,
        }
    } else if s[0] == 1u8 {
        match dec_entry(s.skip(1)) {
            Some((en, n)) => Some((VPFSErrorView::CacheNeededForTraversal(en), 1 + n)),
            None => None,
        }
    } else if s[0] == 2u8 {
        Some((VPFSErrorView::NotModified, 1int))
    } else if s[0] == 3u8 {
        Some((VPFSErrorView::DoesNotExist, 1int))
    } else if s[0] == 4u8 {
        Some((VPFSErrorView::NotFound, 1int))
    } else if s[0] == 5u8 {
        Some((VPFSErrorView::NotAccessible, 1int))
    } else if s[0] == 6u8 {
        Some((VPFSErrorView::NotADirectory, 1int))
    } else if s[0] == 7u8 {
        match dec_entry(s.skip(1)) {
            Some((en, n)) => Some((VPFSErrorView::AlreadyExists(en), 1 + n)),
            None => None,
        }
    } else if s[0] == 8u8 {
        Some((VPFSErrorView::FileNotOpen, 1int))
    } else if s[0] == 9u8 {
        match dec_bytes(s.skip(1)) {
            Some((b, n)) => Some((VPFSErrorView::Other(b), 1 + n)),
            None => None,
        }
    } else {
        None
    }
}

pub proof fn lemma_err_round(e: VPFSErrorView, rest: Seq<u8>)
    requires
        err_wf(e),
    ensures
        dec_err(enc_err(e) + rest) == Some((e, enc_err(e).len() as int)),
{
    broadcast use lemma_enc_u64_len, lemma_enc_bytes_len;
    let whole = enc_err(e) + rest;
    match e {
        VPFSErrorView::OnlyInCache(l) => {
            assert(whole.skip(1) =~= enc_location(l) + rest);
            lemma_location_round(l, rest);
        },
        VPFSErrorView::CacheNeededForTraversal(en) => {
            assert(whole.skip(1) =~= enc_entry(en) + rest);
            lemma_entry_round(en, rest);
        },
        VPFSErrorView::AlreadyExists(en) => {
            assert(whole.skip(1) =~= enc_entry(en) + rest);
            lemma_entry_round(en, rest);
        },
        VPFSErrorView::Other(s) => {
            assert(whole.skip(1) =~= enc_bytes(s) + rest);
            lemma_bytes_round(s, rest);
        },
        _ => {},
    }
}

// ---------------------------------------------------------------------------
// Results carried in responses
// ---------------------------------------------------------------------------

pub open spec fn enc_res_u64(r: Result<u64, VPFSErrorView>) -> Seq<u8> {
    match r {
        Ok(x) => seq![0u8] + enc_u64(x),
        Err(e) => seq![1u8] + enc_err(e),
    }
}

pub open spec fn dec_res_u64(s: Seq<u8>) -> Option<(Result<u64, VPFSErrorView>, int)> {
    if s.len() >= 1 && s[0] == 0u8 {
        match dec_u64(s.skip(1)) {
            Some((x, n)) => Some((Ok(x), 1 + n)),
            None => None,
        }
    } else if s.len() >= 1 && s[0] == 1u8 {
        match dec_err(s.skip(1)) {
            Some((e, n)) => Some((Err(e), 1 + n)),
            None => None,
        }
    } else {
        None
    }
}

pub proof fn lemma_res_u64_round(r: Result<u64, VPFSErrorView>, rest: Seq<u8>)
    requires
        r matches Err(e) ==> err_wf(e),
    ensures
        dec_res_u64(enc_res_u64(r) + rest) == Some((r, enc_res_u64(r).len() as int)),
{
    broadcast use lemma_enc_u64_len, lemma_enc_bytes_len;
    let whole = enc_res_u64(r) + rest;
    match r {
        Ok(x) => {
            assert(whole.skip(1) =~= enc_u64(x) + rest);
            lemma_u64_round(x, rest);
        },
        Err(e) => {
            assert(whole.skip(1) =~= enc_err(e) + rest);
            lemma_err_round(e, rest);
        },
    }
}

pub open spec fn enc_res_unit(r: Result<(), VPFSErrorView>) -> Seq<u8> {
    match r {
        Ok(_) => seq![0u8],
        Err(e) => seq![1u8] + enc_err(e),
    }
}

pub open spec fn dec_res_unit(s: Seq<u8>) -> Option<(Result<(), VPFSErrorView>, int)> {
    if s.len() >= 1 && s[0] == 0u8 {
        Some((Ok(()), 1int))
    } else if s.len() >= 1 && s[0] == 1u8 {
        match dec_err(s.skip(1)) {
            Some((e, n)) => Some((Err(e), 1 + n)),
            None => None,
        }
    } else {
        None
    }
}

pub proof fn lemma_res_unit_round(r: Result<(), VPFSErrorView>, rest: Seq<u8>)
    requires
        r matches Err(e) ==> err_wf(e),
    ensures
        dec_res_unit(enc_res_unit(r) + rest) == Some((r, enc_res_unit(r).len() as int)),
{
    broadcast use lemma_enc_u64_len, lemma_enc_bytes_len;
    let whole = enc_res_unit(r) + rest;
    match r {
        Ok(u) => {
            assert(whole[0] == 0u8);
            assert(enc_res_unit(r).len() == 1);
            assert(u == ());
            assert(r == Ok::<(), VPFSErrorView>(()));
        },
        Err(e) => {
            assert(whole.skip(1) =~= enc_err(e) + rest);
            lemma_err_round(e, rest);
        },
    }
}

pub open spec fn enc_res_loc(r: Result<LocationView, VPFSErrorView>) -> Seq<u8> {
    match r {
        Ok(l) => seq![0u8] + enc_location(l),
        Err(e) => seq![1u8] + enc_err(e),
    }
}

pub open spec fn dec_res_loc(s: Seq<u8>) -> Option<(Result<LocationView, VPFSErrorView>, int)> {
    if s.len() >= 1 && s[0] == 0u8 {
        match dec_location(s.skip(1)) {
            Some((l, n)) => Some((Ok(l), 1 + n)),
            None => None,
        }
    } else if s.len() >= 1 && s[0] == 1u8 {
        match dec_err(s.skip(1)) {
            Some((e, n)) => Some((Err(e), 1 + n)),
            None => None,
        }
    } else {
        None
    }
}

pub proof fn lemma_res_loc_round(r: Result<LocationView, VPFSErrorView>, rest: Seq<u8>)
    requires
        r matches Ok(l) ==> loc_wf(l),
        r matches Err(e) ==> err_wf(e),
    ensures
        dec_res_loc(enc_res_loc(r) + rest) == Some((r, enc_res_loc(r).len() as int)),
{
    broadcast use lemma_enc_u64_len, lemma_enc_bytes_len;
    let whole = enc_res_loc(r) + rest;
    match r {
        Ok(l) => {
            assert(whole.skip(1) =~= enc_location(l) + rest);
            lemma_location_round(l, rest);
        },
        Err(e) => {
            assert(whole.skip(1) =~= enc_err(e) + rest);
            lemma_err_round(e, rest);
        },
    }
}

pub open spec fn enc_res_entry(r: Result<DirectoryEntryView, VPFSErrorView>) -> Seq<u8> {
    match r {
        Ok(en) => seq![0u8] + enc_entry(en),
        Err(e) => seq![1u8] + enc_err(e),
    }
}

pub open spec fn dec_res_entry(s: Seq<u8>) -> Option<
    (Result<DirectoryEntryView, VPFSErrorView>, int),
> {
    if s.len() >= 1 && s[0] == 0u8 {
        match dec_entry(s.skip(1)) {
            Some((en, n)) => Some((Ok(en), 1 + n)),
            None => None,
        }
    } else if s.len() >= 1 && s[0] == 1u8 {
        match dec_err(s.skip(1)) {
            Some((e, n)) => Some((Err(e), 1 + n)),
            None => None,
        }
    } else {
        None
    }
}

pub proof fn lemma_res_entry_round(r: Result<DirectoryEntryView, VPFSErrorView>, rest: Seq<u8>)
    requires
        r matches Ok(en) ==> entry_wf(en),
        r matches Err(e) ==> err_wf(e),
    ensures
        dec_res_entry(enc_res_entry(r) + rest) == Some((r, enc_res_entry(r).len() as int)),
{
    broadcast use lemma_enc_u64_len, lemma_enc_bytes_len;
    let whole = enc_res_entry(r) + rest;
    match r {
        Ok(en) => {
            assert(whole.skip(1) =~= enc_entry(en) + rest);
            lemma_entry_round(en, rest);
        },
        Err(e) => {
            assert(whole.skip(1) =~= enc_err(e) + rest);
            lemma_err_round(e, rest);
        },
    }
}

// ---------------------------------------------------------------------------
// Host directories: a count, then that many (name, identity) pairs
// ---------------------------------------------------------------------------

pub open spec fn hosts_wf(h: Seq<(Seq<u8>, NodeIdView)>) -> bool {
    forall|i: int|
        0 <= i < h.len() ==> (#[trigger] h[i]).0.len() <= usize::MAX && node_id_wf(h[i].1)
}

pub open spec fn enc_host_items(h: Seq<(Seq<u8>, NodeIdView)>) -> Seq<u8>
    decreases h.len(),
{
    if h.len() == 0 {
        Seq::<u8>::empty()
    } else {
        enc_bytes(h[0].0) + enc_node_id(h[0].1) + enc_host_items(h.skip(1))
    }
}

pub open spec fn enc_hosts(h: Seq<(Seq<u8>, NodeIdView)>) -> Seq<u8> {
    enc_u64(h.len() as u64) + enc_host_items(h)
}

pub open spec fn dec_host_items(s: Seq<u8>, k: nat) -> Option<(Seq<(Seq<u8>, NodeIdView)>, int)>
    decreases k,
{
    if k == 0 {
        Some((Seq::empty(), 0int))
    } else {
        match dec_bytes(s) {
            Some((name, n1)) => match dec_node_id(s.skip(n1)) {
                Some((id, n2)) => match dec_host_items(s.skip(n1 + n2), (k - 1) as nat) {
                    Some((tail, n3)) => Some(
                        (seq![(name, id)] + tail, n1 + n2 + n3),
                    ),
                    None => None,
                },
                None => None,
            },
            None => None,
        }
    }
}

pub open spec fn dec_hosts(s: Seq<u8>) -> Option<(Seq<(Seq<u8>, NodeIdView)>, int)> {
    match dec_u64(s) {
        Some((k, _)) => if k <= usize::MAX as u64 {
            match dec_host_items(s.skip(8), k as nat) {
                Some((h, n)) => Some((h, 8 + n)),
                None => None,
            }
        } else {
            None
        },
        None => None,
    }
}

pub proof fn lemma_host_items_round(h: Seq<(Seq<u8>, NodeIdView)>, rest: Seq<u8>)
    requires
        hosts_wf(h),
    ensures
        dec_host_items(enc_host_items(h) + rest, h.len()) == Some(
            (h, enc_host_items(h).len() as int),
        ),
    decreases h.len(),
{
    broadcast use lemma_enc_u64_len, lemma_enc_bytes_len;
    if h.len() == 0 {
        assert(enc_host_items(h) + rest =~= rest);
        assert(h =~= Seq::<(Seq<u8>, NodeIdView)>::empty());
    } else {
        let t2 = enc_host_items(h.skip(1)) + rest;
        let t1 = enc_node_id(h[0].1) + t2;
        let whole = enc_host_items(h) + rest;
        assert(whole =~= enc_bytes(h[0].0) + t1);
        lemma_bytes_round(h[0].0, t1);
        lemma_skip_concat(enc_bytes(h[0].0), t1);
        lemma_node_id_round(h[0].1, t2);
        let n1 = enc_bytes(h[0].0).len() as int;
        let n2 = enc_node_id(h[0].1).len() as int;
        assert(whole.skip(n1 + n2) =~= t2);
        assert(hosts_wf(h.skip(1)));
        lemma_host_items_round(h.skip(1), rest);
        assert(seq![(h[0].0, h[0].1)] + h.skip(1) =~= h);
    }
}

pub proof fn lemma_skip_skip(s: Seq<u8>, a: int, b: int)
    requires
        0 <= a,
        0 <= b,
        a + b <= s.len(),
    ensures
        s.skip(a).skip(b) =~= s.skip(a + b),
{
}

// ---------------------------------------------------------------------------
// Executable twins of the primitive encoders and decoders
// ---------------------------------------------------------------------------

pub fn write_u64(out: &mut Vec<u8>, x: u64)
    ensures
        final(out)@ == old(out)@ + enc_u64(x),
{
    out.push((x >> 56) as u8);
    out.push((x >> 48) as u8);
    out.push((x >> 40) as u8);
    out.push((x >> 32) as u8);
    out.push((x >> 24) as u8);
    out.push((x >> 16) as u8);
    out.push((x >> 8) as u8);
    out.push(x as u8);
    proof {
        reveal(enc_u64);
        assert(out@ =~= old(out)@ + enc_u64(x));
    }
}

pub fn read_u64(s: &[u8], pos: usize) -> (r: Option<(u64, usize)>)
    requires
        pos <= s@.len(),
    ensures
        r matches Some((x, end)) ==> pos < end <= s@.len() && dec_u64(s@.skip(pos as int))
            == Some((x, end - pos)),
        r is None ==> dec_u64(s@.skip(pos as int)) is None,
{
    proof {
        reveal(dec_u64);
    }
    if s.len() - pos < 8 {
        None
    } else {
        let x = ((s[pos] as u64) << 56) | ((s[pos + 1] as u64) << 48) | ((s[pos + 2] as u64)
            << 40) | ((s[pos + 3] as u64) << 32) | ((s[pos + 4] as u64) << 24) | ((s[pos
            + 5] as u64) << 16) | ((s[pos + 6] as u64) << 8) | (s[pos + 7] as u64);
        proof {
            reveal(be_u64_of);
            let t = s@.skip(pos as int);
            assert(t[0] == s@[pos as int]);
            assert(t[1] == s@[pos + 1]);
            assert(t[2] == s@[pos + 2]);
            assert(t[3] == s@[pos + 3]);
            assert(t[4] == s@[pos + 4]);
            assert(t[5] == s@[pos + 5]);
            assert(t[6] == s@[pos + 6]);
            assert(t[7] == s@[pos + 7]);
        }
        Some((x, pos + 8))
    }
}

pub fn write_bool(out: &mut Vec<u8>, b: bool)
    ensures
        final(out)@ == old(out)@ + enc_bool(b),
{
    out.push(if b { 1u8 } else { 0u8 });
    proof {
        assert(out@ =~= old(out)@ + enc_bool(b));
    }
}

pub fn read_bool(s: &[u8], pos: usize) -> (r: Option<(bool, usize)>)
    requires
        pos <= s@.len(),
    ensures
        r matches Some((b, end)) ==> pos < end <= s@.len() && dec_bool(s@.skip(pos as int))
            == Some((b, end - pos)),
        r is None ==> dec_bool(s@.skip(pos as int)) is None,
{
    if s.len() - pos < 1 {
        None
    } else if s[pos] == 0 {
        Some((false, pos + 1))
    } else if s[pos] == 1 {
        Some((true, pos + 1))
    } else {
        None
    }
}

pub fn write_bytes(out: &mut Vec<u8>, v: &[u8])
    ensures
        final(out)@ == old(out)@ + enc_bytes(v@),
{
    write_u64(out, v.len() as u64);
    let mut i: usize = 0;
    while i < v.len()
        invariant
            i <= v@.len(),
            out@ == old(out)@ + enc_u64(v@.len() as u64) + v@.subrange(0, i as int),
        decreases v@.len() - i,
    {
        out.push(v[i]);
        i = i + 1;
        proof {
            assert(out@ =~= old(out)@ + enc_u64(v@.len() as u64) + v@.subrange(0, i as int));
        }
    }
    proof {
        reveal(enc_bytes);
        assert(v@.subrange(0, v@.len() as int) =~= v@);
        assert(out@ =~= old(out)@ + enc_bytes(v@));
    }
}

pub fn read_bytes(s: &[u8], pos: usize) -> (r: Option<(Vec<u8>, usize)>)
    requires
        pos <= s@.len(),
    ensures
        r matches Some((v, end)) ==> pos < end <= s@.len() && dec_bytes(s@.skip(pos as int))
            == Some((v@, end - pos)),
        r is None ==> dec_bytes(s@.skip(pos as int)) is None,
{
    let ghost t = s@.skip(pos as int);
    match read_u64(s, pos) {
        None => {
            proof {
                reveal(dec_bytes);
            }
            None
        },
        Some((n, p1)) => {
            let remaining: usize = s.len() - p1;
            if n > remaining as u64 {
                proof {
                    reveal(dec_bytes);
                    reveal(dec_u64);
                    assert(t.len() == s@.len() - pos);
                    assert(t.len() - 8 < n);
                }
                None
            } else {
                let nus: usize = n as usize;
                proof {
                    reveal(dec_u64);
                    assert(n <= remaining as u64);
                    assert(nus as u64 == n);
                    assert(p1 == pos + 8);
                }
                let mut v: Vec<u8> = Vec::new();
                let mut i: usize = 0;
                while i < nus
                    invariant
                        i <= nus,
                        nus as u64 == n,
                        p1 + nus <= s@.len(),
                        s@.len() <= usize::MAX,
                        p1 == pos + 8,
                        pos <= s@.len(),
                        v@ == s@.subrange(p1 as int, p1 + i as int),
                    decreases nus - i,
                {
                    v.push(s[p1 + i]);
                    i = i + 1;
                    proof {
                        assert(v@ =~= s@.subrange(p1 as int, p1 + i as int));
                    }
                }
                proof {
                    reveal(dec_bytes);
                    reveal(dec_u64);
                    assert(t.len() - 8 >= n);
                    assert(v@ =~= t.subrange(8, 8 + n as int));
                }
                Some((v, p1 + nus))
            }
        },
    }
}

pub fn write_opt_u64(out: &mut Vec<u8>, o: &Option<u64>)
    ensures
        final(out)@ == old(out)@ + enc_opt_u64(*o),
{
    match o {
        None => {
            out.push(0u8);
            proof {
                assert(out@ =~= old(out)@ + enc_opt_u64(*o));
            }
        },
        Some(x) => {
            out.push(1u8);
            let ghost mid = out@;
            write_u64(out, *x);
            proof {
                assert(mid =~= old(out)@ + seq![1u8]);
                assert(out@ =~= old(out)@ + enc_opt_u64(*o));
            }
        },
    }
}

pub fn read_opt_u64(s: &[u8], pos: usize) -> (r: Option<(Option<u64>, usize)>)
    requires
        pos <= s@.len(),
    ensures
        r matches Some((o, end)) ==> pos < end <= s@.len() && dec_opt_u64(s@.skip(pos as int))
            == Some((o, end - pos)),
        r is None ==> dec_opt_u64(s@.skip(pos as int)) is None,
{
    let t = Ghost(s@.skip(pos as int));
    if s.len() - pos < 1 {
        None
    } else if s[pos] == 0 {
        Some((None, pos + 1))
    } else if s[pos] == 1 {
        proof {
            lemma_skip_skip(s@, pos as int, 1int);
        }
        match read_u64(s, pos + 1) {
            None => None,
            Some((x, end)) => Some((Some(x), end)),
        }
    } else {
        None
    }
}

pub proof fn lemma_hosts_round(h: Seq<(Seq<u8>, NodeIdView)>, rest: Seq<u8>)
    requires
        hosts_wf(h),
        h.len() <= usize::MAX,
    ensures
        dec_hosts(enc_hosts(h) + rest) == Some((h, enc_hosts(h).len() as int)),
{
    broadcast use lemma_enc_u64_len, lemma_enc_bytes_len;
    let tail = enc_host_items(h) + rest;
    assert(enc_hosts(h) + rest =~= enc_u64(h.len() as u64) + tail);
    lemma_u64_round(h.len() as u64, tail);
    lemma_skip_concat(enc_u64(h.len() as u64), tail);
    lemma_host_items_round(h, rest);
}

// ---------------------------------------------------------------------------
// Bounds on how much a decoder consumes
// ---------------------------------------------------------------------------

pub proof fn lemma_dec_bytes_bounds(s: Seq<u8>)
    ensures
        dec_bytes(s) matches Some((v, n)) ==> 8 <= n <= s.len(),
{
    reveal(dec_bytes);
    reveal(dec_u64);
}

pub proof fn lemma_dec_location_bounds(s: Seq<u8>)
    ensures
        dec_location(s) matches Some((l, n)) ==> 0 < n <= s.len(),
{
    lemma_dec_bytes_bounds(s);
    if dec_bytes(s) is Some {
        let (nn, n1) = dec_bytes(s)->Some_0;
        lemma_dec_bytes_bounds(s.skip(n1));
    }
}

pub proof fn lemma_dec_entry_bounds(s: Seq<u8>)
    ensures
        dec_entry(s) matches Some((e, n)) ==> 0 < n <= s.len(),
{
    lemma_dec_location_bounds(s);
    if dec_location(s) is Some {
        let (l, n1) = dec_location(s)->Some_0;
        lemma_dec_bytes_bounds(s.skip(n1));
        if dec_bytes(s.skip(n1)) is Some {
            let (name, n2) = dec_bytes(s.skip(n1))->Some_0;
            lemma_skip_skip(s, n1, n2);
        }
    }
}

// ---------------------------------------------------------------------------
// Executable twins of the composite encoders and decoders
// ---------------------------------------------------------------------------

pub fn write_node_id(out: &mut Vec<u8>, v: &NodeId)
    ensures
        final(out)@ == old(out)@ + enc_node_id(v@),
{
    write_bytes(out, v.bytes.as_slice());
}

pub fn read_node_id(s: &[u8], pos: usize) -> (r: Option<(NodeId, usize)>)
    requires
        pos <= s@.len(),
    ensures
        r matches Some((v, end)) ==> pos < end <= s@.len() && dec_node_id(s@.skip(pos as int))
            == Some((v@, end - pos)),
        r is None ==> dec_node_id(s@.skip(pos as int)) is None,
{
    match read_bytes(s, pos) {
        None => None,
        Some((b, end)) => Some((NodeId { bytes: b }, end)),
    }
}

pub fn write_vnode(out: &mut Vec<u8>, v: &VPFSNode)
    ensures
        final(out)@ == old(out)@ + enc_vnode(v@),
{
    write_bytes(out, v.name.as_slice());
    write_node_id(out, &v.endpoint_id);
    proof {
        assert(out@ =~= old(out)@ + enc_vnode(v@));
    }
}

pub fn read_vnode(s: &[u8], pos: usize) -> (r: Option<(VPFSNode, usize)>)
    requires
        pos <= s@.len(),
    ensures
        r matches Some((v, end)) ==> pos < end <= s@.len() && dec_vnode(s@.skip(pos as int))
            == Some((v@, end - pos)),
        r is None ==> dec_vnode(s@.skip(pos as int)) is None,
{
    match read_bytes(s, pos) {
        None => None,
        Some((name, p1)) => {
            proof {
                lemma_skip_skip(s@, pos as int, p1 - pos);
            }
            match read_node_id(s, p1) {
                None => None,
                Some((id, p2)) => Some((VPFSNode { name, endpoint_id: id }, p2)),
            }
        },
    }
}

pub fn write_location(out: &mut Vec<u8>, l: &Location)
    ensures
        final(out)@ == old(out)@ + enc_location(l@),
{
    write_bytes(out, l.node_name.as_slice());
    write_bytes(out, l.uri.as_slice());
    proof {
        assert(out@ =~= old(out)@ + enc_location(l@));
    }
}

pub fn read_location(s: &[u8], pos: usize) -> (r: Option<(Location, usize)>)
    requires
        pos <= s@.len(),
    ensures
        r matches Some((l, end)) ==> pos < end <= s@.len() && dec_location(s@.skip(pos as int))
            == Some((l@, end - pos)),
        r is None ==> dec_location(s@.skip(pos as int)) is None,
{
    match read_bytes(s, pos) {
        None => None,
        Some((nn, p1)) => {
            proof {
                lemma_skip_skip(s@, pos as int, p1 - pos);
            }
            match read_bytes(s, p1) {
                None => None,
                Some((u, p2)) => Some((Location { node_name: nn, uri: u }, p2)),
            }
        },
    }
}

pub fn write_entry(out: &mut Vec<u8>, e: &DirectoryEntry)
    ensures
        final(out)@ == old(out)@ + enc_entry(e@),
{
    write_location(out, &e.location);
    write_bytes(out, e.name.as_slice());
    write_bool(out, e.is_dir);
    proof {
        assert(out@ =~= old(out)@ + enc_entry(e@));
    }
}

pub fn read_entry(s: &[u8], pos: usize) -> (r: Option<(DirectoryEntry, usize)>)
    requires
        pos <= s@.len(),
    ensures
        r matches Some((e, end)) ==> pos < end <= s@.len() && dec_entry(s@.skip(pos as int))
            == Some((e@, end - pos)),
        r is None ==> dec_entry(s@.skip(pos as int)) is None,
{
    match read_location(s, pos) {
        None => None,
        Some((l, p1)) => {
            proof {
                lemma_skip_skip(s@, pos as int, p1 - pos);
            }
            match read_bytes(s, p1) {
                None => None,
                Some((name, p2)) => {
                    proof {
                        lemma_skip_skip(s@, pos as int, p2 - pos);
                    }
                    match read_bool(s, p2) {
                        None => None,
                        Some((d, p3)) => Some(
                            (DirectoryEntry { location: l, name, is_dir: d }, p3),
                        ),
                    }
                },
            }
        },
    }
}

pub fn write_cache_entry(out: &mut Vec<u8>, c: &CacheEntry)
    ensures
        final(out)@ == old(out)@ + enc_cache_entry(c@),
{
    write_bytes(out, c.uri.as_slice());
}

pub fn read_cache_entry(s: &[u8], pos: usize) -> (r: Option<(CacheEntry, usize)>)
    requires
        pos <= s@.len(),
    ensures
        r matches Some((c, end)) ==> pos < end <= s@.len() && dec_cache_entry(
            s@.skip(pos as int),
        ) == Some((c@, end - pos)),
        r is None ==> dec_cache_entry(s@.skip(pos as int)) is None,
{
    match read_bytes(s, pos) {
        None => None,
        Some((u, end)) => Some((CacheEntry { uri: u }, end)),
    }
}

pub fn write_opt_node_id(out: &mut Vec<u8>, o: &Option<NodeId>)
    ensures
        final(out)@ == old(out)@ + enc_opt_node_id(match o {
            Some(v) => Some(v@),
            None => None,
        }),
{
    match o {
        None => {
            out.push(0u8);
            proof {
                assert(out@ =~= old(out)@ + seq![0u8]);
            }
        },
        Some(v) => {
            out.push(1u8);
            let ghost mid = out@;
            write_node_id(out, v);
            proof {
                assert(mid =~= old(out)@ + seq![1u8]);
                assert(out@ =~= old(out)@ + (seq![1u8] + enc_node_id(v@)));
            }
        },
    }
}

pub fn read_opt_node_id(s: &[u8], pos: usize) -> (r: Option<(Option<NodeId>, usize)>)
    requires
        pos <= s@.len(),
    ensures
        r matches Some((o, end)) ==> pos < end <= s@.len() && dec_opt_node_id(
            s@.skip(pos as int),
        ) == Some((match o {
            Some(v) => Some(v@),
            None => None,
        }, end - pos)),
        r is None ==> dec_opt_node_id(s@.skip(pos as int)) is None,
{
    if s.len() - pos < 1 {
        None
    } else if s[pos] == 0 {
        Some((None, pos + 1))
    } else if s[pos] == 1 {
        proof {
            lemma_skip_skip(s@, pos as int, 1int);
        }
        match read_node_id(s, pos + 1) {
            None => None,
            Some((v, end)) => Some((Some(v), end)),
        }
    } else {
        None
    }
}

pub fn write_opt_vnode(out: &mut Vec<u8>, o: &Option<VPFSNode>)
    ensures
        final(out)@ == old(out)@ + enc_opt_vnode(match o {
            Some(v) => Some(v@),
            None => None,
        }),
{
    match o {
        None => {
            out.push(0u8);
            proof {
                assert(out@ =~= old(out)@ + seq![0u8]);
            }
        },
        Some(v) => {
            out.push(1u8);
            let ghost mid = out@;
            write_vnode(out, v);
            proof {
                assert(mid =~= old(out)@ + seq![1u8]);
                assert(out@ =~= old(out)@ + (seq![1u8] + enc_vnode(v@)));
            }
        },
    }
}

pub fn read_opt_vnode(s: &[u8], pos: usize) -> (r: Option<(Option<VPFSNode>, usize)>)
    requires
        pos <= s@.len(),
    ensures
        r matches Some((o, end)) ==> pos < end <= s@.len() && dec_opt_vnode(s@.skip(pos as int))
            == Some((match o {
            Some(v) => Some(v@),
            None => None,
        }, end - pos)),
        r is None ==> dec_opt_vnode(s@.skip(pos as int)) is None,
{
    if s.len() - pos < 1 {
        None
    } else if s[pos] == 0 {
        Some((None, pos + 1))
    } else if s[pos] == 1 {
        proof {
            lemma_skip_skip(s@, pos as int, 1int);
        }
        match read_vnode(s, pos + 1) {
            None => None,
            Some((v, end)) => Some((Some(v), end)),
        }
    } else {
        None
    }
}

pub fn write_err(out: &mut Vec<u8>, e: &VPFSError)
    ensures
        final(out)@ == old(out)@ + enc_err(e@),
{
    match e {
        VPFSError::OnlyInCache(l) => {
            out.push(0u8);
            let ghost mid = out@;
            write_location(out, l);
            proof {
                assert(mid =~= old(out)@ + seq![0u8]);
                assert(out@ =~= old(out)@ + (seq![0u8] + enc_location(l@)));
            }
        },
        VPFSError::CacheNeededForTraversal(en) => {
            out.push(1u8);
            let ghost mid = out@;
            write_entry(out, en);
            proof {
                assert(mid =~= old(out)@ + seq![1u8]);
                assert(out@ =~= old(out)@ + (seq![1u8] + enc_entry(en@)));
            }
        },
        VPFSError::NotModified => {
            out.push(2u8);
            proof {
                assert(out@ =~= old(out)@ + seq![2u8]);
            }
        },
        VPFSError::DoesNotExist => {
            out.push(3u8);
            proof {
                assert(out@ =~= old(out)@ + seq![3u8]);
            }
        },
        VPFSError::NotFound => {
            out.push(4u8);
            proof {
                assert(out@ =~= old(out)@ + seq![4u8]);
            }
        },
        VPFSError::NotAccessible => {
            out.push(5u8);
            proof {
                assert(out@ =~= old(out)@ + seq![5u8]);
            }
        },
        VPFSError::NotADirectory => {
            out.push(6u8);
            proof {
                assert(out@ =~= old(out)@ + seq![6u8]);
            }
        },
        VPFSError::AlreadyExists(en) => {
            out.push(7u8);
            let ghost mid = out@;
            write_entry(out, en);
            proof {
                assert(mid =~= old(out)@ + seq![7u8]);
                assert(out@ =~= old(out)@ + (seq![7u8] + enc_entry(en@)));
            }
        },
        VPFSError::FileNotOpen => {
            out.push(8u8);
            proof {
                assert(out@ =~= old(out)@ + seq![8u8]);
            }
        },
        VPFSError::Other(b) => {
            out.push(9u8);
            let ghost mid = out@;
            write_bytes(out, b.as_slice());
            proof {
                assert(mid =~= old(out)@ + seq![9u8]);
                assert(out@ =~= old(out)@ + (seq![9u8] + enc_bytes(b@)));
            }
        },
    }
}

pub fn read_err(s: &[u8], pos: usize) -> (r: Option<(VPFSError, usize)>)
    requires
        pos <= s@.len(),
    ensures
        r matches Some((e, end)) ==> pos < end <= s@.len() && dec_err(s@.skip(pos as int))
            == Some((e@, end - pos)),
        r is None ==> dec_err(s@.skip(pos as int)) is None,
{
    if s.len() - pos < 1 {
        return None;
    }
    let tag = s[pos];
    proof {
        lemma_skip_skip(s@, pos as int, 1int);
    }
    if tag == 0 {
        match read_location(s, pos + 1) {
            None => None,
            Some((l, end)) => Some((VPFSError::OnlyInCache(l), end)),
        }
    } else if tag == 1 {
        match read_entry(s, pos + 1) {
            None => None,
            Some((en, end)) => Some((VPFSError::CacheNeededForTraversal(en), end)),
        }
    } else if tag == 2 {
        Some((VPFSError::NotModified, pos + 1))
    } else if tag == 3 {
        Some((VPFSError::DoesNotExist, pos + 1))
    } else if tag == 4 {
        Some((VPFSError::NotFound, pos + 1))
    } else if tag == 5 {
        Some((VPFSError::NotAccessible, pos + 1))
    } else if tag == 6 {
        Some((VPFSError::NotADirectory, pos + 1))
    } else if tag == 7 {
        match read_entry(s, pos + 1) {
            None => None,
            Some((en, end)) => Some((VPFSError::AlreadyExists(en), end)),
        }
    } else if tag == 8 {
        Some((VPFSError::FileNotOpen, pos + 1))
    } else if tag == 9 {
        match read_bytes(s, pos + 1) {
            None => None,
            Some((b, end)) => Some((VPFSError::Other(b), end)),
        }
    } else {
        None
    }
}

pub fn write_res_u64(out: &mut Vec<u8>, r: &Result<u64, VPFSError>)
    ensures
        final(out)@ == old(out)@ + enc_res_u64(match r {
            Ok(x) => Ok(*x),
            Err(e) => Err(e@),
        }),
{
    match r {
        Ok(x) => {
            out.push(0u8);
            let ghost mid = out@;
            write_u64(out, *x);
            proof {
                assert(mid =~= old(out)@ + seq![0u8]);
                assert(out@ =~= old(out)@ + (seq![0u8] + enc_u64(*x)));
            }
        },
        Err(e) => {
            out.push(1u8);
            let ghost mid = out@;
            write_err(out, e);
            proof {
                assert(mid =~= old(out)@ + seq![1u8]);
                assert(out@ =~= old(out)@ + (seq![1u8] + enc_err(e@)));
            }
        },
    }
}

pub fn read_res_u64(s: &[u8], pos: usize) -> (r: Option<(Result<u64, VPFSError>, usize)>)
    requires
        pos <= s@.len(),
    ensures
        r matches Some((x, end)) ==> pos < end <= s@.len() && dec_res_u64(s@.skip(pos as int))
            == Some((match x {
            Ok(v) => Ok(v),
            Err(e) => Err(e@),
        }, end - pos)),
        r is None ==> dec_res_u64(s@.skip(pos as int)) is None,
{
    if s.len() - pos < 1 {
        return None;
    }
    proof {
        lemma_skip_skip(s@, pos as int, 1int);
    }
    if s[pos] == 0 {
        match read_u64(s, pos + 1) {
            None => None,
            Some((x, end)) => Some((Ok(x), end)),
        }
    } else if s[pos] == 1 {
        match read_err(s, pos + 1) {
            None => None,
            Some((e, end)) => Some((Err(e), end)),
        }
    } else {
        None
    }
}

pub fn write_res_unit(out: &mut Vec<u8>, r: &Result<(), VPFSError>)
    ensures
        final(out)@ == old(out)@ + enc_res_unit(match r {
            Ok(_) => Ok(()),
            Err(e) => Err(e@),
        }),
{
    match r {
        Ok(_) => {
            out.push(0u8);
            proof {
                assert(out@ =~= old(out)@ + seq![0u8]);
            }
        },
        Err(e) => {
            out.push(1u8);
            let ghost mid = out@;
            write_err(out, e);
            proof {
                assert(mid =~= old(out)@ + seq![1u8]);
                assert(out@ =~= old(out)@ + (seq![1u8] + enc_err(e@)));
            }
        },
    }
}

pub fn read_res_unit(s: &[u8], pos: usize) -> (r: Option<(Result<(), VPFSError>, usize)>)
    requires
        pos <= s@.len(),
    ensures
        r matches Some((x, end)) ==> pos < end <= s@.len() && dec_res_unit(s@.skip(pos as int))
            == Some((match x {
            Ok(_) => Ok(()),
            Err(e) => Err(e@),
        }, end - pos)),
        r is None ==> dec_res_unit(s@.skip(pos as int)) is None,
{
    if s.len() - pos < 1 {
        return None;
    }
    proof {
        lemma_skip_skip(s@, pos as int, 1int);
    }
    if s[pos] == 0 {
        Some((Ok(()), pos + 1))
    } else if s[pos] == 1 {
        match read_err(s, pos + 1) {
            None => None,
            Some((e, end)) => Some((Err(e), end)),
        }
    } else {
        None
    }
}

pub fn write_res_loc(out: &mut Vec<u8>, r: &Result<Location, VPFSError>)
    ensures
        final(out)@ == old(out)@ + enc_res_loc(match r {
            Ok(l) => Ok(l@),
            Err(e) => Err(e@),
        }),
{
    match r {
        Ok(l) => {
            out.push(0u8);
            let ghost mid = out@;
            write_location(out, l);
            proof {
                assert(mid =~= old(out)@ + seq![0u8]);
                assert(out@ =~= old(out)@ + (seq![0u8] + enc_location(l@)));
            }
        },
        Err(e) => {
            out.push(1u8);
            let ghost mid = out@;
            write_err(out, e);
            proof {
                assert(mid =~= old(out)@ + seq![1u8]);
                assert(out@ =~= old(out)@ + (seq![1u8] + enc_err(e@)));
            }
        },
    }
}

pub fn read_res_loc(s: &[u8], pos: usize) -> (r: Option<(Result<Location, VPFSError>, usize)>)
    requires
        pos <= s@.len(),
    ensures
        r matches Some((x, end)) ==> pos < end <= s@.len() && dec_res_loc(s@.skip(pos as int))
            == Some((match x {
            Ok(l) => Ok(l@),
            Err(e) => Err(e@),
        }, end - pos)),
        r is None ==> dec_res_loc(s@.skip(pos as int)) is None,
{
    if s.len() - pos < 1 {
        return None;
    }
    proof {
        lemma_skip_skip(s@, pos as int, 1int);
    }
    if s[pos] == 0 {
        match read_location(s, pos + 1) {
            None => None,
            Some((l, end)) => Some((Ok(l), end)),
        }
    } else if s[pos] == 1 {
        match read_err(s, pos + 1) {
            None => None,
            Some((e, end)) => Some((Err(e), end)),
        }
    } else {
        None
    }
}

pub fn write_res_entry(out: &mut Vec<u8>, r: &Result<DirectoryEntry, VPFSError>)
    ensures
        final(out)@ == old(out)@ + enc_res_entry(match r {
            Ok(en) => Ok(en@),
            Err(e) => Err(e@),
        }),
{
    match r {
        Ok(en) => {
            out.push(0u8);
            let ghost mid = out@;
            write_entry(out, en);
            proof {
                assert(mid =~= old(out)@ + seq![0u8]);
                assert(out@ =~= old(out)@ + (seq![0u8] + enc_entry(en@)));
            }
        },
        Err(e) => {
            out.push(1u8);
            let ghost mid = out@;
            write_err(out, e);
            proof {
                assert(mid =~= old(out)@ + seq![1u8]);
                assert(out@ =~= old(out)@ + (seq![1u8] + enc_err(e@)));
            }
        },
    }
}

pub fn read_res_entry(s: &[u8], pos: usize) -> (r: Option<
    (Result<DirectoryEntry, VPFSError>, usize),
>)
    requires
        pos <= s@.len(),
    ensures
        r matches Some((x, end)) ==> pos < end <= s@.len() && dec_res_entry(s@.skip(pos as int))
            == Some((match x {
            Ok(en) => Ok(en@),
            Err(e) => Err(e@),
        }, end - pos)),
        r is None ==> dec_res_entry(s@.skip(pos as int)) is None,
{
    if s.len() - pos < 1 {
        return None;
    }
    proof {
        lemma_skip_skip(s@, pos as int, 1int);
    }
    if s[pos] == 0 {
        match read_entry(s, pos + 1) {
            None => None,
            Some((en, end)) => Some((Ok(en), end)),
        }
    } else if s[pos] == 1 {
        match read_err(s, pos + 1) {
            None => None,
            Some((e, end)) => Some((Err(e), end)),
        }
    } else {
        None
    }
}

// ---------------------------------------------------------------------------
// Host directories, executable
// ---------------------------------------------------------------------------

pub open spec fn hosts_view(v: Seq<(Vec<u8>, NodeId)>) -> Seq<(Seq<u8>, NodeIdView)> {
    v.map_values(|p: (Vec<u8>, NodeId)| (p.0@, p.1@))
}

pub proof fn lemma_enc_host_items_push(h: Seq<(Seq<u8>, NodeIdView)>, x: (Seq<u8>, NodeIdView))
    ensures
        enc_host_items(h.push(x)) == enc_host_items(h) + enc_bytes(x.0) + enc_node_id(x.1),
    decreases h.len(),
{
    if h.len() == 0 {
        assert(h.push(x)[0] == x);
        assert(h.push(x).skip(1) =~= Seq::<(Seq<u8>, NodeIdView)>::empty());
        assert(enc_host_items(Seq::<(Seq<u8>, NodeIdView)>::empty())
            == Seq::<u8>::empty());
        assert(enc_host_items(h) == Seq::<u8>::empty());
        assert(enc_host_items(h.push(x)) == enc_bytes(x.0) + enc_node_id(x.1)
            + Seq::<u8>::empty());
        assert(enc_host_items(h.push(x)) =~= enc_host_items(h) + enc_bytes(x.0) + enc_node_id(
            x.1,
        ));
    } else {
        assert(h.push(x)[0] == h[0]);
        assert(h.push(x).skip(1) =~= h.skip(1).push(x));
        lemma_enc_host_items_push(h.skip(1), x);
        assert(enc_host_items(h.push(x)) =~= enc_host_items(h) + enc_bytes(x.0) + enc_node_id(
            x.1,
        ));
    }
}

pub fn write_hosts(out: &mut Vec<u8>, h: &Vec<(Vec<u8>, NodeId)>)
    ensures
        final(out)@ == old(out)@ + enc_hosts(hosts_view(h@)),
{
    write_u64(out, h.len() as u64);
    let mut i: usize = 0;
    while i < h.len()
        invariant
            i <= h@.len(),
            out@ == old(out)@ + enc_u64(h@.len() as u64) + enc_host_items(
                hosts_view(h@.take(i as int)),
            ),
        decreases h@.len() - i,
    {
        let ghost prefix = hosts_view(h@.take(i as int));
        let pair = &h[i];
        write_bytes(out, pair.0.as_slice());
        write_node_id(out, &pair.1);
        proof {
            let x = (h@[i as int].0@, h@[i as int].1@);
            assert(hosts_view(h@.take(i + 1 as int)) =~= prefix.push(x));
            lemma_enc_host_items_push(prefix, x);
            assert(out@ =~= old(out)@ + enc_u64(h@.len() as u64) + enc_host_items(
                hosts_view(h@.take(i + 1 as int)),
            ));
        }
        i = i + 1;
    }
    proof {
        assert(h@.take(h@.len() as int) =~= h@);
        assert(out@ =~= old(out)@ + enc_hosts(hosts_view(h@)));
    }
}

pub open spec fn hosts_loop_inv(
    t: Seq<u8>,
    cur_off: int,
    i: int,
    k: nat,
    acc: Seq<(Seq<u8>, NodeIdView)>,
) -> bool {
    match dec_host_items(t.skip(cur_off), (k - i) as nat) {
        Some((items, m)) => dec_host_items(t, k) == Some((acc + items, cur_off + m)),
        None => dec_host_items(t, k) is None,
    }
}

pub fn read_hosts(s: &[u8], pos: usize) -> (r: Option<(Vec<(Vec<u8>, NodeId)>, usize)>)
    requires
        pos <= s@.len(),
    ensures
        r matches Some((h, end)) ==> pos < end <= s@.len() && dec_hosts(s@.skip(pos as int))
            == Some((hosts_view(h@), end - pos)),
        r is None ==> dec_hosts(s@.skip(pos as int)) is None,
{
    let ghost whole = s@.skip(pos as int);
    match read_u64(s, pos) {
        None => None,
        Some((k, p8)) => {
            proof {
                reveal(dec_u64);
            }
            if k > usize::MAX as u64 {
                None
            } else {
                let kus: usize = k as usize;
                let ghost t = s@.skip(p8 as int);
                proof {
                    lemma_skip_skip(s@, pos as int, 8int);
                }
                let mut acc: Vec<(Vec<u8>, NodeId)> = Vec::new();
                let mut cur: usize = p8;
                let mut i: usize = 0;
                let mut failed: bool = false;
                proof {
                    assert(t.skip(0int) =~= t);
                    assert(hosts_view(acc@) =~= Seq::<(Seq<u8>, NodeIdView)>::empty());
                    if dec_host_items(t, kus as nat) is Some {
                        let (items, m) = dec_host_items(t, kus as nat)->Some_0;
                        assert(hosts_view(acc@) + items =~= items);
                    }
                    assert(hosts_loop_inv(t, 0int, 0int, kus as nat, hosts_view(acc@)));
                }
                while i < kus && !failed
                    invariant
                        i <= kus,
                        kus as u64 == k,
                        p8 == pos + 8,
                        p8 <= cur <= s@.len(),
                        pos <= s@.len(),
                        t == s@.skip(p8 as int),
                        !failed ==> hosts_loop_inv(
                            t,
                            cur - p8,
                            i as int,
                            kus as nat,
                            hosts_view(acc@),
                        ),
                        failed ==> dec_host_items(t, kus as nat) is None,
                    decreases kus - i, (if failed { 0int } else { 1int }),
                {
                    let ghost cur_off = cur - p8 as int;
                    proof {
                        lemma_skip_skip(s@, p8 as int, cur_off);
                        assert(t.skip(cur_off) == s@.skip(cur as int));
                    }
                    match read_bytes(s, cur) {
                        None => {
                            failed = true;
                        },
                        Some((name, p1)) => {
                            proof {
                                lemma_skip_skip(s@, cur as int, p1 - cur);
                                lemma_skip_skip(t, cur_off, p1 - cur);
                            }
                            match read_node_id(s, p1) {
                                None => {
                                    failed = true;
                                },
                                Some((id, p2)) => {
                                    proof {
                                        let prev_acc = hosts_view(acc@);
                                        let x = (name@, id@);
                                        let n1 = p1 - cur;
                                        let n2 = p2 - p1;
                                        lemma_skip_skip(t, cur_off, p2 - cur);
                                        assert(t.skip(cur_off + n1 + n2) == s@.skip(
                                            p2 as int,
                                        )) by {
                                            lemma_skip_skip(s@, p8 as int, p2 - p8);
                                        }
                                        match dec_host_items(
                                            t.skip(cur_off + n1 + n2),
                                            (kus - i - 1) as nat,
                                        ) {
                                            Some((items, m)) => {
                                                assert(prev_acc + (seq![x] + items)
                                                    =~= prev_acc.push(x) + items);
                                            },
                                            None => {},
                                        }
                                        assert(hosts_view(acc@.push((name, id)))
                                            =~= prev_acc.push(x));
                                    }
                                    acc.push((name, id));
                                    cur = p2;
                                    i = i + 1;
                                },
                            }
                        },
                    }
                }
                if failed {
                    proof {
                        reveal(dec_bytes);
                    }
                    None
                } else {
                    proof {
                        assert(t.skip(cur - p8 as int).skip(0) == t.skip(cur - p8 as int));
                        assert(dec_host_items(t.skip(cur - p8 as int), 0nat) == Some((
                            Seq::<(Seq<u8>, NodeIdView)>::empty(),
                            0int,
                        )));
                        assert(hosts_view(acc@) + Seq::<(Seq<u8>, NodeIdView)>::empty()
                            =~= hosts_view(acc@));
                    }
                    Some((acc, cur))
                }
            }
        },
    }
}

} // verus!
