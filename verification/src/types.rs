//! The data model: nodes, locations, directory entries and cache entries.
//! Names, URIs and paths are byte strings throughout.

use vstd::prelude::*;

verus! {

/// A peer's stable public identity, carried as opaque bytes.
#[derive(Clone, Debug, PartialEq, Eq, Hash)]
pub struct NodeId {
    pub bytes: Vec<u8>,
}

/// One daemon of the cluster: its cluster-unique name and its peer identity.
#[derive(Clone, Debug, PartialEq, Eq, Hash)]
pub struct VPFSNode {
    pub name: Vec<u8>,
    pub endpoint_id: NodeId,
}

/// Identifies one blob: the node that stores it and that node's private
/// name for it.
#[derive(Clone, Debug, PartialEq, Eq, Hash)]
pub struct Location {
    pub node_name: Vec<u8>,
    pub uri: Vec<u8>,
}

/// A record of a directory blob: a path component bound to a location.
#[derive(Clone, Debug, PartialEq, Eq, Hash)]
pub struct DirectoryEntry {
    pub location: Location,
    pub name: Vec<u8>,
    pub is_dir: bool,
}

/// One cached remote blob: the local URI its body lives under.
#[derive(Clone, Debug, PartialEq, Eq, Hash)]
pub struct CacheEntry {
    pub uri: Vec<u8>,
}

pub ghost struct NodeIdView {
    pub bytes: Seq<u8>,
}

pub ghost struct VPFSNodeView {
    pub name: Seq<u8>,
    pub endpoint_id: NodeIdView,
}

pub ghost struct LocationView {
    pub node_name: Seq<u8>,
    pub uri: Seq<u8>,
}

pub ghost struct DirectoryEntryView {
    pub location: LocationView,
    pub name: Seq<u8>,
    pub is_dir: bool,
}

pub ghost struct CacheEntryView {
    pub uri: Seq<u8>,
}

impl View for NodeId {
    type V = NodeIdView;

    open spec fn view(&self) -> NodeIdView {
        NodeIdView { bytes: self.bytes@ }
    }
}

impl View for VPFSNode {
    type V = VPFSNodeView;

    open spec fn view(&self) -> VPFSNodeView {
        VPFSNodeView { name: self.name@, endpoint_id: self.endpoint_id@ }
    }
}

impl View for Location {
    type V = LocationView;

    open spec fn view(&self) -> LocationView {
        LocationView { node_name: self.node_name@, uri: self.uri@ }
    }
}

impl View for DirectoryEntry {
    type V = DirectoryEntryView;

    open spec fn view(&self) -> DirectoryEntryView {
        DirectoryEntryView { location: self.location@, name: self.name@, is_dir: self.is_dir }
    }
}

impl View for CacheEntry {
    type V = CacheEntryView;

    open spec fn view(&self) -> CacheEntryView {
        CacheEntryView { uri: self.uri@ }
    }
}

/// A byte string a program holds always fits memory.
pub proof fn lemma_vec_len_bound(v: &Vec<u8>)
    ensures
        v@.len() <= usize::MAX,
{
    vstd::std_specs::vec::axiom_spec_len(v);
}

/// Byte-for-byte copy of a byte string.
pub fn copy_bytes(v: &[u8]) -> (r: Vec<u8>)
    ensures
        r@ == v@,
{
    let mut r: Vec<u8> = Vec::new();
    let mut i: usize = 0;
    while i < v.len()
        invariant
            i <= v.len(),
            r@ == v@.subrange(0, i as int),
        decreases v.len() - i,
    {
        r.push(v[i]);
        i = i + 1;
        proof {
            assert(r@ =~= v@.subrange(0, i as int));
        }
    }
    proof {
        assert(r@ =~= v@);
    }
    r
}

/// Byte-for-byte comparison of two byte strings.
pub fn bytes_eq(a: &[u8], b: &[u8]) -> (r: bool)
    ensures
        r == (a@ == b@),
{
    if a.len() != b.len() {
        proof {
            assert(a@.len() != b@.len());
        }
        return false;
    }
    let mut i: usize = 0;
    while i < a.len()
        invariant
            i <= a.len(),
            a@.len() == b@.len(),
            forall|j: int| 0 <= j < i ==> a@[j] == b@[j],
        decreases a.len() - i,
    {
        if a[i] != b[i] {
            return false;
        }
        i = i + 1;
    }
    proof {
        assert(a@ =~= b@);
    }
    true
}

impl NodeId {
    pub fn dup(&self) -> (r: NodeId)
        ensures
            r@ == self@,
    {
        NodeId { bytes: copy_bytes(self.bytes.as_slice()) }
    }
}

impl VPFSNode {
    pub fn dup(&self) -> (r: VPFSNode)
        ensures
            r@ == self@,
    {
        VPFSNode { name: copy_bytes(self.name.as_slice()), endpoint_id: self.endpoint_id.dup() }
    }
}

impl Location {
    pub fn dup(&self) -> (r: Location)
        ensures
            r@ == self@,
    {
        Location {
            node_name: copy_bytes(self.node_name.as_slice()),
            uri: copy_bytes(self.uri.as_slice()),
        }
    }
}

impl DirectoryEntry {
    pub fn dup(&self) -> (r: DirectoryEntry)
        ensures
            r@ == self@,
    {
        DirectoryEntry {
            location: self.location.dup(),
            name: copy_bytes(self.name.as_slice()),
            is_dir: self.is_dir,
        }
    }
}

impl CacheEntry {
    pub fn dup(&self) -> (r: CacheEntry)
        ensures
            r@ == self@,
    {
        CacheEntry { uri: copy_bytes(self.uri.as_slice()) }
    }
}

} // verus!
