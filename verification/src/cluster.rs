//! The cluster model: every daemon's state side by side, with a liveness
//! flag standing for the network. The cross-node algorithms - lazy
//! connection management, the cache-aware remote read, the recursive
//! namespace resolver, and placement with rollback - run against this
//! model and are verified here; the byte streams that carry their
//! messages in a running system are the shell's concern.

use vstd::prelude::*;
use crate::types::{Location, DirectoryEntry, copy_bytes, bytes_eq, lemma_vec_len_bound};
use crate::errors::{VPFSError, VPFSErrorView};
use crate::store::{FileView};
use crate::cache::{cache_seq};
use crate::daemon::{DaemonState, OpenView, hosts_lookup, hosts_get, hosts_set, line_end};
use crate::wire::{DaemonRequest, DaemonResponse};
use crate::directory::{dir_entries, dir_lookup, search_directory_blob};

verus! {

/// The whole cluster: one state per daemon and, for each, whether its
/// host is reachable over the network.
pub struct Cluster {
    pub nodes: Vec<DaemonState>,
    pub up: Vec<bool>,
}

pub open spec fn node_named(nodes: Seq<DaemonState>, name: Seq<u8>) -> bool {
    exists|j: int| 0 <= j < nodes.len() && (#[trigger] nodes[j]).local.name@ == name
}

pub open spec fn node_idx_of(nodes: Seq<DaemonState>, name: Seq<u8>) -> int {
    choose|j: int| 0 <= j < nodes.len() && (#[trigger] nodes[j]).local.name@ == name
}

impl Cluster {
    pub open spec fn wf(&self) -> bool {
        self.up@.len() == self.nodes@.len() && (forall|j: int|
            0 <= j < self.nodes@.len() ==> (#[trigger] self.nodes@[j]).wf()) && (forall|
            a: int,
            b: int,
        |
            0 <= a < b < self.nodes@.len() ==> (#[trigger] self.nodes@[a]).local.name@ != (
            #[trigger] self.nodes@[b]).local.name@)
    }
}

/// Find the daemon that carries a name.
pub fn node_index(c: &Cluster, name: &[u8]) -> (r: Option<usize>)
    requires
        c.wf(),
    ensures
        r matches Some(j) ==> j < c.nodes@.len() && c.nodes@[j as int].local.name@ == name@
            && node_named(c.nodes@, name@) && node_idx_of(c.nodes@, name@) == j as int,
        r is None ==> !node_named(c.nodes@, name@),
{
    let mut j: usize = 0;
    while j < c.nodes.len()
        invariant
            c.wf(),
            j <= c.nodes@.len(),
            forall|k: int| 0 <= k < j ==> (#[trigger] c.nodes@[k]).local.name@ != name@,
        decreases c.nodes@.len() - j,
    {
        if bytes_eq(c.nodes[j].local.name.as_slice(), name) {
            proof {
                assert(node_named(c.nodes@, name@));
                let k = node_idx_of(c.nodes@, name@);
                assert(k == j);
            }
            return Some(j);
        }
        j = j + 1;
    }
    None
}

pub open spec fn conn_listed(conns: Seq<Vec<u8>>, name: Seq<u8>) -> bool {
    exists|j: int| 0 <= j < conns.len() && (#[trigger] conns[j])@ == name
}

fn conn_has(conns: &Vec<Vec<u8>>, name: &[u8]) -> (r: bool)
    ensures
        r == conn_listed(conns@, name@),
{
    let mut j: usize = 0;
    while j < conns.len()
        invariant
            j <= conns@.len(),
            forall|k: int| 0 <= k < j ==> (#[trigger] conns@[k])@ != name@,
        decreases conns@.len() - j,
    {
        if bytes_eq(conns[j].as_slice(), name) {
            return true;
        }
        j = j + 1;
    }
    false
}

/// Whether this node is the cluster's root.
pub open spec fn is_root(n: DaemonState) -> bool {
    n.root matches Some(rn) && rn.name@ == n.local.name@
}

/// Whether the root is reachable from node `i`: the node knows a root and
/// holds its startup connection, and the root's host answers.
pub open spec fn root_reachable(c: Cluster, i: int) -> bool {
    let n = c.nodes@[i];
    n.root matches Some(rn) && node_named(c.nodes@, rn.name@) && c.up@[node_idx_of(
        c.nodes@,
        rn.name@,
    )] && conn_listed(n.connections@, rn.name@)
}

/// The connection manager's decision (4.E): a live connection can be had
/// exactly when the target's host answers and its identity is at hand -
/// already connected, in the local host directory, or answered by the
/// root on behalf of a non-root node.
pub open spec fn can_connect(c: Cluster, i: int, name: Seq<u8>) -> bool {
    node_named(c.nodes@, name) && c.up@[node_idx_of(c.nodes@, name)] && {
        let n = c.nodes@[i];
        conn_listed(n.connections@, name) || hosts_lookup(n.known_hosts@, name) is Some || (
        !is_root(n) && root_reachable(c, i) && hosts_lookup(
            c.nodes@[node_idx_of(c.nodes@, n.root->Some_0.name@)].known_hosts@,
            name,
        ) is Some)
    }
}

/// Obtain (lazily establishing) a connection from node `i` to the node
/// called `name`: returns whether one is now live, recording the
/// connection and anything learned from the root on the way.
pub fn stream_for(c: &mut Cluster, i: usize, name: &[u8]) -> (r: bool)
    requires
        old(c).wf(),
        i < old(c).nodes@.len(),
    ensures
        final(c).wf(),
        r == can_connect(*old(c), i as int, name@),
        final(c).up == old(c).up,
        final(c).nodes@.len() == old(c).nodes@.len(),
        forall|j: int|
            0 <= j < final(c).nodes@.len() && j != i as int ==> final(c).nodes@[j] == old(c).nodes@[j],
        final(c).nodes@[i as int].local == old(c).nodes@[i as int].local,
        final(c).nodes@[i as int].root == old(c).nodes@[i as int].root,
        final(c).nodes@[i as int].files == old(c).nodes@[i as int].files,
        final(c).nodes@[i as int].cache == old(c).nodes@[i as int].cache,
        final(c).nodes@[i as int].open_files == old(c).nodes@[i as int].open_files,
        r ==> node_named(old(c).nodes@, name@) && old(c).up@[node_idx_of(old(c).nodes@, name@)],
        r ==> conn_listed(final(c).nodes@[i as int].connections@, name@),
        forall|n2: Seq<u8>|
            conn_listed(old(c).nodes@[i as int].connections@, n2) ==> #[trigger] conn_listed(
                final(c).nodes@[i as int].connections@,
                n2,
            ),
        conn_listed(old(c).nodes@[i as int].connections@, name@) ==> *final(c) == *old(c),
    {
        let target = node_index(c, name);
        let t: usize = match target {
            Some(t) => t,
            None => {
                return false;
            },
        };
        if !c.up[t] {
            return false;
        }
        if conn_has(&c.nodes[i].connections, name) {
            return true;
        }
        let known = hosts_get(&c.nodes[i].known_hosts, name);
        match known {
            Some(_) => {
                // dial the peer directly
                let nm = copy_bytes(name);
                let node = &mut c.nodes[i];
                node.connections.push(nm);
                proof {
                    lemma_conn_push(old(c).nodes@[i as int].connections@, name@);
                }
                return true;
            },
            None => {},
        }
        // fall back to asking the root for the address
        let this_is_root = match &c.nodes[i].root {
            Some(rn) => bytes_eq(rn.name.as_slice(), c.nodes[i].local.name.as_slice()),
            None => {
                return false;
            },
        };
        if this_is_root {
            return false;
        }
        let root_name = match &c.nodes[i].root {
            Some(rn) => copy_bytes(rn.name.as_slice()),
            None => {
                proof {
                    assert(false);
                }
                return false;
            },
        };
        let rt: usize = match node_index(c, root_name.as_slice()) {
            Some(rt) => rt,
            None => {
                return false;
            },
        };
        if !c.up[rt] {
            return false;
        }
        if !conn_has(&c.nodes[i].connections, root_name.as_slice()) {
            return false;
        }
        // one sub-stream to the root: AddressFor(name)
        let req = DaemonRequest::AddressFor(copy_bytes(name));
        let (resp, _) = c.nodes[rt].handle_daemon_request(&req, None);
        proof {
            lemma_nodes_update_wf(old(c).nodes@, c.nodes@, rt as int);
        }
        match resp {
            DaemonResponse::AddressFor(Some(id)) => {
                let nm = copy_bytes(name);
                let ghost pre = c.nodes@;
                let node = &mut c.nodes[i];
                hosts_set(&mut node.known_hosts, name, &id);
                node.connections.push(nm);
                proof {
                    lemma_conn_push(pre[i as int].connections@, name@);
                    lemma_nodes_update_wf(pre, c.nodes@, i as int);
                }
                true
            },
            DaemonResponse::AddressFor(None) => false,
            _ => {
                proof {
                    assert(false);
                }
                false
            },
        }
    }

/// Pushing a name onto a connection list makes it listed and keeps every
/// other listing.
pub proof fn lemma_conn_push(conns: Seq<Vec<u8>>, name: Seq<u8>)
    ensures
        forall|nm: Vec<u8>|
            nm@ == name ==> conn_listed(#[trigger] conns.push(nm), name),
        forall|nm: Vec<u8>, other: Seq<u8>|
            conn_listed(conns, other) ==> #[trigger] conn_listed(conns.push(nm), other),
{
    assert forall|nm: Vec<u8>| nm@ == name implies conn_listed(
        #[trigger] conns.push(nm),
        name,
    ) by {
        assert(conns.push(nm)[conns.len() as int] == nm);
    }
    assert forall|nm: Vec<u8>, other: Seq<u8>| conn_listed(conns, other) implies #[trigger] conn_listed(
        conns.push(nm),
        other,
    ) by {
        let j = choose|j: int| 0 <= j < conns.len() && (#[trigger] conns[j])@ == other;
        assert(conns.push(nm)[j] == conns[j]);
    }
}

/// A cluster stays well formed when one node is replaced by a well-formed
/// node of the same name.
pub proof fn lemma_nodes_update_wf(pre: Seq<DaemonState>, post: Seq<DaemonState>, k: int)
    requires
        0 <= k < pre.len(),
        post.len() == pre.len(),
        forall|j: int| 0 <= j < pre.len() && j != k ==> post[j] == pre[j],
        post[k].local == pre[k].local,
        post[k].wf(),
        forall|j: int| 0 <= j < pre.len() ==> (#[trigger] pre[j]).wf(),
        forall|a: int, b: int|
            0 <= a < b < pre.len() ==> (#[trigger] pre[a]).local.name@ != (
            #[trigger] pre[b]).local.name@,
    ensures
        forall|j: int| 0 <= j < post.len() ==> (#[trigger] post[j]).wf(),
        forall|a: int, b: int|
            0 <= a < b < post.len() ==> (#[trigger] post[a]).local.name@ != (
            #[trigger] post[b]).local.name@,
        forall|name: Seq<u8>| node_named(post, name) == node_named(pre, name),
        forall|name: Seq<u8>|
            node_named(pre, name) ==> #[trigger] node_idx_of(post, name) == node_idx_of(
                pre,
                name,
            ),
{
    assert forall|j: int| 0 <= j < post.len() implies (#[trigger] post[j]).wf() by {
        if j != k {
            assert(post[j] == pre[j]);
        }
    }
    assert forall|a: int, b: int| 0 <= a < b < post.len() implies (
    #[trigger] post[a]).local.name@ != (#[trigger] post[b]).local.name@ by {
        assert(post[a].local.name@ == pre[a].local.name@);
        assert(post[b].local.name@ == pre[b].local.name@);
    }
    assert forall|name: Seq<u8>| true implies #[trigger] node_named(post, name) == node_named(
        pre,
        name,
    ) by {
        if node_named(pre, name) {
            let j = choose|j: int|
                0 <= j < pre.len() && (#[trigger] pre[j]).local.name@ == name;
            assert(post[j].local.name@ == name);
        }
        if node_named(post, name) {
            let j = choose|j: int|
                0 <= j < post.len() && (#[trigger] post[j]).local.name@ == name;
            assert(pre[j].local.name@ == name);
        }
    }
    assert forall|name: Seq<u8>| node_named(pre, name) implies #[trigger] node_idx_of(
        post,
        name,
    ) == node_idx_of(pre, name) by {
        let a = node_idx_of(pre, name);
        assert(post[a].local.name@ == name);
        let b = node_idx_of(post, name);
        assert(pre[b].local.name@ == name);
        if a != b {
            assert(pre[a].local.name@ == pre[b].local.name@);
        }
    }
}

// ---------------------------------------------------------------------------
// The cache-aware remote read (4.G)
// ---------------------------------------------------------------------------

pub open spec fn cache_hit(s: Seq<(Location, crate::types::CacheEntry)>, k: crate::types::LocationView) -> bool {
    exists|j: int| 0 <= j < s.len() && (#[trigger] s[j]).0@ == k
}

pub open spec fn cache_hit_uri(
    s: Seq<(Location, crate::types::CacheEntry)>,
    k: crate::types::LocationView,
) -> Seq<u8> {
    let j = choose|j: int| 0 <= j < s.len() && (#[trigger] s[j]).0@ == k;
    s[j].1@.uri
}

/// Read a blob that lives on another node, through the cache: ask the
/// owner, sending the cached body's timestamp so an unchanged body is not
/// resent; fall back to the cached copy when the owner is unreachable.
pub fn remote_read(c: &mut Cluster, i: usize, loc: &Location) -> (r: Result<Vec<u8>, VPFSError>)
    requires
        old(c).wf(),
        i < old(c).nodes@.len(),
        loc@.node_name != old(c).nodes@[i as int].local.name@,
    ensures
        final(c).wf(),
        final(c).up == old(c).up,
        final(c).nodes@.len() == old(c).nodes@.len(),
        forall|j: int|
            0 <= j < final(c).nodes@.len() && j != i as int ==> final(c).nodes@[j] == old(c).nodes@[j],
        final(c).nodes@[i as int].local == old(c).nodes@[i as int].local,
        final(c).nodes@[i as int].root == old(c).nodes@[i as int].root,
        final(c).nodes@[i as int].open_files == old(c).nodes@[i as int].open_files,
        ({
            let cn = loc@.node_name;
            let ok = can_connect(*old(c), i as int, cn);
            let oldseq = cache_seq(old(c).nodes@[i as int].cache.map);
            let hit = cache_hit(oldseq, loc@);
            let huri = cache_hit_uri(oldseq, loc@);
            let ifiles = old(c).nodes@[i as int].files@;
            if !ok {
                if hit {
                    r matches Err(e) && e@ matches VPFSErrorView::OnlyInCache(cl)
                        && cl.node_name == old(c).nodes@[i as int].local.name@ && cl.uri
                        == huri
                } else {
                    r matches Err(e) && e@ == VPFSErrorView::NotAccessible
                }
            } else {
                let t = node_idx_of(old(c).nodes@, cn);
                let tgt = old(c).nodes@[t];
                if !tgt.files@.contains_key(loc@.uri) {
                    r matches Err(e) && e@ == VPFSErrorView::DoesNotExist
                } else if hit && ifiles.contains_key(huri) && tgt.files@[loc@.uri].mtime
                    <= ifiles[huri].mtime {
                    r matches Ok(b) && b@ == ifiles[huri].data
                } else {
                    r matches Ok(b) && b@ == tgt.files@[loc@.uri].data
                }
            }
        }),
        // a served body entering an empty, soundly accounted cache leaves
        // every existing blob of this node untouched
        ({
            let cn = loc@.node_name;
            let ok = can_connect(*old(c), i as int, cn);
            let oldseq = cache_seq(old(c).nodes@[i as int].cache.map);
            let t = node_idx_of(old(c).nodes@, cn);
            ok && old(c).nodes@[t].files@.contains_key(loc@.uri) && oldseq.len() == 0
                && crate::cache::cache_backing_inv(
                old(c).nodes@[i as int].cache,
                old(c).nodes@[i as int].files@,
            ) ==> forall|u: Seq<u8>|
                old(c).nodes@[i as int].files@.contains_key(u) ==> #[trigger] final(c).nodes@[i as int].files@.contains_key(u) && final(c).nodes@[i as int].files@[u]
                    == old(c).nodes@[i as int].files@[u]
        }),
        // a cache hit ends promoted to the head with the same entry, on
        // both paths that answer from the cache
        ({
            let cn = loc@.node_name;
            let ok = can_connect(*old(c), i as int, cn);
            let oldseq = cache_seq(old(c).nodes@[i as int].cache.map);
            let hit = cache_hit(oldseq, loc@);
            let huri = cache_hit_uri(oldseq, loc@);
            let ifiles = old(c).nodes@[i as int].files@;
            let t = node_idx_of(old(c).nodes@, cn);
            let fin = cache_seq(final(c).nodes@[i as int].cache.map);
            hit && (!ok || (old(c).nodes@[t].files@.contains_key(loc@.uri)
                && ifiles.contains_key(huri) && old(c).nodes@[t].files@[loc@.uri].mtime
                <= ifiles[huri].mtime)) ==> fin.len() == oldseq.len() && fin.len() >= 1
                && fin[0].0@ == loc@ && fin[0].1@.uri == huri
        }),
        // the initiator's blobs change only when a fresh body is inserted
        // into the cache
        ({
            let cn = loc@.node_name;
            let ok = can_connect(*old(c), i as int, cn);
            let oldseq = cache_seq(old(c).nodes@[i as int].cache.map);
            let hit = cache_hit(oldseq, loc@);
            let huri = cache_hit_uri(oldseq, loc@);
            let ifiles = old(c).nodes@[i as int].files@;
            let t = node_idx_of(old(c).nodes@, cn);
            !ok || !old(c).nodes@[t].files@.contains_key(loc@.uri) || (hit
                && ifiles.contains_key(huri) && old(c).nodes@[t].files@[loc@.uri].mtime
                <= ifiles[huri].mtime) ==> final(c).nodes@[i as int].files == old(c).nodes@[i as int].files
        }),
        // a body served by the owner lands at the head of the cache, its
        // backing file holding exactly those bytes
        ({
            let cn = loc@.node_name;
            let ok = can_connect(*old(c), i as int, cn);
            let oldseq = cache_seq(old(c).nodes@[i as int].cache.map);
            let hit = cache_hit(oldseq, loc@);
            let huri = cache_hit_uri(oldseq, loc@);
            let ifiles = old(c).nodes@[i as int].files@;
            let t = node_idx_of(old(c).nodes@, cn);
            let fin = cache_seq(final(c).nodes@[i as int].cache.map);
            ok && old(c).nodes@[t].files@.contains_key(loc@.uri) && !(hit
                && ifiles.contains_key(huri) && old(c).nodes@[t].files@[loc@.uri].mtime
                <= ifiles[huri].mtime) ==> (fin.len() >= 1 ==> fin[0].0@ == loc@) && (
            crate::cache::cache_backing_inv(
                old(c).nodes@[i as int].cache,
                old(c).nodes@[i as int].files@,
            ) ==> fin.len() >= 1 ==> final(c).nodes@[i as int].files@.contains_key(
                fin[0].1@.uri,
            ) && final(c).nodes@[i as int].files@[fin[0].1@.uri].data == old(c).nodes@[t].files@[loc@.uri].data)
        }),
{
    let ghost c0 = *c;
    let reachable = stream_for(c, i, loc.node_name.as_slice());
    let ghost c1 = *c;
    // consult the cache, promoting the entry and noting its timestamp
    let cache_entry = c.nodes[i].cache.lookup(loc);
    proof {
        assert(cache_seq(c1.nodes@[i as int].cache.map) == cache_seq(
            c0.nodes@[i as int].cache.map,
        ));
        lemma_nodes_update_wf(c1.nodes@, c.nodes@, i as int);
    }
    let sent_mtime: Option<u64> = match &cache_entry {
        Some(e) => match c.nodes[i].files.metadata(e.uri.as_slice()) {
            Some((_, m)) => Some(m),
            None => None,
        },
        None => None,
    };
    proof {
        let oldseq = cache_seq(c0.nodes@[i as int].cache.map);
        if cache_entry is Some {
            let j = choose|j: int|
                0 <= j < oldseq.len() && (#[trigger] oldseq[j]).0@ == loc@ && oldseq[j].1@
                    == cache_entry->Some_0@;
            assert(cache_hit(oldseq, loc@));
            let j2 = choose|j2: int| 0 <= j2 < oldseq.len() && (#[trigger] oldseq[j2]).0@ == loc@;
            assert(j2 == j);
            assert(cache_hit_uri(oldseq, loc@) == oldseq[j].1@.uri);
        } else {
            assert(!cache_hit(oldseq, loc@));
        }
    }
    if !reachable {
        match cache_entry {
            Some(e) => {
                let cl = Location {
                    node_name: copy_bytes(c.nodes[i].local.name.as_slice()),
                    uri: e.uri,
                };
                Err(VPFSError::OnlyInCache(cl))
            },
            None => Err(VPFSError::NotAccessible),
        }
    } else {
        let t: usize = match node_index(c, loc.node_name.as_slice()) {
            Some(t) => t,
            None => {
                proof {
                    assert(false);
                }
                return Err(VPFSError::NotAccessible);
            },
        };
        proof {
            assert(c.nodes@[t as int] == c0.nodes@[node_idx_of(c0.nodes@, loc@.node_name)]);
            assert(t as int != i as int);
        }
        let req = DaemonRequest::Read(copy_bytes(loc.uri.as_slice()), sent_mtime);
        let ghost c2 = *c;
        let (resp, body) = c.nodes[t].handle_daemon_request(&req, None);
        proof {
            assert(c.nodes@[t as int] == c2.nodes@[t as int]);
            assert(c.nodes@ =~= c2.nodes@);
        }
        match resp {
            DaemonResponse::Read(Ok(_)) => {
                match body {
                    Some(buf) => {
                        let ghost c3 = *c;
                        let node = &mut c.nodes[i];
                        proof {
                            lemma_vec_len_bound(&buf);
                            if cache_seq(old(c).nodes@[i as int].cache.map).len() == 0
                                && crate::cache::cache_backing_inv(
                                old(c).nodes@[i as int].cache,
                                old(c).nodes@[i as int].files@,
                            ) {
                                assert(cache_seq(c3.nodes@[i as int].cache.map).len() == 0);
                                assert(c3.nodes@[i as int].files@ == old(c).nodes@[i as int].files@);
                                assert(crate::cache::cache_backing_inv(
                                    c3.nodes@[i as int].cache,
                                    c3.nodes@[i as int].files@,
                                ));
                            }
                        }
                        node.cache.insert(&mut node.files, loc, buf.as_slice(), &node.root);
                        proof {
                            lemma_nodes_update_wf(c3.nodes@, c.nodes@, i as int);
                        }
                        Ok(buf)
                    },
                    None => {
                        proof {
                            assert(false);
                        }
                        Err(VPFSError::NotAccessible)
                    },
                }
            },
            DaemonResponse::Read(Err(e)) => {
                let is_not_modified = match &e {
                    VPFSError::NotModified => true,
                    _ => false,
                };
                if is_not_modified {
                    match &cache_entry {
                        Some(ce) => {
                            match c.nodes[i].files.read(ce.uri.as_slice()) {
                                Ok(buf) => Ok(buf),
                                Err(_) => {
                                    proof {
                                        assert(false);
                                    }
                                    Err(VPFSError::NotAccessible)
                                },
                            }
                        },
                        None => {
                            proof {
                                assert(false);
                            }
                            Err(VPFSError::NotAccessible)
                        },
                    }
                } else {
                    Err(e)
                }
            },
            _ => {
                proof {
                    assert(false);
                }
                Err(VPFSError::NotAccessible)
            },
        }
    }
}

// ---------------------------------------------------------------------------
// The namespace resolver (4.F)
// ---------------------------------------------------------------------------

/// The well-known URI of the root directory blob on the root node.
pub open spec fn root_uri() -> Seq<u8> {
    seq![114u8, 111u8, 111u8, 116u8]
}

pub fn root_uri_vec() -> (r: Vec<u8>)
    ensures
        r@ == root_uri(),
{
    let mut r: Vec<u8> = Vec::new();
    r.push(114u8);
    r.push(111u8);
    r.push(111u8);
    r.push(116u8);
    proof {
        assert(r@ =~= root_uri());
    }
    r
}

/// Position of the last slash of a path, if any.
fn rfind_slash(p: &[u8]) -> (r: Option<usize>)
    ensures
        r matches Some(ix) ==> ix < p@.len() && p@[ix as int] == 47u8 && (forall|j: int|
            ix < j < p@.len() ==> p@[j] != 47u8),
        r is None ==> forall|j: int| 0 <= j < p@.len() ==> p@[j] != 47u8,
{
    let mut k: usize = p.len();
    while k > 0
        invariant
            k <= p@.len(),
            forall|j: int| k <= j < p@.len() ==> p@[j] != 47u8,
        decreases k,
    {
        k = k - 1;
        if p[k] == 47u8 {
            return Some(k);
        }
    }
    None
}

fn slice_range(p: &[u8], from: usize, to: usize) -> (r: Vec<u8>)
    requires
        from <= to <= p@.len(),
    ensures
        r@ == p@.subrange(from as int, to as int),
{
    let mut r: Vec<u8> = Vec::new();
    let mut k: usize = from;
    while k < to
        invariant
            from <= k <= to <= p@.len(),
            r@ == p@.subrange(from as int, k as int),
        decreases to - k,
    {
        r.push(p[k]);
        k = k + 1;
        proof {
            assert(r@ =~= p@.subrange(from as int, k as int));
        }
    }
    r
}

/// Whether a path has any separator.
pub open spec fn has_slash(p: Seq<u8>) -> bool {
    exists|j: int| 0 <= j < p.len() && p[j] == 47u8
}

/// The position of the last separator (unique when one exists).
pub open spec fn last_slash_at(p: Seq<u8>) -> int {
    choose|ix: int|
        0 <= ix < p.len() && p[ix] == 47u8 && (forall|j: int| ix < j < p.len() ==> p[j] != 47u8)
}

/// Searching one directory blob of a file map: absent blob or absent name
/// read as verified absence.
pub open spec fn lookup_in(
    files: Map<Seq<u8>, FileView>,
    uri: Seq<u8>,
    name: Seq<u8>,
) -> Result<crate::types::DirectoryEntryView, VPFSErrorView> {
    if !files.contains_key(uri) {
        Err(VPFSErrorView::DoesNotExist)
    } else {
        match dir_lookup(dir_entries(files[uri].data), name) {
            Some(ev) => Ok(ev),
            None => Err(VPFSErrorView::DoesNotExist),
        }
    }
}

/// The walk's outcome while every consulted directory lives on this node
/// (the root): split at the last separator, resolve the parent, refuse a
/// non-directory, and search the parent's blob. `None` marks the walk
/// leaving the node - a resolved parent on another host - where the
/// cluster walk continues over the network instead.
pub open spec fn resolve_local(
    files: Map<Seq<u8>, FileView>,
    local_name: Seq<u8>,
    path: Seq<u8>,
) -> Option<Result<crate::types::DirectoryEntryView, VPFSErrorView>>
    decreases path.len(),
{
    if !has_slash(path) {
        Some(lookup_in(files, root_uri(), path))
    } else if !(0 <= last_slash_at(path) < path.len()) {
        None
    } else {
        let ix = last_slash_at(path);
        let parent = path.subrange(0, ix);
        let leaf = path.subrange(ix + 1, path.len() as int);
        match resolve_local(files, local_name, parent) {
            None => None,
            Some(out) => match out {
                Err(e) => Some(Err(e)),
                Ok(pe) => if !pe.is_dir {
                    Some(Err(VPFSErrorView::NotADirectory))
                } else if pe.location.node_name != local_name {
                    None
                } else {
                    Some(lookup_in(files, pe.location.uri, leaf))
                },
            },
        }
    }
}

/// Which errors a resolver step may surface.
pub open spec fn resolver_err(e: VPFSErrorView) -> bool {
    e is DoesNotExist || e is NotAccessible || e is NotADirectory
        || e is CacheNeededForTraversal
}

/// Resolve a path to its directory entry by walking the tree from the
/// root, fetching each directory blob where it lives (through the cache
/// when the owner is unreachable). A result that leaned on cached
/// directory data comes back as `CacheNeededForTraversal`.
/// Creating a fresh empty blob changes no local walk: an absent blob and
/// an empty one read the same (no records either way).
#[verifier::rlimit(40)]
proof fn lemma_resolve_local_fresh_insert(
    files: Map<Seq<u8>, FileView>,
    lname: Seq<u8>,
    p: Seq<u8>,
    u: Seq<u8>,
    m: u64,
)
    requires
        !files.contains_key(u),
    ensures
        resolve_local(files.insert(u, FileView { data: Seq::empty(), mtime: m }), lname, p)
            == resolve_local(files, lname, p),
    decreases p.len(),
{
    let files2 = files.insert(u, FileView { data: Seq::empty(), mtime: m });
    crate::directory::lemma_empty_dir_blob();
    assert(dir_entries(Seq::<u8>::empty()) =~= Seq::<crate::types::DirectoryEntryView>::empty());
    assert(forall|n2: Seq<u8>| lookup_in(files2, u, n2) == lookup_in(files, u, n2));
    if !has_slash(p) {
    } else if 0 <= last_slash_at(p) < p.len() {
        lemma_resolve_local_fresh_insert(files, lname, p.subrange(0, last_slash_at(p)), u, m);
    }
}

/// The local walk fails only with verified absence or a non-directory.
proof fn lemma_resolve_local_err_shape(
    files: Map<Seq<u8>, FileView>,
    lname: Seq<u8>,
    p: Seq<u8>,
)
    ensures
        resolve_local(files, lname, p) matches Some(out) ==> (out matches Err(e) ==> e
            == VPFSErrorView::DoesNotExist || e == VPFSErrorView::NotADirectory),
    decreases p.len(),
{
    if has_slash(p) && 0 <= last_slash_at(p) < p.len() {
        lemma_resolve_local_err_shape(files, lname, p.subrange(0, last_slash_at(p)));
    }
}

#[verifier::rlimit(100)]
#[verifier::spinoff_prover]
pub fn recursive_find(c: &mut Cluster, i: usize, path: &[u8]) -> (r: Result<
    DirectoryEntry,
    VPFSError,
>)
    requires
        old(c).wf(),
        i < old(c).nodes@.len(),
    ensures
        final(c).wf(),
        final(c).up == old(c).up,
        final(c).nodes@.len() == old(c).nodes@.len(),
        forall|j: int|
            0 <= j < final(c).nodes@.len() && j != i as int ==> final(c).nodes@[j] == old(c).nodes@[j],
        final(c).nodes@[i as int].local == old(c).nodes@[i as int].local,
        final(c).nodes@[i as int].root == old(c).nodes@[i as int].root,
        final(c).nodes@[i as int].open_files == old(c).nodes@[i as int].open_files,
        r matches Err(e) ==> resolver_err(e@),
        (forall|j: int| 0 <= j < path@.len() ==> path@[j] != 47u8) && is_root(
            old(c).nodes@[i as int],
        ) ==> final(c).nodes@[i as int] == old(c).nodes@[i as int],
        (forall|j: int| 0 <= j < path@.len() ==> path@[j] != 47u8) && is_root(
            old(c).nodes@[i as int],
        ) ==> ({
            let ifiles = old(c).nodes@[i as int].files@;
            if !ifiles.contains_key(root_uri()) {
                r matches Err(e) && e@ == VPFSErrorView::DoesNotExist
            } else {
                match dir_lookup(dir_entries(ifiles[root_uri()].data), path@) {
                    Some(ev) => r matches Ok(re) && re@ == ev,
                    None => r matches Err(e) && e@ == VPFSErrorView::DoesNotExist,
                }
            }
        }),
        // an authoritative flat lookup away from the root, into an empty
        // soundly accounted cache, leaves every existing blob untouched
        (forall|j: int| 0 <= j < path@.len() ==> path@[j] != 47u8) && !is_root(
            old(c).nodes@[i as int],
        ) ==> (old(c).nodes@[i as int].root matches Some(rn) ==> (can_connect(
            *old(c),
            i as int,
            rn.name@,
        ) && old(c).nodes@[node_idx_of(old(c).nodes@, rn.name@)].files@.contains_key(
            root_uri(),
        ) && cache_seq(old(c).nodes@[i as int].cache.map).len() == 0
            && crate::cache::cache_backing_inv(
            old(c).nodes@[i as int].cache,
            old(c).nodes@[i as int].files@,
        ) ==> (forall|u: Seq<u8>|
            old(c).nodes@[i as int].files@.contains_key(u) ==> #[trigger] final(c).nodes@[i as int].files@.contains_key(u) && final(c).nodes@[i as int].files@[u]
                == old(c).nodes@[i as int].files@[u]))),
        // away from the root, a flat path searches the root blob fetched
        // through the cache-aware read path, falling back to the cached
        // copy - degraded - when the root is unreachable
        (forall|j: int| 0 <= j < path@.len() ==> path@[j] != 47u8) && !is_root(
            old(c).nodes@[i as int],
        ) ==> (old(c).nodes@[i as int].root matches Some(rn) ==> ({
            let rname = rn.name@;
            let ok = can_connect(*old(c), i as int, rname);
            let rloc = crate::types::LocationView { node_name: rname, uri: root_uri() };
            let oldseq = cache_seq(old(c).nodes@[i as int].cache.map);
            let hit = cache_hit(oldseq, rloc);
            let huri = cache_hit_uri(oldseq, rloc);
            let ifiles = old(c).nodes@[i as int].files@;
            if !ok {
                if hit {
                    ifiles.contains_key(huri) ==> (match dir_lookup(
                        dir_entries(ifiles[huri].data),
                        path@,
                    ) {
                        Some(ev) => r matches Err(e) && (e@ matches
                            VPFSErrorView::CacheNeededForTraversal(de) && de == ev),
                        None => r matches Err(e) && e@ == VPFSErrorView::DoesNotExist,
                    })
                } else {
                    r matches Err(e) && e@ == VPFSErrorView::NotAccessible
                }
            } else {
                let t = node_idx_of(old(c).nodes@, rname);
                let tgt = old(c).nodes@[t];
                if !tgt.files@.contains_key(root_uri()) {
                    r matches Err(e) && e@ == VPFSErrorView::DoesNotExist
                } else if hit && ifiles.contains_key(huri) && tgt.files@[root_uri()].mtime
                    <= ifiles[huri].mtime {
                    match dir_lookup(dir_entries(ifiles[huri].data), path@) {
                        Some(ev) => r matches Ok(re) && re@ == ev,
                        None => r matches Err(e) && e@ == VPFSErrorView::DoesNotExist,
                    }
                } else {
                    match dir_lookup(dir_entries(tgt.files@[root_uri()].data), path@) {
                        Some(ev) => r matches Ok(re) && re@ == ev,
                        None => r matches Err(e) && e@ == VPFSErrorView::DoesNotExist,
                    }
                }
            }
        })),
        // with no root configured the walk cannot begin
        old(c).nodes@[i as int].root is None ==> (r matches Err(e) && e@
            == VPFSErrorView::NotAccessible) && *final(c) == *old(c),
        // on the root node, any walk whose every consulted directory is
        // local reads as the pure local walk and touches nothing
        is_root(old(c).nodes@[i as int]) ==> (resolve_local(
            old(c).nodes@[i as int].files@,
            old(c).nodes@[i as int].local.name@,
            path@,
        ) matches Some(out) ==> *final(c) == *old(c) && (match out {
            Ok(ev) => r matches Ok(re) && re@ == ev,
            Err(e) => r matches Err(er) && er@ == e,
        })),
    decreases path@.len(),
{
    let ghost lfiles = old(c).nodes@[i as int].files@;
    let ghost lname = old(c).nodes@[i as int].local.name@;
    let ghost rooted = is_root(old(c).nodes@[i as int]);
    match rfind_slash(path) {
        None => {
            // base case: look the name up in the root directory
            let root_node = match &c.nodes[i].root {
                Some(rn) => rn.dup(),
                None => {
                    proof {
                        if rooted {
                            assert(false);
                        }
                    }
                    return Err(VPFSError::NotAccessible);
                },
            };
            let ruri = root_uri_vec();
            if bytes_eq(root_node.name.as_slice(), c.nodes[i].local.name.as_slice()) {
                // this node is the root: search the local root blob
                proof {
                    if rooted {
                        assert(resolve_local(lfiles, lname, path@) == Some(
                            lookup_in(lfiles, root_uri(), path@),
                        ));
                    }
                }
                match c.nodes[i].files.read(ruri.as_slice()) {
                    Err(_) => Err(VPFSError::DoesNotExist),
                    Ok(blob) => search_directory_blob(blob.as_slice(), path),
                }
            } else {
                proof {
                    if rooted {
                        assert(false);
                    }
                }
                let root_loc = Location { node_name: root_node.name, uri: ruri };
                match remote_read(c, i, &root_loc) {
                    Ok(dir) => search_directory_blob(dir.as_slice(), path),
                    Err(VPFSError::OnlyInCache(cl)) => {
                        match c.nodes[i].files.read(cl.uri.as_slice()) {
                            Err(_) => Err(VPFSError::DoesNotExist),
                            Ok(blob) => match search_directory_blob(blob.as_slice(), path) {
                                Ok(e) => Err(VPFSError::CacheNeededForTraversal(e)),
                                Err(err) => Err(err),
                            },
                        }
                    },
                    Err(e) => Err(e),
                }
            }
        },
        Some(ix) => {
            let plen = path.len();
            let parent = slice_range(path, 0, ix);
            let name = slice_range(path, ix + 1, plen);
            proof {
                assert(has_slash(path@));
                let a = last_slash_at(path@);
                assert(0 <= a < path@.len() && path@[a] == 47u8 && (forall|j: int|
                    a < j < path@.len() ==> path@[j] != 47u8));
                if a != ix {
                    if a < ix {
                        assert(path@[ix as int] == 47u8);
                        assert(false);
                    } else {
                        assert(path@[a] == 47u8);
                        assert(false);
                    }
                }
                if rooted && resolve_local(lfiles, lname, path@) is Some {
                    assert(resolve_local(lfiles, lname, parent@) is Some);
                }
            }
            let parent_result = recursive_find(c, i, parent.as_slice());
            let ghost walked = rooted && resolve_local(lfiles, lname, path@) is Some;
            match parent_result {
                Ok(pe) => {
                    if !pe.is_dir {
                        proof {
                            if walked {
                                assert(resolve_local(lfiles, lname, path@) == Some(
                                    Err::<crate::types::DirectoryEntryView, VPFSErrorView>(
                                        VPFSErrorView::NotADirectory,
                                    ),
                                ));
                            }
                        }
                        return Err(VPFSError::NotADirectory);
                    }
                    if bytes_eq(
                        pe.location.node_name.as_slice(),
                        c.nodes[i].local.name.as_slice(),
                    ) {
                        proof {
                            if walked {
                                assert(resolve_local(lfiles, lname, path@) == Some(
                                    lookup_in(lfiles, pe@.location.uri, name@),
                                ));
                            }
                        }
                        match c.nodes[i].files.read(pe.location.uri.as_slice()) {
                            Err(_) => Err(VPFSError::DoesNotExist),
                            Ok(blob) => search_directory_blob(blob.as_slice(), name.as_slice()),
                        }
                    } else {
                        proof {
                            if walked {
                                // the walk left the node: excluded by the
                                // local-walk guard
                                assert(false);
                            }
                        }
                        match remote_read(c, i, &pe.location) {
                            Ok(dir) => search_directory_blob(dir.as_slice(), name.as_slice()),
                            Err(VPFSError::OnlyInCache(cl)) => {
                                match c.nodes[i].files.read(cl.uri.as_slice()) {
                                    Err(_) => Err(VPFSError::DoesNotExist),
                                    Ok(blob) => match search_directory_blob(
                                        blob.as_slice(),
                                        name.as_slice(),
                                    ) {
                                        Ok(e) => Err(VPFSError::CacheNeededForTraversal(e)),
                                        Err(err) => Err(err),
                                    },
                                }
                            },
                            Err(e) => Err(e),
                        }
                    }
                },
                Err(VPFSError::CacheNeededForTraversal(pe)) => {
                    // an ancestor directory came from the cache: keep the
                    // degradation on every outcome
                    proof {
                        if walked {
                            lemma_resolve_local_err_shape(lfiles, lname, parent@);
                            assert(false);
                        }
                    }
                    if !pe.is_dir {
                        return Err(VPFSError::NotADirectory);
                    }
                    if bytes_eq(
                        pe.location.node_name.as_slice(),
                        c.nodes[i].local.name.as_slice(),
                    ) {
                        match c.nodes[i].files.read(pe.location.uri.as_slice()) {
                            Err(_) => Err(VPFSError::DoesNotExist),
                            Ok(blob) => match search_directory_blob(
                                blob.as_slice(),
                                name.as_slice(),
                            ) {
                                Ok(e) => Err(VPFSError::CacheNeededForTraversal(e)),
                                Err(err) => Err(err),
                            },
                        }
                    } else {
                        match remote_read(c, i, &pe.location) {
                            Ok(dir) => match search_directory_blob(
                                dir.as_slice(),
                                name.as_slice(),
                            ) {
                                Ok(e) => Err(VPFSError::CacheNeededForTraversal(e)),
                                Err(err) => Err(err),
                            },
                            Err(VPFSError::OnlyInCache(cl)) => {
                                match c.nodes[i].files.read(cl.uri.as_slice()) {
                                    Err(_) => Err(VPFSError::DoesNotExist),
                                    Ok(blob) => match search_directory_blob(
                                        blob.as_slice(),
                                        name.as_slice(),
                                    ) {
                                        Ok(e) => Err(VPFSError::CacheNeededForTraversal(e)),
                                        Err(err) => Err(err),
                                    },
                                }
                            },
                            Err(e) => Err(e),
                        }
                    }
                },
                Err(e) => {
                    proof {
                        if walked {
                            let out = resolve_local(lfiles, lname, path@)->Some_0;
                            let outp = resolve_local(lfiles, lname, parent@)->Some_0;
                            assert(outp is Err && out == outp);
                        }
                    }
                    Err(e)
                },
            }
        },
    }
}

// ---------------------------------------------------------------------------
// Placement (4.H)
// ---------------------------------------------------------------------------

pub open spec fn placement_err(e: VPFSErrorView) -> bool {
    resolver_err(e) || e is AlreadyExists
}

/// Append a directory record where the directory lives: locally, or by
/// one sub-stream to its owner.
fn append_entry_at(c: &mut Cluster, i: usize, dir_loc: &Location, entry: &DirectoryEntry) -> (r:
    Result<(), VPFSError>)
    requires
        old(c).wf(),
        i < old(c).nodes@.len(),
    ensures
        final(c).wf(),
        final(c).up == old(c).up,
        final(c).nodes@.len() == old(c).nodes@.len(),
        forall|j: int|
            0 <= j < final(c).nodes@.len() ==> (#[trigger] final(c).nodes@[j]).local == old(c).nodes@[j].local && final(c).nodes@[j].root == old(c).nodes@[j].root && final(c).nodes@[j].open_files == old(c).nodes@[j].open_files,
        r matches Err(e) ==> e@ is AlreadyExists || e@ == VPFSErrorView::NotAccessible || e@
            == VPFSErrorView::DoesNotExist,
        r matches Err(e) && e@ is AlreadyExists ==> forall|j: int|
            0 <= j < final(c).nodes@.len() ==> (#[trigger] final(c).nodes@[j]).files == old(c).nodes@[j].files,
        r matches Ok(_) && dir_loc@.node_name == old(c).nodes@[i as int].local.name@ ==> ({
            let ifiles = old(c).nodes@[i as int].files@;
            ifiles.contains_key(dir_loc@.uri) && dir_lookup(
                dir_entries(ifiles[dir_loc@.uri].data),
                entry@.name,
            ) is None && final(c).nodes@[i as int].files@ == ifiles.insert(
                dir_loc@.uri,
                crate::store::FileView {
                    data: ifiles[dir_loc@.uri].data + crate::codec::enc_entry(entry@),
                    mtime: old(c).nodes@[i as int].files.clock,
                },
            )
        }),
        // success is owed where the directory is at hand and the name is
        // fresh; a collision carries the record already there
        dir_loc@.node_name == old(c).nodes@[i as int].local.name@ && old(c).nodes@[i as int].files@.contains_key(dir_loc@.uri) && dir_lookup(
            dir_entries(old(c).nodes@[i as int].files@[dir_loc@.uri].data),
            entry@.name,
        ) is None ==> r is Ok,
        r matches Err(e) ==> (dir_loc@.node_name == old(c).nodes@[i as int].local.name@
            && e@ is AlreadyExists && old(c).nodes@[i as int].files@.contains_key(dir_loc@.uri)
            ==> dir_lookup(
            dir_entries(old(c).nodes@[i as int].files@[dir_loc@.uri].data),
            entry@.name,
        ) == Some(e@->AlreadyExists_0)),
        // a taken name is refused as exactly AlreadyExists
        dir_loc@.node_name == old(c).nodes@[i as int].local.name@ && old(c).nodes@[i as int].files@.contains_key(dir_loc@.uri) ==> (dir_lookup(
            dir_entries(old(c).nodes@[i as int].files@[dir_loc@.uri].data),
            entry@.name,
        ) matches Some(ex) ==> (r matches Err(e) && e@ == VPFSErrorView::AlreadyExists(ex))),
        dir_loc@.node_name != old(c).nodes@[i as int].local.name@ && can_connect(
            *old(c),
            i as int,
            dir_loc@.node_name,
        ) ==> ({
            let t = node_idx_of(old(c).nodes@, dir_loc@.node_name);
            let tfiles = old(c).nodes@[t].files@;
            tfiles.contains_key(dir_loc@.uri) ==> (dir_lookup(
                dir_entries(tfiles[dir_loc@.uri].data),
                entry@.name,
            ) matches Some(ex) ==> (r matches Err(e) && e@ == VPFSErrorView::AlreadyExists(
                ex,
            )))
        }),
        // the same three, for a directory on a reachable peer
        dir_loc@.node_name != old(c).nodes@[i as int].local.name@ && can_connect(
            *old(c),
            i as int,
            dir_loc@.node_name,
        ) ==> ({
            let t = node_idx_of(old(c).nodes@, dir_loc@.node_name);
            let tfiles = old(c).nodes@[t].files@;
            (tfiles.contains_key(dir_loc@.uri) && dir_lookup(
                dir_entries(tfiles[dir_loc@.uri].data),
                entry@.name,
            ) is None ==> r is Ok && final(c).nodes@[t].files@ == tfiles.insert(
                dir_loc@.uri,
                crate::store::FileView {
                    data: tfiles[dir_loc@.uri].data + crate::codec::enc_entry(entry@),
                    mtime: old(c).nodes@[t].files.clock,
                },
            )) && (r matches Err(e) ==> (e@ is AlreadyExists && tfiles.contains_key(
                dir_loc@.uri,
            ) ==> dir_lookup(dir_entries(tfiles[dir_loc@.uri].data), entry@.name) == Some(
                e@->AlreadyExists_0,
            )))
        }),
        dir_loc@.node_name != old(c).nodes@[i as int].local.name@ && !can_connect(
            *old(c),
            i as int,
            dir_loc@.node_name,
        ) ==> (r matches Err(e) && e@ == VPFSErrorView::NotAccessible) && (forall|j: int|
            0 <= j < final(c).nodes@.len() ==> (#[trigger] final(c).nodes@[j]).files == old(c).nodes@[j].files),
        forall|n2: Seq<u8>|
            conn_listed(old(c).nodes@[i as int].connections@, n2) ==> #[trigger] conn_listed(
                final(c).nodes@[i as int].connections@,
                n2,
            ),
        dir_loc@.node_name == old(c).nodes@[i as int].local.name@ ==> forall|j: int|
            0 <= j < final(c).nodes@.len() && j != i as int ==> (#[trigger] final(c).nodes@[j]).files == old(c).nodes@[j].files,
        dir_loc@.node_name == old(c).nodes@[i as int].local.name@ ==> (r matches Err(_)
            ==> final(c).nodes@[i as int].files == old(c).nodes@[i as int].files),
        dir_loc@.node_name != old(c).nodes@[i as int].local.name@ ==> final(c).nodes@[i as int].files == old(c).nodes@[i as int].files && (can_connect(
            *old(c),
            i as int,
            dir_loc@.node_name,
        ) ==> forall|j: int|
            0 <= j < final(c).nodes@.len() && j != node_idx_of(old(c).nodes@, dir_loc@.node_name)
                ==> (#[trigger] final(c).nodes@[j]).files == old(c).nodes@[j].files),
{
    if bytes_eq(dir_loc.node_name.as_slice(), c.nodes[i].local.name.as_slice()) {
        let ghost pre = c.nodes@;
        let req = DaemonRequest::AppendDirectoryEntry(
            copy_bytes(dir_loc.uri.as_slice()),
            entry.dup(),
        );
        let (resp, _) = c.nodes[i].handle_daemon_request(&req, None);
        proof {
            lemma_nodes_update_wf(pre, c.nodes@, i as int);
        }
        match resp {
            DaemonResponse::AppendDirectoryEntry(Ok(_)) => Ok(()),
            DaemonResponse::AppendDirectoryEntry(Err(e)) => {
                match e {
                    VPFSError::AlreadyExists(ex) => Err(VPFSError::AlreadyExists(ex)),
                    _ => Err(VPFSError::DoesNotExist),
                }
            },
            _ => {
                proof {
                    assert(false);
                }
                Err(VPFSError::DoesNotExist)
            },
        }
    } else {
        if !stream_for(c, i, dir_loc.node_name.as_slice()) {
            return Err(VPFSError::NotAccessible);
        }
        let t: usize = match node_index(c, dir_loc.node_name.as_slice()) {
            Some(t) => t,
            None => {
                proof {
                    assert(false);
                }
                return Err(VPFSError::NotAccessible);
            },
        };
        let ghost pre = c.nodes@;
        let req = DaemonRequest::AppendDirectoryEntry(
            copy_bytes(dir_loc.uri.as_slice()),
            entry.dup(),
        );
        let (resp, _) = c.nodes[t].handle_daemon_request(&req, None);
        proof {
            lemma_nodes_update_wf(pre, c.nodes@, t as int);
        }
        match resp {
            DaemonResponse::AppendDirectoryEntry(Ok(_)) => Ok(()),
            DaemonResponse::AppendDirectoryEntry(Err(e)) => {
                match e {
                    VPFSError::AlreadyExists(ex) => Err(VPFSError::AlreadyExists(ex)),
                    _ => Err(VPFSError::DoesNotExist),
                }
            },
            _ => {
                proof {
                    assert(false);
                }
                Err(VPFSError::DoesNotExist)
            },
        }
    }
}

/// Create a blob on the chosen node, splice it into its parent directory,
/// and - for a directory - seed it with its `.` and `..` records. A name
/// collision rolls the fresh blob back so nothing leaks.
#[verifier::rlimit(100)]
#[verifier::spinoff_prover]
pub fn place_file(c: &mut Cluster, i: usize, path: &[u8], at: &[u8], is_dir: bool) -> (r: Result<
    Location,
    VPFSError,
>)
    requires
        old(c).wf(),
        i < old(c).nodes@.len(),
    ensures
        final(c).wf(),
        final(c).up == old(c).up,
        final(c).nodes@.len() == old(c).nodes@.len(),
        forall|j: int|
            0 <= j < final(c).nodes@.len() ==> (#[trigger] final(c).nodes@[j]).local == old(c).nodes@[j].local && final(c).nodes@[j].root == old(c).nodes@[j].root && final(c).nodes@[j].open_files == old(c).nodes@[j].open_files,
        r matches Ok(nl) ==> nl@.node_name == at@,
        r matches Err(e) ==> placement_err(e@),
        r matches Err(e) && e@ is AlreadyExists && at@ == old(c).nodes@[i as int].local.name@
            && (forall|j: int| 0 <= j < path@.len() ==> path@[j] != 47u8) ==> final(c).nodes@[i as int].files@ == old(c).nodes@[i as int].files@,
        r matches Ok(nl) ==> (is_root(old(c).nodes@[i as int]) && (forall|j: int|
            0 <= j < path@.len() ==> path@[j] != 47u8) && old(c).nodes@[i as int].files@.contains_key(root_uri()) ==> ({
            let oldblob = old(c).nodes@[i as int].files@[root_uri()].data;
            let e = crate::types::DirectoryEntryView { location: nl@, name: path@, is_dir };
            dir_lookup(dir_entries(oldblob), path@) is None && final(c).nodes@[i as int].files@.contains_key(root_uri()) && final(c).nodes@[i as int].files@[root_uri()].data == oldblob + crate::codec::enc_entry(e)
        })),
        // success is owed: a reachable target, a flat path on the root, a
        // root blob at hand, and a fresh name place the file
        (at@ == old(c).nodes@[i as int].local.name@ || can_connect(*old(c), i as int, at@))
            && is_root(old(c).nodes@[i as int]) && (forall|j: int|
            0 <= j < path@.len() ==> path@[j] != 47u8) && old(c).nodes@[i as int].files@.contains_key(root_uri()) && dir_lookup(
            dir_entries(old(c).nodes@[i as int].files@[root_uri()].data),
            path@,
        ) is None ==> r is Ok,
        // the allocated URI is fresh on the chosen node
        r matches Ok(nl) ==> (at@ == old(c).nodes@[i as int].local.name@ ==> !old(c).nodes@[i as int].files@.contains_key(nl@.uri)) && (at@ != old(c).nodes@[i as int].local.name@ && can_connect(*old(c), i as int, at@) ==> !old(c).nodes@[node_idx_of(old(c).nodes@, at@)].files@.contains_key(nl@.uri)),
        // a taken flat name on the root is refused as exactly AlreadyExists,
        // carrying the record already there
        (at@ == old(c).nodes@[i as int].local.name@ || can_connect(*old(c), i as int, at@))
            && is_root(old(c).nodes@[i as int]) && (forall|j: int|
            0 <= j < path@.len() ==> path@[j] != 47u8) && old(c).nodes@[i as int].files@.contains_key(root_uri()) ==> (dir_lookup(
            dir_entries(old(c).nodes@[i as int].files@[root_uri()].data),
            path@,
        ) matches Some(ex) ==> (r matches Err(e) && e@ == VPFSErrorView::AlreadyExists(ex))),
        // a collision surfaces the record already bound to the name
        r matches Err(e) ==> (e@ is AlreadyExists && is_root(old(c).nodes@[i as int]) && (
        forall|j: int| 0 <= j < path@.len() ==> path@[j] != 47u8) && old(c).nodes@[i as int].files@.contains_key(root_uri()) ==> dir_lookup(
            dir_entries(old(c).nodes@[i as int].files@[root_uri()].data),
            path@,
        ) == Some(e@->AlreadyExists_0)),
        // a fresh directory starts with exactly its `.` and `..` records
        r matches Ok(nl) ==> (is_dir && at@ == old(c).nodes@[i as int].local.name@ && is_root(
            old(c).nodes@[i as int],
        ) && (forall|j: int| 0 <= j < path@.len() ==> path@[j] != 47u8) && old(c).nodes@[i as int].files@.contains_key(root_uri()) ==> ({
            let dotv = crate::types::DirectoryEntryView {
                location: nl@,
                name: seq![46u8],
                is_dir: true,
            };
            let ddv = crate::types::DirectoryEntryView {
                location: crate::types::LocationView {
                    node_name: old(c).nodes@[i as int].local.name@,
                    uri: root_uri(),
                },
                name: seq![46u8, 46u8],
                is_dir: true,
            };
            final(c).nodes@[i as int].files@.contains_key(nl@.uri) && final(c).nodes@[i as int].files@[nl@.uri].data == crate::codec::enc_entry(dotv)
                + crate::codec::enc_entry(ddv)
        })),
        // a file created on this node keeps its blob after the splice,
        // and it starts empty
        r matches Ok(nl) ==> (at@ == old(c).nodes@[i as int].local.name@ && is_root(
            old(c).nodes@[i as int],
        ) && (forall|j: int| 0 <= j < path@.len() ==> path@[j] != 47u8) && old(c).nodes@[i as int].files@.contains_key(root_uri()) ==> final(c).nodes@[i as int].files@.contains_key(nl@.uri) && (!is_dir
            ==> final(c).nodes@[i as int].files@[nl@.uri].data == Seq::<u8>::empty())),
        // a nested path on the root whose walk stays local: the resolver's
        // error (NotADirectory included) propagates; a local directory
        // parent takes exactly one new record under a fresh leaf and
        // refuses a taken leaf as AlreadyExists
        nested_target_ok(*old(c), i as int, at@) ==> (nested_local_parent(
            *old(c),
            i as int,
            path@,
        ) matches Some(out) ==> (out matches Err(e) ==> (r matches Err(er) && er@ == e))),
        nested_target_ok(*old(c), i as int, at@) ==> (nested_local_parent(
            *old(c),
            i as int,
            path@,
        ) matches Some(out) ==> (out matches Ok(pe) ==> (!pe.is_dir ==> (r matches Err(er)
            && er@ == VPFSErrorView::NotADirectory)))),
        nested_target_ok(*old(c), i as int, at@) ==> (nested_local_parent(
            *old(c),
            i as int,
            path@,
        ) matches Some(out) ==> (out matches Ok(pe) ==> (pe.is_dir && pe.location.node_name
            == old(c).nodes@[i as int].local.name@ && old(c).nodes@[i as int].files@.contains_key(pe.location.uri) ==> ({
            let leaf = path@.subrange(last_slash_at(path@) + 1, path@.len() as int);
            let pblob = old(c).nodes@[i as int].files@[pe.location.uri].data;
            (dir_lookup(dir_entries(pblob), leaf) matches Some(ex) ==> (r matches Err(er)
                && er@ == VPFSErrorView::AlreadyExists(ex))) && (dir_lookup(
                dir_entries(pblob),
                leaf,
            ) is None ==> (r matches Ok(nl) && final(c).nodes@[i as int].files@.contains_key(
                pe.location.uri,
            ) && final(c).nodes@[i as int].files@[pe.location.uri].data == pblob
                + crate::codec::enc_entry(
                crate::types::DirectoryEntryView { location: nl@, name: leaf, is_dir },
            )))
        })))),
        // a collision at a reachable remote target rolls the fresh blob
        // back, leaving that node's blobs as they were
        r matches Err(e) ==> (e@ is AlreadyExists && at@ != old(c).nodes@[i as int].local.name@ && can_connect(*old(c), i as int, at@) && (forall|
            j: int,
        | 0 <= j < path@.len() ==> path@[j] != 47u8) ==> final(c).nodes@[node_idx_of(old(c).nodes@, at@)].files@ == old(c).nodes@[node_idx_of(old(c).nodes@, at@)].files@),
{
    let local_at = bytes_eq(at, c.nodes[i].local.name.as_slice());
    // 1. allocate a fresh URI on the chosen node
    let ghost c0 = *c;
    let uri: Vec<u8> = if local_at {
        let ghost pre = c.nodes@;
        let node = &mut c.nodes[i];
        let u = node.files.create_unique_uri();
        proof {
            lemma_nodes_update_wf(pre, c.nodes@, i as int);
        }
        u
    } else {
        if !stream_for(c, i, at) {
            return Err(VPFSError::NotAccessible);
        }
        let t: usize = match node_index(c, at) {
            Some(t) => t,
            None => {
                proof {
                    assert(false);
                }
                return Err(VPFSError::NotAccessible);
            },
        };
        let ghost pre = c.nodes@;
        let (resp, _) = c.nodes[t].handle_daemon_request(&DaemonRequest::Place, None);
        proof {
            lemma_nodes_update_wf(pre, c.nodes@, t as int);
        }
        match resp {
            DaemonResponse::Place(u) => u,
            _ => {
                proof {
                    assert(false);
                }
                return Err(VPFSError::NotAccessible);
            },
        }
    };
    let new_location = Location { node_name: copy_bytes(at), uri };
    let ghost g_np = nested_local_parent(*old(c), i as int, path@);
    let ghost g_on = nested_target_ok(*old(c), i as int, at@);
    let ghost lname = old(c).nodes@[i as int].local.name@;
    proof {
        if g_on && g_np is Some {
            // a fresh empty blob changes no local walk reading
            let psub = path@.subrange(0, last_slash_at(path@));
            if at@ == lname {
                lemma_resolve_local_fresh_insert(
                    old(c).nodes@[i as int].files@,
                    lname,
                    psub,
                    new_location@.uri,
                    old(c).nodes@[i as int].files.clock,
                );
            }
            assert(resolve_local(c.nodes@[i as int].files@, lname, psub) == g_np);
        }
    }
    // 2.-3. resolve the parent directory
    let parent_loc: Location;
    let leaf: Vec<u8>;
    match rfind_slash(path) {
        Some(ix) => {
            let plen = path.len();
            let parent = slice_range(path, 0, ix);
            leaf = slice_range(path, ix + 1, plen);
            proof {
                if g_on && g_np is Some {
                    assert(has_slash(path@));
                    let a = last_slash_at(path@);
                    assert(0 <= a < path@.len() && path@[a] == 47u8 && (forall|j: int|
                        a < j < path@.len() ==> path@[j] != 47u8));
                    if a != ix {
                        if a < ix {
                            assert(path@[ix as int] == 47u8);
                            assert(false);
                        } else {
                            assert(path@[a] == 47u8);
                            assert(false);
                        }
                    }
                    assert(parent@ == path@.subrange(0, last_slash_at(path@)));
                    assert(is_root(c.nodes@[i as int]));
                }
            }
            let ghost c_alloc = *c;
            match recursive_find(c, i, parent.as_slice()) {
                Ok(pe) => {
                    proof {
                        if g_on && g_np is Some {
                            assert(*c == c_alloc);
                            assert(g_np->Some_0 == Ok::<
                                crate::types::DirectoryEntryView,
                                VPFSErrorView,
                            >(pe@));
                        }
                    }
                    if !pe.is_dir {
                        return Err(VPFSError::NotADirectory);
                    }
                    parent_loc = pe.location;
                },
                Err(e) => {
                    proof {
                        if g_on && g_np is Some {
                            assert(g_np->Some_0 matches Err(e0) && e@ == e0);
                        }
                    }
                    return Err(e);
                },
            }
        },
        None => {
            leaf = copy_bytes(path);
            match &c.nodes[i].root {
                Some(rn) => {
                    parent_loc = Location {
                        node_name: copy_bytes(rn.name.as_slice()),
                        uri: root_uri_vec(),
                    };
                },
                None => {
                    return Err(VPFSError::NotAccessible);
                },
            }
        },
    }
    // 4. splice the record into the parent, rolling back on a collision
    let entry = DirectoryEntry {
        location: new_location.dup(),
        name: leaf,
        is_dir,
    };
    let ghost before_append = *c;
    match append_entry_at(c, i, &parent_loc, &entry) {
        Ok(_) => {},
        Err(e) => {
            let failed = match &e {
                VPFSError::AlreadyExists(_) => true,
                _ => false,
            };
            if failed {
                // roll the allocation back so the collision leaks nothing
                if local_at {
                    let ghost pre = c.nodes@;
                    let node = &mut c.nodes[i];
                    node.files.remove(new_location.uri.as_slice());
                    proof {
                        lemma_nodes_update_wf(pre, c.nodes@, i as int);
                    }
                } else {
                    if stream_for(c, i, at) {
                        match node_index(c, at) {
                            Some(t) => {
                                let ghost pre = c.nodes@;
                                let req = DaemonRequest::Remove(copy_bytes(
                                    new_location.uri.as_slice(),
                                ));
                                let (_resp, _) = c.nodes[t].handle_daemon_request(&req, None);
                                proof {
                                    lemma_nodes_update_wf(pre, c.nodes@, t as int);
                                }
                            },
                            None => {
                                proof {
                                    assert(false);
                                }
                            },
                        }
                    }
                }
            }
            proof {
                if failed && local_at && (forall|j: int|
                    0 <= j < path@.len() ==> path@[j] != 47u8) {
                    assert(c.nodes@[i as int].files@ =~= old(c).nodes@[i as int].files@);
                }
            }
            return Err(e);
        },
    }
    // 5. a directory starts with its `.` and `..` records
    if is_dir {
        let dot = DirectoryEntry {
            location: new_location.dup(),
            name: dot_name(),
            is_dir: true,
        };
        let dotdot = DirectoryEntry {
            location: parent_loc,
            name: dot_dot_name(),
            is_dir: true,
        };
        let ghost flat_local_root = local_at && is_root(old(c).nodes@[i as int]) && (forall|
            j: int,
        | 0 <= j < path@.len() ==> path@[j] != 47u8) && old(c).nodes@[i as int].files@.contains_key(root_uri());
        let ghost c2files = c.nodes@[i as int].files@;
        proof {
            crate::codec::lemma_entry_view_wf(&dot);
            crate::codec::lemma_entry_view_wf(&dotdot);
            if flat_local_root {
                // the fresh blob is empty and carries no record yet
                assert(c2files.contains_key(new_location@.uri));
                assert(c2files[new_location@.uri].data =~= Seq::<u8>::empty());
                crate::directory::lemma_empty_dir_blob();
                assert(dir_entries(Seq::<u8>::empty())
                    =~= Seq::<crate::types::DirectoryEntryView>::empty());
                assert(dir_lookup(dir_entries(c2files[new_location@.uri].data), dot@.name)
                    is None);
            }
        }
        let r1 = append_entry_at(c, i, &new_location, &dot);
        let ghost c3files = c.nodes@[i as int].files@;
        proof {
            if flat_local_root {
                assert(r1 is Ok);
                assert(c3files[new_location@.uri].data =~= crate::codec::enc_entry(dot@));
                crate::directory::lemma_dir_append(Seq::<u8>::empty(), dot@);
                assert(dir_entries(crate::codec::enc_entry(dot@))
                    =~= Seq::<crate::types::DirectoryEntryView>::empty().push(dot@));
                assert(dot@.name != dotdot@.name) by {
                    assert(dot@.name.len() == 1 && dotdot@.name.len() == 2);
                }
                assert(dir_lookup(dir_entries(c3files[new_location@.uri].data), dotdot@.name)
                    is None) by {
                    let es = dir_entries(crate::codec::enc_entry(dot@));
                    assert(es.len() == 1);
                    assert(es[0] == dot@);
                    assert(es.skip(1) =~= Seq::<crate::types::DirectoryEntryView>::empty());
                    assert(dir_lookup(es.skip(1), dotdot@.name) is None);
                    assert(dir_entries(c3files[new_location@.uri].data) == es);
                }
            }
        }
        let r2 = append_entry_at(c, i, &new_location, &dotdot);
        proof {
            if flat_local_root {
                assert(r2 is Ok);
                assert(c.nodes@[i as int].files@[new_location@.uri].data
                    =~= crate::codec::enc_entry(dot@) + crate::codec::enc_entry(dotdot@));
            }
        }
    }
    Ok(new_location)
}

/// The name `.` as bytes.
pub fn dot_name() -> (r: Vec<u8>)
    ensures
        r@ == seq![46u8],
{
    let mut r: Vec<u8> = Vec::new();
    r.push(46u8);
    proof {
        assert(r@ =~= seq![46u8]);
    }
    r
}

/// The name `..` as bytes.
pub fn dot_dot_name() -> (r: Vec<u8>)
    ensures
        r@ == seq![46u8, 46u8],
{
    let mut r: Vec<u8> = Vec::new();
    r.push(46u8);
    r.push(46u8);
    proof {
        assert(r@ =~= seq![46u8, 46u8]);
    }
    r
}

// ---------------------------------------------------------------------------
// Streamed reads across the cluster
// ---------------------------------------------------------------------------

/// Open a blob for streaming where it lives; the returned descriptor is
/// the owning daemon's.
pub fn open_file(c: &mut Cluster, i: usize, loc: &Location) -> (r: Result<u64, VPFSError>)
    requires
        old(c).wf(),
        i < old(c).nodes@.len(),
    ensures
        final(c).wf(),
        final(c).up == old(c).up,
        final(c).nodes@.len() == old(c).nodes@.len(),
        forall|j: int|
            0 <= j < final(c).nodes@.len() ==> (#[trigger] final(c).nodes@[j]).local == old(c).nodes@[j].local && final(c).nodes@[j].root == old(c).nodes@[j].root && final(c).nodes@[j].files == old(c).nodes@[j].files && final(c).nodes@[j].cache == old(c).nodes@[j].cache,
        loc@.node_name == old(c).nodes@[i as int].local.name@ ==> ({
            let n = old(c).nodes@[i as int];
            if !n.files@.contains_key(loc@.uri) {
                r matches Err(e) && e@ == VPFSErrorView::DoesNotExist
            } else if n.open_files.next_fd < u64::MAX {
                r matches Ok(fd) && final(c).nodes@[i as int].open_files@
                    == n.open_files@.insert(
                    fd,
                    OpenView { data: n.files@[loc@.uri].data, pos: 0 },
                )
            } else {
                r matches Err(e) && e@ == VPFSErrorView::DoesNotExist
            }
        }),
        loc@.node_name != old(c).nodes@[i as int].local.name@ && !can_connect(
            *old(c),
            i as int,
            loc@.node_name,
        ) ==> (r matches Err(e) && e@ == VPFSErrorView::NotAccessible),
        loc@.node_name != old(c).nodes@[i as int].local.name@ && can_connect(
            *old(c),
            i as int,
            loc@.node_name,
        ) ==> ({
            let t = node_idx_of(old(c).nodes@, loc@.node_name);
            let tn = old(c).nodes@[t];
            if !tn.files@.contains_key(loc@.uri) {
                r matches Err(e) && e@ == VPFSErrorView::DoesNotExist
            } else if tn.open_files.next_fd < u64::MAX {
                r matches Ok(fd) && final(c).nodes@[t].open_files@ == tn.open_files@.insert(
                    fd,
                    OpenView { data: tn.files@[loc@.uri].data, pos: 0 },
                )
            } else {
                r matches Err(e) && e@ == VPFSErrorView::DoesNotExist
            }
        }),
{
    if bytes_eq(loc.node_name.as_slice(), c.nodes[i].local.name.as_slice()) {
        let ghost pre = c.nodes@;
        let req = DaemonRequest::Open(copy_bytes(loc.uri.as_slice()));
        let (resp, _) = c.nodes[i].handle_daemon_request(&req, None);
        proof {
            lemma_nodes_update_wf(pre, c.nodes@, i as int);
        }
        match resp {
            DaemonResponse::Open(res) => res,
            _ => {
                proof {
                    assert(false);
                }
                Err(VPFSError::DoesNotExist)
            },
        }
    } else {
        if !stream_for(c, i, loc.node_name.as_slice()) {
            return Err(VPFSError::NotAccessible);
        }
        let t: usize = match node_index(c, loc.node_name.as_slice()) {
            Some(t) => t,
            None => {
                proof {
                    assert(false);
                }
                return Err(VPFSError::NotAccessible);
            },
        };
        let ghost pre = c.nodes@;
        let req = DaemonRequest::Open(copy_bytes(loc.uri.as_slice()));
        let (resp, _) = c.nodes[t].handle_daemon_request(&req, None);
        proof {
            lemma_nodes_update_wf(pre, c.nodes@, t as int);
        }
        match resp {
            DaemonResponse::Open(res) => res,
            _ => {
                proof {
                    assert(false);
                }
                Err(VPFSError::DoesNotExist)
            },
        }
    }
}

/// Read the next chunk from an open descriptor on the owning node.
/// An empty result means the cursor sat at the end (or nothing was
/// asked for).
pub fn read_fd(c: &mut Cluster, i: usize, loc: &Location, fd: u64, n: u64) -> (r: Result<
    Vec<u8>,
    VPFSError,
>)
    requires
        old(c).wf(),
        i < old(c).nodes@.len(),
    ensures
        final(c).wf(),
        final(c).up == old(c).up,
        final(c).nodes@.len() == old(c).nodes@.len(),
        forall|j: int|
            0 <= j < final(c).nodes@.len() ==> (#[trigger] final(c).nodes@[j]).local == old(c).nodes@[j].local && final(c).nodes@[j].root == old(c).nodes@[j].root && final(c).nodes@[j].files == old(c).nodes@[j].files && final(c).nodes@[j].cache == old(c).nodes@[j].cache,
        loc@.node_name == old(c).nodes@[i as int].local.name@ ==> ({
            let m = old(c).nodes@[i as int].open_files@;
            if !m.contains_key(fd) {
                r matches Err(e) && e@ == VPFSErrorView::FileNotOpen
            } else {
                let v = m[fd];
                let nn = if n <= usize::MAX as u64 {
                    n as int
                } else {
                    usize::MAX as int
                };
                let end = if v.pos + nn <= v.data.len() {
                    v.pos + nn
                } else {
                    v.data.len() as int
                };
                r matches Ok(b) && b@ == v.data.subrange(v.pos, end) && final(c).nodes@[i as int].open_files@ == m.insert(
                    fd,
                    OpenView { data: v.data, pos: end },
                )
            }
        }),
        loc@.node_name != old(c).nodes@[i as int].local.name@ && !can_connect(
            *old(c),
            i as int,
            loc@.node_name,
        ) ==> (r matches Err(e) && e@ == VPFSErrorView::NotAccessible),
        loc@.node_name != old(c).nodes@[i as int].local.name@ && can_connect(
            *old(c),
            i as int,
            loc@.node_name,
        ) ==> ({
            let t = node_idx_of(old(c).nodes@, loc@.node_name);
            let m = old(c).nodes@[t].open_files@;
            if !m.contains_key(fd) {
                r matches Err(e) && e@ == VPFSErrorView::FileNotOpen
            } else {
                let v = m[fd];
                let nn = if n <= usize::MAX as u64 {
                    n as int
                } else {
                    usize::MAX as int
                };
                let end = if v.pos + nn <= v.data.len() {
                    v.pos + nn
                } else {
                    v.data.len() as int
                };
                r matches Ok(b) && b@ == v.data.subrange(v.pos, end) && final(c).nodes@[t].open_files@ == m.insert(fd, OpenView { data: v.data, pos: end })
            }
        }),
{
    if bytes_eq(loc.node_name.as_slice(), c.nodes[i].local.name.as_slice()) {
        let ghost pre = c.nodes@;
        let req = DaemonRequest::ReadFd(fd, n);
        let (resp, body) = c.nodes[i].handle_daemon_request(&req, None);
        proof {
            lemma_nodes_update_wf(pre, c.nodes@, i as int);
        }
        match (resp, body) {
            (DaemonResponse::ReadFd(Ok(_)), Some(buf)) => Ok(buf),
            (DaemonResponse::ReadFd(Err(e)), _) => Err(e),
            _ => {
                proof {
                    assert(false);
                }
                Err(VPFSError::FileNotOpen)
            },
        }
    } else {
        if !stream_for(c, i, loc.node_name.as_slice()) {
            return Err(VPFSError::NotAccessible);
        }
        let t: usize = match node_index(c, loc.node_name.as_slice()) {
            Some(t) => t,
            None => {
                proof {
                    assert(false);
                }
                return Err(VPFSError::NotAccessible);
            },
        };
        let ghost pre = c.nodes@;
        let req = DaemonRequest::ReadFd(fd, n);
        let (resp, body) = c.nodes[t].handle_daemon_request(&req, None);
        proof {
            lemma_nodes_update_wf(pre, c.nodes@, t as int);
        }
        match (resp, body) {
            (DaemonResponse::ReadFd(Ok(_)), Some(buf)) => Ok(buf),
            (DaemonResponse::ReadFd(Err(e)), _) => Err(e),
            _ => {
                proof {
                    assert(false);
                }
                Err(VPFSError::FileNotOpen)
            },
        }
    }
}

/// Read one line (up to and including a newline, or to the end) from an
/// open descriptor on the owning node.
pub fn read_line_fd(c: &mut Cluster, i: usize, loc: &Location, fd: u64) -> (r: Result<
    Vec<u8>,
    VPFSError,
>)
    requires
        old(c).wf(),
        i < old(c).nodes@.len(),
    ensures
        final(c).wf(),
        final(c).up == old(c).up,
        final(c).nodes@.len() == old(c).nodes@.len(),
        forall|j: int|
            0 <= j < final(c).nodes@.len() ==> (#[trigger] final(c).nodes@[j]).local == old(c).nodes@[j].local && final(c).nodes@[j].root == old(c).nodes@[j].root && final(c).nodes@[j].files == old(c).nodes@[j].files && final(c).nodes@[j].cache == old(c).nodes@[j].cache,
        loc@.node_name == old(c).nodes@[i as int].local.name@ ==> ({
            let m = old(c).nodes@[i as int].open_files@;
            if !m.contains_key(fd) {
                r matches Err(e) && e@ == VPFSErrorView::FileNotOpen
            } else {
                let v = m[fd];
                let end = line_end(v.data, v.pos);
                r matches Ok(b) && b@ == v.data.subrange(v.pos, end) && final(c).nodes@[i as int].open_files@ == m.insert(
                    fd,
                    OpenView { data: v.data, pos: end },
                )
            }
        }),
        loc@.node_name != old(c).nodes@[i as int].local.name@ && !can_connect(
            *old(c),
            i as int,
            loc@.node_name,
        ) ==> (r matches Err(e) && e@ == VPFSErrorView::NotAccessible),
        loc@.node_name != old(c).nodes@[i as int].local.name@ && can_connect(
            *old(c),
            i as int,
            loc@.node_name,
        ) ==> ({
            let t = node_idx_of(old(c).nodes@, loc@.node_name);
            let m = old(c).nodes@[t].open_files@;
            if !m.contains_key(fd) {
                r matches Err(e) && e@ == VPFSErrorView::FileNotOpen
            } else {
                let v = m[fd];
                let end = line_end(v.data, v.pos);
                r matches Ok(b) && b@ == v.data.subrange(v.pos, end) && final(c).nodes@[t].open_files@ == m.insert(fd, OpenView { data: v.data, pos: end })
            }
        }),
{
    if bytes_eq(loc.node_name.as_slice(), c.nodes[i].local.name.as_slice()) {
        let ghost pre = c.nodes@;
        let req = DaemonRequest::ReadLineFd(fd);
        let (resp, body) = c.nodes[i].handle_daemon_request(&req, None);
        proof {
            lemma_nodes_update_wf(pre, c.nodes@, i as int);
        }
        match (resp, body) {
            (DaemonResponse::ReadLineFd(Ok(_)), Some(buf)) => Ok(buf),
            (DaemonResponse::ReadLineFd(Err(e)), _) => Err(e),
            _ => {
                proof {
                    assert(false);
                }
                Err(VPFSError::FileNotOpen)
            },
        }
    } else {
        if !stream_for(c, i, loc.node_name.as_slice()) {
            return Err(VPFSError::NotAccessible);
        }
        let t: usize = match node_index(c, loc.node_name.as_slice()) {
            Some(t) => t,
            None => {
                proof {
                    assert(false);
                }
                return Err(VPFSError::NotAccessible);
            },
        };
        let ghost pre = c.nodes@;
        let req = DaemonRequest::ReadLineFd(fd);
        let (resp, body) = c.nodes[t].handle_daemon_request(&req, None);
        proof {
            lemma_nodes_update_wf(pre, c.nodes@, t as int);
        }
        match (resp, body) {
            (DaemonResponse::ReadLineFd(Ok(_)), Some(buf)) => Ok(buf),
            (DaemonResponse::ReadLineFd(Err(e)), _) => Err(e),
            _ => {
                proof {
                    assert(false);
                }
                Err(VPFSError::FileNotOpen)
            },
        }
    }
}

/// Release a descriptor on the node that owns it.
pub fn close_file(c: &mut Cluster, i: usize, node_name: &[u8], fd: u64) -> (r: Result<
    (),
    VPFSError,
>)
    requires
        old(c).wf(),
        i < old(c).nodes@.len(),
    ensures
        final(c).wf(),
        final(c).up == old(c).up,
        final(c).nodes@.len() == old(c).nodes@.len(),
        forall|j: int|
            0 <= j < final(c).nodes@.len() ==> (#[trigger] final(c).nodes@[j]).local == old(c).nodes@[j].local && final(c).nodes@[j].root == old(c).nodes@[j].root && final(c).nodes@[j].files == old(c).nodes@[j].files && final(c).nodes@[j].cache == old(c).nodes@[j].cache,
        node_name@ == old(c).nodes@[i as int].local.name@ ==> final(c).nodes@[i as int].open_files@ == old(c).nodes@[i as int].open_files@.remove(fd) && (
        r is Ok == old(c).nodes@[i as int].open_files@.contains_key(fd)),
        node_name@ != old(c).nodes@[i as int].local.name@ && !can_connect(
            *old(c),
            i as int,
            node_name@,
        ) ==> (r matches Err(e) && e@ == VPFSErrorView::NotAccessible),
        node_name@ != old(c).nodes@[i as int].local.name@ && can_connect(
            *old(c),
            i as int,
            node_name@,
        ) ==> ({
            let t = node_idx_of(old(c).nodes@, node_name@);
            final(c).nodes@[t].open_files@ == old(c).nodes@[t].open_files@.remove(fd) && (
            r is Ok == old(c).nodes@[t].open_files@.contains_key(fd))
        }),
{
    if bytes_eq(node_name, c.nodes[i].local.name.as_slice()) {
        let ghost pre = c.nodes@;
        let req = DaemonRequest::Close(fd);
        let (resp, _) = c.nodes[i].handle_daemon_request(&req, None);
        proof {
            lemma_nodes_update_wf(pre, c.nodes@, i as int);
        }
        match resp {
            DaemonResponse::Close(Ok(_)) => Ok(()),
            DaemonResponse::Close(Err(e)) => Err(e),
            _ => {
                proof {
                    assert(false);
                }
                Err(VPFSError::FileNotOpen)
            },
        }
    } else {
        if !stream_for(c, i, node_name) {
            return Err(VPFSError::NotAccessible);
        }
        let t: usize = match node_index(c, node_name) {
            Some(t) => t,
            None => {
                proof {
                    assert(false);
                }
                return Err(VPFSError::NotAccessible);
            },
        };
        let ghost pre = c.nodes@;
        let req = DaemonRequest::Close(fd);
        let (resp, _) = c.nodes[t].handle_daemon_request(&req, None);
        proof {
            lemma_nodes_update_wf(pre, c.nodes@, t as int);
        }
        match resp {
            DaemonResponse::Close(Ok(_)) => Ok(()),
            DaemonResponse::Close(Err(e)) => Err(e),
            _ => {
                proof {
                    assert(false);
                }
                Err(VPFSError::FileNotOpen)
            },
        }
    }
}

// ---------------------------------------------------------------------------
// The client-facing dispatcher
// ---------------------------------------------------------------------------

/// Conditions for an authoritative flat lookup away from the root: the
/// root is reachable, its blob is there, and this node's cache is empty
/// with sound accounting.
pub open spec fn remote_flat_lookup_ok(c: Cluster, i: int, p: Seq<u8>) -> bool {
    &&& (forall|j: int| 0 <= j < p.len() ==> p[j] != 47u8)
    &&& !is_root(c.nodes@[i])
    &&& c.nodes@[i].root is Some
    &&& can_connect(c, i, c.nodes@[i].root->Some_0.name@)
    &&& c.nodes@[node_idx_of(c.nodes@, c.nodes@[i].root->Some_0.name@)].files@.contains_key(
        root_uri(),
    )
    &&& cache_seq(c.nodes@[i].cache.map).len() == 0
    &&& crate::cache::cache_backing_inv(c.nodes@[i].cache, c.nodes@[i].files@)
}

/// The root directory blob as the root node holds it.
pub open spec fn remote_root_blob(c: Cluster, i: int) -> Seq<u8> {
    c.nodes@[node_idx_of(c.nodes@, c.nodes@[i].root->Some_0.name@)].files@[root_uri()].data
}

/// The placement target is this node or a reachable peer.
pub open spec fn nested_target_ok(c: Cluster, i: int, at: Seq<u8>) -> bool {
    at == c.nodes@[i].local.name@ || can_connect(c, i, at)
}

/// The local walk's reading of a nested path's parent, on the root node;
/// `None` off the root, on a flat path, or where the walk leaves the node.
pub open spec fn nested_local_parent(c: Cluster, i: int, path: Seq<u8>) -> Option<
    Result<crate::types::DirectoryEntryView, VPFSErrorView>,
> {
    if is_root(c.nodes@[i]) && has_slash(path) && 0 <= last_slash_at(path) < path.len() {
        resolve_local(
            c.nodes@[i].files@,
            c.nodes@[i].local.name@,
            path.subrange(0, last_slash_at(path)),
        )
    } else {
        None
    }
}

/// Everything placement promises of its result, for relaying: the
/// location names the chosen node; success is owed for a flat path on the
/// root with a reachable target and a fresh name; a flat-path success
/// extends the root blob by exactly the new record (and seeds `.` and
/// `..` for a directory made on this node); a collision carries the
/// record already bound to the name.
pub open spec fn placement_outcome(
    pre: Cluster,
    post: Cluster,
    i: int,
    path: Seq<u8>,
    at: Seq<u8>,
    is_dir: bool,
    r: Result<Location, VPFSError>,
) -> bool {
    let local = pre.nodes@[i].local.name@;
    let flat = forall|j: int| 0 <= j < path.len() ==> path[j] != 47u8;
    let rooted = is_root(pre.nodes@[i]) && pre.nodes@[i].files@.contains_key(root_uri());
    let oldblob = pre.nodes@[i].files@[root_uri()].data;
    &&& (r matches Ok(nl) ==> nl@.node_name == at)
    &&& (r matches Err(e) ==> placement_err(e@))
    &&& ((at == local || can_connect(pre, i, at)) && flat && rooted && dir_lookup(
        dir_entries(oldblob),
        path,
    ) is None ==> r is Ok)
    &&& (r matches Ok(nl) ==> (flat && rooted ==> dir_lookup(dir_entries(oldblob), path)
        is None && post.nodes@[i].files@.contains_key(root_uri())
        && post.nodes@[i].files@[root_uri()].data == oldblob + crate::codec::enc_entry(
        crate::types::DirectoryEntryView { location: nl@, name: path, is_dir },
    )))
    &&& (r matches Err(e) ==> (e@ is AlreadyExists && flat && rooted ==> dir_lookup(
        dir_entries(oldblob),
        path,
    ) == Some(e@->AlreadyExists_0)))
    &&& ((at == local || can_connect(pre, i, at)) && flat && rooted ==> (dir_lookup(
        dir_entries(oldblob),
        path,
    ) matches Some(ex) ==> (r matches Err(e) && e@ == VPFSErrorView::AlreadyExists(ex))))
    &&& (r matches Err(e) ==> (e@ is AlreadyExists && at == local && flat
        ==> post.nodes@[i].files@ == pre.nodes@[i].files@))
    &&& (r matches Ok(nl) ==> (at == local ==> !pre.nodes@[i].files@.contains_key(nl@.uri)))
    &&& (r matches Ok(nl) ==> (at == local && flat && rooted ==> post.nodes@[
        i].files@.contains_key(nl@.uri)))
    &&& (r matches Ok(nl) ==> (is_dir && at == local && flat && rooted
        ==> post.nodes@[i].files@.contains_key(nl@.uri) && post.nodes@[i].files@[nl@.uri].data
        == crate::codec::enc_entry(
        crate::types::DirectoryEntryView { location: nl@, name: seq![46u8], is_dir: true },
    ) + crate::codec::enc_entry(
        crate::types::DirectoryEntryView {
            location: crate::types::LocationView { node_name: local, uri: root_uri() },
            name: seq![46u8, 46u8],
            is_dir: true,
        },
    )))
}

/// Serve one request from a local client connection, routing it to the
/// resolver, placement, the cache-aware read path, or the descriptor
/// table. The second element of the argument and of the result is the
/// bulk payload that follows the header where the protocol has one.
#[verifier::rlimit(80)]
pub fn handle_client_request(
    c: &mut Cluster,
    i: usize,
    req: &crate::wire::ClientRequest,
    body: Option<Vec<u8>>,
) -> (r: (crate::wire::ClientResponse, Option<Vec<u8>>))
    requires
        old(c).wf(),
        i < old(c).nodes@.len(),
        req@ matches crate::wire::ClientRequestView::Write(_, _) ==> body is Some,
    ensures
        final(c).wf(),
        final(c).up == old(c).up,
        final(c).nodes@.len() == old(c).nodes@.len(),
        forall|j: int|
            0 <= j < final(c).nodes@.len() ==> (#[trigger] final(c).nodes@[j]).local == old(c).nodes@[j].local && final(c).nodes@[j].root == old(c).nodes@[j].root,
        req@ matches crate::wire::ClientRequestView::Find(_) ==> r.0 is Find && r.1 is None,
        req@ matches crate::wire::ClientRequestView::Find(p) ==> ((forall|j: int|
            0 <= j < p.len() ==> p[j] != 47u8) && is_root(old(c).nodes@[i as int]) ==> final(c).nodes@[i as int] == old(c).nodes@[i as int]),
        req@ matches crate::wire::ClientRequestView::Find(p) ==> (remote_flat_lookup_ok(
            *old(c),
            i as int,
            p,
        ) ==> (forall|u: Seq<u8>|
            old(c).nodes@[i as int].files@.contains_key(u) ==> #[trigger] final(c).nodes@[i as int].files@.contains_key(u) && final(c).nodes@[i as int].files@[u]
                == old(c).nodes@[i as int].files@[u])),
        req@ matches crate::wire::ClientRequestView::Find(p) ==> (remote_flat_lookup_ok(
            *old(c),
            i as int,
            p,
        ) ==> (r.0 matches crate::wire::ClientResponse::Find(res) && (match dir_lookup(
            dir_entries(remote_root_blob(*old(c), i as int)),
            p,
        ) {
            Some(ev) => res matches Ok(en) && en@ == ev,
            None => res matches Err(e) && e@ == VPFSErrorView::DoesNotExist,
        }))),
        req@ matches crate::wire::ClientRequestView::Find(p) ==> (is_root(
            old(c).nodes@[i as int],
        ) ==> (resolve_local(
            old(c).nodes@[i as int].files@,
            old(c).nodes@[i as int].local.name@,
            p,
        ) matches Some(out) ==> *final(c) == *old(c) && (
        r.0 matches crate::wire::ClientResponse::Find(res) && (match out {
            Ok(ev) => res matches Ok(en) && en@ == ev,
            Err(e) => res matches Err(er) && er@ == e,
        })))),
        req@ matches crate::wire::ClientRequestView::Find(p) ==> ((forall|j: int|
            0 <= j < p.len() ==> p[j] != 47u8) && is_root(old(c).nodes@[i as int]) ==> ({
            let ifiles = old(c).nodes@[i as int].files@;
            r.0 matches crate::wire::ClientResponse::Find(res) && (if !ifiles.contains_key(
                root_uri(),
            ) {
                res matches Err(e) && e@ == VPFSErrorView::DoesNotExist
            } else {
                match dir_lookup(dir_entries(ifiles[root_uri()].data), p) {
                    Some(ev) => res matches Ok(en) && en@ == ev,
                    None => res matches Err(e) && e@ == VPFSErrorView::DoesNotExist,
                }
            })
        })),
        req@ matches crate::wire::ClientRequestView::Place(_, _) ==> r.0 is Place && r.1
            is None,
        req@ matches crate::wire::ClientRequestView::Place(p, a) ==> (
        r.0 matches crate::wire::ClientResponse::Place(res) && placement_outcome(
            *old(c),
            *final(c),
            i as int,
            p,
            a,
            false,
            res,
        )),
        req@ matches crate::wire::ClientRequestView::Mkdir(_, _) ==> r.0 is Mkdir && r.1
            is None,
        req@ matches crate::wire::ClientRequestView::Mkdir(p, a) ==> (
        r.0 matches crate::wire::ClientResponse::Mkdir(res) && placement_outcome(
            *old(c),
            *final(c),
            i as int,
            p,
            a,
            true,
            res,
        )),
        req@ matches crate::wire::ClientRequestView::Open(_) ==> r.0 is Open && r.1 is None,
        req@ matches crate::wire::ClientRequestView::Open(l) ==> (l.node_name == old(c).nodes@[i as int].local.name@ ==> ({
            let n = old(c).nodes@[i as int];
            r.0 matches crate::wire::ClientResponse::Open(res) && (if !n.files@.contains_key(
                l.uri,
            ) {
                res matches Err(e) && e@ == VPFSErrorView::DoesNotExist
            } else if n.open_files.next_fd < u64::MAX {
                res matches Ok(fd) && final(c).nodes@[i as int].open_files@
                    == n.open_files@.insert(fd, OpenView { data: n.files@[l.uri].data, pos: 0 })
            } else {
                res matches Err(e) && e@ == VPFSErrorView::DoesNotExist
            })
        })),
        req@ matches crate::wire::ClientRequestView::ReadFd(_, _, _) ==> (
        r.0 matches crate::wire::ClientResponse::ReadFd(res) && (res is Ok <==> r.1 is Some)),
        req@ matches crate::wire::ClientRequestView::ReadFd(l, fd, n) ==> (l.node_name == old(c).nodes@[i as int].local.name@ ==> ({
            let m = old(c).nodes@[i as int].open_files@;
            if !m.contains_key(fd) {
                r.0 matches crate::wire::ClientResponse::ReadFd(res) && (res matches Err(e)
                    && e@ == VPFSErrorView::FileNotOpen)
            } else {
                let v = m[fd];
                let nn = if n <= usize::MAX as u64 {
                    n as int
                } else {
                    usize::MAX as int
                };
                let end = if v.pos + nn <= v.data.len() {
                    v.pos + nn
                } else {
                    v.data.len() as int
                };
                (r.1 matches Some(b) && b@ == v.data.subrange(v.pos, end)) && final(c).nodes@[i as int].open_files@ == m.insert(
                    fd,
                    OpenView { data: v.data, pos: end },
                )
            }
        })),
        req@ matches crate::wire::ClientRequestView::ReadLineFd(_, _) ==> (
        r.0 matches crate::wire::ClientResponse::ReadLineFd(res) && (res is Ok <==> r.1
            is Some)),
        req@ matches crate::wire::ClientRequestView::ReadLineFd(l, fd) ==> (l.node_name
            == old(c).nodes@[i as int].local.name@ ==> ({
            let m = old(c).nodes@[i as int].open_files@;
            if !m.contains_key(fd) {
                r.0 matches crate::wire::ClientResponse::ReadLineFd(res) && (res matches Err(
                    e,
                ) && e@ == VPFSErrorView::FileNotOpen)
            } else {
                let v = m[fd];
                let end = line_end(v.data, v.pos);
                (r.1 matches Some(b) && b@ == v.data.subrange(v.pos, end)) && final(c).nodes@[i as int].open_files@ == m.insert(
                    fd,
                    OpenView { data: v.data, pos: end },
                )
            }
        })),
        req@ matches crate::wire::ClientRequestView::Close(_, _) ==> r.0 is Close && r.1
            is None,
        req@ matches crate::wire::ClientRequestView::Close(nm, fd) ==> (nm == old(c).nodes@[i as int].local.name@ ==> final(c).nodes@[i as int].open_files@ == old(c).nodes@[i as int].open_files@.remove(fd) && (
        r.0 matches crate::wire::ClientResponse::Close(res) && res is Ok == old(c).nodes@[i as int].open_files@.contains_key(fd))),
        req@ matches crate::wire::ClientRequestView::Read(_) ==> (
        r.0 matches crate::wire::ClientResponse::Read(res) && (res is Ok <==> r.1 is Some)),
        req@ matches crate::wire::ClientRequestView::Write(_, _) ==> r.0 is Write && r.1
            is None,
        req@ matches crate::wire::ClientRequestView::Read(l) ==> l.node_name == old(c).nodes@[i as int].local.name@ ==> ({
            let ifiles = old(c).nodes@[i as int].files@;
            if ifiles.contains_key(l.uri) {
                r.0 matches crate::wire::ClientResponse::Read(res) && res == Ok::<
                    u64,
                    VPFSError,
                >(ifiles[l.uri].data.len() as u64) && (r.1 matches Some(b) && b@
                    == ifiles[l.uri].data)
            } else {
                r.0 matches crate::wire::ClientResponse::Read(res) && res matches Err(e) && e@
                    == VPFSErrorView::DoesNotExist
            }
        }),
        // a read of a remote blob follows the cache-aware path: the
        // owner's bytes when reachable, the cached copy or its location
        // when not
        req@ matches crate::wire::ClientRequestView::Read(l) ==> (l.node_name != old(c).nodes@[i as int].local.name@ ==> ({
            let ok = can_connect(*old(c), i as int, l.node_name);
            let oldseq = cache_seq(old(c).nodes@[i as int].cache.map);
            let hit = cache_hit(oldseq, l);
            let huri = cache_hit_uri(oldseq, l);
            let ifiles = old(c).nodes@[i as int].files@;
            r.0 matches crate::wire::ClientResponse::Read(res) && (if !ok {
                if hit {
                    res matches Err(e) && (e@ matches VPFSErrorView::OnlyInCache(cl)
                        && cl.node_name == old(c).nodes@[i as int].local.name@ && cl.uri
                        == huri)
                } else {
                    res matches Err(e) && e@ == VPFSErrorView::NotAccessible
                }
            } else {
                let t = node_idx_of(old(c).nodes@, l.node_name);
                let tgt = old(c).nodes@[t];
                if !tgt.files@.contains_key(l.uri) {
                    res matches Err(e) && e@ == VPFSErrorView::DoesNotExist
                } else if hit && ifiles.contains_key(huri) && tgt.files@[l.uri].mtime
                    <= ifiles[huri].mtime {
                    (r.1 matches Some(b) && b@ == ifiles[huri].data)
                } else {
                    (r.1 matches Some(b) && b@ == tgt.files@[l.uri].data)
                }
            })
        })),
        // a write to a remote blob lands on its owner when reachable
        req@ matches crate::wire::ClientRequestView::Write(l, _) ==> (l.node_name != old(c).nodes@[i as int].local.name@ ==> ({
            let b = body->Some_0;
            r.0 matches crate::wire::ClientResponse::Write(res) && (if !can_connect(
                *old(c),
                i as int,
                l.node_name,
            ) {
                res matches Err(e) && e@ == VPFSErrorView::NotAccessible
            } else {
                let t = node_idx_of(old(c).nodes@, l.node_name);
                let tgt = old(c).nodes@[t];
                if tgt.files@.contains_key(l.uri) {
                    res == Ok::<u64, VPFSError>(b@.len() as u64) && final(c).nodes@[t].files@
                        == tgt.files@.insert(
                        l.uri,
                        crate::store::FileView { data: b@, mtime: tgt.files.clock },
                    )
                } else {
                    res matches Err(e) && e@ == VPFSErrorView::DoesNotExist
                }
            })
        })),
        req@ matches crate::wire::ClientRequestView::Write(l, _) ==> l.node_name == old(c).nodes@[i as int].local.name@ ==> ({
            let ifiles = old(c).nodes@[i as int].files@;
            let b = body->Some_0;
            if ifiles.contains_key(l.uri) {
                r.0 matches crate::wire::ClientResponse::Write(res) && res == Ok::<
                    u64,
                    VPFSError,
                >(b@.len() as u64) && final(c).nodes@[i as int].files@ == ifiles.insert(
                    l.uri,
                    crate::store::FileView {
                        data: b@,
                        mtime: old(c).nodes@[i as int].files.clock,
                    },
                )
            } else {
                r.0 matches crate::wire::ClientResponse::Write(res) && res matches Err(e) && e@
                    == VPFSErrorView::DoesNotExist
            }
        }),
{
    match req {
        crate::wire::ClientRequest::Find(p) => {
            let res = recursive_find(c, i, p.as_slice());
            (crate::wire::ClientResponse::Find(res), None)
        },
        crate::wire::ClientRequest::Place(p, at) => {
            let res = place_file(c, i, p.as_slice(), at.as_slice(), false);
            (crate::wire::ClientResponse::Place(res), None)
        },
        crate::wire::ClientRequest::Mkdir(p, at) => {
            let res = place_file(c, i, p.as_slice(), at.as_slice(), true);
            (crate::wire::ClientResponse::Mkdir(res), None)
        },
        crate::wire::ClientRequest::Open(loc) => {
            let res = open_file(c, i, loc);
            (crate::wire::ClientResponse::Open(res), None)
        },
        crate::wire::ClientRequest::ReadFd(loc, fd, n) => {
            match read_fd(c, i, loc, *fd, *n) {
                Ok(buf) => {
                    proof {
                        lemma_vec_len_bound(&buf);
                    }
                    let len = buf.len() as u64;
                    (crate::wire::ClientResponse::ReadFd(Ok(len)), Some(buf))
                },
                Err(e) => (crate::wire::ClientResponse::ReadFd(Err(e)), None),
            }
        },
        crate::wire::ClientRequest::ReadLineFd(loc, fd) => {
            match read_line_fd(c, i, loc, *fd) {
                Ok(buf) => {
                    proof {
                        lemma_vec_len_bound(&buf);
                    }
                    let len = buf.len() as u64;
                    (crate::wire::ClientResponse::ReadLineFd(Ok(len)), Some(buf))
                },
                Err(e) => (crate::wire::ClientResponse::ReadLineFd(Err(e)), None),
            }
        },
        crate::wire::ClientRequest::Close(name, fd) => {
            match close_file(c, i, name.as_slice(), *fd) {
                Ok(_) => (crate::wire::ClientResponse::Close(Ok(())), None),
                Err(e) => (crate::wire::ClientResponse::Close(Err(e)), None),
            }
        },
        crate::wire::ClientRequest::Read(loc) => {
            if bytes_eq(loc.node_name.as_slice(), c.nodes[i].local.name.as_slice()) {
                match c.nodes[i].files.read(loc.uri.as_slice()) {
                    Ok(buf) => {
                        proof {
                            lemma_vec_len_bound(&buf);
                        }
                        let len = buf.len() as u64;
                        (crate::wire::ClientResponse::Read(Ok(len)), Some(buf))
                    },
                    Err(e) => (crate::wire::ClientResponse::Read(Err(e)), None),
                }
            } else {
                match remote_read(c, i, loc) {
                    Ok(buf) => {
                        proof {
                            lemma_vec_len_bound(&buf);
                        }
                        let len = buf.len() as u64;
                        (crate::wire::ClientResponse::Read(Ok(len)), Some(buf))
                    },
                    Err(e) => (crate::wire::ClientResponse::Read(Err(e)), None),
                }
            }
        },
        crate::wire::ClientRequest::Write(loc, _n) => {
            let b = match body {
                Some(b) => b,
                None => {
                    proof {
                        assert(false);
                    }
                    Vec::new()
                },
            };
            if bytes_eq(loc.node_name.as_slice(), c.nodes[i].local.name.as_slice()) {
                let ghost pre = c.nodes@;
                proof {
                    lemma_vec_len_bound(&b);
                }
                let node = &mut c.nodes[i];
                let wr = node.files.write(loc.uri.as_slice(), b.as_slice());
                proof {
                    lemma_nodes_update_wf(pre, c.nodes@, i as int);
                }
                match wr {
                    Ok(_) => (
                        crate::wire::ClientResponse::Write(Ok(b.len() as u64)),
                        None,
                    ),
                    Err(_) => (
                        crate::wire::ClientResponse::Write(Err(VPFSError::DoesNotExist)),
                        None,
                    ),
                }
            } else {
                if !stream_for(c, i, loc.node_name.as_slice()) {
                    return (
                        crate::wire::ClientResponse::Write(Err(VPFSError::NotAccessible)),
                        None,
                    );
                }
                let t: usize = match node_index(c, loc.node_name.as_slice()) {
                    Some(t) => t,
                    None => {
                        proof {
                            assert(false);
                        }
                        return (
                            crate::wire::ClientResponse::Write(Err(VPFSError::NotAccessible)),
                            None,
                        );
                    },
                };
                let ghost pre = c.nodes@;
                let req2 = DaemonRequest::Write(copy_bytes(loc.uri.as_slice()));
                let (resp, _) = c.nodes[t].handle_daemon_request(&req2, Some(b));
                proof {
                    lemma_nodes_update_wf(pre, c.nodes@, t as int);
                }
                match resp {
                    DaemonResponse::Write(res) => (crate::wire::ClientResponse::Write(res), None),
                    _ => {
                        proof {
                            assert(false);
                        }
                        (
                            crate::wire::ClientResponse::Write(Err(VPFSError::NotAccessible)),
                            None,
                        )
                    },
                }
            }
        },
    }
}

} // verus!
