//! The client library: what a user-space program holds after connecting
//! to its local daemon, and the calls it makes. Client-visible
//! descriptors are node-local integers allocated here as the smallest
//! unused value from three upward; the daemon's own descriptor is kept in
//! a side table, never conflated.

use vstd::prelude::*;
use crate::types::{Location, DirectoryEntry, copy_bytes, lemma_vec_len_bound};
use crate::errors::{VPFSError, VPFSErrorView};
use crate::wire::{ClientRequest, ClientResponse};
use crate::cluster::{Cluster, handle_client_request};

verus! {

/// A client session with its local daemon.
pub struct VPFS {
    /// The daemon's node name, from the hello exchange.
    pub local: Vec<u8>,
    /// Client descriptor to daemon descriptor.
    pub client_to_daemon_fd: Vec<(u64, u64)>,
    /// Client descriptor to the location it reads.
    pub open_files: Vec<(u64, Location)>,
}

pub open spec fn fd_listed(s: Seq<(u64, u64)>, fd: u64) -> bool {
    exists|j: int| 0 <= j < s.len() && (#[trigger] s[j]).0 == fd
}

pub open spec fn loc_fd_listed(s: Seq<(u64, Location)>, fd: u64) -> bool {
    exists|j: int| 0 <= j < s.len() && (#[trigger] s[j]).0 == fd
}

/// The daemon descriptor a client descriptor maps to, first binding wins.
pub open spec fn fd_lookup(s: Seq<(u64, u64)>, fd: u64) -> Option<u64>
    decreases s.len(),
{
    if s.len() == 0 {
        None
    } else if s[0].0 == fd {
        Some(s[0].1)
    } else {
        fd_lookup(s.skip(1), fd)
    }
}

/// The location a client descriptor reads, first binding wins.
pub open spec fn loc_lookup(s: Seq<(u64, Location)>, fd: u64) -> Option<
    crate::types::LocationView,
>
    decreases s.len(),
{
    if s.len() == 0 {
        None
    } else if s[0].0 == fd {
        Some(s[0].1@)
    } else {
        loc_lookup(s.skip(1), fd)
    }
}

proof fn lemma_fd_lookup_listed(s: Seq<(u64, u64)>, fd: u64)
    ensures
        fd_lookup(s, fd) is Some <==> fd_listed(s, fd),
    decreases s.len(),
{
    if s.len() > 0 {
        lemma_fd_lookup_listed(s.skip(1), fd);
        if s[0].0 == fd {
        } else {
            if fd_listed(s, fd) {
                let j = choose|j: int| 0 <= j < s.len() && (#[trigger] s[j]).0 == fd;
                assert(s.skip(1)[j - 1] == s[j]);
                assert(fd_listed(s.skip(1), fd));
            }
            if fd_listed(s.skip(1), fd) {
                let j = choose|j: int|
                    0 <= j < s.skip(1).len() && (#[trigger] s.skip(1)[j]).0 == fd;
                assert(s[j + 1] == s.skip(1)[j]);
                assert(fd_listed(s, fd));
            }
        }
    }
}

proof fn lemma_loc_lookup_listed(s: Seq<(u64, Location)>, fd: u64)
    ensures
        loc_lookup(s, fd) is Some <==> loc_fd_listed(s, fd),
    decreases s.len(),
{
    if s.len() > 0 {
        lemma_loc_lookup_listed(s.skip(1), fd);
        if s[0].0 == fd {
        } else {
            if loc_fd_listed(s, fd) {
                let j = choose|j: int| 0 <= j < s.len() && (#[trigger] s[j]).0 == fd;
                assert(s.skip(1)[j - 1] == s[j]);
                assert(loc_fd_listed(s.skip(1), fd));
            }
            if loc_fd_listed(s.skip(1), fd) {
                let j = choose|j: int|
                    0 <= j < s.skip(1).len() && (#[trigger] s.skip(1)[j]).0 == fd;
                assert(s[j + 1] == s.skip(1)[j]);
                assert(loc_fd_listed(s, fd));
            }
        }
    }
}

fn fd_table_has(s: &Vec<(u64, u64)>, fd: u64) -> (r: bool)
    ensures
        r == fd_listed(s@, fd),
{
    let mut j: usize = 0;
    while j < s.len()
        invariant
            j <= s@.len(),
            forall|k: int| 0 <= k < j ==> (#[trigger] s@[k]).0 != fd,
        decreases s@.len() - j,
    {
        if s[j].0 == fd {
            return true;
        }
        j = j + 1;
    }
    false
}

fn fd_table_get(s: &Vec<(u64, u64)>, fd: u64) -> (r: Option<u64>)
    ensures
        r == fd_lookup(s@, fd),
{
    let mut j: usize = 0;
    proof {
        assert(s@.skip(0int) =~= s@);
    }
    while j < s.len()
        invariant
            j <= s@.len(),
            fd_lookup(s@, fd) == fd_lookup(s@.skip(j as int), fd),
        decreases s@.len() - j,
    {
        proof {
            assert(s@.skip(j as int)[0] == s@[j as int]);
            assert(s@.skip(j as int).skip(1) =~= s@.skip(j + 1 as int));
        }
        if s[j].0 == fd {
            return Some(s[j].1);
        }
        j = j + 1;
    }
    None
}

fn loc_table_get(s: &Vec<(u64, Location)>, fd: u64) -> (r: Option<Location>)
    ensures
        r matches Some(l) ==> loc_lookup(s@, fd) == Some(l@),
        r is None ==> loc_lookup(s@, fd) is None,
{
    let mut j: usize = 0;
    proof {
        assert(s@.skip(0int) =~= s@);
    }
    while j < s.len()
        invariant
            j <= s@.len(),
            loc_lookup(s@, fd) == loc_lookup(s@.skip(j as int), fd),
        decreases s@.len() - j,
    {
        proof {
            assert(s@.skip(j as int)[0] == s@[j as int]);
            assert(s@.skip(j as int).skip(1) =~= s@.skip(j + 1 as int));
        }
        if s[j].0 == fd {
            return Some(s[j].1.dup());
        }
        j = j + 1;
    }
    None
}

fn fd_table_remove(s: &mut Vec<(u64, u64)>, fd: u64)
    ensures
        forall|g: u64| g != fd ==> #[trigger] fd_listed(final(s)@, g) == fd_listed(old(s)@, g),
        fd_listed(old(s)@, fd) ==> exists|k: int|
            0 <= k < old(s)@.len() && (#[trigger] old(s)@[k]).0 == fd && final(s)@ == old(s)@.remove(k),
        !fd_listed(old(s)@, fd) ==> final(s)@ == old(s)@,
{
    let mut j: usize = 0;
    while j < s.len()
        invariant
            j <= s@.len(),
            forall|k: int| 0 <= k < j ==> (#[trigger] s@[k]).0 != fd,
            s@ == old(s)@,
        decreases s@.len() - j,
    {
        if s[j].0 == fd {
            let ghost pre = s@;
            s.remove(j);
            proof {
                assert forall|g: u64| g != fd implies #[trigger] fd_listed(s@, g) == fd_listed(
                    pre,
                    g,
                ) by {
                    if fd_listed(s@, g) {
                        let a = choose|a: int| 0 <= a < s@.len() && (#[trigger] s@[a]).0 == g;
                        let a0 = if a < j { a } else { a + 1 };
                        assert(s@[a] == pre[a0]);
                        assert(fd_listed(pre, g));
                    }
                    if fd_listed(pre, g) {
                        let a = choose|a: int| 0 <= a < pre.len() && (#[trigger] pre[a]).0 == g;
                        if a < j {
                            assert(s@[a] == pre[a]);
                            assert(fd_listed(s@, g));
                        } else {
                            assert(a != j as int);
                            assert(s@[a - 1] == pre[a]);
                            assert(fd_listed(s@, g));
                        }
                    }
                }
            }
            return ;
        }
        j = j + 1;
    }
}

fn loc_table_remove(s: &mut Vec<(u64, Location)>, fd: u64)
    ensures
        loc_fd_listed(old(s)@, fd) ==> exists|k: int|
            0 <= k < old(s)@.len() && (#[trigger] old(s)@[k]).0 == fd && final(s)@ == old(s)@.remove(k),
        !loc_fd_listed(old(s)@, fd) ==> final(s)@ == old(s)@,
{
    let mut j: usize = 0;
    while j < s.len()
        invariant
            j <= s@.len(),
            s@ == old(s)@,
            forall|k: int| 0 <= k < j ==> (#[trigger] s@[k]).0 != fd,
        decreases s@.len() - j,
    {
        if s[j].0 == fd {
            s.remove(j);
            return ;
        }
        j = j + 1;
    }
}

impl VPFS {
    /// A fresh session against a daemon that answered the hello with its
    /// node name.
    pub fn attach(local: Vec<u8>) -> (r: VPFS)
        ensures
            r.local@ == local@,
            r.client_to_daemon_fd@.len() == 0,
            r.open_files@.len() == 0,
    {
        VPFS { local, client_to_daemon_fd: Vec::new(), open_files: Vec::new() }
    }

    /// The smallest unused client descriptor, counting from three:
    /// naught, one and two belong to the standard streams.
    fn alloc_client_fd(&self) -> (r: u64)
        ensures
            r < u64::MAX ==> !fd_listed(self.client_to_daemon_fd@, r) && (forall|g: u64|
                3 <= g < r ==> fd_listed(self.client_to_daemon_fd@, g)),
    {
        let mut fd: u64 = 3;
        // every taken descriptor is below this bound, so the scan ends
        let mut bound: u64 = 3;
        let mut j: usize = 0;
        while j < self.client_to_daemon_fd.len()
            invariant
                j <= self.client_to_daemon_fd@.len(),
                bound >= 3,
                forall|k: int|
                    0 <= k < j ==> (#[trigger] self.client_to_daemon_fd@[k]).0 < bound
                        || self.client_to_daemon_fd@[k].0 == u64::MAX,
            decreases self.client_to_daemon_fd@.len() - j,
        {
            let key = self.client_to_daemon_fd[j].0;
            if key < u64::MAX && key >= bound {
                bound = key + 1;
            }
            j = j + 1;
        }
        while fd < u64::MAX && fd_table_has(&self.client_to_daemon_fd, fd)
            invariant
                3 <= fd,
                fd <= bound || fd == 3,
                bound >= 3,
                forall|k: int|
                    0 <= k < self.client_to_daemon_fd@.len() ==> (
                    #[trigger] self.client_to_daemon_fd@[k]).0 < bound
                        || self.client_to_daemon_fd@[k].0 == u64::MAX,
                forall|g: u64| 3 <= g < fd ==> fd_listed(self.client_to_daemon_fd@, g),
            decreases u64::MAX - fd,
        {
            proof {
                let a = choose|a: int|
                    0 <= a < self.client_to_daemon_fd@.len() && (
                    #[trigger] self.client_to_daemon_fd@[a]).0 == fd;
                assert(fd < bound || fd == u64::MAX);
            }
            fd = fd + 1;
        }
        fd
    }

    fn remember_open(&mut self, daemon_fd: u64, location: Location) -> (r: u64)
        ensures
            final(self).local == old(self).local,
            final(self).client_to_daemon_fd@ == old(self).client_to_daemon_fd@.push(
                (r, daemon_fd),
            ),
            final(self).open_files@.len() == old(self).open_files@.len() + 1,
            final(self).open_files@.last().0 == r,
            final(self).open_files@.last().1@ == location@,
            forall|j: int|
                0 <= j < old(self).open_files@.len() ==> final(self).open_files@[j] == old(self).open_files@[j],
            r < u64::MAX ==> !fd_listed(old(self).client_to_daemon_fd@, r) && (forall|g: u64|
                3 <= g < r ==> fd_listed(old(self).client_to_daemon_fd@, g)),
    {
        let client_fd = self.alloc_client_fd();
        self.client_to_daemon_fd.push((client_fd, daemon_fd));
        self.open_files.push((client_fd, location));
        client_fd
    }

    /// Resolve a full path to its directory entry.
    pub fn find(&self, c: &mut Cluster, i: usize, path: &[u8]) -> (r: Result<
        DirectoryEntry,
        VPFSError,
    >)
        requires
            old(c).wf(),
            i < old(c).nodes@.len(),
        ensures
            final(c).wf(),
            final(c).nodes@.len() == old(c).nodes@.len(),
            final(c).up == old(c).up,
            forall|j: int|
                0 <= j < final(c).nodes@.len() ==> (#[trigger] final(c).nodes@[j]).local == old(c).nodes@[j].local && final(c).nodes@[j].root == old(c).nodes@[j].root,
            (forall|j: int| 0 <= j < path@.len() ==> path@[j] != 47u8) && crate::cluster::is_root(
                old(c).nodes@[i as int],
            ) ==> final(c).nodes@[i as int] == old(c).nodes@[i as int],
            crate::cluster::is_root(old(c).nodes@[i as int]) ==> (crate::cluster::resolve_local(
                old(c).nodes@[i as int].files@,
                old(c).nodes@[i as int].local.name@,
                path@,
            ) matches Some(out) ==> *final(c) == *old(c) && (match out {
                Ok(ev) => r matches Ok(en) && en@ == ev,
                Err(e) => r matches Err(er) && er@ == e,
            })),
            (forall|j: int| 0 <= j < path@.len() ==> path@[j] != 47u8) && crate::cluster::is_root(
                old(c).nodes@[i as int],
            ) ==> ({
                let ifiles = old(c).nodes@[i as int].files@;
                if !ifiles.contains_key(crate::cluster::root_uri()) {
                    r matches Err(e) && e@ == VPFSErrorView::DoesNotExist
                } else {
                    match crate::directory::dir_lookup(
                        crate::directory::dir_entries(
                            ifiles[crate::cluster::root_uri()].data,
                        ),
                        path@,
                    ) {
                        Some(ev) => r matches Ok(en) && en@ == ev,
                        None => r matches Err(e) && e@ == VPFSErrorView::DoesNotExist,
                    }
                }
            }),
            crate::cluster::remote_flat_lookup_ok(*old(c), i as int, path@) ==> (forall|
                u: Seq<u8>,
            |
                old(c).nodes@[i as int].files@.contains_key(u) ==> #[trigger] final(c).nodes@[i as int].files@.contains_key(u) && final(c).nodes@[i as int].files@[u]
                    == old(c).nodes@[i as int].files@[u]),
            crate::cluster::remote_flat_lookup_ok(*old(c), i as int, path@) ==> (match
                crate::directory::dir_lookup(
                crate::directory::dir_entries(
                    crate::cluster::remote_root_blob(*old(c), i as int),
                ),
                path@,
            ) {
                Some(ev) => r matches Ok(en) && en@ == ev,
                None => r matches Err(e) && e@ == VPFSErrorView::DoesNotExist,
            }),
    {
        let req = ClientRequest::Find(copy_bytes(path));
        let (resp, _) = handle_client_request(c, i, &req, None);
        match resp {
            ClientResponse::Find(res) => res,
            _ => {
                proof {
                    assert(false);
                }
                Err(VPFSError::NotFound)
            },
        }
    }

    /// Create a file at a path, its blob allocated on the named node.
    pub fn place(&self, c: &mut Cluster, i: usize, path: &[u8], at: &[u8]) -> (r: Result<
        Location,
        VPFSError,
    >)
        requires
            old(c).wf(),
            i < old(c).nodes@.len(),
        ensures
            final(c).wf(),
            final(c).nodes@.len() == old(c).nodes@.len(),
            final(c).up == old(c).up,
            forall|j: int|
                0 <= j < final(c).nodes@.len() ==> (#[trigger] final(c).nodes@[j]).local == old(c).nodes@[j].local && final(c).nodes@[j].root == old(c).nodes@[j].root,
            crate::cluster::placement_outcome(*old(c), *final(c), i as int, path@, at@, false, r),
    {
        let req = ClientRequest::Place(copy_bytes(path), copy_bytes(at));
        let (resp, _) = handle_client_request(c, i, &req, None);
        match resp {
            ClientResponse::Place(res) => res,
            _ => {
                proof {
                    assert(false);
                }
                Err(VPFSError::NotFound)
            },
        }
    }

    /// Create a directory at a path, its blob allocated on the named
    /// node.
    pub fn mkdir(&self, c: &mut Cluster, i: usize, path: &[u8], at: &[u8]) -> (r: Result<
        Location,
        VPFSError,
    >)
        requires
            old(c).wf(),
            i < old(c).nodes@.len(),
        ensures
            final(c).wf(),
            final(c).nodes@.len() == old(c).nodes@.len(),
            final(c).up == old(c).up,
            forall|j: int|
                0 <= j < final(c).nodes@.len() ==> (#[trigger] final(c).nodes@[j]).local == old(c).nodes@[j].local && final(c).nodes@[j].root == old(c).nodes@[j].root,
            crate::cluster::placement_outcome(*old(c), *final(c), i as int, path@, at@, true, r),
    {
        let req = ClientRequest::Mkdir(copy_bytes(path), copy_bytes(at));
        let (resp, _) = handle_client_request(c, i, &req, None);
        match resp {
            ClientResponse::Mkdir(res) => res,
            _ => {
                proof {
                    assert(false);
                }
                Err(VPFSError::NotFound)
            },
        }
    }

    /// Whole-blob read by location.
    pub fn read(&self, c: &mut Cluster, i: usize, what: &Location) -> (r: Result<
        Vec<u8>,
        VPFSError,
    >)
        requires
            old(c).wf(),
            i < old(c).nodes@.len(),
        ensures
            final(c).wf(),
            final(c).nodes@.len() == old(c).nodes@.len(),
            final(c).up == old(c).up,
            forall|j: int|
                0 <= j < final(c).nodes@.len() ==> (#[trigger] final(c).nodes@[j]).local == old(c).nodes@[j].local && final(c).nodes@[j].root == old(c).nodes@[j].root,
            what@.node_name == old(c).nodes@[i as int].local.name@ && old(c).nodes@[i as int].files@.contains_key(what@.uri) ==> (r matches Ok(b) && b@ == old(c).nodes@[i as int].files@[what@.uri].data),
            what@.node_name != old(c).nodes@[i as int].local.name@ ==> ({
                let ok = crate::cluster::can_connect(*old(c), i as int, what@.node_name);
                let oldseq = crate::cache::cache_seq(old(c).nodes@[i as int].cache.map);
                let hit = crate::cluster::cache_hit(oldseq, what@);
                let huri = crate::cluster::cache_hit_uri(oldseq, what@);
                let ifiles = old(c).nodes@[i as int].files@;
                if !ok {
                    if hit {
                        r matches Err(e) && (e@ matches VPFSErrorView::OnlyInCache(cl)
                            && cl.node_name == old(c).nodes@[i as int].local.name@ && cl.uri
                            == huri)
                    } else {
                        r matches Err(e) && e@ == VPFSErrorView::NotAccessible
                    }
                } else {
                    let t = crate::cluster::node_idx_of(old(c).nodes@, what@.node_name);
                    let tgt = old(c).nodes@[t];
                    if !tgt.files@.contains_key(what@.uri) {
                        r matches Err(e) && e@ == VPFSErrorView::DoesNotExist
                    } else if hit && ifiles.contains_key(huri) && tgt.files@[what@.uri].mtime
                        <= ifiles[huri].mtime {
                        r matches Ok(b) && b@ == ifiles[huri].data
                    } else {
                        r matches Ok(b) && b@ == tgt.files@[what@.uri].data
                    }
                }
            }),
    {
        let req = ClientRequest::Read(what.dup());
        let (resp, body) = handle_client_request(c, i, &req, None);
        match (resp, body) {
            (ClientResponse::Read(Ok(_)), Some(buf)) => Ok(buf),
            (ClientResponse::Read(Err(e)), _) => Err(e),
            _ => {
                proof {
                    assert(false);
                }
                Err(VPFSError::NotFound)
            },
        }
    }

    /// Whole-blob overwrite by location.
    pub fn write(&self, c: &mut Cluster, i: usize, what: &Location, buf: &[u8]) -> (r: Result<
        (),
        VPFSError,
    >)
        requires
            old(c).wf(),
            i < old(c).nodes@.len(),
        ensures
            final(c).wf(),
            final(c).nodes@.len() == old(c).nodes@.len(),
            final(c).up == old(c).up,
            forall|j: int|
                0 <= j < final(c).nodes@.len() ==> (#[trigger] final(c).nodes@[j]).local == old(c).nodes@[j].local && final(c).nodes@[j].root == old(c).nodes@[j].root,
            what@.node_name == old(c).nodes@[i as int].local.name@ && old(c).nodes@[i as int].files@.contains_key(what@.uri) ==> r is Ok && final(c).nodes@[i as int].files@ == old(c).nodes@[i as int].files@.insert(
                what@.uri,
                crate::store::FileView {
                    data: buf@,
                    mtime: old(c).nodes@[i as int].files.clock,
                },
            ),
            what@.node_name != old(c).nodes@[i as int].local.name@ ==> ({
                if !crate::cluster::can_connect(*old(c), i as int, what@.node_name) {
                    r matches Err(e) && e@ == VPFSErrorView::NotAccessible
                } else {
                    let t = crate::cluster::node_idx_of(old(c).nodes@, what@.node_name);
                    let tgt = old(c).nodes@[t];
                    if tgt.files@.contains_key(what@.uri) {
                        r is Ok && final(c).nodes@[t].files@ == tgt.files@.insert(
                            what@.uri,
                            crate::store::FileView { data: buf@, mtime: tgt.files.clock },
                        )
                    } else {
                        r matches Err(e) && e@ == VPFSErrorView::DoesNotExist
                    }
                }
            }),
    {
        proof {
            crate::types::lemma_vec_len_bound(&what.uri);
        }
        let req = ClientRequest::Write(what.dup(), buf.len() as u64);
        let (resp, _) = handle_client_request(c, i, &req, Some(copy_bytes(buf)));
        match resp {
            ClientResponse::Write(Ok(_)) => Ok(()),
            ClientResponse::Write(Err(e)) => Err(e),
            _ => {
                proof {
                    assert(false);
                }
                Err(VPFSError::NotFound)
            },
        }
    }

    /// Resolve a path and read the blob it names.
    pub fn fetch(&self, c: &mut Cluster, i: usize, name: &[u8]) -> (r: Result<Vec<u8>, VPFSError>)
        requires
            old(c).wf(),
            i < old(c).nodes@.len(),
        ensures
            final(c).wf(),
            final(c).nodes@.len() == old(c).nodes@.len(),
            final(c).up == old(c).up,
            forall|j: int|
                0 <= j < final(c).nodes@.len() ==> (#[trigger] final(c).nodes@[j]).local == old(c).nodes@[j].local && final(c).nodes@[j].root == old(c).nodes@[j].root,
            // a flat name resolved on the root and stored on this node
            // reads back its blob's bytes
            (forall|j: int| 0 <= j < name@.len() ==> name@[j] != 47u8) && crate::cluster::is_root(
                old(c).nodes@[i as int],
            ) && old(c).nodes@[i as int].files@.contains_key(crate::cluster::root_uri()) ==> ({
                let ifiles = old(c).nodes@[i as int].files@;
                match crate::directory::dir_lookup(
                    crate::directory::dir_entries(ifiles[crate::cluster::root_uri()].data),
                    name@,
                ) {
                    Some(ev) => ev.location.node_name == old(c).nodes@[i as int].local.name@
                        && ifiles.contains_key(ev.location.uri) ==> (r matches Ok(b) && b@
                        == ifiles[ev.location.uri].data),
                    None => r matches Err(e) && e@ == VPFSErrorView::DoesNotExist,
                }
            }),
            // a flat name resolved through a reachable root, naming a blob
            // of this node, reads its bytes back - the owner's own client
            // fetching a file placed here from elsewhere
            crate::cluster::remote_flat_lookup_ok(*old(c), i as int, name@) ==> (match
                crate::directory::dir_lookup(
                crate::directory::dir_entries(
                    crate::cluster::remote_root_blob(*old(c), i as int),
                ),
                name@,
            ) {
                Some(ev) => ev.location.node_name == old(c).nodes@[i as int].local.name@
                    && old(c).nodes@[i as int].files@.contains_key(ev.location.uri) ==> (
                r matches Ok(b) && b@ == old(c).nodes@[i as int].files@[ev.location.uri].data),
                None => r matches Err(e) && e@ == VPFSErrorView::DoesNotExist,
            }),
            // any path the local walk settles - nested or flat - reads the
            // resolved blob's bytes back when it lives on this node
            crate::cluster::is_root(old(c).nodes@[i as int]) ==> (crate::cluster::resolve_local(
                old(c).nodes@[i as int].files@,
                old(c).nodes@[i as int].local.name@,
                name@,
            ) matches Some(out) ==> (match out {
                Ok(ev) => ev.location.node_name == old(c).nodes@[i as int].local.name@ && old(c).nodes@[i as int].files@.contains_key(ev.location.uri) ==> (r matches Ok(b)
                    && b@ == old(c).nodes@[i as int].files@[ev.location.uri].data),
                Err(e) => r matches Err(er) && er@ == e,
            })),
    {
        let ghost flat_root = (forall|j: int| 0 <= j < name@.len() ==> name@[j] != 47u8)
            && crate::cluster::is_root(old(c).nodes@[i as int]);
        let ghost walked = crate::cluster::is_root(old(c).nodes@[i as int])
            && crate::cluster::resolve_local(
            old(c).nodes@[i as int].files@,
            old(c).nodes@[i as int].local.name@,
            name@,
        ) is Some;
        let ghost remote_ok = crate::cluster::remote_flat_lookup_ok(*old(c), i as int, name@);
        let ghost c0 = *c;
        let entry = match self.find(c, i, name) {
            Ok(e) => e,
            Err(e) => {
                return Err(e);
            },
        };
        proof {
            if flat_root {
                assert(c.nodes@[i as int] == old(c).nodes@[i as int]);
            }
            if walked {
                assert(*c == *old(c));
            }
            if remote_ok {
                let blob = crate::cluster::remote_root_blob(c0, i as int);
                match crate::directory::dir_lookup(
                    crate::directory::dir_entries(blob),
                    name@,
                ) {
                    Some(ev) => {
                        assert(entry@ == ev);
                        if ev.location.node_name == c0.nodes@[i as int].local.name@
                            && c0.nodes@[i as int].files@.contains_key(ev.location.uri) {
                            assert(c.nodes@[i as int].local.name@
                                == c0.nodes@[i as int].local.name@);
                            assert(c.nodes@[i as int].files@.contains_key(ev.location.uri));
                            assert(c.nodes@[i as int].files@[ev.location.uri]
                                == c0.nodes@[i as int].files@[ev.location.uri]);
                        }
                    },
                    None => {
                        assert(false);
                    },
                }
            }
        }
        self.read(c, i, &entry.location)
    }

    /// Create a file at a path on this daemon's node (or reuse the one
    /// already there) and write the bytes to it.
    pub fn store(&self, c: &mut Cluster, i: usize, name: &[u8], buf: &[u8]) -> (r: Result<
        (),
        VPFSError,
    >)
        requires
            old(c).wf(),
            i < old(c).nodes@.len(),
        ensures
            final(c).wf(),
            final(c).nodes@.len() == old(c).nodes@.len(),
            final(c).up == old(c).up,
            forall|j: int|
                0 <= j < final(c).nodes@.len() ==> (#[trigger] final(c).nodes@[j]).local == old(c).nodes@[j].local && final(c).nodes@[j].root == old(c).nodes@[j].root,
            // a taken flat name on the root reuses the existing record's
            // blob and overwrites it in place: the namespace is unchanged
            self.local@ == old(c).nodes@[i as int].local.name@ && (forall|j: int|
                0 <= j < name@.len() ==> name@[j] != 47u8) && crate::cluster::is_root(
                old(c).nodes@[i as int],
            ) && old(c).nodes@[i as int].files@.contains_key(crate::cluster::root_uri())
                ==> (crate::directory::dir_lookup(
                crate::directory::dir_entries(
                    old(c).nodes@[i as int].files@[crate::cluster::root_uri()].data,
                ),
                name@,
            ) matches Some(ex) ==> (ex.location.node_name == old(c).nodes@[i as int].local.name@ && old(c).nodes@[i as int].files@.contains_key(
                ex.location.uri,
            ) ==> r is Ok && final(c).nodes@[i as int].files@.contains_key(ex.location.uri)
                && final(c).nodes@[i as int].files@[ex.location.uri].data == buf@ && (
            ex.location.uri != crate::cluster::root_uri() ==> final(c).nodes@[i as int].files@[crate::cluster::root_uri()] == old(c).nodes@[i as int].files@[crate::cluster::root_uri()]))),
            // a fresh flat name on the root of this node is placed into
            // the root directory and its blob filled with the bytes
            self.local@ == old(c).nodes@[i as int].local.name@ && (forall|j: int|
                0 <= j < name@.len() ==> name@[j] != 47u8) && crate::cluster::is_root(
                old(c).nodes@[i as int],
            ) && old(c).nodes@[i as int].files@.contains_key(crate::cluster::root_uri())
                && crate::directory::dir_lookup(
                crate::directory::dir_entries(
                    old(c).nodes@[i as int].files@[crate::cluster::root_uri()].data,
                ),
                name@,
            ) is None ==> r is Ok && (exists|u: Seq<u8>|
                !old(c).nodes@[i as int].files@.contains_key(u) && #[trigger] final(c).nodes@[i as int].files@.contains_key(u) && final(c).nodes@[i as int].files@[u].data == buf@ && final(c).nodes@[i as int].files@.contains_key(crate::cluster::root_uri()) && final(c).nodes@[i as int].files@[crate::cluster::root_uri()].data == old(c).nodes@[i as int].files@[crate::cluster::root_uri()].data
                    + crate::codec::enc_entry(
                    crate::types::DirectoryEntryView {
                        location: crate::types::LocationView {
                            node_name: old(c).nodes@[i as int].local.name@,
                            uri: u,
                        },
                        name: name@,
                        is_dir: false,
                    },
                )),
    {
        let ghost fresh_flat = self.local@ == old(c).nodes@[i as int].local.name@ && (forall|
            j: int,
        | 0 <= j < name@.len() ==> name@[j] != 47u8) && crate::cluster::is_root(
            old(c).nodes@[i as int],
        ) && old(c).nodes@[i as int].files@.contains_key(crate::cluster::root_uri())
            && crate::directory::dir_lookup(
            crate::directory::dir_entries(
                old(c).nodes@[i as int].files@[crate::cluster::root_uri()].data,
            ),
            name@,
        ) is None;
        let ghost rooted_flat = self.local@ == old(c).nodes@[i as int].local.name@ && (forall|
            j: int,
        | 0 <= j < name@.len() ==> name@[j] != 47u8) && crate::cluster::is_root(
            old(c).nodes@[i as int],
        ) && old(c).nodes@[i as int].files@.contains_key(crate::cluster::root_uri());
        let ghost taken = rooted_flat && crate::directory::dir_lookup(
            crate::directory::dir_entries(
                old(c).nodes@[i as int].files@[crate::cluster::root_uri()].data,
            ),
            name@,
        ) is Some;
        let placed = self.place(c, i, name, self.local.as_slice());
        let ghost c1 = *c;
        let location = match placed {
            Ok(location) => location,
            Err(VPFSError::AlreadyExists(entry)) => {
                proof {
                    if fresh_flat {
                        assert(false);
                    }
                }
                entry.location
            },
            Err(e) => {
                proof {
                    if fresh_flat {
                        assert(false);
                    }
                    if taken {
                        assert(false);
                    }
                }
                return Err(e);
            },
        };
        proof {
            if taken {
                assert(placed matches Err(pe) && pe@ is AlreadyExists);
                assert(c1.nodes@[i as int].files@ == old(c).nodes@[i as int].files@);
            }
        }
        let ghost u = location@.uri;
        let wr = self.write(c, i, &location, buf);
        proof {
            if taken {
                let ex = crate::directory::dir_lookup(
                    crate::directory::dir_entries(
                        old(c).nodes@[i as int].files@[crate::cluster::root_uri()].data,
                    ),
                    name@,
                )->Some_0;
                if ex.location.node_name == old(c).nodes@[i as int].local.name@ && old(c).nodes@[i as int].files@.contains_key(ex.location.uri) {
                    assert(location@ == ex.location);
                    assert(wr is Ok);
                    assert(c.nodes@[i as int].files@[ex.location.uri].data == buf@);
                }
            }
            if fresh_flat {
                assert(location@.node_name == c1.nodes@[i as int].local.name@);
                assert(c1.nodes@[i as int].files@.contains_key(u));
                assert(wr is Ok);
                assert(u != crate::cluster::root_uri());
                assert(c.nodes@[i as int].files@[crate::cluster::root_uri()]
                    == c1.nodes@[i as int].files@[crate::cluster::root_uri()]);
                assert(c.nodes@[i as int].files@.contains_key(u));
                assert(c.nodes@[i as int].files@[u].data == buf@);
                assert(!old(c).nodes@[i as int].files@.contains_key(u));
                assert(crate::types::LocationView {
                    node_name: old(c).nodes@[i as int].local.name@,
                    uri: u,
                } == location@);
            }
        }
        wr
    }

    /// Open a path for streaming; hands back a client descriptor.
    pub fn open(&mut self, c: &mut Cluster, i: usize, name: &[u8]) -> (r: Result<u64, VPFSError>)
        requires
            old(c).wf(),
            i < old(c).nodes@.len(),
        ensures
            final(c).wf(),
            final(c).nodes@.len() == old(c).nodes@.len(),
            final(c).up == old(c).up,
            forall|j: int|
                0 <= j < final(c).nodes@.len() ==> (#[trigger] final(c).nodes@[j]).local == old(c).nodes@[j].local && final(c).nodes@[j].root == old(c).nodes@[j].root,
            // a flat name on the root of this node that resolves to a blob
            // here is opened: the daemon tracks the body, the client the
            // descriptor pair
            (forall|j: int| 0 <= j < name@.len() ==> name@[j] != 47u8) && crate::cluster::is_root(
                old(c).nodes@[i as int],
            ) && old(c).nodes@[i as int].files@.contains_key(crate::cluster::root_uri()) ==> ({
                let ifiles = old(c).nodes@[i as int].files@;
                match crate::directory::dir_lookup(
                    crate::directory::dir_entries(ifiles[crate::cluster::root_uri()].data),
                    name@,
                ) {
                    Some(ev) => ev.location.node_name == old(c).nodes@[i as int].local.name@
                        && ifiles.contains_key(ev.location.uri) && old(c).nodes@[i as int].open_files.next_fd < u64::MAX ==> r is Ok,
                    None => r matches Err(e) && e@ == VPFSErrorView::DoesNotExist,
                }
            }),
            // a granted descriptor is recorded in both side tables and is
            // the smallest unused value from three up
            r matches Ok(cfd) ==> ({
                let ctd = old(self).client_to_daemon_fd@;
                let ofs = old(self).open_files@;
                (exists|dfd: u64|
                    final(self).client_to_daemon_fd@ == #[trigger] ctd.push((cfd, dfd)))
                    && final(self).open_files@.len() == ofs.len() + 1 && final(self).open_files@.last().0 == cfd && (forall|j: int|
                    0 <= j < ofs.len() ==> final(self).open_files@[j] == ofs[j]) && (cfd
                    < u64::MAX ==> !fd_listed(ctd, cfd) && (forall|g: u64|
                    3 <= g < cfd ==> fd_listed(ctd, g)))
            }),
    {
        let entry = match self.find(c, i, name) {
            Ok(e) => e,
            Err(e) => {
                return Err(e);
            },
        };
        let location = entry.location;
        let req = ClientRequest::Open(location.dup());
        let (resp, _) = handle_client_request(c, i, &req, None);
        match resp {
            ClientResponse::Open(Ok(daemon_fd)) => {
                Ok(self.remember_open(daemon_fd, location))
            },
            ClientResponse::Open(Err(_)) => Err(VPFSError::FileNotOpen),
            _ => {
                proof {
                    assert(false);
                }
                Err(VPFSError::FileNotOpen)
            },
        }
    }

    /// Read up to `len` bytes from an open descriptor. Empty bytes mean
    /// the end was reached (when anything was asked for).
    pub fn read_fd(&self, c: &mut Cluster, i: usize, fd: u64, len: u64) -> (r: Result<
        Vec<u8>,
        VPFSError,
    >)
        requires
            old(c).wf(),
            i < old(c).nodes@.len(),
        ensures
            final(c).wf(),
            final(c).nodes@.len() == old(c).nodes@.len(),
            final(c).up == old(c).up,
            forall|j: int|
                0 <= j < final(c).nodes@.len() ==> (#[trigger] final(c).nodes@[j]).local == old(c).nodes@[j].local && final(c).nodes@[j].root == old(c).nodes@[j].root,
            !fd_listed(self.client_to_daemon_fd@, fd) ==> (r matches Err(e) && e@
                == VPFSErrorView::FileNotOpen) && *final(c) == *old(c),
            // a mapped descriptor on a blob of this node reads the next
            // chunk exactly, empty only at the end
            fd_lookup(self.client_to_daemon_fd@, fd) matches Some(dfd) ==> (loc_lookup(
                self.open_files@,
                fd,
            ) matches Some(lv) ==> (lv.node_name == old(c).nodes@[i as int].local.name@ ==> ({
                let m = old(c).nodes@[i as int].open_files@;
                if !m.contains_key(dfd) {
                    r matches Err(e) && e@ == VPFSErrorView::FileNotOpen
                } else {
                    let v = m[dfd];
                    let nn = if len <= usize::MAX as u64 {
                        len as int
                    } else {
                        usize::MAX as int
                    };
                    let end = if v.pos + nn <= v.data.len() {
                        v.pos + nn
                    } else {
                        v.data.len() as int
                    };
                    (r matches Ok(b) && b@ == v.data.subrange(v.pos, end)) && final(c).nodes@[i as int].open_files@ == m.insert(
                        dfd,
                        crate::daemon::OpenView { data: v.data, pos: end },
                    )
                }
            }))),
    {
        proof {
            lemma_fd_lookup_listed(self.client_to_daemon_fd@, fd);
        }
        let daemon_fd = match fd_table_get(&self.client_to_daemon_fd, fd) {
            Some(d) => d,
            None => {
                return Err(VPFSError::FileNotOpen);
            },
        };
        let location = match loc_table_get(&self.open_files, fd) {
            Some(l) => l,
            None => {
                return Err(VPFSError::FileNotOpen);
            },
        };
        let req = ClientRequest::ReadFd(location, daemon_fd, len);
        let (resp, body) = handle_client_request(c, i, &req, None);
        match (resp, body) {
            (ClientResponse::ReadFd(Ok(_)), Some(buf)) => Ok(buf),
            (ClientResponse::ReadFd(Err(e)), _) => Err(e),
            _ => {
                proof {
                    assert(false);
                }
                Err(VPFSError::FileNotOpen)
            },
        }
    }

    /// Read one line from an open descriptor.
    pub fn read_line_fd(&self, c: &mut Cluster, i: usize, fd: u64) -> (r: Result<
        Vec<u8>,
        VPFSError,
    >)
        requires
            old(c).wf(),
            i < old(c).nodes@.len(),
        ensures
            final(c).wf(),
            final(c).nodes@.len() == old(c).nodes@.len(),
            final(c).up == old(c).up,
            forall|j: int|
                0 <= j < final(c).nodes@.len() ==> (#[trigger] final(c).nodes@[j]).local == old(c).nodes@[j].local && final(c).nodes@[j].root == old(c).nodes@[j].root,
            !fd_listed(self.client_to_daemon_fd@, fd) ==> (r matches Err(e) && e@
                == VPFSErrorView::FileNotOpen) && *final(c) == *old(c),
            // a mapped descriptor on a blob of this node reads one line,
            // up to and including its newline or the end
            fd_lookup(self.client_to_daemon_fd@, fd) matches Some(dfd) ==> (loc_lookup(
                self.open_files@,
                fd,
            ) matches Some(lv) ==> (lv.node_name == old(c).nodes@[i as int].local.name@ ==> ({
                let m = old(c).nodes@[i as int].open_files@;
                if !m.contains_key(dfd) {
                    r matches Err(e) && e@ == VPFSErrorView::FileNotOpen
                } else {
                    let v = m[dfd];
                    let end = crate::daemon::line_end(v.data, v.pos);
                    (r matches Ok(b) && b@ == v.data.subrange(v.pos, end)) && final(c).nodes@[i as int].open_files@ == m.insert(
                        dfd,
                        crate::daemon::OpenView { data: v.data, pos: end },
                    )
                }
            }))),
    {
        proof {
            lemma_fd_lookup_listed(self.client_to_daemon_fd@, fd);
        }
        let daemon_fd = match fd_table_get(&self.client_to_daemon_fd, fd) {
            Some(d) => d,
            None => {
                return Err(VPFSError::FileNotOpen);
            },
        };
        let location = match loc_table_get(&self.open_files, fd) {
            Some(l) => l,
            None => {
                return Err(VPFSError::FileNotOpen);
            },
        };
        let req = ClientRequest::ReadLineFd(location, daemon_fd);
        let (resp, body) = handle_client_request(c, i, &req, None);
        match (resp, body) {
            (ClientResponse::ReadLineFd(Ok(_)), Some(buf)) => Ok(buf),
            (ClientResponse::ReadLineFd(Err(e)), _) => Err(e),
            _ => {
                proof {
                    assert(false);
                }
                Err(VPFSError::FileNotOpen)
            },
        }
    }

    /// Close a client descriptor, releasing the daemon's as well.
    pub fn close(&mut self, c: &mut Cluster, i: usize, fd: u64) -> (r: Result<(), VPFSError>)
        requires
            old(c).wf(),
            i < old(c).nodes@.len(),
        ensures
            final(c).wf(),
            final(c).nodes@.len() == old(c).nodes@.len(),
            final(c).up == old(c).up,
            forall|j: int|
                0 <= j < final(c).nodes@.len() ==> (#[trigger] final(c).nodes@[j]).local == old(c).nodes@[j].local && final(c).nodes@[j].root == old(c).nodes@[j].root,
            !fd_listed(old(self).client_to_daemon_fd@, fd) ==> (r matches Err(e) && e@
                == VPFSErrorView::FileNotOpen) && *final(c) == *old(c) && *final(self) == *old(self),
            // closing releases the daemon's descriptor (for a blob of this
            // node) and drops the client's bookkeeping for it
            r is Ok ==> (fd_lookup(old(self).client_to_daemon_fd@, fd) matches Some(dfd)
                ==> (loc_lookup(old(self).open_files@, fd) matches Some(lv) ==> (lv.node_name
                == old(c).nodes@[i as int].local.name@ ==> final(c).nodes@[i as int].open_files@ == old(c).nodes@[i as int].open_files@.remove(
                dfd,
            )))),
            r is Ok ==> (exists|k: int|
                0 <= k < old(self).client_to_daemon_fd@.len() && (#[trigger] old(self).client_to_daemon_fd@[k]).0 == fd && final(self).client_to_daemon_fd@ == old(self).client_to_daemon_fd@.remove(k)),
            r is Ok ==> (exists|k: int|
                0 <= k < old(self).open_files@.len() && (#[trigger] old(self).open_files@[k]).0
                    == fd && final(self).open_files@ == old(self).open_files@.remove(k)),
    {
        proof {
            lemma_fd_lookup_listed(self.client_to_daemon_fd@, fd);
            lemma_loc_lookup_listed(self.open_files@, fd);
        }
        let daemon_fd = match fd_table_get(&self.client_to_daemon_fd, fd) {
            Some(d) => d,
            None => {
                return Err(VPFSError::FileNotOpen);
            },
        };
        let location = match loc_table_get(&self.open_files, fd) {
            Some(l) => l,
            None => {
                return Err(VPFSError::FileNotOpen);
            },
        };
        let req = ClientRequest::Close(location.node_name, daemon_fd);
        let (resp, _) = handle_client_request(c, i, &req, None);
        match resp {
            ClientResponse::Close(Ok(_)) => {
                fd_table_remove(&mut self.client_to_daemon_fd, fd);
                loc_table_remove(&mut self.open_files, fd);
                Ok(())
            },
            ClientResponse::Close(Err(e)) => Err(e),
            _ => {
                proof {
                    assert(false);
                }
                Err(VPFSError::FileNotOpen)
            },
        }
    }
}

} // verus!
