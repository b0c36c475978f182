//! One daemon's state and the serving side of the peer protocol: the
//! per-request handler that a peer sub-stream drives, and the handshake.
//! Streamed reads go through a table of open descriptors whose view is a
//! map from descriptor to (body, position).

use vstd::prelude::*;
use crate::types::{NodeId, VPFSNode, copy_bytes, bytes_eq, lemma_vec_len_bound};
use crate::errors::{VPFSError, VPFSErrorView};
use crate::store::{FileTable, FileView};
use crate::cache::{LruState, cache_struct_inv};
use crate::wire::{Hello, HelloResponse, DaemonRequest, DaemonRequestView, DaemonResponse};
use crate::directory::{dir_entries, dir_lookup};

verus! {

// ---------------------------------------------------------------------------
// Open descriptors
// ---------------------------------------------------------------------------

/// One open handle: the body as it was at open time and the read cursor.
pub struct OpenFile {
    pub fd: u64,
    pub data: Vec<u8>,
    pub pos: usize,
}

pub ghost struct OpenView {
    pub data: Seq<u8>,
    pub pos: int,
}

/// The table of open handles and the next descriptor to hand out.
pub struct OpenFiles {
    pub table: Vec<OpenFile>,
    pub next_fd: u64,
}

pub open spec fn open_view(f: OpenFile) -> OpenView {
    OpenView { data: f.data@, pos: f.pos as int }
}

pub open spec fn has_fd(s: Seq<OpenFile>, fd: u64) -> bool {
    exists|i: int| 0 <= i < s.len() && (#[trigger] s[i]).fd == fd
}

pub open spec fn open_map(s: Seq<OpenFile>) -> Map<u64, OpenView> {
    Map::new(
        |fd: u64| has_fd(s, fd),
        |fd: u64|
            {
                let i = choose|i: int| 0 <= i < s.len() && (#[trigger] s[i]).fd == fd;
                open_view(s[i])
            },
    )
}

pub open spec fn fds_unique(s: Seq<OpenFile>) -> bool {
    forall|i: int, j: int|
        0 <= i < j < s.len() ==> (#[trigger] s[i]).fd != (#[trigger] s[j]).fd
}

impl View for OpenFiles {
    type V = Map<u64, OpenView>;

    open spec fn view(&self) -> Map<u64, OpenView> {
        open_map(self.table@)
    }
}

impl OpenFiles {
    pub open spec fn wf(&self) -> bool {
        fds_unique(self.table@) && (forall|i: int|
            0 <= i < self.table@.len() ==> (#[trigger] self.table@[i]).fd < self.next_fd) && (
        forall|i: int|
            0 <= i < self.table@.len() ==> (#[trigger] self.table@[i]).pos
                <= self.table@[i].data@.len())
    }
}

pub proof fn lemma_open_map_index(s: Seq<OpenFile>, i: int)
    requires
        fds_unique(s),
        0 <= i < s.len(),
    ensures
        open_map(s).contains_key(s[i].fd),
        open_map(s)[s[i].fd] == open_view(s[i]),
{
    assert(has_fd(s, s[i].fd));
    let j = choose|j: int| 0 <= j < s.len() && (#[trigger] s[j]).fd == s[i].fd;
    assert(j == i);
}

pub proof fn lemma_open_map_absent(s: Seq<OpenFile>, fd: u64)
    requires
        forall|i: int| 0 <= i < s.len() ==> (#[trigger] s[i]).fd != fd,
    ensures
        !open_map(s).contains_key(fd),
{
}

pub proof fn lemma_open_map_push(s: Seq<OpenFile>, f: OpenFile)
    requires
        fds_unique(s),
        !has_fd(s, f.fd),
    ensures
        fds_unique(s.push(f)),
        open_map(s.push(f)) == open_map(s).insert(f.fd, open_view(f)),
{
    let s2 = s.push(f);
    assert forall|i: int, j: int| 0 <= i < j < s2.len() implies (#[trigger] s2[i]).fd != (
    #[trigger] s2[j]).fd by {
        if j == s.len() {
            assert(s2[j] == f);
            assert(s2[i] == s[i]);
        } else {
            assert(s2[i] == s[i]);
            assert(s2[j] == s[j]);
        }
    }
    assert forall|fd: u64| true implies #[trigger] open_map(s2).contains_key(fd) == open_map(
        s,
    ).insert(f.fd, open_view(f)).contains_key(fd) by {
        if fd == f.fd {
            assert(s2[s.len() as int] == f);
            assert(has_fd(s2, fd));
        } else {
            if has_fd(s2, fd) {
                let i = choose|i: int| 0 <= i < s2.len() && (#[trigger] s2[i]).fd == fd;
                assert(i < s.len());
                assert(s2[i] == s[i]);
                assert(has_fd(s, fd));
            }
            if has_fd(s, fd) {
                let i = choose|i: int| 0 <= i < s.len() && (#[trigger] s[i]).fd == fd;
                assert(s2[i] == s[i]);
                assert(has_fd(s2, fd));
            }
        }
    }
    assert forall|fd: u64| open_map(s2).contains_key(fd) implies open_map(s2)[fd] == open_map(
        s,
    ).insert(f.fd, open_view(f))[fd] by {
        let i = choose|i: int| 0 <= i < s2.len() && (#[trigger] s2[i]).fd == fd;
        if fd == f.fd {
            assert(s2[s.len() as int] == f);
            if i < s.len() {
                assert(s[i].fd == fd);
                assert(has_fd(s, fd));
            }
            assert(i == s.len());
        } else {
            assert(i < s.len());
            assert(s2[i] == s[i]);
            assert(has_fd(s, fd));
            let j = choose|j: int| 0 <= j < s.len() && (#[trigger] s[j]).fd == fd;
            assert(j == i);
        }
    }
    assert(open_map(s2) =~= open_map(s).insert(f.fd, open_view(f)));
}

pub proof fn lemma_open_map_update(s: Seq<OpenFile>, i: int, f: OpenFile)
    requires
        fds_unique(s),
        0 <= i < s.len(),
        s[i].fd == f.fd,
    ensures
        fds_unique(s.update(i, f)),
        open_map(s.update(i, f)) == open_map(s).insert(f.fd, open_view(f)),
{
    let s2 = s.update(i, f);
    assert forall|a: int, b: int| 0 <= a < b < s2.len() implies (#[trigger] s2[a]).fd != (
    #[trigger] s2[b]).fd by {
        assert(s2[a].fd == s[a].fd);
        assert(s2[b].fd == s[b].fd);
    }
    assert forall|fd: u64| true implies #[trigger] open_map(s2).contains_key(fd) == open_map(
        s,
    ).insert(f.fd, open_view(f)).contains_key(fd) by {
        if has_fd(s2, fd) {
            let a = choose|a: int| 0 <= a < s2.len() && (#[trigger] s2[a]).fd == fd;
            assert(s[a].fd == fd);
            assert(has_fd(s, fd));
        }
        if has_fd(s, fd) {
            let a = choose|a: int| 0 <= a < s.len() && (#[trigger] s[a]).fd == fd;
            assert(s2[a].fd == fd);
            assert(has_fd(s2, fd));
        }
    }
    assert forall|fd: u64| open_map(s2).contains_key(fd) implies open_map(s2)[fd] == open_map(
        s,
    ).insert(f.fd, open_view(f))[fd] by {
        let a = choose|a: int| 0 <= a < s2.len() && (#[trigger] s2[a]).fd == fd;
        if fd == f.fd {
            assert(s2[i] == f);
            assert(s2[a].fd == s[a].fd && s[a].fd == fd);
            assert(a == i);
        } else {
            assert(a != i);
            assert(s2[a] == s[a]);
            assert(has_fd(s, fd));
            let b = choose|b: int| 0 <= b < s.len() && (#[trigger] s[b]).fd == fd;
            assert(b == a);
        }
    }
    assert(open_map(s2) =~= open_map(s).insert(f.fd, open_view(f)));
}

pub proof fn lemma_open_map_remove(s: Seq<OpenFile>, i: int)
    requires
        fds_unique(s),
        0 <= i < s.len(),
    ensures
        fds_unique(s.remove(i)),
        open_map(s.remove(i)) == open_map(s).remove(s[i].fd),
{
    let s2 = s.remove(i);
    let fd0 = s[i].fd;
    assert forall|a: int, b: int| 0 <= a < b < s2.len() implies (#[trigger] s2[a]).fd != (
    #[trigger] s2[b]).fd by {
        let a0 = if a < i { a } else { a + 1 };
        let b0 = if b < i { b } else { b + 1 };
        assert(s2[a] == s[a0]);
        assert(s2[b] == s[b0]);
    }
    assert forall|fd: u64| true implies #[trigger] open_map(s2).contains_key(fd) == open_map(
        s,
    ).remove(fd0).contains_key(fd) by {
        if has_fd(s2, fd) {
            let a = choose|a: int| 0 <= a < s2.len() && (#[trigger] s2[a]).fd == fd;
            let a0 = if a < i { a } else { a + 1 };
            assert(s2[a] == s[a0]);
            assert(has_fd(s, fd));
            assert(fd != fd0);
        }
        if has_fd(s, fd) && fd != fd0 {
            let a = choose|a: int| 0 <= a < s.len() && (#[trigger] s[a]).fd == fd;
            assert(a != i);
            if a < i {
                assert(s2[a] == s[a]);
                assert(has_fd(s2, fd));
            } else {
                assert(s2[a - 1] == s[a]);
                assert(has_fd(s2, fd));
            }
        }
    }
    assert forall|fd: u64| open_map(s2).contains_key(fd) implies open_map(s2)[fd] == open_map(
        s,
    ).remove(fd0)[fd] by {
        let a = choose|a: int| 0 <= a < s2.len() && (#[trigger] s2[a]).fd == fd;
        let a0 = if a < i { a } else { a + 1 };
        assert(s2[a] == s[a0]);
        assert(has_fd(s, fd));
        let b = choose|b: int| 0 <= b < s.len() && (#[trigger] s[b]).fd == fd;
        assert(b == a0);
    }
    assert(open_map(s2) =~= open_map(s).remove(fd0));
}

/// Where a line read from `pos` ends: one past the first newline at or
/// after `pos`, or the end of the body.
pub open spec fn line_end(data: Seq<u8>, pos: int) -> int
    recommends
        0 <= pos <= data.len(),
    decreases data.len() - pos
        when 0 <= pos <= data.len()
{
    if pos >= data.len() {
        pos
    } else if data[pos] == 10u8 {
        pos + 1
    } else {
        line_end(data, pos + 1)
    }
}

pub proof fn lemma_line_end(data: Seq<u8>, pos: int)
    requires
        0 <= pos <= data.len(),
    ensures
        pos <= line_end(data, pos) <= data.len(),
        pos < data.len() ==> pos < line_end(data, pos),
        line_end(data, pos) == data.len() || data[line_end(data, pos) - 1] == 10u8,
    decreases data.len() - pos,
{
    if pos >= data.len() {
    } else if data[pos] == 10u8 {
    } else {
        lemma_line_end(data, pos + 1);
    }
}

impl OpenFiles {
    /// An empty descriptor table.
    pub fn new() -> (r: OpenFiles)
        ensures
            r.wf(),
            r@ == Map::<u64, OpenView>::empty(),
    {
        let r = OpenFiles { table: Vec::new(), next_fd: 0 };
        proof {
            assert(r@ =~= Map::<u64, OpenView>::empty());
        }
        r
    }

    fn find_idx(&self, fd: u64) -> (r: Option<usize>)
        requires
            self.wf(),
        ensures
            r matches Some(i) ==> i < self.table@.len() && self.table@[i as int].fd == fd
                && self@.contains_key(fd) && self@[fd] == open_view(self.table@[i as int]),
            r is None ==> !self@.contains_key(fd),
    {
        let mut i: usize = 0;
        while i < self.table.len()
            invariant
                self.wf(),
                i <= self.table@.len(),
                forall|j: int| 0 <= j < i ==> (#[trigger] self.table@[j]).fd != fd,
            decreases self.table@.len() - i,
        {
            if self.table[i].fd == fd {
                proof {
                    lemma_open_map_index(self.table@, i as int);
                }
                return Some(i);
            }
            i = i + 1;
        }
        proof {
            lemma_open_map_absent(self.table@, fd);
        }
        None
    }

    /// Open a handle on a body snapshot. Fails only when every descriptor
    /// has been used up.
    pub fn open(&mut self, data: Vec<u8>) -> (r: Option<u64>)
        requires
            old(self).wf(),
        ensures
            final(self).wf(),
            r matches Some(fd) ==> fd == old(self).next_fd && old(self).next_fd < u64::MAX
                && !old(self)@.contains_key(fd) && final(self)@ == old(self)@.insert(
                fd,
                OpenView { data: data@, pos: 0 },
            ),
            r is None ==> *final(self) == *old(self) && old(self).next_fd == u64::MAX,
    {
        if self.next_fd == u64::MAX {
            return None;
        }
        let fd = self.next_fd;
        let f = OpenFile { fd, data, pos: 0 };
        proof {
            assert(forall|i: int|
                0 <= i < self.table@.len() ==> (#[trigger] self.table@[i]).fd != fd);
            lemma_open_map_absent(self.table@, fd);
            lemma_open_map_push(self.table@, f);
        }
        let ghost oldtable = self.table@;
        self.table.push(f);
        self.next_fd = self.next_fd + 1;
        proof {
            assert forall|i: int| 0 <= i < self.table@.len() implies (
            #[trigger] self.table@[i]).fd < self.next_fd && self.table@[i].pos
                <= self.table@[i].data@.len() by {
                if i < oldtable.len() {
                    assert(self.table@[i] == oldtable[i]);
                }
            }
        }
        Some(fd)
    }

    /// Read up to `n` bytes from the cursor, advancing it. The result is
    /// empty exactly when the cursor already sat at the end or `n` is
    /// zero.
    pub fn read_chunk(&mut self, fd: u64, n: usize) -> (r: Option<Vec<u8>>)
        requires
            old(self).wf(),
        ensures
            final(self).wf(),
            r is None ==> !old(self)@.contains_key(fd) && *final(self) == *old(self),
            r matches Some(buf) ==> old(self)@.contains_key(fd) && ({
                let v = old(self)@[fd];
                let end = if v.pos + n <= v.data.len() {
                    v.pos + n
                } else {
                    v.data.len() as int
                };
                buf@ == v.data.subrange(v.pos, end) && final(self)@ == old(self)@.insert(
                    fd,
                    OpenView { data: v.data, pos: end },
                )
            }),
    {
        match self.find_idx(fd) {
            None => None,
            Some(i) => {
                let ghost oldtable = self.table@;
                proof {
                    assert(oldtable[i as int].pos <= oldtable[i as int].data@.len());
                }
                let f = &mut self.table[i];
                let start = f.pos;
                let end = if n <= f.data.len() - start {
                    start + n
                } else {
                    f.data.len()
                };
                let mut buf: Vec<u8> = Vec::new();
                let mut k: usize = start;
                while k < end
                    invariant
                        start <= k <= end <= f.data@.len(),
                        buf@ == f.data@.subrange(start as int, k as int),
                    decreases end - k,
                {
                    buf.push(f.data[k]);
                    k = k + 1;
                    proof {
                        assert(buf@ =~= f.data@.subrange(start as int, k as int));
                    }
                }
                f.pos = end;
                proof {
                    lemma_open_map_update(oldtable, i as int, self.table@[i as int]);
                    assert forall|j: int| 0 <= j < self.table@.len() implies (
                    #[trigger] self.table@[j]).fd < self.next_fd && self.table@[j].pos
                        <= self.table@[j].data@.len() by {
                        if j != i {
                            assert(self.table@[j] == oldtable[j]);
                        }
                    }
                }
                Some(buf)
            },
        }
    }

    /// Read bytes up to and including the next newline, or to the end.
    pub fn read_line(&mut self, fd: u64) -> (r: Option<Vec<u8>>)
        requires
            old(self).wf(),
        ensures
            final(self).wf(),
            r is None ==> !old(self)@.contains_key(fd) && *final(self) == *old(self),
            r matches Some(buf) ==> old(self)@.contains_key(fd) && ({
                let v = old(self)@[fd];
                let end = line_end(v.data, v.pos);
                buf@ == v.data.subrange(v.pos, end) && final(self)@ == old(self)@.insert(
                    fd,
                    OpenView { data: v.data, pos: end },
                )
            }),
    {
        match self.find_idx(fd) {
            None => None,
            Some(i) => {
                let ghost oldtable = self.table@;
                proof {
                    assert(oldtable[i as int].pos <= oldtable[i as int].data@.len());
                }
                let f = &mut self.table[i];
                let start = f.pos;
                let mut buf: Vec<u8> = Vec::new();
                let mut k: usize = start;
                let mut hit: bool = false;
                while k < f.data.len() && !hit
                    invariant
                        start <= k <= f.data@.len(),
                        start <= f.data@.len(),
                        buf@ == f.data@.subrange(start as int, k as int),
                        line_end(f.data@, start as int) == (if hit {
                            k as int
                        } else {
                            line_end(f.data@, k as int)
                        }),
                        hit ==> k > start,
                    decreases f.data@.len() - k, (if hit { 0int } else { 1int }),
                {
                    let b = f.data[k];
                    buf.push(b);
                    k = k + 1;
                    if b == 10u8 {
                        hit = true;
                    }
                    proof {
                        assert(buf@ =~= f.data@.subrange(start as int, k as int));
                    }
                }
                f.pos = k;
                proof {
                    assert(line_end(f.data@, start as int) == k as int);
                    lemma_open_map_update(oldtable, i as int, self.table@[i as int]);
                    assert forall|j: int| 0 <= j < self.table@.len() implies (
                    #[trigger] self.table@[j]).fd < self.next_fd && self.table@[j].pos
                        <= self.table@[j].data@.len() by {
                        if j != i {
                            assert(self.table@[j] == oldtable[j]);
                        }
                    }
                }
                Some(buf)
            },
        }
    }

    /// Forget a descriptor.
    pub fn close(&mut self, fd: u64) -> (r: bool)
        requires
            old(self).wf(),
        ensures
            final(self).wf(),
            r == old(self)@.contains_key(fd),
            final(self)@ == old(self)@.remove(fd),
    {
        match self.find_idx(fd) {
            None => {
                proof {
                    assert(self@ =~= self@.remove(fd));
                }
                false
            },
            Some(i) => {
                let ghost oldtable = self.table@;
                proof {
                    lemma_open_map_remove(self.table@, i as int);
                }
                self.table.remove(i);
                proof {
                    assert forall|j: int| 0 <= j < self.table@.len() implies (
                    #[trigger] self.table@[j]).fd < self.next_fd && self.table@[j].pos
                        <= self.table@[j].data@.len() by {
                        let j0 = if j < i { j } else { j + 1 };
                        assert(self.table@[j] == oldtable[j0]);
                    }
                }
                true
            },
        }
    }
}

// ---------------------------------------------------------------------------
// The host directory
// ---------------------------------------------------------------------------

/// The identity bound to a node name, first binding wins.
pub open spec fn hosts_lookup(h: Seq<(Vec<u8>, NodeId)>, name: Seq<u8>) -> Option<
    crate::types::NodeIdView,
>
    decreases h.len(),
{
    if h.len() == 0 {
        None
    } else if h[0].0@ == name {
        Some(h[0].1@)
    } else {
        hosts_lookup(h.skip(1), name)
    }
}

pub proof fn lemma_hosts_lookup_update(
    h: Seq<(Vec<u8>, NodeId)>,
    i: int,
    p: (Vec<u8>, NodeId),
    n2: Seq<u8>,
)
    requires
        0 <= i < h.len(),
        h[i].0@ == p.0@,
        forall|j: int| 0 <= j < i ==> (#[trigger] h[j]).0@ != p.0@,
    ensures
        hosts_lookup(h.update(i, p), n2) == (if n2 == p.0@ {
            Some(p.1@)
        } else {
            hosts_lookup(h, n2)
        }),
    decreases i,
{
    let h2 = h.update(i, p);
    if i == 0 {
        assert(h2[0] == p);
        if n2 == p.0@ {
        } else {
            assert(h2.skip(1) =~= h.skip(1));
        }
    } else {
        assert(h2[0] == h[0]);
        assert(h[0].0@ != p.0@);
        assert(h2.skip(1) =~= h.skip(1).update(i - 1, p));
        assert(h.skip(1)[i - 1] == h[i]);
        assert(forall|j: int| 0 <= j < i - 1 ==> (#[trigger] h.skip(1)[j]).0@ != p.0@);
        lemma_hosts_lookup_update(h.skip(1), i - 1, p, n2);
    }
}

pub proof fn lemma_hosts_lookup_push(h: Seq<(Vec<u8>, NodeId)>, p: (Vec<u8>, NodeId), n2: Seq<u8>)
    requires
        forall|j: int| 0 <= j < h.len() ==> (#[trigger] h[j]).0@ != p.0@,
    ensures
        hosts_lookup(h.push(p), n2) == (if n2 == p.0@ {
            Some(p.1@)
        } else {
            hosts_lookup(h, n2)
        }),
    decreases h.len(),
{
    let h2 = h.push(p);
    if h.len() == 0 {
        assert(h2[0] == p);
        assert(h2.skip(1) =~= Seq::<(Vec<u8>, NodeId)>::empty());
    } else {
        assert(h2[0] == h[0]);
        assert(h2.skip(1) =~= h.skip(1).push(p));
        assert(forall|j: int| 0 <= j < h.skip(1).len() ==> (#[trigger] h.skip(1)[j]).0@ != p.0@);
        lemma_hosts_lookup_push(h.skip(1), p, n2);
    }
}

/// Linear scan of the host directory.
pub fn hosts_get(h: &Vec<(Vec<u8>, NodeId)>, name: &[u8]) -> (r: Option<NodeId>)
    ensures
        r matches Some(id) ==> hosts_lookup(h@, name@) == Some(id@),
        r is None ==> hosts_lookup(h@, name@) is None,
{
    let mut i: usize = 0;
    proof {
        assert(h@.skip(0int) =~= h@);
    }
    while i < h.len()
        invariant
            i <= h@.len(),
            hosts_lookup(h@, name@) == hosts_lookup(h@.skip(i as int), name@),
        decreases h@.len() - i,
    {
        proof {
            assert(h@.skip(i as int)[0] == h@[i as int]);
            assert(h@.skip(i as int).skip(1) =~= h@.skip(i + 1 as int));
        }
        if bytes_eq(h[i].0.as_slice(), name) {
            return Some(h[i].1.dup());
        }
        i = i + 1;
    }
    None
}

/// Bind a name to an identity, replacing an earlier binding of the name.
pub fn hosts_set(h: &mut Vec<(Vec<u8>, NodeId)>, name: &[u8], id: &NodeId)
    ensures
        hosts_lookup(final(h)@, name@) == Some(id@),
        forall|n2: Seq<u8>|
            n2 != name@ ==> #[trigger] hosts_lookup(final(h)@, n2) == hosts_lookup(old(h)@, n2),
{
    let mut i: usize = 0;
    while i < h.len()
        invariant
            i <= h@.len(),
            h@ == old(h)@,
            forall|j: int| 0 <= j < i ==> (#[trigger] h@[j]).0@ != name@,
        decreases h@.len() - i,
    {
        if bytes_eq(h[i].0.as_slice(), name) {
            let p = (copy_bytes(name), id.dup());
            let ghost oldh = h@;
            let ghost pg = p;
            let slot = &mut h[i];
            *slot = p;
            proof {
                assert(h@ =~= oldh.update(i as int, pg));
                assert forall|n2: Seq<u8>| true implies #[trigger] hosts_lookup(h@, n2) == (
                if n2 == name@ {
                    Some(id@)
                } else {
                    hosts_lookup(oldh, n2)
                }) by {
                    lemma_hosts_lookup_update(oldh, i as int, pg, n2);
                }
            }
            return ;
        }
        i = i + 1;
    }
    let p = (copy_bytes(name), id.dup());
    let ghost pg = p;
    let ghost oldh = h@;
    h.push(p);
    proof {
        assert forall|n2: Seq<u8>| true implies #[trigger] hosts_lookup(h@, n2) == (if n2
            == name@ {
            Some(id@)
        } else {
            hosts_lookup(oldh, n2)
        }) by {
            lemma_hosts_lookup_push(oldh, pg, n2);
        }
    }
}

// ---------------------------------------------------------------------------
// Daemon state and the serving side of the peer protocol
// ---------------------------------------------------------------------------

/// Everything one daemon owns: its identity, what it knows of the
/// cluster, its blobs, its cache, and its open descriptors.
pub struct DaemonState {
    pub local: VPFSNode,
    pub root: Option<VPFSNode>,
    pub known_hosts: Vec<(Vec<u8>, NodeId)>,
    pub connections: Vec<Vec<u8>>,
    pub files: FileTable,
    pub cache: LruState,
    pub open_files: OpenFiles,
}

impl DaemonState {
    pub open spec fn wf(&self) -> bool {
        self.files.wf() && self.open_files.wf() && cache_struct_inv(self.cache)
    }

    /// Serve one request that arrived on a peer sub-stream (the second
    /// element of the argument and of the result is the bulk payload
    /// frame that follows the header, where the protocol has one).
    pub fn handle_daemon_request(&mut self, req: &DaemonRequest, body: Option<Vec<u8>>) -> (r: (
        DaemonResponse,
        Option<Vec<u8>>,
    ))
        requires
            old(self).wf(),
            req@ matches DaemonRequestView::Write(_) ==> body is Some,
        ensures
            final(self).wf(),
            final(self).local == old(self).local,
            final(self).root == old(self).root,
            final(self).known_hosts == old(self).known_hosts,
            final(self).connections == old(self).connections,
            final(self).cache == old(self).cache,
            req@ matches DaemonRequestView::Place ==> r.1 is None && final(self).open_files
                == old(self).open_files && (r.0 matches DaemonResponse::Place(u) && !old(self).files@.contains_key(u@) && final(self).files@ == old(self).files@.insert(
                u@,
                FileView { data: Seq::empty(), mtime: old(self).files.clock },
            )),
            req@ matches DaemonRequestView::Open(u) ==> r.1 is None && final(self).files == old(self).files && (r.0 matches DaemonResponse::Open(res) && (res matches Ok(fd) ==> old(self).files@.contains_key(u) && final(self).open_files@ == old(self).open_files@.insert(
                fd,
                OpenView { data: old(self).files@[u].data, pos: 0 },
            )) && (res matches Err(e) ==> e@ == VPFSErrorView::DoesNotExist && final(self).open_files == old(self).open_files) && (old(self).files@.contains_key(u) && old(self).open_files.next_fd < u64::MAX ==> res is Ok) && (res is Ok ==> old(self).open_files.next_fd < u64::MAX)),
            req@ matches DaemonRequestView::Read(u, t) ==> final(self).files == old(self).files
                && final(self).open_files == old(self).open_files && (
            r.0 matches DaemonResponse::Read(res) && {
                if !old(self).files@.contains_key(u) {
                    res == Err::<(), VPFSError>(VPFSError::DoesNotExist) && r.1 is None
                } else if t matches Some(m) && old(self).files@[u].mtime <= m {
                    res == Err::<(), VPFSError>(VPFSError::NotModified) && r.1 is None
                } else {
                    res is Ok && (r.1 matches Some(b) && b@ == old(self).files@[u].data)
                }
            }),
            req@ matches DaemonRequestView::Write(u) ==> r.1 is None && final(self).open_files
                == old(self).open_files && (r.0 matches DaemonResponse::Write(res) && {
                let b = body->Some_0;
                if old(self).files@.contains_key(u) {
                    res == Ok::<u64, VPFSError>(b@.len() as u64) && final(self).files@ == old(self).files@.insert(u, FileView { data: b@, mtime: old(self).files.clock })
                } else {
                    res == Err::<u64, VPFSError>(VPFSError::DoesNotExist) && final(self).files
                        == old(self).files
                }
            }),
            req@ matches DaemonRequestView::ReadFd(fd, n) ==> final(self).files == old(self).files && (r.0 matches DaemonResponse::ReadFd(res) && {
                if !old(self).open_files@.contains_key(fd) {
                    res == Err::<(), VPFSError>(VPFSError::FileNotOpen) && r.1 is None
                        && final(self).open_files == old(self).open_files
                } else {
                    let v = old(self).open_files@[fd];
                    let nn = if n <= usize::MAX as u64 {
                        n as int
                    } else {
                        usize::MAX as int
                    };
                    let end = if v.pos + nn <= v.data.len() {
                        v.pos + nn
                    } else {
                        v.data.len() as int
                    };
                    res is Ok && (r.1 matches Some(b) && b@ == v.data.subrange(v.pos, end))
                        && final(self).open_files@ == old(self).open_files@.insert(
                        fd,
                        OpenView { data: v.data, pos: end },
                    )
                }
            }),
            req@ matches DaemonRequestView::ReadLineFd(fd) ==> final(self).files == old(self).files && (r.0 matches DaemonResponse::ReadLineFd(res) && {
                if !old(self).open_files@.contains_key(fd) {
                    res == Err::<(), VPFSError>(VPFSError::FileNotOpen) && r.1 is None
                        && final(self).open_files == old(self).open_files
                } else {
                    let v = old(self).open_files@[fd];
                    let end = line_end(v.data, v.pos);
                    res is Ok && (r.1 matches Some(b) && b@ == v.data.subrange(v.pos, end))
                        && final(self).open_files@ == old(self).open_files@.insert(
                        fd,
                        OpenView { data: v.data, pos: end },
                    )
                }
            }),
            req@ matches DaemonRequestView::Close(fd) ==> r.1 is None && final(self).files
                == old(self).files && final(self).open_files@ == old(self).open_files@.remove(fd) && (r.0 matches DaemonResponse::Close(res) && res is Ok
                == old(self).open_files@.contains_key(fd)),
            req@ matches DaemonRequestView::Remove(u) ==> r.1 is None && final(self).open_files
                == old(self).open_files && final(self).files@ == old(self).files@.remove(u) && (
            r.0 matches DaemonResponse::Remove(res) && res is Ok == old(self).files@.contains_key(u)),
            req@ matches DaemonRequestView::AppendDirectoryEntry(u, e) ==> r.1 is None && final(self).open_files == old(self).open_files && (
            r.0 matches DaemonResponse::AppendDirectoryEntry(res) && {
                if !old(self).files@.contains_key(u) {
                    res == Err::<(), VPFSError>(VPFSError::DoesNotExist) && final(self).files
                        == old(self).files
                } else {
                    let blob = old(self).files@[u].data;
                    match dir_lookup(dir_entries(blob), e.name) {
                        Some(ex) => res matches Err(err) && err@
                            == VPFSErrorView::AlreadyExists(ex) && final(self).files == old(self).files,
                        None => res is Ok && final(self).files@ == old(self).files@.insert(
                            u,
                            FileView {
                                data: blob + crate::codec::enc_entry(e),
                                mtime: old(self).files.clock,
                            },
                        ),
                    }
                }
            }),
            req@ matches DaemonRequestView::AddressFor(n) ==> r.1 is None && final(self).files
                == old(self).files && final(self).open_files == old(self).open_files && (
            r.0 matches DaemonResponse::AddressFor(o) && (match o {
                Some(id) => hosts_lookup(old(self).known_hosts@, n) == Some(id@),
                None => hosts_lookup(old(self).known_hosts@, n) is None,
            })),
    {
        match req {
            DaemonRequest::Place => {
                let uri = self.files.create_unique_uri();
                (DaemonResponse::Place(uri), None)
            },
            DaemonRequest::Open(u) => {
                match self.files.read(u.as_slice()) {
                    Ok(data) => {
                        match self.open_files.open(data) {
                            Some(fd) => (DaemonResponse::Open(Ok(fd)), None),
                            None => (
                                DaemonResponse::Open(Err(VPFSError::DoesNotExist)),
                                None,
                            ),
                        }
                    },
                    Err(_) => (DaemonResponse::Open(Err(VPFSError::DoesNotExist)), None),
                }
            },
            DaemonRequest::Read(u, t) => {
                match self.files.metadata(u.as_slice()) {
                    None => (DaemonResponse::Read(Err(VPFSError::DoesNotExist)), None),
                    Some((_, local_mtime)) => {
                        let not_modified = match t {
                            Some(m) => local_mtime <= *m,
                            None => false,
                        };
                        if not_modified {
                            (DaemonResponse::Read(Err(VPFSError::NotModified)), None)
                        } else {
                            match self.files.read(u.as_slice()) {
                                Ok(data) => (DaemonResponse::Read(Ok(())), Some(data)),
                                Err(_) => {
                                    proof {
                                        assert(false);
                                    }
                                    (DaemonResponse::Read(Err(VPFSError::DoesNotExist)), None)
                                },
                            }
                        }
                    },
                }
            },
            DaemonRequest::Write(u) => {
                match body {
                    Some(b) => {
                        proof {
                            lemma_vec_len_bound(&b);
                        }
                        match self.files.write(u.as_slice(), b.as_slice()) {
                            Ok(_) => (
                                DaemonResponse::Write(Ok(b.len() as u64)),
                                None,
                            ),
                            Err(_) => (
                                DaemonResponse::Write(Err(VPFSError::DoesNotExist)),
                                None,
                            ),
                        }
                    },
                    None => {
                        proof {
                            assert(false);
                        }
                        (DaemonResponse::Write(Err(VPFSError::DoesNotExist)), None)
                    },
                }
            },
            DaemonRequest::ReadFd(fd, n) => {
                let nn: usize = if *n <= usize::MAX as u64 {
                    *n as usize
                } else {
                    usize::MAX
                };
                match self.open_files.read_chunk(*fd, nn) {
                    Some(buf) => (DaemonResponse::ReadFd(Ok(())), Some(buf)),
                    None => (DaemonResponse::ReadFd(Err(VPFSError::FileNotOpen)), None),
                }
            },
            DaemonRequest::ReadLineFd(fd) => {
                match self.open_files.read_line(*fd) {
                    Some(buf) => (DaemonResponse::ReadLineFd(Ok(())), Some(buf)),
                    None => (
                        DaemonResponse::ReadLineFd(Err(VPFSError::FileNotOpen)),
                        None,
                    ),
                }
            },
            DaemonRequest::Close(fd) => {
                if self.open_files.close(*fd) {
                    (DaemonResponse::Close(Ok(())), None)
                } else {
                    (DaemonResponse::Close(Err(VPFSError::FileNotOpen)), None)
                }
            },
            DaemonRequest::Remove(u) => {
                if self.files.remove(u.as_slice()) {
                    (DaemonResponse::Remove(Ok(())), None)
                } else {
                    (DaemonResponse::Remove(Err(VPFSError::DoesNotExist)), None)
                }
            },
            DaemonRequest::AppendDirectoryEntry(u, e) => {
                match self.files.read(u.as_slice()) {
                    Err(_) => (
                        DaemonResponse::AppendDirectoryEntry(Err(VPFSError::DoesNotExist)),
                        None,
                    ),
                    Ok(mut blob) => {
                        match crate::directory::append_entry_blob(&mut blob, e) {
                            Err(err) => (
                                DaemonResponse::AppendDirectoryEntry(Err(err)),
                                None,
                            ),
                            Ok(_) => {
                                proof {
                                    lemma_vec_len_bound(&blob);
                                }
                                match self.files.write(u.as_slice(), blob.as_slice()) {
                                    Ok(_) => (
                                        DaemonResponse::AppendDirectoryEntry(Ok(())),
                                        None,
                                    ),
                                    Err(_) => {
                                        proof {
                                            assert(false);
                                        }
                                        (
                                            DaemonResponse::AppendDirectoryEntry(
                                                Err(VPFSError::DoesNotExist),
                                            ),
                                            None,
                                        )
                                    },
                                }
                            },
                        }
                    },
                }
            },
            DaemonRequest::AddressFor(n) => {
                (DaemonResponse::AddressFor(hosts_get(&self.known_hosts, n.as_slice())), None)
            },
        }
    }

    /// Answer the first message of a connection. A root hello from a peer
    /// records the peer in the host directory and answers with the root
    /// node and a snapshot of that directory; it is only ever addressed
    /// to a daemon that knows its root.
    pub fn handle_hello(&mut self, hello: &Hello, remote_id: &NodeId) -> (r: HelloResponse)
        requires
            old(self).wf(),
            hello@ matches crate::wire::HelloView::RootHello(_) ==> old(self).root is Some,
        ensures
            final(self).wf(),
            final(self).local == old(self).local,
            final(self).root == old(self).root,
            final(self).files == old(self).files,
            final(self).cache == old(self).cache,
            final(self).open_files == old(self).open_files,
            final(self).connections == old(self).connections,
            hello@ matches crate::wire::HelloView::ClientHello ==> r matches
                HelloResponse::ClientHello(n) && n@ == old(self).local.name@ && final(self).known_hosts == old(self).known_hosts,
            hello@ matches crate::wire::HelloView::DaemonHello ==> r
                == HelloResponse::DaemonHello && final(self).known_hosts == old(self).known_hosts,
            hello@ matches crate::wire::HelloView::RootHello(peer) ==> (hosts_lookup(
                final(self).known_hosts@,
                peer.name,
            ) == Some(remote_id@) && (forall|n2: Seq<u8>|
                n2 != peer.name ==> #[trigger] hosts_lookup(final(self).known_hosts@, n2)
                    == hosts_lookup(old(self).known_hosts@, n2)) && (r matches
                HelloResponse::RootHello(rn, hs) && rn@ == old(self).root->Some_0@
                && crate::codec::hosts_view(hs@) == crate::codec::hosts_view(
                final(self).known_hosts@,
            ))),
    {
        match hello {
            Hello::ClientHello => HelloResponse::ClientHello(copy_bytes(
                self.local.name.as_slice(),
            )),
            Hello::DaemonHello => HelloResponse::DaemonHello,
            Hello::RootHello(peer) => {
                hosts_set(&mut self.known_hosts, peer.name.as_slice(), remote_id);
                let root_node = match &self.root {
                    Some(rn) => rn.dup(),
                    None => {
                        proof {
                            assert(false);
                        }
                        self.local.dup()
                    },
                };
                let mut snapshot: Vec<(Vec<u8>, NodeId)> = Vec::new();
                let mut i: usize = 0;
                while i < self.known_hosts.len()
                    invariant
                        i <= self.known_hosts@.len(),
                        snapshot@.len() == i,
                        forall|j: int|
                            0 <= j < i ==> (#[trigger] snapshot@[j]).0@
                                == self.known_hosts@[j].0@ && snapshot@[j].1@
                                == self.known_hosts@[j].1@,
                    decreases self.known_hosts@.len() - i,
                {
                    let p = &self.known_hosts[i];
                    snapshot.push((copy_bytes(p.0.as_slice()), p.1.dup()));
                    proof {
                        assert(forall|j: int|
                            0 <= j < i ==> #[trigger] snapshot@[j] == snapshot@.drop_last()[j]);
                    }
                    i = i + 1;
                }
                proof {
                    assert(crate::codec::hosts_view(snapshot@) =~= crate::codec::hosts_view(
                        self.known_hosts@,
                    ));
                }
                HelloResponse::RootHello(root_node, snapshot)
            },
        }
    }
}

} // verus!
