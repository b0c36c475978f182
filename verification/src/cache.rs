//! The byte-bounded LRU read-through cache. The recency structure itself
//! is the `lru` crate's, held behind a small trusted surface whose
//! contracts state, over a most-recent-first sequence, what the crate's
//! source shows each call does. Everything else - the byte accounting,
//! insert-then-evict, and the persisted snapshot - is verified here.

use vstd::prelude::*;
use crate::types::{Location, CacheEntry, VPFSNode};
use crate::store::{FileTable, FileView};
use crate::codec::{enc_opt_vnode, enc_u64, enc_location, enc_cache_entry, write_opt_vnode, write_u64, write_location, write_cache_entry, read_opt_vnode, read_u64, read_location, read_cache_entry, lemma_skip_skip};

verus! {

/// What the recency structure holds, most recently used first.
pub uninterp spec fn cache_seq(m: CacheMap) -> Seq<(Location, CacheEntry)>;

/// The `lru` crate's cache from blob location to local cache entry,
/// unbounded: this module does its own byte-based eviction.
#[verifier::external_body]
pub struct CacheMap {
    inner: lru::LruCache<Location, CacheEntry>,
}

impl CacheMap {
    /// Relies on lru::LruCache::unbounded: a fresh cache holds nothing.
    #[verifier::external_body]
    pub fn new() -> (r: CacheMap)
        ensures
            cache_seq(r) == Seq::<(Location, CacheEntry)>::empty(),
    {
        CacheMap { inner: lru::LruCache::unbounded() }
    }

    /// Relies on lru::LruCache::len.
    #[verifier::external_body]
    pub fn len(&self) -> (r: usize)
        ensures
            r == cache_seq(*self).len(),
    {
        self.inner.len()
    }

    /// Relies on lru::LruCache::get: on a hit the entry moves to the head
    /// of the recency list and its value is returned; a miss changes
    /// nothing.
    #[verifier::external_body]
    pub fn get(&mut self, k: &Location) -> (r: Option<CacheEntry>)
        ensures
            (forall|i: int|
                0 <= i < cache_seq(*old(self)).len() ==> (#[trigger] cache_seq(*old(self))[i]).0@
                    != k@) ==> r is None && cache_seq(*final(self)) == cache_seq(*old(self)),
            forall|i: int|
                0 <= i < cache_seq(*old(self)).len() && (#[trigger] cache_seq(*old(self))[i]).0@
                    == k@ ==> r == Some(cache_seq(*old(self))[i].1) && cache_seq(*final(self))
                    == seq![cache_seq(*old(self))[i]] + cache_seq(*old(self)).remove(i),
    {
        self.inner.get(k).cloned()
    }

    /// Relies on lru::LruCache::put: a fresh key is inserted at the head;
    /// an existing key has its value replaced and moves to the head.
    #[verifier::external_body]
    pub fn put(&mut self, k: Location, v: CacheEntry)
        ensures
            (forall|i: int|
                0 <= i < cache_seq(*old(self)).len() ==> (#[trigger] cache_seq(*old(self))[i]).0@
                    != k@) ==> cache_seq(*final(self)) == seq![(k, v)] + cache_seq(*old(self)),
            forall|i: int|
                0 <= i < cache_seq(*old(self)).len() && (#[trigger] cache_seq(*old(self))[i]).0@
                    == k@ ==> cache_seq(*final(self)) == seq![(k, v)] + cache_seq(
                    *old(self),
                ).remove(i),
    {
        self.inner.put(k, v);
    }

    /// Relies on lru::LruCache::pop_lru: removes and returns the entry at
    /// the tail of the recency list, if any.
    #[verifier::external_body]
    pub fn pop_lru(&mut self) -> (r: Option<(Location, CacheEntry)>)
        ensures
            cache_seq(*old(self)).len() == 0 ==> r is None && cache_seq(*final(self))
                == cache_seq(*old(self)),
            cache_seq(*old(self)).len() > 0 ==> r == Some(cache_seq(*old(self)).last())
                && cache_seq(*final(self)) == cache_seq(*old(self)).drop_last(),
    {
        self.inner.pop_lru()
    }

    /// Relies on lru::LruCache::iter: visits entries most recently used
    /// first; the wrapper clones each pair.
    #[verifier::external_body]
    pub fn entries(&self) -> (r: Vec<(Location, CacheEntry)>)
        ensures
            r@ == cache_seq(*self),
    {
        self.inner.iter().map(|p: (&Location, &CacheEntry)| (p.0.clone(), p.1.clone())).collect()
    }
}

/// The cache with its byte budget and the snapshot that outlives the
/// process (the daemon mirrors it to the file named `cache`).
pub struct LruState {
    pub map: CacheMap,
    pub used: usize,
    pub max: usize,
    pub snapshot: Vec<u8>,
}

/// Whether the cache holds an entry for a location.
pub open spec fn cache_has(s: Seq<(Location, CacheEntry)>, k: crate::types::LocationView) -> bool {
    exists|j: int| 0 <= j < s.len() && (#[trigger] s[j]).0@ == k
}

/// The position of a location's entry (any witness; with distinct keys,
/// the only one).
pub open spec fn cache_index(s: Seq<(Location, CacheEntry)>, k: crate::types::LocationView) -> int {
    choose|j: int| 0 <= j < s.len() && (#[trigger] s[j]).0@ == k
}

pub open spec fn keys_unique(s: Seq<(Location, CacheEntry)>) -> bool {
    forall|i: int, j: int|
        0 <= i < j < s.len() ==> (#[trigger] s[i]).0@ != (#[trigger] s[j]).0@
}

pub open spec fn cache_uris_distinct(s: Seq<(Location, CacheEntry)>) -> bool {
    forall|i: int, j: int|
        0 <= i < j < s.len() ==> (#[trigger] s[i]).1@.uri != (#[trigger] s[j]).1@.uri
}

pub open spec fn entry_size(p: (Location, CacheEntry), files: Map<Seq<u8>, FileView>) -> int {
    if files.contains_key(p.1@.uri) {
        files[p.1@.uri].data.len() as int
    } else {
        0
    }
}

/// Total on-disk size of the cached bodies.
pub open spec fn sum_sizes(s: Seq<(Location, CacheEntry)>, files: Map<Seq<u8>, FileView>) -> int
    decreases s.len(),
{
    if s.len() == 0 {
        0
    } else {
        sum_sizes(s.drop_last(), files) + entry_size(s.last(), files)
    }
}

/// Always holds: one entry per location and the byte counter within the
/// budget.
pub open spec fn cache_struct_inv(c: LruState) -> bool {
    let s = cache_seq(c.map);
    keys_unique(s) && c.used <= c.max
}

/// The accounting relation with the store: one backing URI per entry,
/// every backing file present, and the byte counter at least the real
/// total (bookkeeping never undercounts). Cache operations preserve it;
/// an outside overwrite or removal of a backing blob may break it, and
/// then the counter heals on the next restart's restore.
pub open spec fn cache_backing_inv(c: LruState, files: Map<Seq<u8>, FileView>) -> bool {
    let s = cache_seq(c.map);
    cache_uris_distinct(s) && (forall|i: int|
        0 <= i < s.len() ==> files.contains_key((#[trigger] s[i]).1@.uri)) && sum_sizes(s, files)
        <= c.used as int
}

/// The full cache invariant.
pub open spec fn cache_inv(c: LruState, files: Map<Seq<u8>, FileView>) -> bool {
    cache_struct_inv(c) && cache_backing_inv(c, files)
}

pub proof fn lemma_sum_nonneg(s: Seq<(Location, CacheEntry)>, files: Map<Seq<u8>, FileView>)
    ensures
        sum_sizes(s, files) >= 0,
    decreases s.len(),
{
    if s.len() > 0 {
        lemma_sum_nonneg(s.drop_last(), files);
    }
}

pub proof fn lemma_sum_prepend(
    x: (Location, CacheEntry),
    t: Seq<(Location, CacheEntry)>,
    files: Map<Seq<u8>, FileView>,
)
    ensures
        sum_sizes(seq![x] + t, files) == entry_size(x, files) + sum_sizes(t, files),
    decreases t.len(),
{
    let s = seq![x] + t;
    if t.len() == 0 {
        assert(s.len() == 1);
        assert(s.last() == x);
        assert(s.drop_last() =~= Seq::<(Location, CacheEntry)>::empty());
        assert(sum_sizes(Seq::<(Location, CacheEntry)>::empty(), files) == 0);
        assert(sum_sizes(t, files) == 0);
        assert(sum_sizes(s, files) == entry_size(x, files));
    } else {
        assert(s.last() == t.last());
        assert(s.drop_last() =~= seq![x] + t.drop_last());
        lemma_sum_prepend(x, t.drop_last(), files);
    }
}

pub proof fn lemma_sum_remove(
    s: Seq<(Location, CacheEntry)>,
    i: int,
    files: Map<Seq<u8>, FileView>,
)
    requires
        0 <= i < s.len(),
    ensures
        sum_sizes(s, files) == entry_size(s[i], files) + sum_sizes(s.remove(i), files),
    decreases s.len(),
{
    if i == s.len() - 1 {
        assert(s.remove(i) =~= s.drop_last());
        assert(s[i] == s.last());
    } else {
        assert(s.remove(i).drop_last() =~= s.drop_last().remove(i));
        assert(s.remove(i).last() == s.last());
        lemma_sum_remove(s.drop_last(), i, files);
    }
}

pub proof fn lemma_sum_files_same_on_uris(
    s: Seq<(Location, CacheEntry)>,
    files1: Map<Seq<u8>, FileView>,
    files2: Map<Seq<u8>, FileView>,
)
    requires
        forall|i: int|
            0 <= i < s.len() ==> entry_size(#[trigger] s[i], files1) == entry_size(s[i], files2),
    ensures
        sum_sizes(s, files1) == sum_sizes(s, files2),
    decreases s.len(),
{
    if s.len() > 0 {
        assert(s.last() == s[s.len() - 1]);
        assert(forall|i: int|
            0 <= i < s.drop_last().len() ==> #[trigger] s.drop_last()[i] == s[i]);
        lemma_sum_files_same_on_uris(s.drop_last(), files1, files2);
    }
}

/// Overwriting the backing file of at most one entry raises the total by
/// at most the new body's size.
pub proof fn lemma_sum_files_insert(
    s: Seq<(Location, CacheEntry)>,
    files: Map<Seq<u8>, FileView>,
    u: Seq<u8>,
    fv: FileView,
)
    requires
        cache_uris_distinct(s),
    ensures
        sum_sizes(s, files.insert(u, fv)) <= sum_sizes(s, files) + fv.data.len(),
    decreases s.len(),
{
    lemma_sum_nonneg(s, files);
    if s.len() > 0 {
        let t = s.drop_last();
        assert(cache_uris_distinct(t)) by {
            assert(forall|i: int| 0 <= i < t.len() ==> #[trigger] t[i] == s[i]);
        }
        if s.last().1@.uri == u {
            // the tail entry is the one overwritten; no other entry
            // shares its URI, so the rest of the sum is untouched
            assert(forall|i: int|
                0 <= i < t.len() ==> entry_size(#[trigger] t[i], files.insert(u, fv))
                    == entry_size(t[i], files)) by {
                assert(forall|i: int| 0 <= i < t.len() ==> #[trigger] t[i] == s[i]);
                assert(forall|i: int|
                    0 <= i < t.len() ==> (#[trigger] s[i]).1@.uri != s[s.len() - 1].1@.uri);
            }
            lemma_sum_files_same_on_uris(t, files.insert(u, fv), files);
            lemma_sum_nonneg(t, files);
            assert(entry_size(s.last(), files) >= 0);
        } else {
            lemma_sum_files_insert(t, files, u, fv);
        }
    }
}

/// A file no cached entry points to may change without moving the total.
pub proof fn lemma_sum_files_foreign(
    s: Seq<(Location, CacheEntry)>,
    files1: Map<Seq<u8>, FileView>,
    files2: Map<Seq<u8>, FileView>,
    u: Seq<u8>,
)
    requires
        forall|i: int| 0 <= i < s.len() ==> (#[trigger] s[i]).1@.uri != u,
        forall|w: Seq<u8>|
            w != u ==> files1.contains_key(w) == files2.contains_key(w) && (
            files1.contains_key(w) ==> files1[w] == files2[w]),
    ensures
        sum_sizes(s, files1) == sum_sizes(s, files2),
{
    assert(forall|i: int|
        0 <= i < s.len() ==> entry_size(#[trigger] s[i], files1) == entry_size(s[i], files2));
    lemma_sum_files_same_on_uris(s, files1, files2);
}

impl LruState {
    /// An empty cache with the given byte budget.
    pub fn new(max: usize) -> (r: LruState)
        ensures
            cache_seq(r.map) == Seq::<(Location, CacheEntry)>::empty(),
            r.used == 0,
            r.max == max,
            cache_struct_inv(r),
            forall|files: Map<Seq<u8>, FileView>| cache_backing_inv(r, files),
    {
        let r = LruState { map: CacheMap::new(), used: 0, max, snapshot: Vec::new() };
        proof {
            assert forall|files: Map<Seq<u8>, FileView>| cache_backing_inv(r, files) by {
                assert(sum_sizes(cache_seq(r.map), files) == 0);
            }
        }
        r
    }

    /// Look a location up, marking it most recently used. Returns the
    /// cache entry on a hit.
    pub fn lookup(&mut self, loc: &Location) -> (r: Option<CacheEntry>)
        ensures
            cache_struct_inv(*old(self)) ==> cache_struct_inv(*final(self)),
            forall|files: Map<Seq<u8>, FileView>|
                cache_backing_inv(*old(self), files) ==> cache_backing_inv(*final(self), files),
            final(self).used == old(self).used && final(self).max == old(self).max,
            final(self).snapshot == old(self).snapshot,
            r matches Some(e) ==> exists|i: int|
                0 <= i < cache_seq(old(self).map).len() && (#[trigger] cache_seq(
                    old(self).map,
                )[i]).0@ == loc@ && cache_seq(old(self).map)[i].1@ == e@,
            r is Some ==> forall|i: int|
                0 <= i < cache_seq(old(self).map).len() && (#[trigger] cache_seq(
                    old(self).map,
                )[i]).0@ == loc@ ==> cache_seq(final(self).map) == seq![
                    cache_seq(old(self).map)[i],
                ] + cache_seq(old(self).map).remove(i),
            r is None ==> cache_seq(final(self).map) == cache_seq(old(self).map) && (forall|
                i: int,
            |
                0 <= i < cache_seq(old(self).map).len() ==> (#[trigger] cache_seq(
                    old(self).map,
                )[i]).0@ != loc@),
    {
        let ghost olds = cache_seq(self.map);
        let r = self.map.get(loc);
        proof {
            if exists|i: int| 0 <= i < olds.len() && (#[trigger] olds[i]).0@ == loc@ {
                let i = choose|i: int| 0 <= i < olds.len() && (#[trigger] olds[i]).0@ == loc@;
                let news = cache_seq(self.map);
                assert(news == seq![olds[i]] + olds.remove(i));
                lemma_move_front_wf(olds, i);
                assert forall|files: Map<Seq<u8>, FileView>|
                    cache_backing_inv(*old(self), files) implies cache_backing_inv(
                    *self,
                    files,
                ) by {
                    lemma_sum_remove(olds, i, files);
                    lemma_sum_prepend(olds[i], olds.remove(i), files);
                    lemma_move_front_wf(olds, i);
                }
            }
        }
        r
    }

    /// The number of cached locations.
    pub fn count(&self) -> (r: usize)
        ensures
            r == cache_seq(self.map).len(),
    {
        self.map.len()
    }
}

/// Moving one entry to the front keeps keys and URIs pairwise distinct.
pub proof fn lemma_move_front_wf(s: Seq<(Location, CacheEntry)>, i: int)
    requires
        0 <= i < s.len(),
    ensures
        keys_unique(s) ==> keys_unique(seq![s[i]] + s.remove(i)),
        cache_uris_distinct(s) ==> cache_uris_distinct(seq![s[i]] + s.remove(i)),
        forall|k: int|
            0 <= k < (seq![s[i]] + s.remove(i)).len() ==> exists|j: int|
                0 <= j < s.len() && (#[trigger] (seq![s[i]] + s.remove(i))[k]) == s[j],
{
    let s2 = seq![s[i]] + s.remove(i);
    assert forall|k: int| 0 <= k < s2.len() implies exists|j: int|
        0 <= j < s.len() && (#[trigger] s2[k]) == s[j] by {
        if k == 0 {
            assert(s2[0] == s[i]);
        } else if k - 1 < i {
            assert(s2[k] == s.remove(i)[k - 1]);
            assert(s.remove(i)[k - 1] == s[k - 1]);
        } else {
            assert(s2[k] == s.remove(i)[k - 1]);
            assert(s.remove(i)[k - 1] == s[k]);
        }
    }
    if keys_unique(s) {
        assert forall|a: int, b: int| 0 <= a < b < s2.len() implies (#[trigger] s2[a]).0@ != (
        #[trigger] s2[b]).0@ by {
            let a0 = orig_index(i, a);
            let b0 = orig_index(i, b);
            assert(s2[a] == s[a0]);
            assert(s2[b] == s[b0]);
            assert(a0 != b0);
        }
    }
    if cache_uris_distinct(s) {
        assert forall|a: int, b: int| 0 <= a < b < s2.len() implies (#[trigger] s2[a]).1@.uri != (
        #[trigger] s2[b]).1@.uri by {
            let a0 = orig_index(i, a);
            let b0 = orig_index(i, b);
            assert(s2[a] == s[a0]);
            assert(s2[b] == s[b0]);
            assert(a0 != b0);
        }
    }
}

/// Prepending a pair with a fresh key keeps keys distinct.
pub proof fn lemma_prepend_fresh_key(x: (Location, CacheEntry), s: Seq<(Location, CacheEntry)>)
    requires
        forall|i: int| 0 <= i < s.len() ==> (#[trigger] s[i]).0@ != x.0@,
        keys_unique(s),
    ensures
        keys_unique(seq![x] + s),
{
    let s2 = seq![x] + s;
    assert forall|a: int, b: int| 0 <= a < b < s2.len() implies (#[trigger] s2[a]).0@ != (
    #[trigger] s2[b]).0@ by {
        if a == 0 {
            assert(s2[b] == s[b - 1]);
        } else {
            assert(s2[a] == s[a - 1]);
            assert(s2[b] == s[b - 1]);
        }
    }
}

/// Prepending a pair with a fresh backing URI keeps URIs distinct.
pub proof fn lemma_prepend_fresh_uri(x: (Location, CacheEntry), s: Seq<(Location, CacheEntry)>)
    requires
        forall|i: int| 0 <= i < s.len() ==> (#[trigger] s[i]).1@.uri != x.1@.uri,
        cache_uris_distinct(s),
    ensures
        cache_uris_distinct(seq![x] + s),
{
    let s2 = seq![x] + s;
    assert forall|a: int, b: int| 0 <= a < b < s2.len() implies (#[trigger] s2[a]).1@.uri != (
    #[trigger] s2[b]).1@.uri by {
        if a == 0 {
            assert(s2[b] == s[b - 1]);
        } else {
            assert(s2[a] == s[a - 1]);
            assert(s2[b] == s[b - 1]);
        }
    }
}

/// Where position `k` of `seq![s[i]] + s.remove(i)` came from in `s`.
pub open spec fn orig_index(i: int, k: int) -> int {
    if k == 0 {
        i
    } else if k - 1 < i {
        k - 1
    } else {
        k
    }
}

// ---------------------------------------------------------------------------
// The persisted snapshot
// ---------------------------------------------------------------------------

pub open spec fn enc_cache_pairs(s: Seq<(Location, CacheEntry)>) -> Seq<u8>
    decreases s.len(),
{
    if s.len() == 0 {
        Seq::<u8>::empty()
    } else {
        enc_location(s[0].0@) + enc_cache_entry(s[0].1@) + enc_cache_pairs(s.skip(1))
    }
}

pub proof fn lemma_enc_cache_pairs_push(s: Seq<(Location, CacheEntry)>, x: (Location, CacheEntry))
    ensures
        enc_cache_pairs(s.push(x)) == enc_cache_pairs(s) + enc_location(x.0@) + enc_cache_entry(
            x.1@,
        ),
    decreases s.len(),
{
    if s.len() == 0 {
        assert(s.push(x)[0] == x);
        assert(s.push(x).skip(1) =~= Seq::<(Location, CacheEntry)>::empty());
        assert(enc_cache_pairs(Seq::<(Location, CacheEntry)>::empty()) == Seq::<u8>::empty());
        assert(enc_cache_pairs(s) == Seq::<u8>::empty());
        assert(enc_cache_pairs(s.push(x)) == enc_location(x.0@) + enc_cache_entry(x.1@)
            + Seq::<u8>::empty());
        assert(enc_cache_pairs(s.push(x)) =~= enc_cache_pairs(s) + enc_location(x.0@)
            + enc_cache_entry(x.1@));
    } else {
        assert(s.push(x)[0] == s[0]);
        assert(s.push(x).skip(1) =~= s.skip(1).push(x));
        lemma_enc_cache_pairs_push(s.skip(1), x);
        assert(enc_cache_pairs(s.push(x)) =~= enc_cache_pairs(s) + enc_location(x.0@)
            + enc_cache_entry(x.1@));
    }
}

/// The snapshot's layout: the root node, the byte counter, then each
/// cached (location, entry) pair in most-recently-used-first order.
pub open spec fn snapshot_enc(
    root: Option<crate::types::VPFSNodeView>,
    used: u64,
    s: Seq<(Location, CacheEntry)>,
) -> Seq<u8> {
    enc_opt_vnode(root) + enc_u64(used) + enc_cache_pairs(s)
}

pub open spec fn opt_vnode_view(o: Option<VPFSNode>) -> Option<crate::types::VPFSNodeView> {
    match o {
        Some(n) => Some(n@),
        None => None,
    }
}

impl LruState {
    /// Rewrite the snapshot from the current contents.
    fn persist(&mut self, root: &Option<VPFSNode>)
        ensures
            final(self).map == old(self).map,
            final(self).used == old(self).used,
            final(self).max == old(self).max,
            final(self).snapshot@ == snapshot_enc(
                opt_vnode_view(*root),
                old(self).used as u64,
                cache_seq(old(self).map),
            ),
    {
        let mut out: Vec<u8> = Vec::new();
        write_opt_vnode(&mut out, root);
        write_u64(&mut out, self.used as u64);
        let ghost head = enc_opt_vnode(opt_vnode_view(*root)) + enc_u64(self.used as u64);
        proof {
            assert(out@ =~= head + enc_cache_pairs(
                cache_seq(self.map).take(0),
            )) by {
                assert(cache_seq(self.map).take(0) =~= Seq::<(Location, CacheEntry)>::empty());
            }
        }
        let pairs = self.map.entries();
        let mut i: usize = 0;
        while i < pairs.len()
            invariant
                i <= pairs@.len(),
                pairs@ == cache_seq(self.map),
                out@ == head + enc_cache_pairs(pairs@.take(i as int)),
                head == enc_opt_vnode(opt_vnode_view(*root)) + enc_u64(self.used as u64),
                *self == *old(self),
            decreases pairs@.len() - i,
        {
            let p = &pairs[i];
            write_location(&mut out, &p.0);
            write_cache_entry(&mut out, &p.1);
            proof {
                assert(pairs@.take(i + 1 as int) =~= pairs@.take(i as int).push(
                    pairs@[i as int],
                ));
                lemma_enc_cache_pairs_push(pairs@.take(i as int), pairs@[i as int]);
                assert(out@ =~= head + enc_cache_pairs(pairs@.take(i + 1 as int)));
            }
            i = i + 1;
        }
        proof {
            assert(pairs@.take(pairs@.len() as int) =~= pairs@);
            assert(out@ =~= snapshot_enc(
                opt_vnode_view(*root),
                self.used as u64,
                cache_seq(self.map),
            ));
        }
        self.snapshot = out;
    }

    /// Insert a body read from a remote location: overwrite the backing
    /// file on a hit, else allocate a fresh URI and write the body there;
    /// add the body's size to the byte counter; evict least-recently-used
    /// entries (deleting their backing files and subtracting their real
    /// sizes) until the counter fits the budget or the cache is empty;
    /// then rewrite the snapshot. On return the cached bodies' total
    /// on-disk size fits the budget.
    pub fn insert(
        &mut self,
        files: &mut FileTable,
        loc: &Location,
        data: &[u8],
        root: &Option<VPFSNode>,
    )
        requires
            old(files).wf(),
            cache_struct_inv(*old(self)),
        ensures
            final(files).wf(),
            cache_struct_inv(*final(self)),
            final(self).max == old(self).max,
            final(self).used <= old(self).used + data@.len(),
            cache_backing_inv(*old(self), old(files)@) ==> cache_backing_inv(
                *final(self),
                final(files)@,
            ) && sum_sizes(cache_seq(final(self).map), final(files)@) <= final(self).max as int,
            final(self).snapshot@ == snapshot_enc(
                opt_vnode_view(*root),
                final(self).used as u64,
                cache_seq(final(self).map),
            ),
            // the entry for `loc` stands at the head; on a hit it keeps its
            // backing URI, on a miss its URI is fresh; the rest is the
            // promoted old order with a suffix evicted
            ({
                let olds = cache_seq(old(self).map);
                let fin = cache_seq(final(self).map);
                let rest = if cache_has(olds, loc@) {
                    olds.remove(cache_index(olds, loc@))
                } else {
                    olds
                };
                fin.len() <= rest.len() + 1 && (forall|j: int|
                    1 <= j < fin.len() ==> fin[j] == rest[j - 1]) && (fin.len() >= 1
                    ==> fin[0].0@ == loc@ && (cache_has(olds, loc@) ==> fin[0].1@ == olds[
                    cache_index(olds, loc@)].1@) && (!cache_has(olds, loc@) ==> !old(files)@.contains_key(fin[0].1@.uri)))
            }),
            // with sound accounting at entry: the head's backing file holds
            // the body; each evicted entry's location is out of the cache,
            // its backing file removed, and its real size subtracted
            cache_backing_inv(*old(self), old(files)@) ==> ({
                let olds = cache_seq(old(self).map);
                let fin = cache_seq(final(self).map);
                let rest = if cache_has(olds, loc@) {
                    olds.remove(cache_index(olds, loc@))
                } else {
                    olds
                };
                (fin.len() >= 1 ==> final(files)@.contains_key(fin[0].1@.uri) && final(files)@[fin[0].1@.uri].data == data@ && final(self).used as int == old(self).used
                    + data@.len() - sum_sizes(rest.skip(fin.len() - 1), old(files)@)) && (
                forall|j: int|
                    0 <= j < rest.len() && fin.len() - 1 <= j ==> !final(files)@.contains_key(
                        (#[trigger] rest[j]).1@.uri,
                    ) && !cache_has(fin, rest[j].0@)) && (forall|j: int|
                    0 <= j < fin.len() - 1 ==> final(files)@.contains_key(
                        (#[trigger] rest[j]).1@.uri,
                    ) && final(files)@[rest[j].1@.uri] == old(files)@[rest[j].1@.uri]) && (
                // eviction is minimal: whatever was dropped, keeping the
                // next entry too would have broken the budget
                fin.len() >= 1 && fin.len() - 1 < rest.len() ==> final(self).used as int
                    + entry_size(rest[fin.len() - 1], old(files)@) > final(self).max as int)
            }),
            // into an empty cache, the only blob touched is the fresh one
            cache_backing_inv(*old(self), old(files)@) && cache_seq(old(self).map).len() == 0
                ==> (forall|u: Seq<u8>|
                old(files)@.contains_key(u) ==> #[trigger] final(files)@.contains_key(u)
                    && final(files)@[u] == old(files)@[u]),
    {
        let ghost olds = cache_seq(self.map);
        let ghost oldfiles = files@;
        let ghost backing0 = cache_backing_inv(*self, files@);
        let len = data.len();
        let got = self.lookup(loc);
        match got {
            Some(entry) => {
                // overwrite the backing file in place; if the file has
                // vanished under the cache, recreate it
                let wr = files.write(entry.uri.as_slice(), data);
                match wr {
                    Ok(_) => {},
                    Err(_) => {
                        proof {
                            if backing0 {
                                let i = choose|i: int|
                                    0 <= i < olds.len() && (#[trigger] olds[i]).0@ == loc@
                                        && olds[i].1@ == entry@;
                                assert(oldfiles.contains_key(entry@.uri));
                                assert(false);
                            }
                        }
                        let created = files.create(entry.uri.as_slice(), data);
                        proof {
                            assert(created);
                        }
                    },
                }
                proof {
                    if backing0 {
                        let s = cache_seq(self.map);
                        lemma_sum_files_insert(s, oldfiles, entry@.uri, files@[entry@.uri]);
                    }
                }
            },
            None => {
                let uri = files.create_unique_uri();
                let wr = files.write(uri.as_slice(), data);
                let ghost s = cache_seq(self.map);
                proof {
                    match wr {
                        Ok(_) => {},
                        Err(_) => {
                            assert(false);
                        },
                    }
                    if backing0 {
                        // the fresh URI is unlike every cached one, whose
                        // files all predate it
                        assert forall|i: int| 0 <= i < s.len() implies (#[trigger] s[i]).1@.uri
                            != uri@ by {
                            assert(oldfiles.contains_key(s[i].1@.uri));
                        }
                        lemma_sum_files_foreign(s, files@, oldfiles, uri@);
                    }
                }
                let entry = CacheEntry { uri };
                let k2 = loc.dup();
                let ghost pair = (k2, entry);
                self.map.put(k2, entry);
                proof {
                    let news = cache_seq(self.map);
                    assert(news == seq![pair] + s) by {
                        assert(forall|i: int|
                            0 <= i < s.len() ==> (#[trigger] s[i]).0@ != loc@);
                    }
                    lemma_prepend_fresh_key(pair, s);
                    if backing0 {
                        assert forall|i: int| 0 <= i < s.len() implies (#[trigger] s[i]).1@.uri
                            != pair.1@.uri by {
                            assert(oldfiles.contains_key(s[i].1@.uri));
                        }
                        lemma_prepend_fresh_uri(pair, s);
                        lemma_sum_prepend(pair, s, files@);
                    }
                }
            },
        }
        // name the promoted order: the entry for `loc`, then the survivors
        let ghost promoted = cache_seq(self.map);
        let ghost head = promoted[0];
        let ghost rest = promoted.skip(1);
        let ghost midfiles = files@;
        proof {
            assert(promoted.len() >= 1);
            assert(promoted =~= seq![head] + rest);
            if cache_has(olds, loc@) {
                let ci = cache_index(olds, loc@);
                assert(0 <= ci < olds.len() && olds[ci].0@ == loc@);
                assert(promoted == seq![olds[ci]] + olds.remove(ci));
                assert(head == olds[ci]);
                assert(rest =~= olds.remove(ci));
            } else {
                assert(rest =~= olds);
            }
            assert(head.0@ == loc@);
            assert(midfiles.contains_key(head.1@.uri));
            assert(midfiles[head.1@.uri].data == data@);
            if backing0 {
                assert forall|j: int| 0 <= j < rest.len() implies (#[trigger] rest[j]).1@.uri
                    != head.1@.uri && oldfiles.contains_key(rest[j].1@.uri)
                    && midfiles.contains_key(rest[j].1@.uri) && midfiles[rest[j].1@.uri]
                    == oldfiles[rest[j].1@.uri] by {
                    if cache_has(olds, loc@) {
                        let ci = cache_index(olds, loc@);
                        let j0 = if j < ci {
                            j
                        } else {
                            j + 1
                        };
                        assert(rest[j] == olds[j0]);
                        assert(oldfiles.contains_key(olds[j0].1@.uri));
                    } else {
                        assert(oldfiles.contains_key(rest[j].1@.uri));
                    }
                }
            }
        }
        proof {
            if olds.len() == 0 {
                assert(rest =~= olds);
            }
            if backing0 && olds.len() == 0 {
                assert(!oldfiles.contains_key(head.1@.uri));
                assert forall|u: Seq<u8>| oldfiles.contains_key(u) implies #[trigger] files@
                    .contains_key(u) && files@[u] == oldfiles[u] by {
                    assert(u != head.1@.uri);
                }
            }
        }
        // account for the body, then evict until the budget holds
        let mut acc: u128 = self.used as u128 + len as u128;
        proof {
            if backing0 {
                lemma_sum_nonneg(cache_seq(self.map), files@);
                assert(rest.skip(rest.len() as int) =~= Seq::<(Location, CacheEntry)>::empty());
            }
        }
        while acc > (self.max as u128) && self.map.len() > 0
            invariant
                files.wf(),
                keys_unique(cache_seq(self.map)),
                cache_seq(self.map).len() <= rest.len() + 1,
                cache_seq(self.map).len() >= 1 ==> cache_seq(self.map)[0] == head,
                forall|j: int|
                    1 <= j < cache_seq(self.map).len() ==> (#[trigger] cache_seq(
                        self.map,
                    )[j]) == rest[j - 1],
                backing0 ==> cache_uris_distinct(cache_seq(self.map)),
                backing0 ==> (forall|i: int|
                    0 <= i < cache_seq(self.map).len() ==> files@.contains_key(
                        (#[trigger] cache_seq(self.map)[i]).1@.uri,
                    )) && sum_sizes(cache_seq(self.map), files@) <= acc,
                backing0 && cache_seq(self.map).len() >= 1 ==> files@.contains_key(head.1@.uri)
                    && files@[head.1@.uri].data == data@,
                olds.len() == 0 ==> rest.len() == 0,
                backing0 && olds.len() == 0 ==> !oldfiles.contains_key(head.1@.uri),
                backing0 && olds.len() == 0 ==> (forall|u: Seq<u8>|
                    oldfiles.contains_key(u) ==> #[trigger] files@.contains_key(u)
                        && files@[u] == oldfiles[u]),
                backing0 ==> (forall|j: int|
                    0 <= j < rest.len() ==> oldfiles.contains_key((#[trigger] rest[j]).1@.uri)
                        && rest[j].1@.uri != head.1@.uri),

                backing0 ==> (forall|j: int|
                    0 <= j < cache_seq(self.map).len() - 1 ==> files@.contains_key(
                        (#[trigger] rest[j]).1@.uri,
                    ) && files@[rest[j].1@.uri] == oldfiles[rest[j].1@.uri]),
                backing0 ==> (forall|j: int|
                    0 <= j < rest.len() && cache_seq(self.map).len() - 1 <= j
                        ==> !files@.contains_key((#[trigger] rest[j]).1@.uri)),
                backing0 && cache_seq(self.map).len() >= 1 ==> acc == old(self).used + len
                    - sum_sizes(rest.skip(cache_seq(self.map).len() - 1), oldfiles),
                backing0 && 1 <= cache_seq(self.map).len() && cache_seq(self.map).len()
                    < rest.len() + 1 ==> acc + entry_size(
                    rest[cache_seq(self.map).len() - 1],
                    oldfiles,
                ) > self.max as int,
                acc <= u64::MAX as u128 + u64::MAX as u128,
                acc <= old(self).used as u128 + len as u128,
                self.max == old(self).max,
                self.used == old(self).used,
            decreases cache_seq(self.map).len(),
        {
            let ghost s = cache_seq(self.map);
            match self.map.pop_lru() {
                Some((ploc, pentry)) => {
                    proof {
                        assert(s[s.len() - 1] == s.last());
                        if backing0 {
                            lemma_sum_nonneg(s.drop_last(), files@);
                        }
                    }
                    let meta = files.metadata(pentry.uri.as_slice());
                    match meta {
                        Some((flen, _)) => {
                            let ghost prefiles = files@;
                            files.remove(pentry.uri.as_slice());
                            proof {
                                let t = cache_seq(self.map);
                                assert(t == s.drop_last());
                                if backing0 && olds.len() == 0 {
                                    assert(s.len() == 1);
                                    assert(s[0] == head);
                                    assert(pentry@.uri == head.1@.uri);
                                    assert forall|u: Seq<u8>|
                                        oldfiles.contains_key(u) implies #[trigger] files@
                                        .contains_key(u) && files@[u] == oldfiles[u] by {
                                        assert(u != head.1@.uri);
                                    }
                                }
                                assert(forall|i: int|
                                    0 <= i < t.len() ==> #[trigger] t[i] == s[i]);
                                if backing0 {
                                    assert forall|i: int| 0 <= i < t.len() implies (
                                    #[trigger] t[i]).1@.uri != pentry@.uri by {
                                        assert(s[i].1@.uri != s[s.len() - 1].1@.uri);
                                    }
                                    lemma_sum_files_foreign(t, files@, prefiles, pentry@.uri);
                                    assert(sum_sizes(s, prefiles) == sum_sizes(t, prefiles)
                                        + entry_size(s.last(), prefiles));
                                    assert(entry_size(s.last(), prefiles) == flen as int);
                                    assert forall|j: int| 0 <= j < t.len() - 1 implies files@
                                        .contains_key((#[trigger] rest[j]).1@.uri) && files@[
                                        rest[j].1@.uri] == oldfiles[rest[j].1@.uri] by {
                                        assert(rest[j] == s[j + 1]);
                                        assert(s[j + 1].1@.uri != s[s.len() - 1].1@.uri);
                                    }
                                    assert forall|j: int|
                                        0 <= j < rest.len() && t.len() - 1 <= j
                                            implies !files@.contains_key(
                                            (#[trigger] rest[j]).1@.uri,
                                        ) by {
                                        if j == t.len() - 1 {
                                            assert(rest[j] == s[s.len() - 1]);
                                        }
                                    }
                                    if t.len() >= 1 {
                                        // the popped entry is a survivor of
                                        // `rest`; its real (pre-insert) size
                                        // leaves the counter
                                        assert(s.last() == rest[t.len() - 1]);
                                        assert(prefiles[pentry@.uri] == oldfiles[pentry@.uri]);
                                        assert(entry_size(rest[t.len() - 1], oldfiles)
                                            == flen as int);
                                        assert(rest.skip(t.len() - 1) =~= seq![
                                            rest[t.len() - 1],
                                        ] + rest.skip(s.len() as int - 1));
                                        lemma_sum_prepend(
                                            rest[t.len() - 1],
                                            rest.skip(s.len() as int - 1),
                                            oldfiles,
                                        );
                                    }
                                }
                            }
                            if flen as u128 > acc {
                                // the counter had drifted below the real
                                // sizes; floor it
                                proof {
                                    if backing0 {
                                        assert(false);
                                    }
                                }
                                acc = 0;
                            } else {
                                acc = acc - flen as u128;
                            }
                        },
                        None => {
                            // the backing file is gone; drop the entry and
                            // leave the counter as it is
                            proof {
                                if backing0 {
                                    assert(files@.contains_key(s[s.len() - 1].1@.uri));
                                    assert(false);
                                }
                                let t = cache_seq(self.map);
                                assert(t == s.drop_last());
                                assert(forall|i: int|
                                    0 <= i < t.len() ==> #[trigger] t[i] == s[i]);
                            }
                        },
                    }
                },
                None => {
                    proof {
                        assert(false);
                    }
                },
            }
        }
        if acc > self.max as u128 {
            // the cache is empty and the counter has drifted past the
            // budget: nothing is cached, so reset it
            self.used = 0;
            proof {
                assert(cache_seq(self.map).len() == 0);
                assert(sum_sizes(cache_seq(self.map), files@) == 0);
            }
        } else {
            self.used = acc as usize;
        }
        proof {
            if backing0 {
                lemma_sum_nonneg(cache_seq(self.map), files@);
                let fin = cache_seq(self.map);
                assert forall|j: int|
                    0 <= j < rest.len() && fin.len() - 1 <= j implies !cache_has(
                    fin,
                    (#[trigger] rest[j]).0@,
                ) by {
                    if cache_has(fin, rest[j].0@) {
                        let a = cache_index(fin, rest[j].0@);
                        assert(0 <= a < fin.len() && fin[a].0@ == rest[j].0@);
                        assert(keys_unique(promoted));
                        if a == 0 {
                            assert(promoted[0].0@ == promoted[j + 1].0@);
                        } else {
                            assert(fin[a] == rest[a - 1]);
                            assert(promoted[a].0@ == promoted[j + 1].0@);
                        }
                    }
                }
            }
        }
        self.persist(root);
    }
}

// ---------------------------------------------------------------------------
// Reading a snapshot back
// ---------------------------------------------------------------------------

pub open spec fn pairs_view(v: Seq<(Location, CacheEntry)>) -> Seq<
    (crate::types::LocationView, crate::types::CacheEntryView),
> {
    v.map_values(|p: (Location, CacheEntry)| (p.0@, p.1@))
}

/// The pairs a snapshot tail holds, reading until the bytes stop parsing.
pub open spec fn dec_cache_pairs(s: Seq<u8>) -> Seq<
    (crate::types::LocationView, crate::types::CacheEntryView),
>
    decreases s.len(),
{
    match crate::codec::dec_location(s) {
        Some((l, n1)) => match crate::codec::dec_cache_entry(s.skip(n1)) {
            Some((c, n2)) => if 0 < n1 + n2 <= s.len() {
                seq![(l, c)] + dec_cache_pairs(s.skip(n1 + n2))
            } else {
                Seq::empty()
            },
            None => Seq::empty(),
        },
        None => Seq::empty(),
    }
}

/// How many bytes the pair list at the front of `s` takes.
pub open spec fn cache_pairs_len(s: Seq<u8>) -> int
    decreases s.len(),
{
    match crate::codec::dec_location(s) {
        Some((l, n1)) => match crate::codec::dec_cache_entry(s.skip(n1)) {
            Some((c, n2)) => if 0 < n1 + n2 <= s.len() {
                n1 + n2 + cache_pairs_len(s.skip(n1 + n2))
            } else {
                0
            },
            None => 0,
        },
        None => 0,
    }
}

/// A whole snapshot: the root, the byte counter, then the pairs, which
/// must account for every remaining byte - anything else is malformed and
/// reads as no snapshot at all.
pub open spec fn dec_snapshot(s: Seq<u8>) -> Option<
    (Option<crate::types::VPFSNodeView>, u64, Seq<
        (crate::types::LocationView, crate::types::CacheEntryView),
    >),
> {
    match crate::codec::dec_opt_vnode(s) {
        Some((root, n1)) => match crate::codec::dec_u64(s.skip(n1)) {
            Some((used, n2)) => if cache_pairs_len(s.skip(n1 + n2)) == s.skip(n1 + n2).len() {
                Some((root, used, dec_cache_pairs(s.skip(n1 + n2))))
            } else {
                None
            },
            None => None,
        },
        None => None,
    }
}

/// Parse a snapshot. Any malformed byte - in the header, in a pair, or
/// trailing the pair list - makes the whole snapshot read as none, so a
/// damaged file starts the cache empty.
pub fn parse_snapshot(s: &[u8]) -> (r: Option<
    (Option<VPFSNode>, u64, Vec<(Location, CacheEntry)>),
>)
    ensures
        r matches Some((root, used, pairs)) ==> dec_snapshot(s@) == Some(
            (opt_vnode_view(root), used, pairs_view(pairs@)),
        ),
        r is None ==> dec_snapshot(s@) is None,
{
    let ghost whole = s@;
    match read_opt_vnode(s, 0) {
        None => {
            proof {
                assert(whole.skip(0int) =~= whole);
            }
            None
        },
        Some((root, p1)) => {
            proof {
                assert(whole.skip(0int) =~= whole);
            }
            match read_u64(s, p1) {
                None => None,
                Some((used, p2)) => {
                    let mut pairs: Vec<(Location, CacheEntry)> = Vec::new();
                    let mut cur: usize = p2;
                    let ghost t0 = whole.skip(p2 as int);
                    let mut done: bool = false;
                    proof {
                        assert(t0.skip(0int) =~= t0);
                        assert(pairs_view(pairs@) =~= Seq::empty());
                        assert(pairs_view(pairs@) + dec_cache_pairs(t0) =~= dec_cache_pairs(
                            t0,
                        ));
                    }
                    proof {
                        assert(cache_pairs_len(t0) == 0 + cache_pairs_len(t0));
                    }
                    while !done
                        invariant
                            p2 <= cur <= whole.len(),
                            whole == s@,
                            t0 == whole.skip(p2 as int),
                            !done ==> dec_cache_pairs(t0) == pairs_view(pairs@)
                                + dec_cache_pairs(whole.skip(cur as int)),
                            !done ==> cache_pairs_len(t0) == (cur - p2) + cache_pairs_len(
                                whole.skip(cur as int),
                            ),
                            done ==> dec_cache_pairs(t0) == pairs_view(pairs@),
                            done ==> cache_pairs_len(t0) == cur - p2,
                        decreases whole.len() - cur, (if done { 0int } else { 1int }),
                    {
                        let ghost tc = whole.skip(cur as int);
                        match read_location(s, cur) {
                            None => {
                                proof {
                                    assert(dec_cache_pairs(tc) =~= Seq::empty());
                                    assert(cache_pairs_len(tc) == 0);
                                    assert(pairs_view(pairs@) + Seq::empty() =~= pairs_view(
                                        pairs@,
                                    ));
                                }
                                done = true;
                            },
                            Some((l, q1)) => {
                                proof {
                                    lemma_skip_skip(whole, cur as int, q1 - cur);
                                }
                                match read_cache_entry(s, q1) {
                                    None => {
                                        proof {
                                            assert(dec_cache_pairs(tc) =~= Seq::empty());
                                            assert(cache_pairs_len(tc) == 0);
                                            assert(pairs_view(pairs@) + Seq::empty()
                                                =~= pairs_view(pairs@));
                                        }
                                        done = true;
                                    },
                                    Some((c, q2)) => {
                                        proof {
                                            lemma_skip_skip(whole, cur as int, q2 - cur);
                                            let lv = l@;
                                            let cv = c@;
                                            assert(dec_cache_pairs(tc) == seq![(lv, cv)]
                                                + dec_cache_pairs(whole.skip(q2 as int)));
                                            assert(cache_pairs_len(tc) == (q2 - cur)
                                                + cache_pairs_len(whole.skip(q2 as int)));
                                            assert(pairs_view(pairs@.push((l, c)))
                                                =~= pairs_view(pairs@) + seq![(lv, cv)]);
                                            assert(pairs_view(pairs@) + (seq![(lv, cv)]
                                                + dec_cache_pairs(whole.skip(q2 as int)))
                                                =~= (pairs_view(pairs@) + seq![(lv, cv)])
                                                + dec_cache_pairs(whole.skip(q2 as int)));
                                        }
                                        pairs.push((l, c));
                                        cur = q2;
                                    },
                                }
                            },
                        }
                    }
                    if cur != s.len() {
                        // bytes the pair list does not account for: the
                        // snapshot is malformed and reads as none
                        proof {
                            lemma_skip_skip(whole, 0int, p1 as int);
                            lemma_skip_skip(whole, p1 as int, p2 - p1);
                            assert(cache_pairs_len(t0) < t0.len());
                        }
                        return None;
                    }
                    proof {
                        lemma_skip_skip(whole, 0int, p1 as int);
                        lemma_skip_skip(whole, p1 as int, p2 - p1);
                        assert(cache_pairs_len(t0) == t0.len());
                    }
                    Some((root, used, pairs))
                },
            }
        },
    }
}

/// Does the kept list already bind this location or this backing URI?
fn taken(kept: &Vec<(Location, CacheEntry)>, l: &Location, e: &CacheEntry) -> (r: bool)
    ensures
        r == exists|i: int|
            0 <= i < kept@.len() && ((#[trigger] kept@[i]).0@ == l@ || kept@[i].1@.uri
                == e@.uri),
{
    let mut i: usize = 0;
    while i < kept.len()
        invariant
            i <= kept@.len(),
            forall|j: int|
                0 <= j < i ==> !((#[trigger] kept@[j]).0@ == l@ || kept@[j].1@.uri == e@.uri),
        decreases kept@.len() - i,
    {
        let p = &kept[i];
        if crate::types::bytes_eq(p.0.node_name.as_slice(), l.node_name.as_slice())
            && crate::types::bytes_eq(p.0.uri.as_slice(), l.uri.as_slice()) {
            return true;
        }
        if crate::types::bytes_eq(p.1.uri.as_slice(), e.uri.as_slice()) {
            return true;
        }
        i = i + 1;
    }
    false
}

/// One step of the restore selection: a decoded pair is kept when its
/// location and backing URI are new, its backing file exists, and its
/// real size still fits the budget.
pub open spec fn restore_keep(
    kept: Seq<(crate::types::LocationView, crate::types::CacheEntryView)>,
    acc: int,
    p: (crate::types::LocationView, crate::types::CacheEntryView),
    files: Map<Seq<u8>, FileView>,
    max: int,
) -> (Seq<(crate::types::LocationView, crate::types::CacheEntryView)>, int) {
    if (exists|j: int|
        0 <= j < kept.len() && ((#[trigger] kept[j]).0 == p.0 || kept[j].1.uri == p.1.uri))
        || !files.contains_key(p.1.uri) || acc + files[p.1.uri].data.len() > max {
        (kept, acc)
    } else {
        (kept.push(p), acc + files[p.1.uri].data.len() as int)
    }
}

/// What restoring the first `n` decoded pairs keeps, and the bytes they
/// take.
pub open spec fn restore_fold(
    pairs: Seq<(crate::types::LocationView, crate::types::CacheEntryView)>,
    files: Map<Seq<u8>, FileView>,
    max: int,
    n: nat,
) -> (Seq<(crate::types::LocationView, crate::types::CacheEntryView)>, int)
    recommends
        n <= pairs.len(),
    decreases n,
{
    if n == 0 {
        (Seq::empty(), 0int)
    } else {
        let prev = restore_fold(pairs, files, max, (n - 1) as nat);
        restore_keep(prev.0, prev.1, pairs[n - 1], files, max)
    }
}

impl LruState {
    /// Rebuild a cache from a persisted snapshot. Entries are taken most
    /// recent first while their backing files exist, no location or URI
    /// repeats, and the byte budget holds; the counter is recomputed from
    /// the real file sizes, so drift in the snapshot heals here. A
    /// malformed snapshot reads as empty. Returns the cache and the root
    /// node the snapshot carried.
    pub fn restore(snapshot: &[u8], files: &FileTable, max: usize) -> (r: (
        LruState,
        Option<VPFSNode>,
    ))
        requires
            files.wf(),
        ensures
            cache_inv(r.0, files@),
            r.0.max == max,
            sum_sizes(cache_seq(r.0.map), files@) == r.0.used as int,
            dec_snapshot(snapshot@) is None ==> cache_seq(r.0.map) == Seq::<
                (Location, CacheEntry),
            >::empty() && r.1 is None && r.0.used == 0,
            dec_snapshot(snapshot@) matches Some((rootv, _, ps)) ==> opt_vnode_view(r.1)
                == rootv && pairs_view(cache_seq(r.0.map)) == restore_fold(
                ps,
                files@,
                max as int,
                ps.len(),
            ).0 && r.0.used as int == restore_fold(ps, files@, max as int, ps.len()).1,
    {
        let mut c = LruState::new(max);
        proof {
            assert(sum_sizes(cache_seq(c.map), files@) == 0);
        }
        let parsed = parse_snapshot(snapshot);
        match parsed {
            None => (c, None),
            Some((root, _snapshot_used, pairs)) => {
                // keep the most recent entries that still have a backing
                // file, without repeats, within the budget
                let mut kept: Vec<(Location, CacheEntry)> = Vec::new();
                let mut acc: usize = 0;
                let mut i: usize = 0;
                let ghost ps = pairs_view(pairs@);
                proof {
                    assert(pairs_view(kept@) =~= Seq::<
                        (crate::types::LocationView, crate::types::CacheEntryView),
                    >::empty());
                }
                while i < pairs.len()
                    invariant
                        i <= pairs@.len(),
                        files.wf(),
                        keys_unique(kept@),
                        cache_uris_distinct(kept@),
                        forall|j: int|
                            0 <= j < kept@.len() ==> files@.contains_key(
                                (#[trigger] kept@[j]).1@.uri,
                            ),
                        acc == sum_sizes(kept@, files@),
                        acc <= max,
                        ps == pairs_view(pairs@),
                        (pairs_view(kept@), acc as int) == restore_fold(
                            ps,
                            files@,
                            max as int,
                            i as nat,
                        ),
                    decreases pairs@.len() - i,
                {
                    let p = &pairs[i];
                    let ghost kv0 = pairs_view(kept@);
                    let ghost acc0 = acc as int;
                    proof {
                        assert(forall|j: int|
                            0 <= j < kept@.len() ==> #[trigger] kv0[j] == (
                                kept@[j].0@,
                                kept@[j].1@,
                            ));
                        assert(ps[i as int] == (pairs@[i as int].0@, pairs@[i as int].1@));
                    }
                    let was_taken = taken(&kept, &p.0, &p.1);
                    proof {
                        // the duplicate check reads the same as the
                        // selection step's
                        if was_taken {
                            let j = choose|j: int|
                                0 <= j < kept@.len() && ((#[trigger] kept@[j]).0@ == p.0@
                                    || kept@[j].1@.uri == p.1@.uri);
                            assert(kv0[j] == (kept@[j].0@, kept@[j].1@));
                            assert(exists|j: int|
                                0 <= j < kv0.len() && ((#[trigger] kv0[j]).0
                                    == ps[i as int].0 || kv0[j].1.uri == ps[i as int].1.uri));
                        } else {
                            assert forall|j: int| 0 <= j < kv0.len() implies !((
                            #[trigger] kv0[j]).0 == ps[i as int].0 || kv0[j].1.uri
                                == ps[i as int].1.uri) by {
                                assert(kv0[j] == (kept@[j].0@, kept@[j].1@));
                            }
                        }
                    }
                    if !was_taken {
                        match files.metadata(p.1.uri.as_slice()) {
                            Some((flen, _)) => {
                                if flen <= (max - acc) as u64 {
                                    let ghost oldkept = kept@;
                                    let np = (p.0.dup(), p.1.dup());
                                    proof {
                                        assert(np.0@ == p.0@ && np.1@ == p.1@);
                                    }
                                    kept.push(np);
                                    proof {
                                        assert(kept@.drop_last() =~= oldkept);
                                        assert(kept@.last() == kept@[oldkept.len() as int]);
                                        assert forall|a: int, b: int|
                                            0 <= a < b < kept@.len() implies (
                                        #[trigger] kept@[a]).0@ != (#[trigger] kept@[b]).0@ by {
                                            if b == oldkept.len() {
                                                assert(kept@[a] == oldkept[a]);
                                            }
                                        }
                                        assert forall|a: int, b: int|
                                            0 <= a < b < kept@.len() implies (
                                        #[trigger] kept@[a]).1@.uri != (
                                        #[trigger] kept@[b]).1@.uri by {
                                            if b == oldkept.len() {
                                                assert(kept@[a] == oldkept[a]);
                                            }
                                        }
                                    }
                                    acc = acc + flen as usize;
                                    proof {
                                        assert(pairs_view(kept@) =~= kv0.push(ps[i as int]));
                                        assert((pairs_view(kept@), acc as int)
                                            == restore_fold(
                                            ps,
                                            files@,
                                            max as int,
                                            (i + 1) as nat,
                                        ));
                                    }
                                } else {
                                    proof {
                                        assert(acc0 + files@[ps[i as int].1.uri].data.len()
                                            > max as int);
                                        assert((pairs_view(kept@), acc as int)
                                            == restore_fold(
                                            ps,
                                            files@,
                                            max as int,
                                            (i + 1) as nat,
                                        ));
                                    }
                                }
                            },
                            None => {
                                proof {
                                    assert(!files@.contains_key(ps[i as int].1.uri));
                                    assert((pairs_view(kept@), acc as int) == restore_fold(
                                        ps,
                                        files@,
                                        max as int,
                                        (i + 1) as nat,
                                    ));
                                }
                            },
                        }
                    } else {
                        proof {
                            assert((pairs_view(kept@), acc as int) == restore_fold(
                                ps,
                                files@,
                                max as int,
                                (i + 1) as nat,
                            ));
                        }
                    }
                    i = i + 1;
                }
                // rebuild recency: insert least recent first
                let ghost keptall = kept@;
                while kept.len() > 0
                    invariant
                        kept@.len() <= keptall.len(),
                        forall|j: int| 0 <= j < kept@.len() ==> kept@[j] == keptall[j],
                        cache_seq(c.map).len() == keptall.len() - kept@.len(),
                        forall|j: int|
                            0 <= j < cache_seq(c.map).len() ==> (#[trigger] cache_seq(
                                c.map,
                            )[j]) == keptall[kept@.len() + j],
                        keys_unique(keptall),
                        cache_uris_distinct(keptall),
                        c.max == max,
                    decreases kept@.len(),
                {
                    let ghost n = kept@.len() as int;
                    let ghost cur = cache_seq(c.map);
                    match kept.pop() {
                        Some(pair) => {
                            proof {
                                assert(pair == keptall[n - 1]);
                                assert forall|j: int| 0 <= j < cur.len() implies (
                                #[trigger] cur[j]).0@ != pair.0@ by {
                                    assert(cur[j] == keptall[n + j]);
                                }
                            }
                            let (pl, pe) = pair;
                            c.map.put(pl, pe);
                            proof {
                                let news = cache_seq(c.map);
                                assert(news == seq![(pl, pe)] + cur);
                                assert(news.len() == keptall.len() - kept@.len());
                                assert forall|j: int| 0 <= j < news.len() implies (
                                #[trigger] news[j]) == keptall[kept@.len() + j] by {
                                    if j == 0 {
                                        assert(news[0] == (pl, pe));
                                        assert((pl, pe) == keptall[n - 1]);
                                    } else {
                                        assert(news[j] == cur[j - 1]);
                                        assert(cur[j - 1] == keptall[n + j - 1]);
                                    }
                                }
                            }
                        },
                        None => {
                            proof {
                                assert(false);
                            }
                        },
                    }
                }
                proof {
                    assert(cache_seq(c.map) =~= keptall);
                }
                                c.used = acc;
                (c, root)
            },
        }
    }
}

/// One encoded pair list reads back as the pairs that were written.
pub proof fn lemma_cache_pairs_round(pairs: Seq<(Location, CacheEntry)>)
    requires
        forall|i: int|
            0 <= i < pairs.len() ==> crate::codec::loc_wf((#[trigger] pairs[i]).0@)
                && crate::codec::cache_entry_wf(pairs[i].1@),
    ensures
        dec_cache_pairs(enc_cache_pairs(pairs)) == pairs_view(pairs),
        cache_pairs_len(enc_cache_pairs(pairs)) == enc_cache_pairs(pairs).len(),
    decreases pairs.len(),
{
    broadcast use crate::codec::lemma_enc_u64_len, crate::codec::lemma_enc_bytes_len;

    if pairs.len() == 0 {
        reveal(crate::codec::dec_bytes);
        reveal(crate::codec::dec_u64);
        assert(dec_cache_pairs(enc_cache_pairs(pairs)) =~= pairs_view(pairs));
    } else {
        let p0 = pairs[0];
        let t2 = enc_cache_pairs(pairs.skip(1));
        let t1 = enc_cache_entry(p0.1@) + t2;
        let whole = enc_cache_pairs(pairs);
        assert(whole =~= enc_location(p0.0@) + t1);
        crate::codec::lemma_location_round(p0.0@, t1);
        crate::codec::lemma_skip_concat(enc_location(p0.0@), t1);
        crate::codec::lemma_cache_entry_round(p0.1@, t2);
        let n1 = enc_location(p0.0@).len() as int;
        let n2 = enc_cache_entry(p0.1@).len() as int;
        assert(whole.skip(n1 + n2) =~= t2);
        assert(forall|i: int|
            0 <= i < pairs.skip(1).len() ==> #[trigger] pairs.skip(1)[i] == pairs[i + 1]);
        lemma_cache_pairs_round(pairs.skip(1));
        assert(n1 + n2 <= whole.len());
        assert(dec_cache_pairs(whole) =~= seq![(p0.0@, p0.1@)] + pairs_view(pairs.skip(1)));
        assert(pairs_view(pairs) =~= seq![(p0.0@, p0.1@)] + pairs_view(pairs.skip(1)));
    }
}

/// Reading a snapshot back is the inverse of writing one: the parse
/// returns the root, the byte counter, and the cached pairs exactly as
/// they were persisted.
pub proof fn law_snapshot_round_trip(
    root: Option<crate::types::VPFSNodeView>,
    used: u64,
    pairs: Seq<(Location, CacheEntry)>,
)
    requires
        root matches Some(v) ==> crate::codec::vnode_wf(v),
        forall|i: int|
            0 <= i < pairs.len() ==> crate::codec::loc_wf((#[trigger] pairs[i]).0@)
                && crate::codec::cache_entry_wf(pairs[i].1@),
    ensures
        dec_snapshot(snapshot_enc(root, used, pairs)) == Some((root, used, pairs_view(pairs))),
{
    broadcast use crate::codec::lemma_enc_u64_len, crate::codec::lemma_enc_bytes_len;

    let t2 = enc_cache_pairs(pairs);
    let t1 = enc_u64(used) + t2;
    let whole = snapshot_enc(root, used, pairs);
    assert(whole =~= enc_opt_vnode(root) + t1);
    crate::codec::lemma_opt_vnode_round(root, t1);
    crate::codec::lemma_skip_concat(enc_opt_vnode(root), t1);
    let n1 = enc_opt_vnode(root).len() as int;
    crate::codec::lemma_u64_round(used, t2);
    assert(whole.skip(n1 + 8) =~= t2);
    lemma_cache_pairs_round(pairs);
}

} // verus!
