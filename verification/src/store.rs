//! The local store: the blobs one daemon holds in its working directory,
//! modelled as a table from URI to body bytes with a logical modification
//! time. The real disk mirrors this table; every rule about it is proved
//! here. Fresh URIs are drawn from a random source and made unique by
//! construction.

use vstd::prelude::*;
use crate::types::{lemma_vec_len_bound, bytes_eq, copy_bytes};
use crate::errors::{VPFSError, VPFSErrorView};

verus! {

/// One blob: its node-local name, its bytes, and when it last changed
/// (a logical clock tick, not wall time).
pub struct StoredFile {
    pub uri: Vec<u8>,
    pub data: Vec<u8>,
    pub mtime: u64,
}

pub ghost struct FileView {
    pub data: Seq<u8>,
    pub mtime: u64,
}

/// All blobs of one daemon plus the logical clock that stamps writes.
pub struct FileTable {
    pub files: Vec<StoredFile>,
    pub clock: u64,
}

pub open spec fn file_view(f: StoredFile) -> FileView {
    FileView { data: f.data@, mtime: f.mtime }
}

pub open spec fn has_uri(s: Seq<StoredFile>, u: Seq<u8>) -> bool {
    exists|i: int| 0 <= i < s.len() && (#[trigger] s[i]).uri@ == u
}

pub open spec fn files_map(s: Seq<StoredFile>) -> Map<Seq<u8>, FileView> {
    Map::new(
        |u: Seq<u8>| has_uri(s, u),
        |u: Seq<u8>|
            {
                let i = choose|i: int| 0 <= i < s.len() && (#[trigger] s[i]).uri@ == u;
                file_view(s[i])
            },
    )
}

/// No two blobs share a URI.
pub open spec fn uris_unique(s: Seq<StoredFile>) -> bool {
    forall|i: int, j: int|
        0 <= i < j < s.len() ==> (#[trigger] s[i]).uri@ != (#[trigger] s[j]).uri@
}

impl View for FileTable {
    type V = Map<Seq<u8>, FileView>;

    open spec fn view(&self) -> Map<Seq<u8>, FileView> {
        files_map(self.files@)
    }
}

impl FileTable {
    pub open spec fn wf(&self) -> bool {
        uris_unique(self.files@)
    }
}

pub proof fn lemma_files_map_index(s: Seq<StoredFile>, i: int)
    requires
        uris_unique(s),
        0 <= i < s.len(),
    ensures
        files_map(s).contains_key(s[i].uri@),
        files_map(s)[s[i].uri@] == file_view(s[i]),
{
    let u = s[i].uri@;
    assert(has_uri(s, u));
    let j = choose|j: int| 0 <= j < s.len() && (#[trigger] s[j]).uri@ == u;
    assert(j == i);
}

pub proof fn lemma_files_map_absent(s: Seq<StoredFile>, u: Seq<u8>)
    requires
        forall|i: int| 0 <= i < s.len() ==> (#[trigger] s[i]).uri@ != u,
    ensures
        !files_map(s).contains_key(u),
{
}

pub proof fn lemma_files_map_push(s: Seq<StoredFile>, f: StoredFile)
    requires
        uris_unique(s),
        !has_uri(s, f.uri@),
    ensures
        uris_unique(s.push(f)),
        files_map(s.push(f)) == files_map(s).insert(f.uri@, file_view(f)),
{
    let s2 = s.push(f);
    assert forall|i: int, j: int| 0 <= i < j < s2.len() implies (#[trigger] s2[i]).uri@ != (
    #[trigger] s2[j]).uri@ by {
        if j == s.len() {
            assert(s2[j] == f);
            assert(s2[i] == s[i]);
            assert(!(s[i].uri@ == f.uri@));
        } else {
            assert(s2[i] == s[i]);
            assert(s2[j] == s[j]);
        }
    }
    assert forall|u: Seq<u8>| true implies #[trigger] files_map(s2).contains_key(u)
        == files_map(s).insert(f.uri@, file_view(f)).contains_key(u) by {
        if u == f.uri@ {
            assert(s2[s.len() as int] == f);
            assert(has_uri(s2, u));
        } else {
            if has_uri(s2, u) {
                let i = choose|i: int| 0 <= i < s2.len() && (#[trigger] s2[i]).uri@ == u;
                assert(i < s.len());
                assert(s2[i] == s[i]);
                assert(has_uri(s, u));
            }
            if has_uri(s, u) {
                let i = choose|i: int| 0 <= i < s.len() && (#[trigger] s[i]).uri@ == u;
                assert(s2[i] == s[i]);
                assert(has_uri(s2, u));
            }
        }
    }
    assert forall|u: Seq<u8>| files_map(s2).contains_key(u) implies files_map(s2)[u]
        == files_map(s).insert(f.uri@, file_view(f))[u] by {
        let i = choose|i: int| 0 <= i < s2.len() && (#[trigger] s2[i]).uri@ == u;
        if u == f.uri@ {
            assert(s2[s.len() as int] == f);
            if i < s.len() {
                assert(s[i].uri@ == u);
                assert(has_uri(s, u));
            }
            assert(i == s.len());
        } else {
            assert(i < s.len());
            assert(s2[i] == s[i]);
            assert(has_uri(s, u));
            let j = choose|j: int| 0 <= j < s.len() && (#[trigger] s[j]).uri@ == u;
            assert(j == i);
        }
    }
    assert(files_map(s2) =~= files_map(s).insert(f.uri@, file_view(f)));
}

pub proof fn lemma_files_map_update(s: Seq<StoredFile>, i: int, f: StoredFile)
    requires
        uris_unique(s),
        0 <= i < s.len(),
        s[i].uri@ == f.uri@,
    ensures
        uris_unique(s.update(i, f)),
        files_map(s.update(i, f)) == files_map(s).insert(f.uri@, file_view(f)),
{
    let s2 = s.update(i, f);
    assert forall|a: int, b: int| 0 <= a < b < s2.len() implies (#[trigger] s2[a]).uri@ != (
    #[trigger] s2[b]).uri@ by {
        assert(s2[a].uri@ == s[a].uri@);
        assert(s2[b].uri@ == s[b].uri@);
    }
    assert forall|u: Seq<u8>| true implies #[trigger] files_map(s2).contains_key(u)
        == files_map(s).insert(f.uri@, file_view(f)).contains_key(u) by {
        if has_uri(s2, u) {
            let a = choose|a: int| 0 <= a < s2.len() && (#[trigger] s2[a]).uri@ == u;
            assert(s[a].uri@ == u);
            assert(has_uri(s, u));
        }
        if has_uri(s, u) {
            let a = choose|a: int| 0 <= a < s.len() && (#[trigger] s[a]).uri@ == u;
            assert(s2[a].uri@ == u);
            assert(has_uri(s2, u));
        }
    }
    assert forall|u: Seq<u8>| files_map(s2).contains_key(u) implies files_map(s2)[u]
        == files_map(s).insert(f.uri@, file_view(f))[u] by {
        let a = choose|a: int| 0 <= a < s2.len() && (#[trigger] s2[a]).uri@ == u;
        if u == f.uri@ {
            assert(s2[i] == f);
            assert(s2[a].uri@ == s[a].uri@ && s[a].uri@ == u);
            assert(a == i);
        } else {
            assert(a != i);
            assert(s2[a] == s[a]);
            assert(has_uri(s, u));
            let b = choose|b: int| 0 <= b < s.len() && (#[trigger] s[b]).uri@ == u;
            assert(b == a);
        }
    }
    assert(files_map(s2) =~= files_map(s).insert(f.uri@, file_view(f)));
}

pub proof fn lemma_files_map_remove(s: Seq<StoredFile>, i: int)
    requires
        uris_unique(s),
        0 <= i < s.len(),
    ensures
        uris_unique(s.remove(i)),
        files_map(s.remove(i)) == files_map(s).remove(s[i].uri@),
{
    let s2 = s.remove(i);
    let u0 = s[i].uri@;
    assert forall|a: int, b: int| 0 <= a < b < s2.len() implies (#[trigger] s2[a]).uri@ != (
    #[trigger] s2[b]).uri@ by {
        let a0 = if a < i { a } else { a + 1 };
        let b0 = if b < i { b } else { b + 1 };
        assert(s2[a] == s[a0]);
        assert(s2[b] == s[b0]);
    }
    assert forall|u: Seq<u8>| true implies #[trigger] files_map(s2).contains_key(u)
        == files_map(s).remove(u0).contains_key(u) by {
        if has_uri(s2, u) {
            let a = choose|a: int| 0 <= a < s2.len() && (#[trigger] s2[a]).uri@ == u;
            let a0 = if a < i { a } else { a + 1 };
            assert(s2[a] == s[a0]);
            assert(has_uri(s, u));
            assert(u != u0);
        }
        if has_uri(s, u) && u != u0 {
            let a = choose|a: int| 0 <= a < s.len() && (#[trigger] s[a]).uri@ == u;
            assert(a != i);
            if a < i {
                assert(s2[a] == s[a]);
                assert(has_uri(s2, u));
            } else {
                assert(s2[a - 1] == s[a]);
                assert(has_uri(s2, u));
            }
        }
    }
    assert forall|u: Seq<u8>| files_map(s2).contains_key(u) implies files_map(s2)[u]
        == files_map(s).remove(u0)[u] by {
        let a = choose|a: int| 0 <= a < s2.len() && (#[trigger] s2[a]).uri@ == u;
        let a0 = if a < i { a } else { a + 1 };
        assert(s2[a] == s[a0]);
        assert(has_uri(s, u));
        let b = choose|b: int| 0 <= b < s.len() && (#[trigger] s[b]).uri@ == u;
        assert(b == a0);
    }
    assert(files_map(s2) =~= files_map(s).remove(u0));
}

impl FileTable {
    /// An empty working directory, clock at zero.
    pub fn new() -> (r: FileTable)
        ensures
            r.wf(),
            r@ == Map::<Seq<u8>, FileView>::empty(),
            r.clock == 0,
    {
        let t = FileTable { files: Vec::new(), clock: 0 };
        proof {
            assert(t@ =~= Map::<Seq<u8>, FileView>::empty());
        }
        t
    }

    fn find_idx(&self, uri: &[u8]) -> (r: Option<usize>)
        requires
            self.wf(),
        ensures
            r matches Some(i) ==> i < self.files@.len() && self.files@[i as int].uri@ == uri@
                && self@.contains_key(uri@) && self@[uri@] == file_view(
                self.files@[i as int],
            ),
            r is None ==> !self@.contains_key(uri@),
    {
        let mut i: usize = 0;
        while i < self.files.len()
            invariant
                self.wf(),
                i <= self.files@.len(),
                forall|j: int| 0 <= j < i ==> (#[trigger] self.files@[j]).uri@ != uri@,
            decreases self.files@.len() - i,
        {
            if bytes_eq(self.files[i].uri.as_slice(), uri) {
                proof {
                    lemma_files_map_index(self.files@, i as int);
                }
                return Some(i);
            }
            i = i + 1;
        }
        proof {
            lemma_files_map_absent(self.files@, uri@);
        }
        None
    }

    /// Does a blob with this URI exist?
    pub fn contains(&self, uri: &[u8]) -> (r: bool)
        requires
            self.wf(),
        ensures
            r == self@.contains_key(uri@),
    {
        match self.find_idx(uri) {
            Some(_) => true,
            None => false,
        }
    }

    /// Whole-blob read. Fails only when the blob is absent.
    pub fn read(&self, uri: &[u8]) -> (r: Result<Vec<u8>, VPFSError>)
        requires
            self.wf(),
        ensures
            r matches Ok(d) ==> self@.contains_key(uri@) && d@ == self@[uri@].data,
            r matches Err(e) ==> e@ == VPFSErrorView::DoesNotExist && !self@.contains_key(uri@),
    {
        match self.find_idx(uri) {
            Some(i) => Ok(copy_bytes(self.files[i].data.as_slice())),
            None => Err(VPFSError::DoesNotExist),
        }
    }

    /// Whole-blob overwrite, stamping the clock. Succeeds only if the blob
    /// already exists: creation is placement's business alone.
    pub fn write(&mut self, uri: &[u8], data: &[u8]) -> (r: Result<(), VPFSError>)
        requires
            old(self).wf(),
        ensures
            final(self).wf(),
            r matches Ok(_) ==> old(self)@.contains_key(uri@) && final(self)@ == old(self)@.insert(uri@, FileView { data: data@, mtime: old(self).clock }) && final(self).clock == (if old(self).clock < u64::MAX {
                (old(self).clock + 1) as u64
            } else {
                u64::MAX
            }),
            r matches Err(e) ==> e@ == VPFSErrorView::DoesNotExist && !old(self)@.contains_key(uri@) && *final(self) == *old(self),
    {
        match self.find_idx(uri) {
            Some(i) => {
                let stamp = self.clock;
                let ghost oldfiles = self.files@;
                let f = &mut self.files[i];
                f.data = copy_bytes(data);
                f.mtime = stamp;
                proof {
                    lemma_files_map_update(oldfiles, i as int, self.files@[i as int]);
                }
                if self.clock < u64::MAX {
                    self.clock = self.clock + 1;
                }
                Ok(())
            },
            None => Err(VPFSError::DoesNotExist),
        }
    }

    /// Create a blob with the given body. Refuses an existing URI.
    pub fn create(&mut self, uri: &[u8], data: &[u8]) -> (r: bool)
        requires
            old(self).wf(),
        ensures
            final(self).wf(),
            r ==> !old(self)@.contains_key(uri@) && final(self)@ == old(self)@.insert(
                uri@,
                FileView { data: data@, mtime: old(self).clock },
            ) && final(self).clock == (if old(self).clock < u64::MAX {
                (old(self).clock + 1) as u64
            } else {
                u64::MAX
            }),
            !r ==> old(self)@.contains_key(uri@) && *final(self) == *old(self),
    {
        match self.find_idx(uri) {
            Some(_) => false,
            None => {
                let f = StoredFile {
                    uri: copy_bytes(uri),
                    data: copy_bytes(data),
                    mtime: self.clock,
                };
                proof {
                    lemma_files_map_push(self.files@, f);
                }
                self.files.push(f);
                if self.clock < u64::MAX {
                    self.clock = self.clock + 1;
                }
                true
            },
        }
    }

    /// Best-effort delete.
    pub fn remove(&mut self, uri: &[u8]) -> (r: bool)
        requires
            old(self).wf(),
        ensures
            final(self).wf(),
            final(self)@ == old(self)@.remove(uri@),
            final(self).clock == old(self).clock,
            r == old(self)@.contains_key(uri@),
    {
        match self.find_idx(uri) {
            Some(i) => {
                proof {
                    lemma_files_map_remove(self.files@, i as int);
                }
                self.files.remove(i);
                true
            },
            None => {
                proof {
                    assert(self@ =~= self@.remove(uri@));
                }
                false
            },
        }
    }

    /// Size and logical modification time of a blob, if it exists.
    pub fn metadata(&self, uri: &[u8]) -> (r: Option<(u64, u64)>)
        requires
            self.wf(),
        ensures
            r matches Some((len, mtime)) ==> self@.contains_key(uri@) && len == self@[uri@
            ].data.len() && mtime == self@[uri@].mtime,
            r is None ==> !self@.contains_key(uri@),
    {
        match self.find_idx(uri) {
            Some(i) => {
                let f = &self.files[i];
                proof {
                    lemma_vec_len_bound(&f.data);
                }
                Some((f.data.len() as u64, f.mtime))
            },
            None => None,
        }
    }
}

// ---------------------------------------------------------------------------
// Fresh URIs
// ---------------------------------------------------------------------------

/// Relies on rand::random: draws a 64-bit value. Nothing is promised of
/// which value comes back; every caller handles every outcome.
#[verifier::external_body]
fn random_u64() -> u64 {
    rand::random()
}

pub open spec fn hex_digit(d: u64) -> u8 {
    if d < 10 {
        (48 + d) as u8
    } else {
        (87 + d) as u8
    }
}

/// The shortest lower-case hexadecimal spelling of a value.
pub open spec fn hex_of(x: u64) -> Seq<u8>
    decreases x,
{
    if x < 16 {
        seq![hex_digit(x)]
    } else {
        hex_of(x / 16).push(hex_digit(x % 16))
    }
}

/// Lower-case hexadecimal spelling, as the store names blobs.
pub fn u64_to_hex(x: u64) -> (r: Vec<u8>)
    ensures
        r@ == hex_of(x),
    decreases x,
{
    if x < 16 {
        let d: u8 = if x < 10 {
            (48 + x) as u8
        } else {
            (87 + x) as u8
        };
        let mut r: Vec<u8> = Vec::new();
        r.push(d);
        proof {
            assert(r@ =~= hex_of(x));
        }
        r
    } else {
        let mut r = u64_to_hex(x / 16);
        let rem = x % 16;
        let d: u8 = if rem < 10 {
            (48 + rem) as u8
        } else {
            (87 + rem) as u8
        };
        r.push(d);
        proof {
            assert(r@ =~= hex_of(x));
        }
        r
    }
}

impl FileTable {
    /// Allocate a blob under a fresh random name and create it empty.
    /// A colliding draw is retried; the retry padding makes the candidate
    /// longer than every existing URI after finitely many rounds, so the
    /// loop ends.
    pub fn create_unique_uri(&mut self) -> (r: Vec<u8>)
        requires
            old(self).wf(),
        ensures
            final(self).wf(),
            !old(self)@.contains_key(r@),
            final(self)@ == old(self)@.insert(
                r@,
                FileView { data: Seq::empty(), mtime: old(self).clock },
            ),
    {
        // longest URI currently in use: any longer candidate is fresh
        let mut maxlen: usize = 0;
        let mut k: usize = 0;
        while k < self.files.len()
            invariant
                k <= self.files@.len(),
                forall|j: int|
                    0 <= j < k ==> (#[trigger] self.files@[j]).uri@.len() <= maxlen,
            decreases self.files@.len() - k,
        {
            let l = self.files[k].uri.len();
            if l > maxlen {
                maxlen = l;
            }
            k = k + 1;
        }
        let mut pad: usize = 0;
        loop
            invariant
                self.wf(),
                *self == *old(self),
                pad <= maxlen + 1,
                forall|j: int|
                    0 <= j < self.files@.len() ==> (#[trigger] self.files@[j]).uri@.len()
                        <= maxlen,
            decreases maxlen + 1 - pad,
        {
            let x = random_u64();
            let mut cand = u64_to_hex(x);
            let mut p: usize = 0;
            while p < pad
                invariant
                    p <= pad,
                    cand@.len() >= 1 + p,
                decreases pad - p,
            {
                cand.push(48u8);
                p = p + 1;
            }
            if !self.contains(cand.as_slice()) {
                let empty: Vec<u8> = Vec::new();
                let created = self.create(cand.as_slice(), empty.as_slice());
                proof {
                    assert(created);
                    assert(empty@ =~= Seq::<u8>::empty());
                }
                return cand;
            }
            proof {
                // a colliding candidate is no longer than the longest URI,
                // so the padding has not yet outgrown the table
                let i = choose|i: int|
                    0 <= i < self.files@.len() && (#[trigger] self.files@[i]).uri@ == cand@;
                assert(cand@.len() <= maxlen);
                assert(pad <= maxlen);
            }
            pad = pad + 1;
        }
    }
}

} // verus!
