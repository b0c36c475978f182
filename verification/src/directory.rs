//! Directory blobs: a directory on disk is a concatenation of encoded
//! `DirectoryEntry` records. This module gives the blob its mathematical
//! reading (`dir_entries`), the linear search, and the duplicate-checking
//! append, and proves that appends keep entry names unique.

use vstd::prelude::*;
use crate::types::{DirectoryEntry, DirectoryEntryView, bytes_eq};
use crate::errors::{VPFSError, VPFSErrorView};
use crate::codec::{enc_entry, dec_entry, entry_wf, lemma_entry_round, lemma_dec_entry_bounds, lemma_skip_skip, read_entry, write_entry};

verus! {

/// The records a blob holds, reading records from the front until the
/// bytes stop parsing.
pub open spec fn dir_entries(s: Seq<u8>) -> Seq<DirectoryEntryView>
    decreases s.len(),
{
    match dec_entry(s) {
        Some((e, n)) => if 0 < n <= s.len() {
            seq![e] + dir_entries(s.skip(n))
        } else {
            Seq::empty()
        },
        None => Seq::empty(),
    }
}

/// A well-formed directory blob: nothing but whole records.
pub open spec fn is_dir_blob(s: Seq<u8>) -> bool
    decreases s.len(),
{
    s.len() == 0 || (dec_entry(s) matches Some((e, n)) && 0 < n <= s.len() && is_dir_blob(
        s.skip(n),
    ))
}

/// The first record carrying `name`, if any.
pub open spec fn dir_lookup(entries: Seq<DirectoryEntryView>, name: Seq<u8>) -> Option<
    DirectoryEntryView,
>
    decreases entries.len(),
{
    if entries.len() == 0 {
        None
    } else if entries[0].name == name {
        Some(entries[0])
    } else {
        dir_lookup(entries.skip(1), name)
    }
}

/// No two records of a directory share a name.
pub open spec fn names_unique(entries: Seq<DirectoryEntryView>) -> bool {
    forall|i: int, j: int|
        0 <= i < j < entries.len() ==> (#[trigger] entries[i]).name != (#[trigger] entries[j]).name
}

/// The empty blob is a directory with no records.
pub proof fn lemma_empty_dir_blob()
    ensures
        is_dir_blob(Seq::<u8>::empty()),
        dir_entries(Seq::<u8>::empty()) =~= Seq::<DirectoryEntryView>::empty(),
{
    crate::codec::lemma_dec_location_bounds(Seq::<u8>::empty());
    lemma_dec_entry_bounds(Seq::<u8>::empty());
}

/// Appending one encoded record to a well-formed blob appends exactly that
/// record to the blob's reading.
pub proof fn lemma_dir_append(b: Seq<u8>, e: DirectoryEntryView)
    requires
        is_dir_blob(b),
        entry_wf(e),
    ensures
        is_dir_blob(b + enc_entry(e)),
        dir_entries(b + enc_entry(e)) =~= dir_entries(b).push(e),
    decreases b.len(),
{
    if b.len() == 0 {
        assert(b + enc_entry(e) =~= enc_entry(e) + Seq::<u8>::empty());
        lemma_entry_round(e, Seq::<u8>::empty());
        let whole = b + enc_entry(e);
        let n = enc_entry(e).len() as int;
        lemma_dec_entry_bounds(whole);
        assert(whole.skip(n) =~= Seq::<u8>::empty());
        lemma_empty_dir_blob();
        assert(dir_entries(whole) =~= seq![e]);
        assert(dir_entries(b) =~= Seq::<DirectoryEntryView>::empty());
        assert(dir_entries(b).push(e) =~= seq![e]);
    } else {
        let (e0, n0) = dec_entry(b)->Some_0;
        let whole = b + enc_entry(e);
        // the head record decodes the same from the longer byte string
        assert(dec_entry(whole) == Some((e0, n0))) by {
            lemma_prefix_decode(b, enc_entry(e));
        }
        lemma_dec_entry_bounds(whole);
        assert(whole.skip(n0) =~= b.skip(n0) + enc_entry(e));
        lemma_dir_append(b.skip(n0), e);
        assert(dir_entries(whole) =~= seq![e0] + dir_entries(b.skip(n0)).push(e));
        assert(dir_entries(b) =~= seq![e0] + dir_entries(b.skip(n0)));
        assert(dir_entries(whole) =~= dir_entries(b).push(e));
    }
}

/// A record decoded from a well-formed position decodes identically when
/// more bytes follow. Holds because the record's encoding determines how
/// far the decoder reads.
pub proof fn lemma_prefix_decode(b: Seq<u8>, ext: Seq<u8>)
    requires
        is_dir_blob(b),
        b.len() > 0,
    ensures
        dec_entry(b + ext) == dec_entry(b),
{
    let (e0, n0) = dec_entry(b)->Some_0;
    lemma_dec_entry_bounds(b);
    // b itself begins with an encoding of e0: recover it from the blob shape
    lemma_blob_head_is_encoding(b);
    assert(b =~= enc_entry(e0) + b.skip(n0));
    assert(b + ext =~= enc_entry(e0) + (b.skip(n0) + ext));
    lemma_entry_round(e0, b.skip(n0) + ext);
    lemma_entry_round(e0, b.skip(n0));
}

/// In a well-formed non-empty blob the head bytes are exactly the encoding
/// of the head record.
pub proof fn lemma_blob_head_is_encoding(b: Seq<u8>)
    requires
        is_dir_blob(b),
        b.len() > 0,
    ensures
        dec_entry(b) matches Some((e0, n0)) && n0 == enc_entry(e0).len() && b.subrange(0, n0)
            =~= enc_entry(e0) && entry_wf(e0),
{
    let (e0, n0) = dec_entry(b)->Some_0;
    lemma_dec_entry_decodes_encoding(b, e0, n0);
}

/// A successful entry decode means the consumed bytes are the entry's own
/// encoding: the format is canonical.
pub proof fn lemma_dec_entry_decodes_encoding(s: Seq<u8>, e: DirectoryEntryView, n: int)
    requires
        dec_entry(s) == Some((e, n)),
    ensures
        entry_wf(e),
        n == enc_entry(e).len(),
        s.subrange(0, n) =~= enc_entry(e),
{
    broadcast use crate::codec::lemma_enc_u64_len, crate::codec::lemma_enc_bytes_len;

    reveal(crate::codec::dec_bytes);
    reveal(crate::codec::dec_u64);
    reveal(crate::codec::enc_bytes);
    reveal(crate::codec::enc_u64);
    reveal(crate::codec::be_u64_of);
    let (l, n1) = crate::codec::dec_location(s)->Some_0;
    let (nn, a1) = crate::codec::dec_bytes(s)->Some_0;
    let (uu, a2) = crate::codec::dec_bytes(s.skip(a1))->Some_0;
    let (name, n2) = crate::codec::dec_bytes(s.skip(n1))->Some_0;
    let (d, n3) = crate::codec::dec_bool(s.skip(n1 + n2))->Some_0;
    lemma_canonical_bytes(s);
    lemma_canonical_bytes(s.skip(a1));
    lemma_skip_skip(s, a1, a2);
    lemma_canonical_bytes(s.skip(n1));
    assert(s.subrange(0, a1) =~= crate::codec::enc_bytes(nn));
    assert(s.skip(a1).subrange(0, a2) =~= crate::codec::enc_bytes(uu));
    assert(s.skip(n1).subrange(0, n2) =~= crate::codec::enc_bytes(name));
    // is_dir byte
    assert(s.skip(n1 + n2).subrange(0, 1) =~= crate::codec::enc_bool(d));
    // stitch the pieces together
    assert(enc_entry(e) =~= crate::codec::enc_bytes(nn) + crate::codec::enc_bytes(uu)
        + crate::codec::enc_bytes(name) + crate::codec::enc_bool(d));
    assert(s.subrange(0, n) =~= s.subrange(0, a1) + s.skip(a1).subrange(0, a2) + s.skip(
        n1,
    ).subrange(0, n2) + s.skip(n1 + n2).subrange(0, 1));
}

/// A successful byte-string decode consumed exactly the encoding of the
/// decoded string.
pub proof fn lemma_canonical_bytes(s: Seq<u8>)
    ensures
        crate::codec::dec_bytes(s) matches Some((v, n)) ==> n == crate::codec::enc_bytes(
            v,
        ).len() && s.subrange(0, n) =~= crate::codec::enc_bytes(v) && v.len() <= usize::MAX,
{
    broadcast use crate::codec::lemma_enc_u64_len, crate::codec::lemma_enc_bytes_len;

    reveal(crate::codec::dec_bytes);
    reveal(crate::codec::dec_u64);
    reveal(crate::codec::enc_bytes);
    reveal(crate::codec::enc_u64);
    reveal(crate::codec::be_u64_of);
    if crate::codec::dec_bytes(s) is Some {
        let (v, n) = crate::codec::dec_bytes(s)->Some_0;
        let k = v.len() as u64;
        let b0 = s[0];
        let b1 = s[1];
        let b2 = s[2];
        let b3 = s[3];
        let b4 = s[4];
        let b5 = s[5];
        let b6 = s[6];
        let b7 = s[7];
        assert(crate::codec::be_u64_of(b0, b1, b2, b3, b4, b5, b6, b7) == k ==> b0 == (k
            >> 56) as u8 && b1 == (k >> 48) as u8 && b2 == (k >> 40) as u8 && b3 == (k
            >> 32) as u8 && b4 == (k >> 24) as u8 && b5 == (k >> 16) as u8 && b6 == (k
            >> 8) as u8 && b7 == k as u8) by (bit_vector);
        assert(s.subrange(0, n) =~= crate::codec::enc_bytes(v));
    }
}

/// If a name is absent from a directory's reading, no record carries it.
pub proof fn lemma_lookup_none(entries: Seq<DirectoryEntryView>, name: Seq<u8>)
    requires
        dir_lookup(entries, name) is None,
    ensures
        forall|i: int| 0 <= i < entries.len() ==> (#[trigger] entries[i]).name != name,
    decreases entries.len(),
{
    if entries.len() > 0 {
        lemma_lookup_none(entries.skip(1), name);
        assert forall|i: int| 0 <= i < entries.len() implies (#[trigger] entries[i]).name
            != name by {
            if i > 0 {
                assert(entries.skip(1)[i - 1] == entries[i]);
            }
        }
    }
}

/// Looking a fresh name up right after pushing its record finds exactly
/// that record.
pub proof fn lemma_lookup_push_fresh(
    entries: Seq<DirectoryEntryView>,
    e: DirectoryEntryView,
)
    requires
        dir_lookup(entries, e.name) is None,
    ensures
        dir_lookup(entries.push(e), e.name) == Some(e),
    decreases entries.len(),
{
    if entries.len() == 0 {
        assert(entries.push(e)[0] == e);
    } else {
        assert(entries.push(e)[0] == entries[0]);
        assert(entries.push(e).skip(1) =~= entries.skip(1).push(e));
        lemma_lookup_push_fresh(entries.skip(1), e);
    }
}

/// Pushing a record with an unseen name keeps a directory's names unique.
pub proof fn lemma_push_preserves_unique(
    entries: Seq<DirectoryEntryView>,
    e: DirectoryEntryView,
)
    requires
        names_unique(entries),
        dir_lookup(entries, e.name) is None,
    ensures
        names_unique(entries.push(e)),
{
    lemma_lookup_none(entries, e.name);
    assert forall|i: int, j: int|
        0 <= i < j < entries.push(e).len() implies (#[trigger] entries.push(e)[i]).name != (
    #[trigger] entries.push(e)[j]).name by {
        if j < entries.len() {
        } else {
            assert(entries.push(e)[j] == e);
            assert(entries.push(e)[i] == entries[i]);
        }
    }
}

/// Linear scan of a directory blob for a record by name.
pub fn search_directory_blob(blob: &[u8], name: &[u8]) -> (r: Result<DirectoryEntry, VPFSError>)
    ensures
        r matches Ok(e) ==> dir_lookup(dir_entries(blob@), name@) == Some(e@),
        r matches Err(err) ==> err@ == VPFSErrorView::DoesNotExist && dir_lookup(
            dir_entries(blob@),
            name@,
        ) is None,
{
    let mut pos: usize = 0;
    proof {
        assert(blob@.skip(0int) =~= blob@);
    }
    loop
        invariant
            pos <= blob@.len(),
            dir_lookup(dir_entries(blob@), name@) == dir_lookup(
                dir_entries(blob@.skip(pos as int)),
                name@,
            ),
        decreases blob@.len() - pos,
    {
        let ghost t = blob@.skip(pos as int);
        proof {
            lemma_dec_entry_bounds(t);
        }
        match read_entry(blob, pos) {
            None => {
                proof {
                    assert(dir_entries(t) =~= Seq::<DirectoryEntryView>::empty());
                }
                return Err(VPFSError::DoesNotExist);
            },
            Some((e, end)) => {
                proof {
                    lemma_skip_skip(blob@, pos as int, end - pos);
                    assert(dir_entries(t) =~= seq![e@] + dir_entries(
                        blob@.skip(end as int),
                    ));
                    assert(dir_entries(t)[0] == e@);
                    assert(dir_entries(t).skip(1) =~= dir_entries(blob@.skip(end as int)));
                }
                if bytes_eq(e.name.as_slice(), name) {
                    return Ok(e);
                }
                pos = end;
            },
        }
    }
}

/// Append a record to a directory blob, refusing a duplicate name. On a
/// collision the blob is unchanged and the existing record is carried in
/// the error; on success the encoded record is appended and uniqueness of
/// names is preserved.
pub fn append_entry_blob(blob: &mut Vec<u8>, e: &DirectoryEntry) -> (r: Result<(), VPFSError>)
    ensures
        r matches Err(err) ==> final(blob)@ == old(blob)@ && err@ is AlreadyExists
            && dir_lookup(dir_entries(old(blob)@), e@.name) == Some(err@->AlreadyExists_0),
        r matches Ok(_) ==> dir_lookup(dir_entries(old(blob)@), e@.name) is None
            && final(blob)@ == old(blob)@ + enc_entry(e@),
        r matches Ok(_) && is_dir_blob(old(blob)@) ==> is_dir_blob(final(blob)@)
            && dir_entries(final(blob)@) == dir_entries(old(blob)@).push(e@)
            && dir_lookup(dir_entries(final(blob)@), e@.name) == Some(e@)
            && (names_unique(dir_entries(old(blob)@)) ==> names_unique(
            dir_entries(final(blob)@))),
{
    match search_directory_blob(blob.as_slice(), e.name.as_slice()) {
        Ok(existing) => Err(VPFSError::AlreadyExists(existing)),
        Err(_) => {
            proof {
                crate::codec::lemma_entry_view_wf(e);
                if is_dir_blob(blob@) {
                    lemma_dir_append(blob@, e@);
                }
            }
            write_entry(blob, e);
            proof {
                if is_dir_blob(old(blob)@) {
                    lemma_lookup_push_fresh(dir_entries(old(blob)@), e@);
                    if names_unique(dir_entries(old(blob)@)) {
                        lemma_push_preserves_unique(dir_entries(old(blob)@), e@);
                    }
                }
            }
            Ok(())
        },
    }
}

} // verus!
