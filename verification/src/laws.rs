//! The library's standing laws, each proved from the contracts the
//! modules export. The cache budget law and the not-modified exchange
//! live as `ensures` of `cache::LruState::insert`,
//! `daemon::DaemonState::handle_daemon_request` and `cluster::remote_read`;
//! what is stated here relates several functions.

use vstd::prelude::*;
use crate::types::DirectoryEntryView;
use crate::codec::{enc_entry, entry_wf};
use crate::directory::{dir_entries, dir_lookup, is_dir_blob, names_unique, lemma_dir_append, lemma_lookup_push_fresh, lemma_push_preserves_unique, lemma_empty_dir_blob};
use crate::store::FileView;
use crate::daemon::{line_end, lemma_line_end};

verus! {

/// Within any directory blob grown by appends from the empty blob, entry
/// names stay unique: the empty blob has no names, and appending a record
/// whose name is absent keeps all names distinct.
pub proof fn law_directory_names_unique(b: Seq<u8>, e: DirectoryEntryView)
    requires
        is_dir_blob(b),
        entry_wf(e),
        names_unique(dir_entries(b)),
        dir_lookup(dir_entries(b), e.name) is None,
    ensures
        names_unique(dir_entries(b + enc_entry(e))),
        names_unique(dir_entries(Seq::<u8>::empty())),
{
    lemma_dir_append(b, e);
    lemma_push_preserves_unique(dir_entries(b), e);
    lemma_empty_dir_blob();
}

/// A record placed under a fresh name is exactly what an immediate search
/// for that name returns.
pub proof fn law_place_then_find(b: Seq<u8>, e: DirectoryEntryView)
    requires
        is_dir_blob(b),
        entry_wf(e),
        dir_lookup(dir_entries(b), e.name) is None,
    ensures
        dir_lookup(dir_entries(b + enc_entry(e)), e.name) == Some(e),
{
    lemma_dir_append(b, e);
    lemma_lookup_push_fresh(dir_entries(b), e);
}

/// A chunk read returns empty bytes exactly when the cursor already sat
/// at the end of the body (for a read that asks for anything at all).
/// The chunk read's contract gives the bytes as the cursor-to-end
/// subrange this law speaks about.
pub proof fn law_read_fd_empty_is_eof(data: Seq<u8>, pos: int, n: int)
    requires
        0 <= pos <= data.len(),
        n > 0,
    ensures
        ({
            let end = if pos + n <= data.len() {
                pos + n
            } else {
                data.len() as int
            };
            data.subrange(pos, end).len() == 0 <==> pos == data.len()
        }),
{
}

/// A non-empty line read either ends in a newline or ran to the end of
/// the body; the line read's contract gives the bytes as the
/// cursor-to-line-end subrange this law speaks about.
pub proof fn law_read_line_shape(data: Seq<u8>, pos: int)
    requires
        0 <= pos <= data.len(),
    ensures
        ({
            let end = line_end(data, pos);
            let buf = data.subrange(pos, end);
            buf.len() > 0 ==> (buf.last() == 10u8 || end == data.len())
        }),
{
    lemma_line_end(data, pos);
}


/// Storing then fetching yields the stored bytes: placing a fresh record
/// in a directory and writing its body, then resolving the name and
/// reading the blob, returns the body. The placement, resolver, write and
/// read contracts each speak of exactly these shapes.
pub proof fn law_store_then_fetch(
    b: Seq<u8>,
    e: DirectoryEntryView,
    files: Map<Seq<u8>, FileView>,
    dir_uri: Seq<u8>,
    body: Seq<u8>,
    stamp_dir: u64,
    stamp_body: u64,
)
    requires
        is_dir_blob(b),
        entry_wf(e),
        dir_lookup(dir_entries(b), e.name) is None,
        e.location.uri != dir_uri,
    ensures
        ({
            let blob2 = b + enc_entry(e);
            let files2 = files.insert(dir_uri, FileView { data: blob2, mtime: stamp_dir }).insert(
                e.location.uri,
                FileView { data: body, mtime: stamp_body },
            );
            dir_lookup(dir_entries(blob2), e.name) == Some(e) && files2.contains_key(
                e.location.uri,
            ) && files2[e.location.uri].data == body && files2[dir_uri].data == blob2
        }),
{
    law_place_then_find(b, e);
}

/// The two-level round trip: a fresh directory spliced into its parent,
/// a fresh file spliced into that directory, and the file's body written;
/// resolving parent then leaf finds each record, and reading the leaf's
/// blob returns the body.
pub proof fn law_mkdir_place_fetch(
    parent_blob: Seq<u8>,
    d: DirectoryEntryView,
    dir_blob: Seq<u8>,
    f: DirectoryEntryView,
    files: Map<Seq<u8>, FileView>,
    body: Seq<u8>,
    stamp: u64,
)
    requires
        is_dir_blob(parent_blob),
        is_dir_blob(dir_blob),
        entry_wf(d),
        entry_wf(f),
        d.is_dir,
        dir_lookup(dir_entries(parent_blob), d.name) is None,
        dir_lookup(dir_entries(dir_blob), f.name) is None,
    ensures
        dir_lookup(dir_entries(parent_blob + enc_entry(d)), d.name) == Some(d),
        dir_lookup(dir_entries(dir_blob + enc_entry(f)), f.name) == Some(f),
        files.insert(f.location.uri, FileView { data: body, mtime: stamp })[f.location.uri].data
            == body,
{
    law_place_then_find(parent_blob, d);
    law_place_then_find(dir_blob, f);
}

} // verus!
