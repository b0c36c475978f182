//! Directory blobs, the store model, fresh URIs, and the byte rendering
//! of the cat utility.

use vpfs::types::{Location, DirectoryEntry};
use vpfs::errors::VPFSError;
use vpfs::directory::{search_directory_blob, append_entry_blob};
use vpfs::store::{FileTable, u64_to_hex};
use vpfs::cat::CatFlags;

fn entry(n: &[u8], u: &[u8], name: &[u8], d: bool) -> DirectoryEntry {
    DirectoryEntry {
        location: Location { node_name: n.to_vec(), uri: u.to_vec() },
        name: name.to_vec(),
        is_dir: d,
    }
}

#[test]
fn append_then_search_finds_entry() {
    let mut blob: Vec<u8> = Vec::new();
    let e = entry(b"R", b"u1", b"x", false);
    assert!(append_entry_blob(&mut blob, &e).is_ok());
    match search_directory_blob(blob.as_slice(), b"x") {
        Ok(found) => {
            assert_eq!(found.name, b"x".to_vec());
            assert_eq!(found.location.node_name, b"R".to_vec());
            assert_eq!(found.location.uri, b"u1".to_vec());
            assert!(!found.is_dir);
        },
        Err(_) => panic!("expected to find the appended entry"),
    }
}

#[test]
fn search_missing_name_reports_absence() {
    let mut blob: Vec<u8> = Vec::new();
    assert!(append_entry_blob(&mut blob, &entry(b"R", b"u1", b"x", false)).is_ok());
    match search_directory_blob(blob.as_slice(), b"y") {
        Err(VPFSError::DoesNotExist) => {},
        _ => panic!("expected DoesNotExist"),
    }
}

#[test]
fn duplicate_append_rejected_with_existing_entry() {
    let mut blob: Vec<u8> = Vec::new();
    let first = entry(b"R", b"u1", b"x", false);
    assert!(append_entry_blob(&mut blob, &first).is_ok());
    let snapshot = blob.clone();
    let second = entry(b"B", b"u2", b"x", true);
    match append_entry_blob(&mut blob, &second) {
        Err(VPFSError::AlreadyExists(ex)) => {
            assert_eq!(ex.location.uri, b"u1".to_vec());
            assert_eq!(ex.name, b"x".to_vec());
        },
        _ => panic!("expected AlreadyExists"),
    }
    // the blob is unchanged by the refused append
    assert_eq!(blob, snapshot);
}

#[test]
fn several_entries_keep_their_order_of_first_match() {
    let mut blob: Vec<u8> = Vec::new();
    assert!(append_entry_blob(&mut blob, &entry(b"R", b"u1", b"a", false)).is_ok());
    assert!(append_entry_blob(&mut blob, &entry(b"B", b"u2", b"b", true)).is_ok());
    assert!(append_entry_blob(&mut blob, &entry(b"R", b"u3", b"c", false)).is_ok());
    let b = search_directory_blob(blob.as_slice(), b"b").expect("find b");
    assert!(b.is_dir);
    assert_eq!(b.location.node_name, b"B".to_vec());
}

#[test]
fn store_write_then_read_round_trips() {
    let mut files = FileTable::new();
    assert!(files.create(b"u", b""));
    assert!(files.write(b"u", b"abc").is_ok());
    let back = files.read(b"u").expect("read");
    assert_eq!(back, b"abc".to_vec());
}

#[test]
fn store_write_requires_existing_blob() {
    let mut files = FileTable::new();
    match files.write(b"missing", b"abc") {
        Err(VPFSError::DoesNotExist) => {},
        _ => panic!("expected DoesNotExist"),
    }
}

#[test]
fn store_mtime_advances_on_write() {
    let mut files = FileTable::new();
    assert!(files.create(b"u", b"one"));
    let (_, m1) = files.metadata(b"u").expect("meta");
    assert!(files.write(b"u", b"two").is_ok());
    let (len2, m2) = files.metadata(b"u").expect("meta");
    assert_eq!(len2, 3);
    assert!(m2 > m1);
}

#[test]
fn store_remove_deletes_blob() {
    let mut files = FileTable::new();
    assert!(files.create(b"u", b"x"));
    assert!(files.remove(b"u"));
    assert!(files.read(b"u").is_err());
    assert!(!files.remove(b"u"));
}

#[test]
fn hex_formatting_matches_lowercase() {
    assert_eq!(u64_to_hex(0), b"0".to_vec());
    assert_eq!(u64_to_hex(255), b"ff".to_vec());
    assert_eq!(u64_to_hex(0x1a2b3c), b"1a2b3c".to_vec());
    assert_eq!(u64_to_hex(u64::MAX), b"ffffffffffffffff".to_vec());
}

#[test]
fn create_unique_uri_is_fresh_and_created() {
    let mut files = FileTable::new();
    let u1 = files.create_unique_uri();
    let u2 = files.create_unique_uri();
    assert!(u1 != u2);
    assert_eq!(files.read(u1.as_slice()).expect("u1"), Vec::<u8>::new());
    assert_eq!(files.read(u2.as_slice()).expect("u2"), Vec::<u8>::new());
}

#[test]
fn cat_renders_control_tab_and_meta_bytes() {
    let plain = CatFlags { show_ends: false, show_tabs: false, show_nonprinting: false };
    let all = CatFlags { show_ends: true, show_tabs: true, show_nonprinting: true };
    assert_eq!(plain.process_byte(b'a'), vec![b'a']);
    assert_eq!(plain.process_byte(9), vec![9]);
    assert_eq!(all.process_byte(9), b"^I".to_vec());
    assert_eq!(all.process_byte(10), b"$\n".to_vec());
    assert_eq!(all.process_byte(1), b"^A".to_vec());
    assert_eq!(all.process_byte(127), b"^?".to_vec());
    assert_eq!(all.process_byte(128 + b'a'), b"M-a".to_vec());
    assert_eq!(all.process_byte(255), b"M-^?".to_vec());
    assert_eq!(all.process_byte(128 + 1), b"M-^A".to_vec());
    assert_eq!(plain.process_byte(200), vec![200]);
}
