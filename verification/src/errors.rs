//! The closed error taxonomy, serializable across peers.

use vstd::prelude::*;
use crate::types::{Location, LocationView, DirectoryEntry, DirectoryEntryView, copy_bytes};

verus! {

/// Every failure a request can surface, locally or carried from a peer.
#[derive(Clone, Debug, PartialEq, Eq, Hash)]
pub enum VPFSError {
    /// The authoritative copy is unreachable; a cached copy at the carried
    /// location (on the local node) is available.
    OnlyInCache(Location),
    /// The resolver succeeded but some intermediate directory was served
    /// from cache; the caller decides trust.
    CacheNeededForTraversal(DirectoryEntry),
    /// Peer-protocol signal: the requester's cached body is still current.
    NotModified,
    /// Verified absence of a blob we were asked to access.
    DoesNotExist,
    /// A lookup failed but the blob may or may not exist.
    NotFound,
    /// A node on the required path is unreachable and no cache fallback
    /// exists.
    NotAccessible,
    /// A directory-typed operation targeted a non-directory.
    NotADirectory,
    /// Directory-append collision; carries the existing entry.
    AlreadyExists(DirectoryEntry),
    /// A descriptor-based operation named an unknown descriptor.
    FileNotOpen,
    /// Catch-all for shapes a peer returned that fit no known variant.
    Other(Vec<u8>),
}

pub ghost enum VPFSErrorView {
    OnlyInCache(LocationView),
    CacheNeededForTraversal(DirectoryEntryView),
    NotModified,
    DoesNotExist,
    NotFound,
    NotAccessible,
    NotADirectory,
    AlreadyExists(DirectoryEntryView),
    FileNotOpen,
    Other(Seq<u8>),
}

impl View for VPFSError {
    type V = VPFSErrorView;

    open spec fn view(&self) -> VPFSErrorView {
        match self {
            VPFSError::OnlyInCache(l) => VPFSErrorView::OnlyInCache(l@),
            VPFSError::CacheNeededForTraversal(e) => VPFSErrorView::CacheNeededForTraversal(e@),
            VPFSError::NotModified => VPFSErrorView::NotModified,
            VPFSError::DoesNotExist => VPFSErrorView::DoesNotExist,
            VPFSError::NotFound => VPFSErrorView::NotFound,
            VPFSError::NotAccessible => VPFSErrorView::NotAccessible,
            VPFSError::NotADirectory => VPFSErrorView::NotADirectory,
            VPFSError::AlreadyExists(e) => VPFSErrorView::AlreadyExists(e@),
            VPFSError::FileNotOpen => VPFSErrorView::FileNotOpen,
            VPFSError::Other(s) => VPFSErrorView::Other(s@),
        }
    }
}

impl VPFSError {
    pub fn dup(&self) -> (r: VPFSError)
        ensures
            r@ == self@,
    {
        match self {
            VPFSError::OnlyInCache(l) => VPFSError::OnlyInCache(l.dup()),
            VPFSError::CacheNeededForTraversal(e) => VPFSError::CacheNeededForTraversal(e.dup()),
            VPFSError::NotModified => VPFSError::NotModified,
            VPFSError::DoesNotExist => VPFSError::DoesNotExist,
            VPFSError::NotFound => VPFSError::NotFound,
            VPFSError::NotAccessible => VPFSError::NotAccessible,
            VPFSError::NotADirectory => VPFSError::NotADirectory,
            VPFSError::AlreadyExists(e) => VPFSError::AlreadyExists(e.dup()),
            VPFSError::FileNotOpen => VPFSError::FileNotOpen,
            VPFSError::Other(s) => VPFSError::Other(copy_bytes(s.as_slice())),
        }
    }
}

} // verus!
