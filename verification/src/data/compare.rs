//! The orders of records: metadata by modify time and then size, path
//! records by path, and versions by their contents.

use crate::data::disk::DiskView;
use crate::data::paths::{BasicDirEntryInfo, PathData, PathDataView, PathMetadata};
use crate::path::{bytes_eq, path_less, path_lt};
use std::cmp::Ordering;
use vstd::prelude::*;
use vstd::std_specs::cmp::PartialEqSpecImpl;
use vstd::std_specs::cmp::PartialOrdSpecImpl;

verus! {

/// How two moments stand to each other.
pub open spec fn time_ordering(a: i128, b: i128) -> Ordering {
    if a < b {
        Ordering::Less
    } else if a == b {
        Ordering::Equal
    } else {
        Ordering::Greater
    }
}

/// How two sizes, or two hashes, stand to each other.
pub open spec fn number_ordering(a: u64, b: u64) -> Ordering {
    if a < b {
        Ordering::Less
    } else if a == b {
        Ordering::Equal
    } else {
        Ordering::Greater
    }
}

/// How two metadata stand to each other: the one modified earlier is less,
/// and of two modified at one time the smaller one.
pub open spec fn metadata_ordering(a: PathMetadata, b: PathMetadata) -> Ordering {
    if a.modify_time != b.modify_time {
        time_ordering(a.modify_time, b.modify_time)
    } else {
        number_ordering(a.size, b.size)
    }
}

/// How two paths stand to each other in the order of paths.
pub open spec fn path_ordering(a: Seq<u8>, b: Seq<u8>) -> Ordering {
    if a == b {
        Ordering::Equal
    } else if path_lt(a, b) {
        Ordering::Less
    } else {
        Ordering::Greater
    }
}

impl PartialOrd for PathMetadata {
    fn partial_cmp(&self, other: &Self) -> (r: Option<Ordering>) {
        if self.modify_time < other.modify_time {
            Some(Ordering::Less)
        } else if self.modify_time > other.modify_time {
            Some(Ordering::Greater)
        } else if self.size < other.size {
            Some(Ordering::Less)
        } else if self.size > other.size {
            Some(Ordering::Greater)
        } else {
            Some(Ordering::Equal)
        }
    }
}

impl PartialOrdSpecImpl for PathMetadata {
    open spec fn obeys_partial_cmp_spec() -> bool {
        true
    }

    open spec fn partial_cmp_spec(&self, other: &Self) -> Option<Ordering> {
        Some(metadata_ordering(*self, *other))
    }
}

impl PartialEq for PathData {
    fn eq(&self, other: &Self) -> (r: bool) {
        bytes_eq(&self.path_buf, &other.path_buf)
    }
}

impl PartialEqSpecImpl for PathData {
    open spec fn obeys_eq_spec() -> bool {
        true
    }

    open spec fn eq_spec(&self, other: &Self) -> bool {
        self@.path == other@.path
    }
}

impl PartialEq for BasicDirEntryInfo {
    fn eq(&self, other: &Self) -> (r: bool) {
        bytes_eq(&self.path, &other.path)
    }
}

impl PartialEqSpecImpl for BasicDirEntryInfo {
    open spec fn obeys_eq_spec() -> bool {
        true
    }

    open spec fn eq_spec(&self, other: &Self) -> bool {
        self@.path == other@.path
    }
}

impl PathData {
    /// How the record stands to `other`: records are ordered by their paths
    /// alone.
    pub fn cmp(&self, other: &PathData) -> (r: Ordering)
        ensures
            r == path_ordering(self@.path, other@.path),
    {
        if bytes_eq(&self.path_buf, &other.path_buf) {
            Ordering::Equal
        } else if path_less(&self.path_buf, &other.path_buf) {
            Ordering::Less
        } else {
            Ordering::Greater
        }
    }

    /// How the record stands to `other`, which is always known.
    pub fn partial_cmp(&self, other: &PathData) -> (r: Option<Ordering>)
        ensures
            r == Some(path_ordering(self@.path, other@.path)),
    {
        Some(self.cmp(other))
    }
}

/// A version with a hash of its contents, for telling versions apart by what
/// they hold.
#[derive(Debug)]
pub struct CompareContentsContainer {
    pathdata: PathData,
    hash: u64,
}

/// A version with its hash, as a value.
pub struct CompareContentsContainerView {
    pub pathdata: PathDataView,
    pub hash: u64,
}

impl View for CompareContentsContainer {
    type V = CompareContentsContainerView;

    closed spec fn view(&self) -> CompareContentsContainerView {
        CompareContentsContainerView { pathdata: self.pathdata@, hash: self.hash }
    }
}

impl CompareContentsContainer {
    /// The version `pathdata` with the hash that the caller took of the
    /// file at its path.
    pub fn new(pathdata: PathData, disk: &DiskView) -> (r: Self)
        ensures
            r@ == (CompareContentsContainerView {
                pathdata: pathdata@,
                hash: disk.spec_contents_hash(pathdata@.path),
            }),
    {
        let hash = disk.contents_hash(&pathdata.path_buf);
        CompareContentsContainer { pathdata, hash }
    }

    /// The version without its hash.
    pub fn into_pathdata(self) -> (r: PathData)
        ensures
            r@ == self@.pathdata,
    {
        self.pathdata
    }

    /// The path of the version.
    pub fn path(&self) -> (r: &Vec<u8>)
        ensures
            r@ == self@.pathdata.path,
    {
        &self.pathdata.path_buf
    }

    /// The metadata of the version, where it has any.
    pub fn opt_metadata(&self) -> (r: &Option<PathMetadata>)
        ensures
            *r == self@.pathdata.metadata,
    {
        &self.pathdata.metadata
    }

    pub fn mtime(&self) -> (r: i128)
        ensures
            r == self@.pathdata.metadata_infallible().modify_time,
    {
        self.pathdata.metadata_infallible().modify_time
    }

    pub fn size(&self) -> (r: u64)
        ensures
            r == self@.pathdata.metadata_infallible().size,
    {
        self.pathdata.metadata_infallible().size
    }

    /// How the contents of the two versions stand to each other, as far as
    /// their hashes tell.
    pub fn cmp_file_contents(&self, other: &Self) -> (r: Ordering)
        ensures
            r == number_ordering(self@.hash, other@.hash),
    {
        if self.hash < other.hash {
            Ordering::Less
        } else if self.hash == other.hash {
            Ordering::Equal
        } else {
            Ordering::Greater
        }
    }

    /// How the two versions stand to each other: the one modified earlier
    /// is less, and of two modified at one time the one whose contents are
    /// less.
    pub fn cmp(&self, other: &Self) -> (r: Ordering)
        ensures
            r == if self@.pathdata.metadata_infallible().modify_time
                != other@.pathdata.metadata_infallible().modify_time {
                time_ordering(
                    self@.pathdata.metadata_infallible().modify_time,
                    other@.pathdata.metadata_infallible().modify_time,
                )
            } else {
                number_ordering(self@.hash, other@.hash)
            },
    {
        let own = self.mtime();
        let others = other.mtime();
        if own < others {
            Ordering::Less
        } else if own > others {
            Ordering::Greater
        } else {
            self.cmp_file_contents(other)
        }
    }

    /// Whether the two versions hold the same contents, as far as their
    /// hashes tell.
    pub fn is_same_contents(&self, other: &Self) -> (r: bool)
        ensures
            r == (self@.hash == other@.hash),
    {
        match self.cmp_file_contents(other) {
            Ordering::Equal => true,
            _ => false,
        }
    }
}

} // verus!
