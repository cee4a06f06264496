//! What the caller found on disk, as plain tables: the library reads these
//! where a program would stat a path, hash a file or list a directory.

use crate::data::paths::{BasicDirEntryInfo, BasicDirEntryInfoView, PathMetadata};
use crate::deleted::{dir_entry_views, name_table, name_table_get, name_table_insert, name_table_new};
use crate::filesystem::mounts::PathMap;
use crate::path::{bytes_eq, file_name_of, join_paths, lies_directly_in};
use vstd::prelude::*;

verus! {

/// What a stat of a path, not following a link, came back with.
#[derive(Copy, Clone, Debug, PartialEq, Eq, Structural)]
pub enum Probe {
    /// Something is there; its metadata, where the system gave a modify time.
    Found(Option<PathMetadata>),
    /// The caller may not look.
    PermissionDenied,
    /// Nothing is there, or the stat failed otherwise.
    Missing,
}

/// Where a symbolic link leads, and whether that is a directory.
#[derive(Debug, Clone, PartialEq, Eq)]
pub struct LinkTarget {
    pub path: Vec<u8>,
    pub is_dir: bool,
}

/// Whether no two of the entries have the same path.
pub open spec fn have_distinct_paths(entries: Seq<BasicDirEntryInfoView>) -> bool {
    forall|i: int, j: int|
        0 <= i < j < entries.len() ==> (#[trigger] entries[i]).path != (#[trigger] entries[j]).path
}

/// Whether `entries` can be what the directory `dir` lists: each is a name
/// put below `dir`, and no path is there twice.
pub open spec fn is_listing_of(dir: Seq<u8>, entries: Seq<BasicDirEntryInfoView>) -> bool {
    &&& forall|i: int| 0 <= i < entries.len() ==> lies_directly_in(dir, (#[trigger] entries[i]).path)
    &&& have_distinct_paths(entries)
}

/// Whether `table` maps finitely many directories, each to what it can
/// list.
pub open spec fn are_listings(table: Map<Seq<u8>, Vec<BasicDirEntryInfo>>) -> bool {
    &&& table.dom().finite()
    &&& forall|dir: Seq<u8>| #[trigger]
        table.dom().contains(dir) ==> is_listing_of(dir, dir_entry_views(table[dir]@))
}

/// Whether `entries` can be what the directory `dir` lists.
pub fn is_listing(dir: &Vec<u8>, entries: &Vec<BasicDirEntryInfo>) -> (r: bool)
    ensures
        r == is_listing_of(dir@, dir_entry_views(entries@)),
{
    let ghost views = dir_entry_views(entries@);
    let mut seen = name_table_new();
    let mut i: usize = 0;
    while i < entries.len()
        invariant
            i <= entries.len(),
            views == dir_entry_views(entries@),
            forall|k: int| 0 <= k < i ==> lies_directly_in(dir@, (#[trigger] views[k]).path),
            forall|k: int| 0 <= k < i ==> name_table(seen).dom().contains((#[trigger] views[k]).path),
            forall|path: Seq<u8>| #[trigger]
                name_table(seen).dom().contains(path) ==> exists|k: int|
                    0 <= k < i && (#[trigger] views[k]).path == path,
            forall|a: int, b: int|
                0 <= a < b < i ==> (#[trigger] views[a]).path != (#[trigger] views[b]).path,
        decreases entries.len() - i,
    {
        let entry = &entries[i];
        assert(views[i as int].path == entry.path@);
        let lies = match file_name_of(&entry.path) {
            Some(name) => bytes_eq(&join_paths(dir, &name), &entry.path),
            None => false,
        };
        if !lies {
            assert(!lies_directly_in(dir@, views[i as int].path));
            return false;
        }
        if name_table_get(&seen, &entry.path).is_some() {
            proof {
                let k = choose|k: int| 0 <= k < i && (#[trigger] views[k]).path == entry.path@;
                assert(views[k].path == views[i as int].path);
            }
            return false;
        }
        let ghost before = name_table(seen).dom();
        name_table_insert(&mut seen, entry.path.clone(), i);
        assert(name_table(seen).dom() =~= before.insert(entry.path@));
        assert forall|path: Seq<u8>| #[trigger]
            name_table(seen).dom().contains(path) implies exists|k: int|
            0 <= k < i + 1 && (#[trigger] views[k]).path == path by {
            if before.contains(path) {
                let k = choose|k: int| 0 <= k < i && (#[trigger] views[k]).path == path;
                assert(0 <= k < i + 1 && views[k].path == path);
            } else {
                assert(views[i as int].path == path);
            }
        }
        i += 1;
    }
    true
}

/// The directories that could be listed, each with its entries. A directory
/// is only taken with what it can list, so the listings are always those of
/// a tree.
pub struct Listings {
    table: PathMap<Vec<BasicDirEntryInfo>>,
}

impl View for Listings {
    type V = Map<Seq<u8>, Vec<BasicDirEntryInfo>>;

    closed spec fn view(&self) -> Map<Seq<u8>, Vec<BasicDirEntryInfo>> {
        self.table@
    }
}

impl Listings {
    #[verifier::type_invariant]
    spec fn inv(&self) -> bool {
        are_listings(self.table@)
    }

    /// No directory listed.
    pub fn new() -> (r: Self)
        ensures
            r@ == Map::<Seq<u8>, Vec<BasicDirEntryInfo>>::empty(),
    {
        Listings { table: PathMap::new() }
    }

    /// Takes `entries` as what `dir` lists, in place of what it listed
    /// before, where `entries` can be that; says whether it took them.
    pub fn insert(&mut self, dir: Vec<u8>, entries: Vec<BasicDirEntryInfo>) -> (r: bool)
        ensures
            r == is_listing_of(dir@, dir_entry_views(entries@)),
            final(self)@ == if r {
                old(self)@.insert(dir@, entries)
            } else {
                old(self)@
            },
    {
        proof {
            use_type_invariant(&*self);
        }
        if !is_listing(&dir, &entries) {
            return false;
        }
        let mut table: PathMap<Vec<BasicDirEntryInfo>> = PathMap::new();
        std::mem::swap(&mut table, &mut self.table);
        table.insert(dir, entries);
        *self = Listings { table };
        true
    }

    /// What `dir` lists, where it was listed; and the listings are those of
    /// a tree.
    pub fn get(&self, dir: &Vec<u8>) -> (r: Option<&Vec<BasicDirEntryInfo>>)
        ensures
            match r {
                Some(entries) => self@.dom().contains(dir@) && *entries == self@[dir@],
                None => !self@.dom().contains(dir@),
            },
            are_listings(self@),
    {
        proof {
            use_type_invariant(self);
        }
        self.table.get(dir)
    }
}

/// The part of the disk that the caller looked at.
pub struct DiskView {
    /// Each path that was stat'ed, with the outcome.
    pub stats: PathMap<Probe>,
    /// Each file that was read, with a hash of its contents.
    pub contents: PathMap<u64>,
    /// Each directory that could be listed, with its entries.
    pub listings: Listings,
    /// Each symbolic link that could be resolved, with its target.
    pub link_targets: PathMap<LinkTarget>,
}

impl DiskView {
    /// The outcome of the stat of `path`; a path that was not looked at
    /// counts as missing.
    pub open spec fn spec_stat(&self, path: Seq<u8>) -> Probe {
        if self.stats@.dom().contains(path) {
            self.stats@[path]
        } else {
            Probe::Missing
        }
    }

    /// The hash of the contents of `path`; a file that was not read hashes to
    /// zero.
    pub open spec fn spec_contents_hash(&self, path: Seq<u8>) -> u64 {
        if self.contents@.dom().contains(path) {
            self.contents@[path]
        } else {
            0
        }
    }

    /// The entries of the directory `path`, where it could be listed.
    pub open spec fn spec_read_dir(&self, path: Seq<u8>) -> Option<Vec<BasicDirEntryInfo>> {
        if self.listings@.dom().contains(path) {
            Some(self.listings@[path])
        } else {
            None
        }
    }

    /// Whether the listings are those of a tree: finitely many directories
    /// are listed, each entry of a directory is a name put below that
    /// directory, and no directory lists a path twice. It holds of every
    /// view that a program holds: `new` lists nothing, and
    /// `Listings::insert` takes nothing else.
    pub open spec fn is_well_listed(&self) -> bool {
        are_listings(self.listings@)
    }

    /// The time that the entry at `path` was last modified, where a stat
    /// found the entry and the system gave such a time.
    pub open spec fn spec_modify_time(&self, path: Seq<u8>) -> Option<i128> {
        match self.spec_stat(path) {
            Probe::Found(Some(md)) => Some(md.modify_time),
            _ => None,
        }
    }

    /// A view of a disk that nobody has looked at.
    pub fn new() -> (r: Self)
        ensures
            r.stats@ == Map::<Seq<u8>, Probe>::empty(),
            r.contents@ == Map::<Seq<u8>, u64>::empty(),
            r.listings@ == Map::<Seq<u8>, Vec<BasicDirEntryInfo>>::empty(),
            r.link_targets@ == Map::<Seq<u8>, LinkTarget>::empty(),
            r.is_well_listed(),
    {
        DiskView {
            stats: PathMap::new(),
            contents: PathMap::new(),
            listings: Listings::new(),
            link_targets: PathMap::new(),
        }
    }

    /// What the stat of `path` came back with.
    pub fn stat(&self, path: &Vec<u8>) -> (r: Probe)
        ensures
            r == self.spec_stat(path@),
    {
        match self.stats.get(path) {
            Some(probe) => *probe,
            None => Probe::Missing,
        }
    }

    /// The hash that was taken of the contents of `path`.
    pub fn contents_hash(&self, path: &Vec<u8>) -> (r: u64)
        ensures
            r == self.spec_contents_hash(path@),
    {
        match self.contents.get(path) {
            Some(hash) => *hash,
            None => 0,
        }
    }

    /// The entries of the directory `path`, where it could be listed; and
    /// the listings are those of a tree.
    pub fn read_dir(&self, path: &Vec<u8>) -> (r: Option<&Vec<BasicDirEntryInfo>>)
        ensures
            match r {
                Some(entries) => self.spec_read_dir(path@) == Some(*entries),
                None => self.spec_read_dir(path@) is None,
            },
            self.is_well_listed(),
    {
        self.listings.get(path)
    }

    /// The time that the entry at `path` was last modified.
    pub fn modify_time(&self, path: &Vec<u8>) -> (r: Option<i128>)
        ensures
            r == self.spec_modify_time(path@),
    {
        match self.stat(path) {
            Probe::Found(Some(md)) => Some(md.modify_time),
            _ => None,
        }
    }
}

} // verus!
