//! The dataset inventory: what the caller learned from the mount table, kept
//! unchanged while the library works on it.

use crate::path::{component_count, count_components, bytes_eq};
use vstd::prelude::*;

verus! {

/// The snapshotting scheme of a dataset.
#[derive(Clone, Debug, PartialEq, Eq)]
pub enum FilesystemType {
    Zfs,
    BtrfsSnapper,
    /// Timeshift keeps its snapshots below the directory named here.
    BtrfsTimeshift(Vec<u8>),
    Apfs,
}

/// A snapshotting scheme as a value.
pub enum FilesystemTypeView {
    Zfs,
    BtrfsSnapper,
    BtrfsTimeshift(Seq<u8>),
    Apfs,
}

impl View for FilesystemType {
    type V = FilesystemTypeView;

    open spec fn view(&self) -> FilesystemTypeView {
        match self {
            FilesystemType::Zfs => FilesystemTypeView::Zfs,
            FilesystemType::BtrfsSnapper => FilesystemTypeView::BtrfsSnapper,
            FilesystemType::BtrfsTimeshift(snap_home) => FilesystemTypeView::BtrfsTimeshift(
                snap_home@,
            ),
            FilesystemType::Apfs => FilesystemTypeView::Apfs,
        }
    }
}

impl FilesystemType {
    /// A copy of the scheme.
    pub fn duplicate(&self) -> (r: Self)
        ensures
            r@ == self@,
    {
        match self {
            FilesystemType::Zfs => FilesystemType::Zfs,
            FilesystemType::BtrfsSnapper => FilesystemType::BtrfsSnapper,
            FilesystemType::BtrfsTimeshift(snap_home) => FilesystemType::BtrfsTimeshift(
                snap_home.clone(),
            ),
            FilesystemType::Apfs => FilesystemType::Apfs,
        }
    }

    /// Whether the scheme is that of ZFS.
    pub fn is_zfs(&self) -> (r: bool)
        ensures
            r == (self@ is Zfs),
    {
        match self {
            FilesystemType::Zfs => true,
            _ => false,
        }
    }
}

/// Whether a dataset is on this machine or reached over a network.
#[derive(Clone, Copy, Debug, PartialEq, Eq, Structural)]
pub enum LinkType {
    Local,
    Network,
}

/// What the inventory holds of one dataset mount.
#[derive(Clone, Debug, PartialEq, Eq)]
pub struct DatasetMetadata {
    pub source: Vec<u8>,
    pub fs_type: FilesystemType,
    pub link_type: LinkType,
}

/// Where an aliased directory really lives.
#[derive(Clone, Debug, PartialEq, Eq)]
pub struct RemotePathAndFsType {
    pub remote_dir: Vec<u8>,
    pub fs_type: FilesystemType,
}

/// The mapping that a list of entries stands for: a later entry replaces an
/// earlier one with the same key.
pub open spec fn entries_map<V>(entries: Seq<(Vec<u8>, V)>) -> Map<Seq<u8>, V>
    decreases entries.len(),
{
    if entries.len() == 0 {
        Map::empty()
    } else {
        entries_map(entries.drop_last()).insert(entries.last().0@, entries.last().1)
    }
}

/// A mapping keyed by paths, with the greatest component count among the
/// keys at hand.
pub struct PathMap<V> {
    entries: Vec<(Vec<u8>, V)>,
    max_len: usize,
}

impl<V> View for PathMap<V> {
    type V = Map<Seq<u8>, V>;

    closed spec fn view(&self) -> Map<Seq<u8>, V> {
        entries_map(self.entries@)
    }
}

impl<V> PathMap<V> {
    #[verifier::type_invariant]
    spec fn inv(&self) -> bool {
        forall|i: int|
            0 <= i < self.entries@.len() ==> component_count(#[trigger] self.entries@[i].0@)
                <= self.max_len
    }

    /// The greatest component count among the keys that were ever put in.
    pub closed spec fn spec_max_len(&self) -> nat {
        self.max_len as nat
    }

    /// The empty mapping.
    pub fn new() -> (r: Self)
        ensures
            r@ == Map::<Seq<u8>, V>::empty(),
            r.spec_max_len() == 0,
    {
        PathMap { entries: Vec::new(), max_len: 0 }
    }

    /// Maps `key` to `value`, in place of what `key` was mapped to before.
    pub fn insert(&mut self, key: Vec<u8>, value: V)
        ensures
            final(self)@ == old(self)@.insert(key@, value),
            final(self).spec_max_len() == if component_count(key@) > old(self).spec_max_len() {
                component_count(key@)
            } else {
                old(self).spec_max_len()
            },
    {
        proof {
            use_type_invariant(&*self);
        }
        let count = count_components(&key);
        let ghost before = self.entries@;
        let max_len = if count > self.max_len {
            count
        } else {
            self.max_len
        };
        let ghost key_view = key@;
        let mut entries: Vec<(Vec<u8>, V)> = Vec::new();
        std::mem::swap(&mut entries, &mut self.entries);
        entries.push((key, value));
        proof {
            assert(entries@.drop_last() =~= before);
            assert(entries@.last().0@ == key_view);
        }
        *self = PathMap { entries, max_len };
    }

    /// The value that `key` is mapped to.
    pub fn get(&self, key: &Vec<u8>) -> (r: Option<&V>)
        ensures
            match r {
                Some(v) => self@.dom().contains(key@) && *v == self@[key@],
                None => !self@.dom().contains(key@),
            },
    {
        let mut i: usize = self.entries.len();
        assert(self.entries@.subrange(0, i as int) =~= self.entries@);
        while i > 0
            invariant
                i <= self.entries.len(),
                self@.dom().contains(key@) == entries_map(
                    self.entries@.subrange(0, i as int),
                ).dom().contains(key@),
                self@.dom().contains(key@) ==> self@[key@] == entries_map(
                    self.entries@.subrange(0, i as int),
                )[key@],
            decreases i,
        {
            let ghost upto = self.entries@.subrange(0, i as int);
            i -= 1;
            assert(upto.drop_last() =~= self.entries@.subrange(0, i as int));
            assert(upto.last() == self.entries@[i as int]);
            if bytes_eq(&self.entries[i].0, key) {
                return Some(&self.entries[i].1);
            }
        }
        None
    }

    /// Whether `key` is mapped to anything.
    pub fn contains_key(&self, key: &Vec<u8>) -> (r: bool)
        ensures
            r == self@.dom().contains(key@),
    {
        self.get(key).is_some()
    }

    /// A component count that no key exceeds.
    pub fn max_len(&self) -> (r: usize)
        ensures
            r == self.spec_max_len(),
            forall|k: Seq<u8>| self@.dom().contains(k) ==> component_count(k) <= r,
    {
        proof {
            use_type_invariant(self);
            lemma_keys_bounded(self.entries@, self.max_len as nat);
        }
        self.max_len
    }
}

proof fn lemma_keys_bounded<V>(entries: Seq<(Vec<u8>, V)>, bound: nat)
    requires
        forall|i: int| 0 <= i < entries.len() ==> component_count(#[trigger] entries[i].0@) <= bound,
    ensures
        forall|k: Seq<u8>| entries_map(entries).dom().contains(k) ==> component_count(k) <= bound,
    decreases entries.len(),
{
    if entries.len() > 0 {
        let front = entries.drop_last();
        assert forall|i: int| 0 <= i < front.len() implies component_count(
            #[trigger] front[i].0@,
        ) <= bound by {
            assert(0 <= i < entries.len());
            assert(front[i] == entries[i]);
        }
        lemma_keys_bounded(front, bound);
        let last = entries[entries.len() - 1];
        assert(component_count(last.0@) <= bound);
        assert(entries_map(entries) == entries_map(front).insert(last.0@, last.1));
        assert forall|k: Seq<u8>| entries_map(entries).dom().contains(k) implies component_count(
            k,
        ) <= bound by {
            if k != last.0@ {
                assert(entries_map(front).dom().contains(k));
            }
        }
    }
}

/// The inventory of datasets, snapshots, aliases and directories to pass by.
pub struct DatasetCollection {
    /// Each dataset mount, with what is known of the dataset.
    pub map_of_datasets: PathMap<DatasetMetadata>,
    /// Each dataset mount, with the mounts of its snapshots.
    pub map_of_snaps: PathMap<Vec<Vec<u8>>>,
    /// Each aliased local directory, with where it really lives.
    pub opt_map_of_aliases: Option<PathMap<RemotePathAndFsType>>,
    /// Each dataset mount, with the mounts of its replicas.
    pub opt_map_of_alts: Option<PathMap<Vec<Vec<u8>>>>,
    /// The one directory that holds the snapshots of every dataset, if any.
    pub opt_common_snap_dir: Option<Vec<u8>>,
    /// Mounts that hold no snapshots.
    pub filter_dirs: PathMap<()>,
}

} // verus!
