//! Records of paths: a path with its size and modify time, the entry of a
//! directory, and the taking apart of a path against the inventory.

use crate::data::disk::DiskView;
use crate::filesystem::mounts::{
    DatasetCollection, DatasetMetadata, FilesystemType, RemotePathAndFsType,
};
use crate::library::results::{HttmError, HttmResult};
use crate::path::{
    append_bytes, component_count, count_components, file_name, file_name_of,
    find_bytes, first_occurrence, is_ancestor, is_byte_prefix, join, join_paths,
    lemma_first_occurrence_unique, lemma_is_ancestor,
    lemma_parent_shorter, occurs_at, occurs_before, parent, parent_of, split_once,
    split_once_bytes, strip_prefix, strip_prefix_of, SEPARATOR,
};
use crate::{
    zfs_snapshot_directory, zfs_snapshot_directory_bytes, zfs_snapshot_marker,
    zfs_snapshot_marker_bytes,
};
use vstd::prelude::*;

verus! {

/// The size of a file and the time it was last modified, in nanoseconds
/// since the epoch.
#[derive(Copy, Clone, Debug, PartialEq, Eq, Structural, Hash, Ord)]
pub struct PathMetadata {
    pub modify_time: i128,
    pub size: u64,
}

/// The modify time that stands for none: the epoch.
pub const PHANTOM_DATE: i128 = 0i128;

/// The size that stands for none.
pub const PHANTOM_SIZE: u64 = 0u64;

/// What stands for the metadata of a record that has none.
pub open spec fn phantom_path_metadata() -> PathMetadata {
    PathMetadata { size: PHANTOM_SIZE, modify_time: PHANTOM_DATE }
}

impl PathMetadata {
    pub fn new(size: u64, modify_time: i128) -> (r: Self)
        ensures
            r == (PathMetadata { size, modify_time }),
    {
        PathMetadata { size, modify_time }
    }

    pub fn mtime(&self) -> (r: i128)
        ensures
            r == self.modify_time,
    {
        self.modify_time
    }

    pub fn size(&self) -> (r: u64)
        ensures
            r == self.size,
    {
        self.size
    }
}

/// What kind of entry a directory holds under a name.
#[derive(Copy, Clone, Debug, PartialEq, Eq, Structural, Hash)]
pub enum FileType {
    Dir,
    File,
    Symlink,
    Other,
}

/// A path with the metadata found at it; a record without metadata is a
/// phantom: nothing is on disk at its path. Two records are equal where
/// their paths are.
#[derive(Debug, Eq)]
pub struct PathData {
    pub path_buf: Vec<u8>,
    pub metadata: Option<PathMetadata>,
}

/// A path record as a value.
pub struct PathDataView {
    pub path: Seq<u8>,
    pub metadata: Option<PathMetadata>,
}

impl View for PathData {
    type V = PathDataView;

    open spec fn view(&self) -> PathDataView {
        PathDataView { path: self.path_buf@, metadata: self.metadata }
    }
}

impl Clone for PathData {
    fn clone(&self) -> (r: Self)
        ensures
            r@ == self@,
    {
        PathData { path_buf: self.path_buf.clone(), metadata: self.metadata }
    }
}

impl PathDataView {
    /// The metadata of the record, or that of a phantom.
    pub open spec fn metadata_infallible(self) -> PathMetadata {
        match self.metadata {
            Some(md) => md,
            None => phantom_path_metadata(),
        }
    }
}

impl PathData {
    /// The record of `path`, which the caller has made canonical, with the
    /// metadata that the caller found there.
    pub fn new(path: &Vec<u8>, opt_metadata: Option<PathMetadata>) -> (r: Self)
        ensures
            r@ == (PathDataView { path: path@, metadata: opt_metadata }),
    {
        PathData { path_buf: path.clone(), metadata: opt_metadata }
    }

    pub fn path(&self) -> (r: &Vec<u8>)
        ensures
            r@ == self@.path,
    {
        &self.path_buf
    }

    pub fn opt_metadata(&self) -> (r: &Option<PathMetadata>)
        ensures
            *r == self@.metadata,
    {
        &self.metadata
    }

    pub fn metadata_infallible(&self) -> (r: PathMetadata)
        ensures
            r == self@.metadata_infallible(),
    {
        match self.metadata {
            Some(md) => md,
            None => PathMetadata { size: PHANTOM_SIZE, modify_time: PHANTOM_DATE },
        }
    }

    /// Whether the files at the two paths hold the same bytes, as far as
    /// the hashes that the caller took of them tell.
    pub fn is_same_file_contents(&self, other: &Self, disk: &DiskView) -> (r: bool)
        ensures
            r == (disk.spec_contents_hash(self@.path) == disk.spec_contents_hash(other@.path)),
    {
        let self_hash = disk.contents_hash(&self.path_buf);
        let other_hash = disk.contents_hash(&other.path_buf);
        self_hash == other_hash
    }
}

/// The least that is known of the entry of a directory: its path and, where
/// the listing gave one, its kind. Two entries are equal where their paths
/// are.
#[derive(Debug, Eq)]
pub struct BasicDirEntryInfo {
    pub path: Vec<u8>,
    pub opt_filetype: Option<FileType>,
}

/// The entry of a directory as a value.
pub struct BasicDirEntryInfoView {
    pub path: Seq<u8>,
    pub opt_filetype: Option<FileType>,
}

impl View for BasicDirEntryInfo {
    type V = BasicDirEntryInfoView;

    open spec fn view(&self) -> BasicDirEntryInfoView {
        BasicDirEntryInfoView { path: self.path@, opt_filetype: self.opt_filetype }
    }
}

impl Clone for BasicDirEntryInfo {
    fn clone(&self) -> (r: Self)
        ensures
            r@ == self@,
    {
        BasicDirEntryInfo { path: self.path.clone(), opt_filetype: self.opt_filetype }
    }
}

impl BasicDirEntryInfoView {
    /// The name of the entry: the last component of its path, or nothing.
    pub open spec fn filename(self) -> Seq<u8> {
        match file_name(self.path) {
            Some(name) => name,
            None => Seq::empty(),
        }
    }

    /// The entry as it would show below `pseudo_live_dir`.
    pub open spec fn pseudo_live_version(self, pseudo_live_dir: Seq<u8>) -> Option<
        BasicDirEntryInfoView,
    > {
        match file_name(self.path) {
            Some(name) => Some(
                BasicDirEntryInfoView {
                    path: join(pseudo_live_dir, name),
                    opt_filetype: self.opt_filetype,
                },
            ),
            None => None,
        }
    }
}

impl BasicDirEntryInfo {
    pub fn new(path: Vec<u8>, opt_filetype: Option<FileType>) -> (r: Self)
        ensures
            r@ == (BasicDirEntryInfoView { path: path@, opt_filetype }),
    {
        BasicDirEntryInfo { path, opt_filetype }
    }

    pub fn filename(&self) -> (r: Vec<u8>)
        ensures
            r@ == self@.filename(),
    {
        match file_name_of(&self.path) {
            Some(name) => name,
            None => Vec::new(),
        }
    }

    pub fn path(&self) -> (r: &Vec<u8>)
        ensures
            r@ == self@.path,
    {
        &self.path
    }

    pub fn opt_filetype(&self) -> (r: &Option<FileType>)
        ensures
            *r == self@.opt_filetype,
    {
        &self.opt_filetype
    }

    pub fn to_path_buf(self) -> (r: Vec<u8>)
        ensures
            r@ == self@.path,
    {
        self.path
    }

    /// The entry as it once showed in `pseudo_live_dir`: an entry that was
    /// found in a snapshot, put back under the directory it was deleted from.
    pub fn into_pseudo_live_version(self, pseudo_live_dir: &Vec<u8>) -> (r: Option<Self>)
        ensures
            match r {
                Some(entry) => self@.pseudo_live_version(pseudo_live_dir@) == Some(entry@),
                None => self@.pseudo_live_version(pseudo_live_dir@) is None,
            },
    {
        match file_name_of(&self.path) {
            Some(name) => {
                let path = join_paths(pseudo_live_dir, &name);
                Some(BasicDirEntryInfo { path, opt_filetype: self.opt_filetype })
            },
            None => None,
        }
    }
}

/// A dataset mount that stands in for an aliased directory, and the path
/// below it.
#[derive(Debug, Clone, Hash, PartialEq, Eq)]
pub struct AliasedPath {
    pub proximate_dataset: Vec<u8>,
    pub relative_path: Vec<u8>,
}

/// An aliased path as a value.
pub struct AliasedPathView {
    pub proximate_dataset: Seq<u8>,
    pub relative_path: Seq<u8>,
}

impl View for AliasedPath {
    type V = AliasedPathView;

    open spec fn view(&self) -> AliasedPathView {
        AliasedPathView {
            proximate_dataset: self.proximate_dataset@,
            relative_path: self.relative_path@,
        }
    }
}

/// The dataset mount nearest to `p`: the longest of `p` and the paths above
/// it that is in `mounts`.
pub open spec fn proximate_dataset_of(p: Seq<u8>, mounts: Set<Seq<u8>>) -> Option<Seq<u8>>
    decreases p.len(),
    via proximate_dataset_of_decreases
{
    if mounts.contains(p) {
        Some(p)
    } else {
        match parent(p) {
            Some(up) => proximate_dataset_of(up, mounts),
            None => None,
        }
    }
}

#[via_fn]
proof fn proximate_dataset_of_decreases(p: Seq<u8>, mounts: Set<Seq<u8>>) {
    lemma_parent_shorter(p);
}

/// The dataset mount nearest to a path is a dataset mount, it is the path or
/// above it, and none of the longer paths at or above the path is a dataset
/// mount. Where a path has no nearest dataset mount, no path at or above it
/// is one.
pub proof fn lemma_proximate_dataset_is_nearest(p: Seq<u8>, mounts: Set<Seq<u8>>)
    ensures
        match proximate_dataset_of(p, mounts) {
            Some(mount) => {
                &&& mounts.contains(mount)
                &&& is_ancestor(mount, p)
                &&& is_byte_prefix(mount, p)
                &&& forall|a: Seq<u8>|
                    is_ancestor(a, p) && a.len() > mount.len() ==> !mounts.contains(a)
            },
            None => forall|a: Seq<u8>| is_ancestor(a, p) ==> !mounts.contains(a),
        },
    decreases p.len(),
{
    lemma_parent_shorter(p);
    lemma_is_ancestor(p, p);
    assert forall|a: Seq<u8>| is_ancestor(a, p) implies (a == p || (parent(p) matches Some(up)
        && is_ancestor(a, up))) && a.len() <= p.len() by {
        lemma_is_ancestor(a, p);
    }
    if !mounts.contains(p) {
        if let Some(up) = parent(p) {
            lemma_proximate_dataset_is_nearest(up, mounts);
            if let Some(mount) = proximate_dataset_of(up, mounts) {
                lemma_is_ancestor(mount, p);
            }
        }
    }
}

/// The alias of `p` as found from `at` upwards: the longest of `at` and the
/// paths above it that is aliased stands for its remote directory, and `p`
/// is taken relative to it.
pub open spec fn alias_from(
    p: Seq<u8>,
    at: Seq<u8>,
    aliases: Map<Seq<u8>, RemotePathAndFsType>,
) -> Option<AliasedPathView>
    decreases at.len(),
    via alias_from_decreases
{
    if aliases.dom().contains(at) && strip_prefix(p, at) is Some {
        Some(
            AliasedPathView {
                proximate_dataset: aliases[at].remote_dir@,
                relative_path: strip_prefix(p, at).unwrap(),
            },
        )
    } else {
        match parent(at) {
            Some(up) => alias_from(p, up, aliases),
            None => None,
        }
    }
}

#[via_fn]
proof fn alias_from_decreases(p: Seq<u8>, at: Seq<u8>, aliases: Map<Seq<u8>, RemotePathAndFsType>) {
    lemma_parent_shorter(at);
}

/// The alias of `p`, where the inventory has aliases at all.
pub open spec fn alias_of(p: Seq<u8>, datasets: &DatasetCollection) -> Option<AliasedPathView> {
    match datasets.opt_map_of_aliases {
        Some(aliases) => alias_from(p, p, aliases@),
        None => None,
    }
}

/// The mount that a lookup in the inventory goes by: the one given, or the
/// dataset mount nearest to `p`.
pub open spec fn mount_for(
    p: Seq<u8>,
    opt_mount: Option<Seq<u8>>,
    datasets: &DatasetCollection,
) -> Option<Seq<u8>> {
    match opt_mount {
        Some(mount) => Some(mount),
        None => proximate_dataset_of(p, datasets.map_of_datasets@.dom()),
    }
}

/// What the inventory holds of the mount that `mount_for` names.
pub open spec fn dataset_for(
    p: Seq<u8>,
    opt_mount: Option<Seq<u8>>,
    datasets: &DatasetCollection,
) -> Option<DatasetMetadata> {
    match mount_for(p, opt_mount, datasets) {
        Some(mount) => if datasets.map_of_datasets@.dom().contains(mount) {
            Some(datasets.map_of_datasets@[mount])
        } else {
            None
        },
        None => None,
    }
}

/// The live path that a path inside a ZFS snapshot stands for: what comes
/// before the snapshot marker, joined with what follows the snapshot's name.
pub open spec fn zfs_live_path(p: Seq<u8>) -> Option<Seq<u8>> {
    match split_once(p, zfs_snapshot_marker()) {
        Some((mount, name_and_relative)) => match split_once(name_and_relative, seq![SEPARATOR]) {
            Some((_name, relative)) => Some(join(mount, relative)),
            None => None,
        },
        None => None,
    }
}

/// A path that does not hold the snapshot marker stands for no live path.
pub proof fn lemma_no_marker_no_live_path(p: Seq<u8>)
    requires
        first_occurrence(p, zfs_snapshot_marker()) is None,
    ensures
        zfs_live_path(p) is None,
{
}

/// A path made of a mount, the snapshot marker, the name of a snapshot, a
/// separator and a relative path stands for the relative path below the
/// mount, where the marker does not occur before the end of the mount.
pub proof fn lemma_zfs_live_path_of_snapshot_path(
    mount: Seq<u8>,
    name: Seq<u8>,
    relative: Seq<u8>,
)
    requires
        !occurs_before(
            mount + zfs_snapshot_marker() + name + seq![SEPARATOR] + relative,
            zfs_snapshot_marker(),
            mount.len() as int,
        ),
        !name.contains(SEPARATOR),
    ensures
        zfs_live_path(mount + zfs_snapshot_marker() + name + seq![SEPARATOR] + relative) == Some(
            join(mount, relative),
        ),
{
    let marker = zfs_snapshot_marker();
    let separator = seq![SEPARATOR];
    let snap = mount + marker + name + separator + relative;
    let rest = name + separator + relative;
    assert(snap.subrange(mount.len() as int, (mount.len() + marker.len()) as int) =~= marker);
    lemma_first_occurrence_unique(snap, marker, mount.len() as int);
    assert(snap.subrange(0, mount.len() as int) =~= mount);
    assert(snap.subrange((mount.len() + marker.len()) as int, snap.len() as int) =~= rest);
    assert(rest.subrange(name.len() as int, (name.len() + separator.len()) as int) =~= separator);
    assert(!occurs_before(rest, separator, name.len() as int)) by {
        if occurs_before(rest, separator, name.len() as int) {
            let k = choose|k: int| 0 <= k < name.len() && occurs_at(rest, separator, k);
            assert(rest.subrange(k, k + 1)[0] == SEPARATOR);
            assert(name[k] == SEPARATOR);
        }
    }
    lemma_first_occurrence_unique(rest, separator, name.len() as int);
    assert(rest.subrange(0, name.len() as int) =~= name);
    assert(rest.subrange((name.len() + separator.len()) as int, rest.len() as int) =~= relative);
}

/// The name of the snapshot that a path inside a ZFS snapshot lies in.
pub open spec fn zfs_snapshot_name(p: Seq<u8>) -> Option<Seq<u8>> {
    match split_once(p, zfs_snapshot_marker()) {
        Some((_mount, name_and_relative)) => match split_once(
            name_and_relative,
            seq![SEPARATOR],
        ) {
            Some((name, _relative)) => Some(name),
            None => Some(name_and_relative),
        },
        None => None,
    }
}

/// The name that ZFS gives the snapshot that `p` lies in: the source of the
/// dataset, `@`, and the snapshot's name. Only a ZFS dataset has such names.
pub open spec fn zfs_snapshot_source(p: Seq<u8>, datasets: &DatasetCollection) -> Option<Seq<u8>> {
    match split_once(p, zfs_snapshot_marker()) {
        Some((mount, _rest)) => if datasets.map_of_datasets@.dom().contains(mount)
            && datasets.map_of_datasets@[mount].fs_type@ is Zfs {
            Some(
                datasets.map_of_datasets@[mount].source@ + seq![64u8] + zfs_snapshot_name(
                    p,
                ).unwrap(),
            )
        } else {
            None
        },
        None => None,
    }
}

/// A path without its first component.
pub open spec fn without_first_component(p: Seq<u8>) -> Option<Seq<u8>> {
    if p.len() == 0 {
        None
    } else {
        match split_once(p, seq![SEPARATOR]) {
            Some((_first, rest)) => Some(rest),
            None => Some(Seq::empty()),
        }
    }
}

/// A path inside a ZFS snapshot, taken relative to the snapshot that holds
/// it: relative to the mount, then without the snapshot directory and the
/// snapshot's name.
pub open spec fn zfs_relative_path(p: Seq<u8>, mount: Seq<u8>) -> Option<Seq<u8>> {
    match strip_prefix(p, mount) {
        Some(below_mount) => match strip_prefix(below_mount, zfs_snapshot_directory()) {
            Some(below_snapshots) => without_first_component(below_snapshots),
            None => None,
        },
        None => None,
    }
}

/// `p` with as many components taken off its end as `relative` has, as far
/// as `p` has that many.
pub open spec fn without_tail_of(p: Seq<u8>, relative: Seq<u8>) -> Seq<u8>
    decreases p.len(),
    via without_tail_of_decreases
{
    match (parent(relative), parent(p)) {
        (Some(shorter), Some(up)) => without_tail_of(up, shorter),
        _ => p,
    }
}

#[via_fn]
proof fn without_tail_of_decreases(p: Seq<u8>, relative: Seq<u8>) {
    lemma_parent_shorter(p);
}

/// The mount of the snapshot that holds `p`: `p` without the components of
/// its path relative to the snapshot.
pub open spec fn zfs_target(p: Seq<u8>, mount: Seq<u8>) -> Option<Seq<u8>> {
    match zfs_relative_path(p, mount) {
        Some(relative) => Some(without_tail_of(p, relative)),
        None => None,
    }
}

/// How a path is taken apart against the inventory.
pub trait PathDeconstruction {
    /// The dataset mount and relative path that an alias gives the path.
    fn alias(&self, datasets: &DatasetCollection) -> Option<AliasedPath>;

    /// Where the versions of the path are kept.
    fn target(&self, proximate_dataset_mount: &Vec<u8>) -> Option<Vec<u8>>;

    /// The device or pool that holds the path.
    fn source(
        &self,
        datasets: &DatasetCollection,
        opt_proximate_dataset_mount: Option<&Vec<u8>>,
    ) -> Option<Vec<u8>>;

    /// The snapshotting scheme of the dataset that holds the path.
    fn fs_type(
        &self,
        datasets: &DatasetCollection,
        opt_proximate_dataset_mount: Option<&Vec<u8>>,
    ) -> Option<FilesystemType>;

    /// The path below the dataset mount.
    fn relative_path(&self, proximate_dataset_mount: &Vec<u8>) -> HttmResult<Vec<u8>>;

    /// The dataset mount nearest to the path.
    fn proximate_dataset(&self, datasets: &DatasetCollection) -> HttmResult<Vec<u8>>;

    /// The live path that the path stands for.
    fn live_path(&self) -> Option<Vec<u8>>;
}

impl PathDeconstruction for PathData {
    fn alias(&self, datasets: &DatasetCollection) -> (r: Option<AliasedPath>)
        ensures
            match r {
                Some(aliased) => alias_of(self@.path, datasets) == Some(aliased@),
                None => alias_of(self@.path, datasets) is None,
            },
    {
        let aliases = match &datasets.opt_map_of_aliases {
            Some(aliases) => aliases,
            None => {
                return None;
            },
        };
        let mut current: Vec<u8> = self.path_buf.clone();
        loop
            invariant
                alias_of(self@.path, datasets) == alias_from(self@.path, self@.path, aliases@),
                alias_from(self@.path, current@, aliases@) == alias_from(
                    self@.path,
                    self@.path,
                    aliases@,
                ),
            decreases current.len(),
        {
            if let Some(found) = aliases.get(&current) {
                if let Some(relative_path) = strip_prefix_of(&self.path_buf, &current) {
                    return Some(
                        AliasedPath { proximate_dataset: found.remote_dir.clone(), relative_path },
                    );
                }
            }
            proof {
                lemma_parent_shorter(current@);
            }
            match parent_of(&current) {
                Some(up) => {
                    current = up;
                },
                None => {
                    return None;
                },
            }
        }
    }

    fn live_path(&self) -> (r: Option<Vec<u8>>)
        ensures
            r matches Some(live) && live@ == self@.path,
    {
        Some(self.path_buf.clone())
    }

    fn relative_path(&self, proximate_dataset_mount: &Vec<u8>) -> (r: HttmResult<Vec<u8>>)
        ensures
            match r {
                Ok(relative) => strip_prefix(self@.path, proximate_dataset_mount@) == Some(
                    relative@,
                ),
                Err(e) => strip_prefix(self@.path, proximate_dataset_mount@) is None && (
                e matches HttmError::NoRelativePath(p, m) && p@ == self@.path && m@
                    == proximate_dataset_mount@),
            },
    {
        match strip_prefix_of(&self.path_buf, proximate_dataset_mount) {
            Some(relative) => Ok(relative),
            None => Err(
                HttmError::NoRelativePath(self.path_buf.clone(), proximate_dataset_mount.clone()),
            ),
        }
    }

    fn target(&self, proximate_dataset_mount: &Vec<u8>) -> (r: Option<Vec<u8>>)
        ensures
            r matches Some(target) && target@ == proximate_dataset_mount@,
    {
        Some(proximate_dataset_mount.clone())
    }

    fn source(
        &self,
        datasets: &DatasetCollection,
        opt_proximate_dataset_mount: Option<&Vec<u8>>,
    ) -> (r: Option<Vec<u8>>)
        ensures
            match r {
                Some(source) => dataset_for(
                    self@.path,
                    mount_view(opt_proximate_dataset_mount),
                    datasets,
                ) matches Some(md) && md.source@ == source@,
                None => dataset_for(
                    self@.path,
                    mount_view(opt_proximate_dataset_mount),
                    datasets,
                ) is None,
            },
    {
        let proximate: Vec<u8>;
        let mount: &Vec<u8> = match opt_proximate_dataset_mount {
            Some(mount) => mount,
            None => match self.proximate_dataset(datasets) {
                Ok(found) => {
                    proximate = found;
                    &proximate
                },
                Err(_) => {
                    return None;
                },
            },
        };
        match datasets.map_of_datasets.get(mount) {
            Some(md) => Some(md.source.clone()),
            None => None,
        }
    }

    fn proximate_dataset(&self, datasets: &DatasetCollection) -> (r: HttmResult<Vec<u8>>)
        ensures
            match r {
                Ok(mount) => proximate_dataset_of(self@.path, datasets.map_of_datasets@.dom())
                    == Some(mount@),
                Err(e) => proximate_dataset_of(self@.path, datasets.map_of_datasets@.dom())
                    is None && (e matches HttmError::NoProximateDataset(p) && p@ == self@.path),
            },
    {
        // no mount has more components than this: longer ancestors are passed by unseen
        let max_len = datasets.map_of_datasets.max_len();
        let mut current: Vec<u8> = self.path_buf.clone();
        loop
            invariant
                proximate_dataset_of(current@, datasets.map_of_datasets@.dom())
                    == proximate_dataset_of(self@.path, datasets.map_of_datasets@.dom()),
                forall|k: Seq<u8>|
                    datasets.map_of_datasets@.dom().contains(k) ==> component_count(k) <= max_len,
            decreases current.len(),
        {
            if count_components(&current) <= max_len && datasets.map_of_datasets.contains_key(
                &current,
            ) {
                return Ok(current);
            }
            proof {
                lemma_parent_shorter(current@);
            }
            match parent_of(&current) {
                Some(up) => {
                    current = up;
                },
                None => {
                    return Err(HttmError::NoProximateDataset(self.path_buf.clone()));
                },
            }
        }
    }

    fn fs_type(
        &self,
        datasets: &DatasetCollection,
        opt_proximate_dataset_mount: Option<&Vec<u8>>,
    ) -> (r: Option<FilesystemType>)
        ensures
            match r {
                Some(fs_type) => dataset_for(
                    self@.path,
                    mount_view(opt_proximate_dataset_mount),
                    datasets,
                ) matches Some(md) && md.fs_type@ == fs_type@,
                None => dataset_for(
                    self@.path,
                    mount_view(opt_proximate_dataset_mount),
                    datasets,
                ) is None,
            },
    {
        let proximate: Vec<u8>;
        let mount: &Vec<u8> = match opt_proximate_dataset_mount {
            Some(mount) => mount,
            None => match self.proximate_dataset(datasets) {
                Ok(found) => {
                    proximate = found;
                    &proximate
                },
                Err(_) => {
                    return None;
                },
            },
        };
        match datasets.map_of_datasets.get(mount) {
            Some(md) => Some(md.fs_type.duplicate()),
            None => None,
        }
    }
}

/// The bytes of a mount that a caller may name.
pub open spec fn mount_view(opt_mount: Option<&Vec<u8>>) -> Option<Seq<u8>> {
    match opt_mount {
        Some(mount) => Some(mount@),
        None => None,
    }
}

/// A path record that is known to lie inside a ZFS snapshot.
pub struct ZfsSnapPathGuard<'a> {
    inner: &'a PathData,
}

impl<'a> ZfsSnapPathGuard<'a> {
    /// The record that is guarded.
    pub closed spec fn inner(&self) -> PathData {
        *self.inner
    }

    #[verifier::type_invariant]
    spec fn inv(&self) -> bool {
        first_occurrence(self.inner@.path, zfs_snapshot_marker()) is Some
    }

    /// A guard of `pathdata`, where it lies inside a ZFS snapshot.
    pub fn new(pathdata: &'a PathData) -> (r: Option<Self>)
        ensures
            match r {
                Some(guard) => guard.inner() == *pathdata && first_occurrence(
                    pathdata@.path,
                    zfs_snapshot_marker(),
                ) is Some,
                None => first_occurrence(pathdata@.path, zfs_snapshot_marker()) is None,
            },
    {
        if !Self::is_zfs_snap_path(pathdata) {
            return None;
        }
        Some(Self { inner: pathdata })
    }

    /// Whether the path of `pathdata` holds the marker of a ZFS snapshot.
    pub fn is_zfs_snap_path(pathdata: &PathData) -> (r: bool)
        ensures
            r == (first_occurrence(pathdata@.path, zfs_snapshot_marker()) is Some),
    {
        let marker = zfs_snapshot_marker_bytes();
        find_bytes(&pathdata.path_buf, &marker).is_some()
    }

    /// The record that is guarded.
    pub fn pathdata(&self) -> (r: &'a PathData)
        ensures
            *r == self.inner(),
            first_occurrence(r@.path, zfs_snapshot_marker()) is Some,
    {
        proof {
            use_type_invariant(self);
        }
        self.inner
    }
}

impl<'a> PathDeconstruction for ZfsSnapPathGuard<'a> {
    /// A path inside a snapshot has no alias.
    fn alias(&self, datasets: &DatasetCollection) -> (r: Option<AliasedPath>)
        ensures
            r is None,
    {
        None
    }

    fn live_path(&self) -> (r: Option<Vec<u8>>)
        ensures
            match r {
                Some(live) => zfs_live_path(self.inner()@.path) == Some(live@),
                None => zfs_live_path(self.inner()@.path) is None,
            },
    {
        let marker = zfs_snapshot_marker_bytes();
        let separator: Vec<u8> = vec![SEPARATOR];
        assert(separator@ =~= seq![SEPARATOR]);
        match split_once_bytes(&self.inner.path_buf, &marker) {
            Some((mount, name_and_relative)) => match split_once_bytes(
                &name_and_relative,
                &separator,
            ) {
                Some((_name, relative)) => Some(join_paths(&mount, &relative)),
                None => None,
            },
            None => None,
        }
    }

    fn target(&self, proximate_dataset_mount: &Vec<u8>) -> (r: Option<Vec<u8>>)
        ensures
            match r {
                Some(target) => zfs_target(self.inner()@.path, proximate_dataset_mount@) == Some(
                    target@,
                ),
                None => zfs_target(self.inner()@.path, proximate_dataset_mount@) is None,
            },
    {
        let relative = match self.relative_path(proximate_dataset_mount) {
            Ok(relative) => relative,
            Err(_) => {
                return None;
            },
        };
        let ghost p = self.inner@.path;
        let ghost rel = relative@;
        let mut below: Vec<u8> = relative;
        let mut current: Vec<u8> = self.inner.path_buf.clone();
        loop
            invariant
                p == self.inner()@.path,
                zfs_relative_path(p, proximate_dataset_mount@) == Some(rel),
                without_tail_of(current@, below@) == without_tail_of(p, rel),
            decreases current.len(),
        {
            proof {
                lemma_parent_shorter(current@);
            }
            let next_below = parent_of(&below);
            let next = parent_of(&current);
            match (next_below, next) {
                (Some(shorter), Some(up)) => {
                    below = shorter;
                    current = up;
                },
                _ => {
                    return Some(current);
                },
            }
        }
    }

    fn relative_path(&self, proximate_dataset_mount: &Vec<u8>) -> (r: HttmResult<Vec<u8>>)
        ensures
            match r {
                Ok(relative) => zfs_relative_path(self.inner()@.path, proximate_dataset_mount@)
                    == Some(relative@),
                Err(e) => zfs_relative_path(self.inner()@.path, proximate_dataset_mount@)
                    is None && (e matches HttmError::NoRelativePath(p, m) && p@
                    == self.inner()@.path && m@ == proximate_dataset_mount@),
            },
    {
        let below_mount = self.inner.relative_path(proximate_dataset_mount)?;
        let snapshots = zfs_snapshot_directory_bytes();
        let separator: Vec<u8> = vec![SEPARATOR];
        assert(separator@ =~= seq![SEPARATOR]);
        if let Some(below_snapshots) = strip_prefix_of(&below_mount, &snapshots) {
            if below_snapshots.len() > 0 {
                return match split_once_bytes(&below_snapshots, &separator) {
                    Some((_name, relative)) => Ok(relative),
                    None => Ok(Vec::new()),
                };
            }
        }
        Err(
            HttmError::NoRelativePath(
                self.inner.path_buf.clone(),
                proximate_dataset_mount.clone(),
            ),
        )
    }

    /// The name of the snapshot, as ZFS writes it. What the caller knows of
    /// the mount is not read: the path itself names its dataset.
    fn source(
        &self,
        datasets: &DatasetCollection,
        _opt_proximate_dataset_mount: Option<&Vec<u8>>,
    ) -> (r: Option<Vec<u8>>)
        ensures
            match r {
                Some(source) => zfs_snapshot_source(self.inner()@.path, datasets) == Some(
                    source@,
                ),
                None => zfs_snapshot_source(self.inner()@.path, datasets) is None,
            },
    {
        let marker = zfs_snapshot_marker_bytes();
        let separator: Vec<u8> = vec![SEPARATOR];
        assert(separator@ =~= seq![SEPARATOR]);
        let (mount, name_and_relative) = match split_once_bytes(&self.inner.path_buf, &marker) {
            Some(parts) => parts,
            None => {
                return None;
            },
        };
        let snap_name = match split_once_bytes(&name_and_relative, &separator) {
            Some((name, _relative)) => name,
            None => name_and_relative,
        };
        match datasets.map_of_datasets.get(&mount) {
            Some(md) => {
                if md.fs_type.is_zfs() {
                    let mut source = md.source.clone();
                    source.push(64u8);
                    append_bytes(&mut source, &snap_name);
                    assert(source@ =~= md.source@ + seq![64u8] + snap_name@);
                    Some(source)
                } else {
                    None
                }
            },
            None => None,
        }
    }

    fn proximate_dataset(&self, datasets: &DatasetCollection) -> (r: HttmResult<Vec<u8>>)
        ensures
            match r {
                Ok(mount) => proximate_dataset_of(
                    self.inner()@.path,
                    datasets.map_of_datasets@.dom(),
                ) == Some(mount@),
                Err(e) => proximate_dataset_of(
                    self.inner()@.path,
                    datasets.map_of_datasets@.dom(),
                ) is None && (e matches HttmError::NoProximateDataset(p) && p@
                    == self.inner()@.path),
            },
    {
        self.inner.proximate_dataset(datasets)
    }

    /// Only ZFS marks its snapshots this way.
    fn fs_type(
        &self,
        datasets: &DatasetCollection,
        _opt_proximate_dataset_mount: Option<&Vec<u8>>,
    ) -> (r: Option<FilesystemType>)
        ensures
            r matches Some(fs_type) && fs_type@ is Zfs,
    {
        Some(FilesystemType::Zfs)
    }
}

} // verus!
