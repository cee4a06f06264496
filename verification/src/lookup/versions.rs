//! Version lookup: where the versions of a live path may be, and which of
//! those places hold one.

use crate::{
    btrfs_snapper_additional_sub_directory, btrfs_snapper_additional_sub_directory_bytes,
    zfs_snapshot_directory, zfs_snapshot_marker,
};
use crate::config::{Config, ListSnapsOfType};
use crate::data::disk::{DiskView, Probe};
use crate::data::paths::{
    alias_of, lemma_zfs_live_path_of_snapshot_path, proximate_dataset_of, zfs_live_path,
    PathData, PathDataView, PathDeconstruction,
};
use crate::filesystem::mounts::{DatasetCollection, FilesystemType, FilesystemTypeView};
use crate::library::results::{HttmError, HttmErrorView, HttmResult};
use crate::lookup::sorting::{
    lemma_dedup_versions, lemma_sort_by_mtime, lemma_uniqueness_lists_fewer, path_views,
    sort_by_mtime, sort_dedup, sort_dedup_versions,
};
use crate::path::{
    is_absolute, join, join_paths, occurs_before, path_list, strip_prefix, SEPARATOR,
};
use vstd::prelude::*;

verus! {

/// A live path with the dataset mount its versions are looked up under, its
/// path below that mount, and the mounts of the replicas of the dataset.
#[derive(Debug)]
pub struct ProximateDatasetAndOptAlts<'a> {
    pub pathdata: &'a PathData,
    pub proximate_dataset: Vec<u8>,
    pub relative_path: Vec<u8>,
    pub opt_alts: Option<&'a Vec<Vec<u8>>>,
}

/// A live path and where to look for its versions, as a value.
pub struct ProximateDatasetAndOptAltsView {
    pub pathdata: PathDataView,
    pub proximate_dataset: Seq<u8>,
    pub relative_path: Seq<u8>,
    pub opt_alts: Option<Seq<Seq<u8>>>,
}

impl<'a> View for ProximateDatasetAndOptAlts<'a> {
    type V = ProximateDatasetAndOptAltsView;

    open spec fn view(&self) -> ProximateDatasetAndOptAltsView {
        ProximateDatasetAndOptAltsView {
            pathdata: self.pathdata@,
            proximate_dataset: self.proximate_dataset@,
            relative_path: self.relative_path@,
            opt_alts: match self.opt_alts {
                Some(alts) => Some(path_list(alts@)),
                None => None,
            },
        }
    }
}

/// The dataset mount that the versions of `p` are looked up under, and `p`
/// relative to it: what an alias gives, else the nearest dataset mount.
pub open spec fn proximate_and_relative(p: Seq<u8>, datasets: &DatasetCollection) -> Option<
    (Seq<u8>, Seq<u8>),
> {
    match alias_of(p, datasets) {
        Some(aliased) => Some((aliased.proximate_dataset, aliased.relative_path)),
        None => match proximate_dataset_of(p, datasets.map_of_datasets@.dom()) {
            Some(mount) => match strip_prefix(p, mount) {
                Some(relative) => Some((mount, relative)),
                None => None,
            },
            None => None,
        },
    }
}

/// The mounts of the replicas of the dataset at `mount`, where the request
/// asks for replicas and the inventory knows of some.
pub open spec fn alts_of(mount: Seq<u8>, config: &Config) -> Option<Seq<Seq<u8>>> {
    match config.dataset_collection.opt_map_of_alts {
        Some(alts) => if config.opt_alt_replicated && alts@.dom().contains(mount) {
            Some(path_list(alts@[mount]@))
        } else {
            None
        },
        None => None,
    }
}

impl ProximateDatasetAndOptAltsView {
    /// The mounts to search, in the order they are searched: the replicas,
    /// then the dataset itself.
    pub open spec fn datasets_of_interest(self) -> Seq<Seq<u8>> {
        match self.opt_alts {
            Some(alts) => alts.push(self.proximate_dataset),
            None => seq![self.proximate_dataset],
        }
    }
}

/// A path below a dataset mount, with the mounts of the snapshots of the
/// dataset and the snapshotting scheme that the inventory knows for it.
#[derive(Debug)]
pub struct RelativePathAndSnapMounts<'a> {
    pub relative_path: Vec<u8>,
    pub snap_mounts: &'a Vec<Vec<u8>>,
    pub dataset_of_interest: Vec<u8>,
    pub fs_type: Option<FilesystemType>,
}

/// A relative path and snapshot mounts, as a value.
pub struct RelativePathAndSnapMountsView {
    pub relative_path: Seq<u8>,
    pub snap_mounts: Seq<Seq<u8>>,
    pub dataset_of_interest: Seq<u8>,
    pub fs_type: Option<FilesystemTypeView>,
}

/// A snapshotting scheme that may be unknown, as a value.
pub open spec fn fs_type_view(fs_type: Option<FilesystemType>) -> Option<FilesystemTypeView> {
    match fs_type {
        Some(known) => Some(known@),
        None => None,
    }
}

impl<'a> View for RelativePathAndSnapMounts<'a> {
    type V = RelativePathAndSnapMountsView;

    open spec fn view(&self) -> RelativePathAndSnapMountsView {
        RelativePathAndSnapMountsView {
            relative_path: self.relative_path@,
            snap_mounts: path_list(self.snap_mounts@),
            dataset_of_interest: self.dataset_of_interest@,
            fs_type: fs_type_view(self.fs_type),
        }
    }
}

/// The bundles of a list, as values.
pub open spec fn bundle_views(bundles: Seq<RelativePathAndSnapMounts>) -> Seq<
    RelativePathAndSnapMountsView,
> {
    bundles.map_values(|bundle: RelativePathAndSnapMounts| bundle@)
}

/// The snapshotting scheme that the inventory knows for `dataset`.
pub open spec fn fs_type_of(dataset: Seq<u8>, datasets: &DatasetCollection) -> Option<
    FilesystemTypeView,
> {
    if datasets.map_of_datasets@.dom().contains(dataset) {
        Some(datasets.map_of_datasets@[dataset].fs_type@)
    } else {
        None
    }
}

/// Whether a snapshot of the scheme keeps its files one directory further
/// down than its mount: Snapper and Timeshift do.
pub open spec fn keeps_files_further_down(fs_type: Option<FilesystemTypeView>) -> bool {
    fs_type matches Some(FilesystemTypeView::BtrfsSnapper) || fs_type matches Some(
        FilesystemTypeView::BtrfsTimeshift(_),
    )
}

/// The path inside the snapshot at `snap_mount` that mirrors the path at
/// `relative_path` in the dataset, as the scheme lays snapshots out.
pub open spec fn mirror_dir(
    snap_mount: Seq<u8>,
    relative_path: Seq<u8>,
    fs_type: Option<FilesystemTypeView>,
) -> Seq<u8> {
    if keeps_files_further_down(fs_type) {
        join(join(snap_mount, btrfs_snapper_additional_sub_directory()), relative_path)
    } else {
        join(snap_mount, relative_path)
    }
}

/// One bundle for each of `of_interest` that has snapshots in the inventory.
pub open spec fn search_bundles(
    of_interest: Seq<Seq<u8>>,
    relative_path: Seq<u8>,
    datasets: &DatasetCollection,
) -> Seq<RelativePathAndSnapMountsView>
    decreases of_interest.len(),
{
    if of_interest.len() == 0 {
        Seq::empty()
    } else {
        let before = search_bundles(of_interest.drop_last(), relative_path, datasets);
        if datasets.map_of_snaps@.dom().contains(of_interest.last()) {
            before.push(
                RelativePathAndSnapMountsView {
                    relative_path,
                    snap_mounts: path_list(datasets.map_of_snaps@[of_interest.last()]@),
                    dataset_of_interest: of_interest.last(),
                    fs_type: fs_type_of(of_interest.last(), datasets),
                },
            )
        } else {
            before
        }
    }
}

/// The places where a version may be: for each snapshot mount in turn the
/// relative path below it, and for a scheme that keeps its files further
/// down also the relative path below that directory.
pub open spec fn version_candidates(
    snap_mounts: Seq<Seq<u8>>,
    relative_path: Seq<u8>,
    fs_type: Option<FilesystemTypeView>,
) -> Seq<Seq<u8>>
    decreases snap_mounts.len(),
{
    if snap_mounts.len() == 0 {
        Seq::empty()
    } else {
        let before = version_candidates(snap_mounts.drop_last(), relative_path, fs_type).push(
            join(snap_mounts.last(), relative_path),
        );
        if keeps_files_further_down(fs_type) {
            before.push(mirror_dir(snap_mounts.last(), relative_path, fs_type))
        } else {
            before
        }
    }
}

/// The first of the places that the caller was not allowed to look at.
pub open spec fn first_denied(candidates: Seq<Seq<u8>>, disk: &DiskView) -> Option<Seq<u8>>
    decreases candidates.len(),
{
    if candidates.len() == 0 {
        None
    } else {
        match first_denied(candidates.drop_last(), disk) {
            Some(denied) => Some(denied),
            None => if disk.spec_stat(candidates.last()) is PermissionDenied {
                Some(candidates.last())
            } else {
                None
            },
        }
    }
}

/// The versions that the snapshots hold: a record for each place in turn
/// where something was found.
pub open spec fn found_versions(candidates: Seq<Seq<u8>>, disk: &DiskView) -> Seq<PathDataView>
    decreases candidates.len(),
{
    if candidates.len() == 0 {
        Seq::empty()
    } else {
        let before = found_versions(candidates.drop_last(), disk);
        match disk.spec_stat(candidates.last()) {
            Probe::Found(metadata) => before.push(
                PathDataView { path: candidates.last(), metadata },
            ),
            _ => before,
        }
    }
}

impl RelativePathAndSnapMountsView {
    /// The places where a version may be.
    pub open spec fn candidates(self) -> Seq<Seq<u8>> {
        version_candidates(self.snap_mounts, self.relative_path, self.fs_type)
    }

    /// The versions listed from this bundle.
    pub open spec fn versions_processed(
        self,
        uniqueness: ListSnapsOfType,
        disk: &DiskView,
    ) -> Seq<PathDataView> {
        sort_dedup(found_versions(self.candidates(), disk), uniqueness, disk)
    }

    /// The first place of this bundle that the caller was not allowed to
    /// look at.
    pub open spec fn denied(self, disk: &DiskView) -> Option<Seq<u8>> {
        first_denied(self.candidates(), disk)
    }
}

impl<'a> ProximateDatasetAndOptAlts<'a> {
    /// Finds where the versions of `pathdata` are to be looked up.
    pub fn new(pathdata: &'a PathData, config: &'a Config) -> (r: HttmResult<Self>)
        ensures
            match r {
                Ok(found) => {
                    &&& proximate_and_relative(pathdata@.path, &config.dataset_collection)
                        == Some((found@.proximate_dataset, found@.relative_path))
                    &&& found@.pathdata == pathdata@
                    &&& found@.opt_alts == alts_of(found@.proximate_dataset, config)
                },
                Err(e) => {
                    &&& proximate_and_relative(pathdata@.path, &config.dataset_collection)
                        is None
                    &&& match proximate_dataset_of(
                        pathdata@.path,
                        config.dataset_collection.map_of_datasets@.dom(),
                    ) {
                        Some(mount) => e matches HttmError::NoRelativePath(p, m) && p@
                            == pathdata@.path && m@ == mount,
                        None => e matches HttmError::NoProximateDataset(p) && p@
                            == pathdata@.path,
                    }
                },
            },
    {
        let datasets = &config.dataset_collection;
        let (proximate_dataset, relative_path) = match pathdata.alias(datasets) {
            Some(aliased) => (aliased.proximate_dataset, aliased.relative_path),
            None => {
                let proximate_dataset = pathdata.proximate_dataset(datasets)?;
                let relative_path = pathdata.relative_path(&proximate_dataset)?;
                (proximate_dataset, relative_path)
            },
        };
        let opt_alts: Option<&'a Vec<Vec<u8>>> = match &datasets.opt_map_of_alts {
            Some(alts) => if config.opt_alt_replicated {
                alts.get(&proximate_dataset)
            } else {
                None
            },
            None => None,
        };
        Ok(ProximateDatasetAndOptAlts { pathdata, proximate_dataset, relative_path, opt_alts })
    }

    /// The mounts to search: the replicas first, then the dataset itself.
    pub fn datasets_of_interest(&self) -> (r: Vec<Vec<u8>>)
        ensures
            path_list(r@) == self@.datasets_of_interest(),
    {
        let mut all: Vec<Vec<u8>> = Vec::new();
        if let Some(alts) = self.opt_alts {
            let mut i: usize = 0;
            while i < alts.len()
                invariant
                    i <= alts.len(),
                    path_list(all@) == path_list(alts@).subrange(0, i as int),
                decreases alts.len() - i,
            {
                let ghost before = path_list(all@);
                let mount = alts[i].clone();
                all.push(mount);
                assert(path_list(all@) =~= before.push(mount@));
                assert(path_list(alts@).subrange(0, i + 1) =~= before.push(mount@));
                i += 1;
            }
            assert(path_list(alts@).subrange(0, alts.len() as int) =~= path_list(alts@));
        }
        let ghost before = path_list(all@);
        let own = self.proximate_dataset.clone();
        all.push(own);
        assert(path_list(all@) =~= before.push(own@));
        assert(Seq::<Seq<u8>>::empty().push(own@) =~= seq![own@]);
        assert(before =~= Seq::<Seq<u8>>::empty() || self.opt_alts is Some);
        all
    }

    /// One bundle for each mount to search that has snapshots.
    pub fn into_search_bundles(&self, datasets: &'a DatasetCollection) -> (r: Vec<
        RelativePathAndSnapMounts<'a>,
    >)
        ensures
            bundle_views(r@) == search_bundles(
                self@.datasets_of_interest(),
                self@.relative_path,
                datasets,
            ),
    {
        let of_interest = self.datasets_of_interest();
        let mut bundles: Vec<RelativePathAndSnapMounts<'a>> = Vec::new();
        let mut i: usize = 0;
        assert(path_list(of_interest@).subrange(0, 0) =~= Seq::<Seq<u8>>::empty());
        assert(bundle_views(bundles@) =~= Seq::<RelativePathAndSnapMountsView>::empty());
        while i < of_interest.len()
            invariant
                i <= of_interest.len(),
                bundle_views(bundles@) == search_bundles(
                    path_list(of_interest@).subrange(0, i as int),
                    self@.relative_path,
                    datasets,
                ),
            decreases of_interest.len() - i,
        {
            let ghost before = bundle_views(bundles@);
            proof {
                let upto = path_list(of_interest@).subrange(0, i + 1);
                assert(upto.drop_last() =~= path_list(of_interest@).subrange(0, i as int));
                assert(upto.last() == of_interest@[i as int]@);
            }
            if let Some(bundle) = RelativePathAndSnapMounts::new(
                &self.relative_path,
                &of_interest[i],
                datasets,
            ) {
                bundles.push(bundle);
                assert(bundle_views(bundles@) =~= before.push(bundle@));
            }
            i += 1;
        }
        assert(path_list(of_interest@).subrange(0, of_interest.len() as int) =~= path_list(
            of_interest@,
        ));
        bundles
    }
}

impl<'a> RelativePathAndSnapMounts<'a> {
    /// The bundle of `relative_path` and the snapshots of
    /// `dataset_of_interest`, where the inventory lists snapshots for it.
    pub fn new(
        relative_path: &Vec<u8>,
        dataset_of_interest: &Vec<u8>,
        datasets: &'a DatasetCollection,
    ) -> (r: Option<Self>)
        ensures
            match r {
                Some(bundle) => datasets.map_of_snaps@.dom().contains(dataset_of_interest@)
                    && bundle@ == (RelativePathAndSnapMountsView {
                    relative_path: relative_path@,
                    snap_mounts: path_list(datasets.map_of_snaps@[dataset_of_interest@]@),
                    dataset_of_interest: dataset_of_interest@,
                    fs_type: fs_type_of(dataset_of_interest@, datasets),
                }),
                None => !datasets.map_of_snaps@.dom().contains(dataset_of_interest@),
            },
    {
        let fs_type: Option<FilesystemType> = match datasets.map_of_datasets.get(
            dataset_of_interest,
        ) {
            Some(md) => Some(md.fs_type.duplicate()),
            None => None,
        };
        match datasets.map_of_snaps.get(dataset_of_interest) {
            Some(snap_mounts) => Some(
                RelativePathAndSnapMounts {
                    relative_path: relative_path.clone(),
                    snap_mounts,
                    dataset_of_interest: dataset_of_interest.clone(),
                    fs_type,
                },
            ),
            None => None,
        }
    }

    /// Whether the snapshots of the bundle keep their files one directory
    /// further down than their mounts.
    pub fn keeps_files_further_down(&self) -> (r: bool)
        ensures
            r == keeps_files_further_down(self@.fs_type),
    {
        match &self.fs_type {
            Some(FilesystemType::BtrfsSnapper) => true,
            Some(FilesystemType::BtrfsTimeshift(_)) => true,
            _ => false,
        }
    }

    /// The places where a version may be. These are the paths that
    /// `versions_unprocessed` reads the stat of.
    pub fn candidate_paths(&self) -> (r: Vec<Vec<u8>>)
        ensures
            path_list(r@) == self@.candidates(),
    {
        let further_down = self.keeps_files_further_down();
        let ghost mounts = path_list(self.snap_mounts@);
        let mut candidates: Vec<Vec<u8>> = Vec::new();
        let mut i: usize = 0;
        assert(mounts.subrange(0, 0) =~= Seq::<Seq<u8>>::empty());
        assert(path_list(candidates@) =~= Seq::<Seq<u8>>::empty());
        while i < self.snap_mounts.len()
            invariant
                i <= self.snap_mounts.len(),
                mounts == path_list(self.snap_mounts@),
                further_down == keeps_files_further_down(self@.fs_type),
                path_list(candidates@) == version_candidates(
                    mounts.subrange(0, i as int),
                    self@.relative_path,
                    self@.fs_type,
                ),
            decreases self.snap_mounts.len() - i,
        {
            let ghost before = path_list(candidates@);
            proof {
                let upto = mounts.subrange(0, i + 1);
                assert(upto.drop_last() =~= mounts.subrange(0, i as int));
                assert(upto.last() == self.snap_mounts@[i as int]@);
            }
            let plain = join_paths(&self.snap_mounts[i], &self.relative_path);
            candidates.push(plain);
            assert(path_list(candidates@) =~= before.push(plain@));
            if further_down {
                let mirror = get_mirror_dir(&self.snap_mounts[i], &self.relative_path, &self.fs_type);
                candidates.push(mirror);
                assert(path_list(candidates@) =~= before.push(plain@).push(mirror@));
            }
            i += 1;
        }
        assert(mounts.subrange(0, self.snap_mounts.len() as int) =~= mounts);
        candidates
    }

    /// The versions that the snapshots hold, in the order of the places
    /// where they may be. A place that the caller was not allowed to look at
    /// fails the lookup; a place where nothing was found is passed by.
    pub fn versions_unprocessed(&self, disk: &DiskView) -> (r: HttmResult<Vec<PathData>>)
        ensures
            match r {
                Ok(versions) => self@.denied(disk) is None && path_views(versions@)
                    == found_versions(self@.candidates(), disk),
                Err(e) => self@.denied(disk) matches Some(denied) && (
                e matches HttmError::SnapshotPermissionDenied(p) && p@ == denied),
            },
    {
        let candidates = self.candidate_paths();
        let ghost all = path_list(candidates@);
        let mut versions: Vec<PathData> = Vec::new();
        let mut i: usize = 0;
        assert(all.subrange(0, 0) =~= Seq::<Seq<u8>>::empty());
        assert(path_views(versions@) =~= Seq::<PathDataView>::empty());
        while i < candidates.len()
            invariant
                i <= candidates.len(),
                all == path_list(candidates@),
                all == self@.candidates(),
                first_denied(all.subrange(0, i as int), disk) is None,
                path_views(versions@) == found_versions(all.subrange(0, i as int), disk),
            decreases candidates.len() - i,
        {
            let ghost before = path_views(versions@);
            proof {
                let upto = all.subrange(0, i + 1);
                assert(upto.drop_last() =~= all.subrange(0, i as int));
                assert(upto.last() == candidates@[i as int]@);
            }
            match disk.stat(&candidates[i]) {
                Probe::Found(metadata) => {
                    // the record is made without resolving the path: a link in a
                    // snapshot stays the link it is
                    let record = PathData { path_buf: candidates[i].clone(), metadata };
                    versions.push(record);
                    assert(path_views(versions@) =~= before.push(record@));
                },
                Probe::PermissionDenied => {
                    proof {
                        lemma_first_denied_extends(all, disk, i + 1);
                    }
                    return Err(HttmError::SnapshotPermissionDenied(candidates[i].clone()));
                },
                Probe::Missing => {},
            }
            i += 1;
        }
        assert(all.subrange(0, candidates.len() as int) =~= all);
        Ok(versions)
    }

    /// The versions that the snapshots hold, sorted and without repeats.
    pub fn versions_processed(&self, uniqueness: &ListSnapsOfType, disk: &DiskView) -> (r:
        HttmResult<Vec<PathData>>)
        ensures
            match r {
                Ok(versions) => self@.denied(disk) is None && path_views(versions@)
                    == self@.versions_processed(*uniqueness, disk),
                Err(e) => self@.denied(disk) matches Some(denied) && (
                e matches HttmError::SnapshotPermissionDenied(p) && p@ == denied),
            },
    {
        let all_versions = self.versions_unprocessed(disk)?;
        Ok(sort_dedup_versions(all_versions, uniqueness, disk))
    }

    /// The youngest of all versions that the snapshots hold.
    pub fn last_version(&self, disk: &DiskView) -> (r: HttmResult<Option<PathData>>)
        ensures
            match r {
                Ok(Some(last)) => {
                    let all = self@.versions_processed(ListSnapsOfType::All, disk);
                    self@.denied(disk) is None && all.len() > 0 && last@ == all.last()
                },
                Ok(None) => self@.denied(disk) is None && self@.versions_processed(
                    ListSnapsOfType::All,
                    disk,
                ).len() == 0,
                Err(e) => self@.denied(disk) matches Some(denied) && (
                e matches HttmError::SnapshotPermissionDenied(p) && p@ == denied),
            },
    {
        let mut sorted_versions = self.versions_processed(&ListSnapsOfType::All, disk)?;
        let ghost all = path_views(sorted_versions@);
        let last = sorted_versions.pop();
        proof {
            if last is Some {
                assert(all.last() == last.unwrap()@);
            }
        }
        Ok(last)
    }
}

/// A place that is denied among the first places is denied among all.
proof fn lemma_first_denied_extends(candidates: Seq<Seq<u8>>, disk: &DiskView, upto: int)
    requires
        0 <= upto <= candidates.len(),
        first_denied(candidates.subrange(0, upto), disk) is Some,
    ensures
        first_denied(candidates, disk) == first_denied(candidates.subrange(0, upto), disk),
    decreases candidates.len() - upto,
{
    if upto < candidates.len() {
        let next = candidates.subrange(0, upto + 1);
        assert(next.drop_last() =~= candidates.subrange(0, upto));
        lemma_first_denied_extends(candidates, disk, upto + 1);
    } else {
        assert(candidates.subrange(0, upto) =~= candidates);
    }
}

/// The path inside the snapshot at `snap_mount` that mirrors the path at
/// `relative_path` in the dataset.
pub fn get_mirror_dir(
    snap_mount: &Vec<u8>,
    relative_path: &Vec<u8>,
    fs_type: &Option<FilesystemType>,
) -> (r: Vec<u8>)
    ensures
        r@ == mirror_dir(snap_mount@, relative_path@, fs_type_view(*fs_type)),
{
    let further_down = match fs_type {
        Some(FilesystemType::BtrfsSnapper) => true,
        Some(FilesystemType::BtrfsTimeshift(_)) => true,
        _ => false,
    };
    if further_down {
        let sub_directory = btrfs_snapper_additional_sub_directory_bytes();
        let below = join_paths(snap_mount, &sub_directory);
        join_paths(&below, relative_path)
    } else {
        join_paths(snap_mount, relative_path)
    }
}

/// The versions of all bundles, one bundle after the other.
pub open spec fn versions_of_bundles(
    bundles: Seq<RelativePathAndSnapMountsView>,
    uniqueness: ListSnapsOfType,
    disk: &DiskView,
) -> Seq<PathDataView>
    decreases bundles.len(),
{
    if bundles.len() == 0 {
        Seq::empty()
    } else {
        versions_of_bundles(bundles.drop_last(), uniqueness, disk)
            + bundles.last().versions_processed(uniqueness, disk)
    }
}

/// The first place of all bundles that the caller was not allowed to look
/// at.
pub open spec fn denied_in_bundles(
    bundles: Seq<RelativePathAndSnapMountsView>,
    disk: &DiskView,
) -> Option<Seq<u8>>
    decreases bundles.len(),
{
    if bundles.len() == 0 {
        None
    } else {
        match denied_in_bundles(bundles.drop_last(), disk) {
            Some(denied) => Some(denied),
            None => bundles.last().denied(disk),
        }
    }
}

/// Why no search can be made for `p`: it lies under no dataset mount, or
/// not below the mount it was found under.
pub open spec fn search_failure(p: Seq<u8>, datasets: &DatasetCollection) -> HttmErrorView {
    match proximate_dataset_of(p, datasets.map_of_datasets@.dom()) {
        Some(mount) => HttmErrorView::NoRelativePath(p, mount),
        None => HttmErrorView::NoProximateDataset(p),
    }
}

/// The bundles that are searched for the versions of `p`.
pub open spec fn bundles_of(p: Seq<u8>, config: &Config) -> Option<
    Seq<RelativePathAndSnapMountsView>,
> {
    match proximate_and_relative(p, &config.dataset_collection) {
        Some((mount, relative)) => {
            let found = ProximateDatasetAndOptAltsView {
                pathdata: PathDataView { path: p, metadata: None },
                proximate_dataset: mount,
                relative_path: relative,
                opt_alts: alts_of(mount, config),
            };
            Some(search_bundles(found.datasets_of_interest(), relative, &config.dataset_collection))
        },
        None => None,
    }
}

/// A live path with the versions that the snapshots hold of it.
#[derive(Debug)]
pub struct Versions {
    pub live_path: PathData,
    pub snap_versions: Vec<PathData>,
}

/// A live path and its versions, as a value.
pub struct VersionsView {
    pub live_path: PathDataView,
    pub snap_versions: Seq<PathDataView>,
}

impl View for Versions {
    type V = VersionsView;

    open spec fn view(&self) -> VersionsView {
        VersionsView { live_path: self.live_path@, snap_versions: path_views(self.snap_versions@) }
    }
}

/// The versions of a live path: those of each dataset of interest, sorted
/// and without repeats, the replicas before the dataset itself. The lookup
/// fails where the path lies under no dataset, and where the caller was not
/// allowed to look at a place in a snapshot.
pub open spec fn lookup_versions(live: PathDataView, config: &Config, disk: &DiskView) -> Result<
    VersionsView,
    HttmErrorView,
> {
    match bundles_of(live.path, config) {
        Some(bundles) => match denied_in_bundles(bundles, disk) {
            Some(denied) => Err(HttmErrorView::SnapshotPermissionDenied(denied)),
            None => Ok(
                VersionsView {
                    live_path: live,
                    snap_versions: versions_of_bundles(bundles, config.uniqueness, disk),
                },
            ),
        },
        None => Err(search_failure(live.path, &config.dataset_collection)),
    }
}

impl Versions {
    /// Looks up the versions of `pathdata`.
    pub fn new(pathdata: &PathData, config: &Config, disk: &DiskView) -> (r: HttmResult<Self>)
        ensures
            match r {
                Ok(versions) => lookup_versions(pathdata@, config, disk) == Ok::<
                    VersionsView,
                    HttmErrorView,
                >(versions@),
                Err(e) => lookup_versions(pathdata@, config, disk) == Err::<
                    VersionsView,
                    HttmErrorView,
                >(e@),
            },
    {
        let prox_opt_alts = ProximateDatasetAndOptAlts::new(pathdata, config)?;
        let live_path = prox_opt_alts.pathdata.clone();
        let bundles = prox_opt_alts.into_search_bundles(&config.dataset_collection);
        let mut snap_versions: Vec<PathData> = Vec::new();
        let mut i: usize = 0;
        assert(bundle_views(bundles@).subrange(0, 0) =~= Seq::<
            RelativePathAndSnapMountsView,
        >::empty());
        assert(path_views(snap_versions@) =~= Seq::<PathDataView>::empty());
        assert(bundles_of(pathdata@.path, config) == Some(bundle_views(bundles@)));
        while i < bundles.len()
            invariant
                i <= bundles.len(),
                live_path@ == pathdata@,
                bundles_of(pathdata@.path, config) == Some(bundle_views(bundles@)),
                denied_in_bundles(bundle_views(bundles@).subrange(0, i as int), disk) is None,
                path_views(snap_versions@) == versions_of_bundles(
                    bundle_views(bundles@).subrange(0, i as int),
                    config.uniqueness,
                    disk,
                ),
            decreases bundles.len() - i,
        {
            let ghost before = path_views(snap_versions@);
            proof {
                let upto = bundle_views(bundles@).subrange(0, i + 1);
                assert(upto.drop_last() =~= bundle_views(bundles@).subrange(0, i as int));
                assert(upto.last() == bundles@[i as int]@);
            }
            match bundles[i].versions_processed(&config.uniqueness, disk) {
                Ok(mut versions) => {
                    let ghost added = path_views(versions@);
                    snap_versions.append(&mut versions);
                    assert(path_views(snap_versions@) =~= before + added);
                },
                Err(e) => {
                    proof {
                        lemma_denied_in_bundles_extends(bundle_views(bundles@), disk, i + 1);
                    }
                    return Err(e);
                },
            }
            i += 1;
        }
        assert(bundle_views(bundles@).subrange(0, bundles.len() as int) =~= bundle_views(
            bundles@,
        ));
        Ok(Versions { live_path, snap_versions })
    }

    /// The live path and its versions.
    pub fn into_inner(self) -> (r: (PathData, Vec<PathData>))
        ensures
            r.0@ == self@.live_path,
            path_views(r.1@) == self@.snap_versions,
    {
        (self.live_path, self.snap_versions)
    }
}

/// A place that is denied among the first bundles is denied among all.
proof fn lemma_denied_in_bundles_extends(
    bundles: Seq<RelativePathAndSnapMountsView>,
    disk: &DiskView,
    upto: int,
)
    requires
        0 <= upto <= bundles.len(),
        denied_in_bundles(bundles.subrange(0, upto), disk) is Some,
    ensures
        denied_in_bundles(bundles, disk) == denied_in_bundles(bundles.subrange(0, upto), disk),
    decreases bundles.len() - upto,
{
    if upto < bundles.len() {
        let next = bundles.subrange(0, upto + 1);
        assert(next.drop_last() =~= bundles.subrange(0, upto));
        lemma_denied_in_bundles_extends(bundles, disk, upto + 1);
    } else {
        assert(bundles.subrange(0, upto) =~= bundles);
    }
}

/// Over all the bundles of a search, listing by distinct metadata lists no
/// more than listing all, and listing by distinct contents no more than
/// that, as long as in each bundle versions of one size and modify time hold
/// the same contents.
pub proof fn lemma_uniqueness_lists_fewer_of_bundles(
    bundles: Seq<RelativePathAndSnapMountsView>,
    disk: &DiskView,
)
    requires
        forall|b: int, i: int, j: int|
            #![trigger found_versions(bundles[b].candidates(), disk)[i], found_versions(bundles[b].candidates(), disk)[j]]
            {
                let found = found_versions(bundles[b].candidates(), disk);
                0 <= b < bundles.len() && 0 <= i < found.len() && 0 <= j < found.len()
                    && found[i].metadata_infallible() == found[j].metadata_infallible()
                    ==> disk.spec_contents_hash(found[i].path) == disk.spec_contents_hash(
                    found[j].path,
                )
            },
    ensures
        versions_of_bundles(bundles, ListSnapsOfType::UniqueMetadata, disk).len()
            <= versions_of_bundles(bundles, ListSnapsOfType::All, disk).len(),
        versions_of_bundles(bundles, ListSnapsOfType::UniqueContents, disk).len()
            <= versions_of_bundles(bundles, ListSnapsOfType::UniqueMetadata, disk).len(),
    decreases bundles.len(),
{
    if bundles.len() > 0 {
        let front = bundles.drop_last();
        let last = bundles.last();
        assert forall|b: int, i: int, j: int|
            #![trigger found_versions(front[b].candidates(), disk)[i], found_versions(front[b].candidates(), disk)[j]]
            {
                let found = found_versions(front[b].candidates(), disk);
                0 <= b < front.len() && 0 <= i < found.len() && 0 <= j < found.len()
                    && found[i].metadata_infallible() == found[j].metadata_infallible()
                    ==> disk.spec_contents_hash(found[i].path) == disk.spec_contents_hash(
                    found[j].path,
                )
            } by {
            if 0 <= b < front.len() {
                assert(front[b] == bundles[b]);
            }
        }
        lemma_uniqueness_lists_fewer_of_bundles(front, disk);
        let found = found_versions(last.candidates(), disk);
        assert(last == bundles[bundles.len() - 1]);
        assert forall|i: int, j: int|
            0 <= i < found.len() && 0 <= j < found.len() && (
            #[trigger] found[i]).metadata_infallible() == (
            #[trigger] found[j]).metadata_infallible() implies disk.spec_contents_hash(
            found[i].path,
        ) == disk.spec_contents_hash(found[j].path) by {
            let b = bundles.len() - 1;
            assert(found_versions(bundles[b].candidates(), disk)[i] == found[i]);
            assert(found_versions(bundles[b].candidates(), disk)[j] == found[j]);
        }
        lemma_uniqueness_lists_fewer(found, disk);
    }
}

/// What is found at a place where a version may be is among the versions
/// found.
proof fn lemma_found_versions_hold(candidates: Seq<Seq<u8>>, disk: &DiskView, c: int)
    requires
        0 <= c < candidates.len(),
        disk.spec_stat(candidates[c]) is Found,
    ensures
        exists|k: int|
            0 <= k < found_versions(candidates, disk).len() && (#[trigger] found_versions(
                candidates,
                disk,
            )[k]).path == candidates[c],
    decreases candidates.len(),
{
    let found = found_versions(candidates, disk);
    let before = found_versions(candidates.drop_last(), disk);
    if c == candidates.len() - 1 {
        assert(found[before.len() as int].path == candidates[c]);
    } else {
        lemma_found_versions_hold(candidates.drop_last(), disk, c);
        let k = choose|k: int|
            0 <= k < before.len() && (#[trigger] before[k]).path == candidates.drop_last()[c];
        assert(found[k] == before[k]);
    }
}

/// Where all versions are listed, whatever is found at a place of a bundle
/// where a version may be is listed.
pub proof fn lemma_all_versions_hold_found(
    bundles: Seq<RelativePathAndSnapMountsView>,
    disk: &DiskView,
    b: int,
    c: int,
)
    requires
        0 <= b < bundles.len(),
        0 <= c < bundles[b].candidates().len(),
        disk.spec_stat(bundles[b].candidates()[c]) is Found,
    ensures
        exists|k: int|
            0 <= k < versions_of_bundles(bundles, ListSnapsOfType::All, disk).len() && (
            #[trigger] versions_of_bundles(bundles, ListSnapsOfType::All, disk)[k]).path
                == bundles[b].candidates()[c],
    decreases bundles.len(),
{
    let all = versions_of_bundles(bundles, ListSnapsOfType::All, disk);
    let before = versions_of_bundles(bundles.drop_last(), ListSnapsOfType::All, disk);
    let last = bundles.last();
    let listed = last.versions_processed(ListSnapsOfType::All, disk);
    assert(all == before + listed);
    if b == bundles.len() - 1 {
        let found = found_versions(last.candidates(), disk);
        lemma_found_versions_hold(last.candidates(), disk, c);
        let f = choose|f: int|
            0 <= f < found.len() && (#[trigger] found[f]).path == last.candidates()[c];
        assert(found.contains(found[f]));
        lemma_sort_by_mtime(found);
        lemma_dedup_versions(sort_by_mtime(found), ListSnapsOfType::All, disk);
        assert(listed.contains(found[f]));
        let k = choose|k: int| 0 <= k < listed.len() && listed[k] == found[f];
        assert(all[before.len() + k] == listed[k]);
    } else {
        lemma_all_versions_hold_found(bundles.drop_last(), disk, b, c);
        let k = choose|k: int|
            0 <= k < before.len() && (#[trigger] before[k]).path
                == bundles.drop_last()[b].candidates()[c];
        assert(all[k] == before[k]);
    }
}

/// The relative path below each snapshot mount is a place where a version
/// may be, whatever the scheme.
pub proof fn lemma_below_mount_is_candidate(
    snap_mounts: Seq<Seq<u8>>,
    relative_path: Seq<u8>,
    fs_type: Option<FilesystemTypeView>,
    m: int,
)
    requires
        0 <= m < snap_mounts.len(),
    ensures
        exists|c: int|
            0 <= c < version_candidates(snap_mounts, relative_path, fs_type).len()
                && #[trigger] version_candidates(snap_mounts, relative_path, fs_type)[c] == join(
                snap_mounts[m],
                relative_path,
            ),
    decreases snap_mounts.len(),
{
    let all = version_candidates(snap_mounts, relative_path, fs_type);
    let before = version_candidates(snap_mounts.drop_last(), relative_path, fs_type);
    if m == snap_mounts.len() - 1 {
        assert(all[before.len() as int] == join(snap_mounts[m], relative_path));
    } else {
        lemma_below_mount_is_candidate(snap_mounts.drop_last(), relative_path, fs_type, m);
        let c = choose|c: int|
            0 <= c < before.len() && #[trigger] before[c] == join(
                snap_mounts.drop_last()[m],
                relative_path,
            );
        assert(all[c] == before[c]);
    }
}

/// The dataset itself is searched wherever the inventory lists snapshots for
/// it: its bundle is the last of the search.
proof fn lemma_own_bundle_is_last(
    found: ProximateDatasetAndOptAltsView,
    datasets: &DatasetCollection,
)
    requires
        datasets.map_of_snaps@.dom().contains(found.proximate_dataset),
    ensures
        ({
            let bundles = search_bundles(
                found.datasets_of_interest(),
                found.relative_path,
                datasets,
            );
            bundles.len() > 0 && bundles.last() == (RelativePathAndSnapMountsView {
                relative_path: found.relative_path,
                snap_mounts: path_list(datasets.map_of_snaps@[found.proximate_dataset]@),
                dataset_of_interest: found.proximate_dataset,
                fs_type: fs_type_of(found.proximate_dataset, datasets),
            })
        }),
{
    assert(found.datasets_of_interest().last() == found.proximate_dataset);
}

/// The mount of a ZFS snapshot joined with a relative path is the path
/// inside the snapshot.
proof fn lemma_join_below_snapshot_mount(mount: Seq<u8>, name: Seq<u8>, relative: Seq<u8>)
    requires
        name.len() > 0,
        !name.contains(SEPARATOR),
        relative.len() > 0,
        !is_absolute(relative),
    ensures
        join(
            mount + seq![SEPARATOR] + zfs_snapshot_directory() + seq![SEPARATOR] + name,
            relative,
        ) == mount + zfs_snapshot_marker() + name + seq![SEPARATOR] + relative,
{
    let snap_mount = mount + seq![SEPARATOR] + zfs_snapshot_directory() + seq![SEPARATOR] + name;
    assert(snap_mount.last() == name.last());
    assert(name[name.len() - 1] == name.last());
    assert(name.contains(name.last()));
    assert(snap_mount + seq![SEPARATOR] + relative =~= mount + zfs_snapshot_marker() + name
        + seq![SEPARATOR] + relative);
}

/// A path inside a ZFS snapshot is a version of the live path it stands for:
/// where the live path lies in the dataset whose mount the snapshot path
/// starts with, the inventory lists the snapshot for that dataset, something
/// is found at the snapshot path and all versions are listed, the versions of
/// the live path hold one with the snapshot path.
pub proof fn lemma_snapshot_path_is_version_of_its_live_path(
    mount: Seq<u8>,
    name: Seq<u8>,
    relative: Seq<u8>,
    live: PathDataView,
    config: &Config,
    disk: &DiskView,
)
    requires
        !occurs_before(
            mount + zfs_snapshot_marker() + name + seq![SEPARATOR] + relative,
            zfs_snapshot_marker(),
            mount.len() as int,
        ),
        name.len() > 0,
        !name.contains(SEPARATOR),
        relative.len() > 0,
        !is_absolute(relative),
        live.path == join(mount, relative),
        proximate_and_relative(live.path, &config.dataset_collection) == Some((mount, relative)),
        config.dataset_collection.map_of_snaps@.dom().contains(mount),
        path_list(config.dataset_collection.map_of_snaps@[mount]@).contains(
            mount + seq![SEPARATOR] + zfs_snapshot_directory() + seq![SEPARATOR] + name,
        ),
        disk.spec_stat(mount + zfs_snapshot_marker() + name + seq![SEPARATOR] + relative)
            is Found,
        config.uniqueness == ListSnapsOfType::All,
        lookup_versions(live, config, disk) is Ok,
    ensures
        zfs_live_path(mount + zfs_snapshot_marker() + name + seq![SEPARATOR] + relative) == Some(
            live.path,
        ),
        exists|k: int|
            0 <= k < lookup_versions(live, config, disk)->Ok_0.snap_versions.len() && (
            #[trigger] lookup_versions(live, config, disk)->Ok_0.snap_versions[k]).path
                == mount + zfs_snapshot_marker() + name + seq![SEPARATOR] + relative,
{
    let snap = mount + zfs_snapshot_marker() + name + seq![SEPARATOR] + relative;
    let snap_mount = mount + seq![SEPARATOR] + zfs_snapshot_directory() + seq![SEPARATOR] + name;
    lemma_zfs_live_path_of_snapshot_path(mount, name, relative);
    let found = ProximateDatasetAndOptAltsView {
        pathdata: PathDataView { path: live.path, metadata: None },
        proximate_dataset: mount,
        relative_path: relative,
        opt_alts: alts_of(mount, config),
    };
    let datasets = &config.dataset_collection;
    let bundles = search_bundles(found.datasets_of_interest(), relative, datasets);
    lemma_own_bundle_is_last(found, datasets);
    let b = bundles.len() - 1;
    let mounts = path_list(datasets.map_of_snaps@[mount]@);
    let m = choose|m: int| 0 <= m < mounts.len() && mounts[m] == snap_mount;
    assert(bundles[b].snap_mounts[m] == snap_mount);
    assert(bundles[b].relative_path == relative);
    lemma_join_below_snapshot_mount(mount, name, relative);
    lemma_below_mount_is_candidate(mounts, relative, bundles[b].fs_type, m);
    let c = choose|c: int|
        0 <= c < bundles[b].candidates().len() && #[trigger] bundles[b].candidates()[c] == join(
            mounts[m],
            relative,
        );
    assert(bundles[b].candidates()[c] == snap);
    lemma_all_versions_hold_found(bundles, disk, b, c);
    assert(bundles_of(live.path, config) == Some(bundles));
    assert(lookup_versions(live, config, disk)->Ok_0.snap_versions == versions_of_bundles(
        bundles,
        ListSnapsOfType::All,
        disk,
    ));
}

} // verus!
