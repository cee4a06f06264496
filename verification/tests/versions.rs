use httm::config::{
    Config, DeletedMode, ExecMode, LastSnapMode, ListSnapsOfType, PrintMode,
};
use httm::data::compare::CompareContentsContainer;
use httm::data::disk::{DiskView, Probe};
use httm::data::paths::{PathData, PathDeconstruction, PathMetadata, ZfsSnapPathGuard};
use httm::filesystem::mounts::{
    DatasetCollection, DatasetMetadata, FilesystemType, LinkType, PathMap, RemotePathAndFsType,
};
use httm::library::results::HttmError;
use httm::lookup::automount::AutoMounted;
use httm::lookup::sorting::{is_same_metadata, sort_dedup_versions, sort_versions};
use httm::lookup::versions::{ProximateDatasetAndOptAlts, RelativePathAndSnapMounts, Versions};
use httm::lookup::versions_map::{same_metadata, VersionsMap};
use httm::lookup::{get_versions_set, lookup_exec};

fn v(text: &str) -> Vec<u8> {
    text.as_bytes().to_vec()
}

fn record(path: &str, size: u64, mtime: i128) -> PathData {
    PathData::new(&v(path), Some(PathMetadata::new(size, mtime)))
}

fn tank_config() -> Config {
    let mut map_of_datasets = PathMap::new();
    map_of_datasets.insert(
        v("/tank"),
        DatasetMetadata {
            source: v("tank"),
            fs_type: FilesystemType::Zfs,
            link_type: LinkType::Local,
        },
    );
    let mut map_of_snaps = PathMap::new();
    map_of_snaps
        .insert(v("/tank"), vec![v("/tank/.zfs/snapshot/s1"), v("/tank/.zfs/snapshot/s2")]);
    Config {
        opt_recursive: false,
        opt_no_filter: false,
        opt_no_traverse: false,
        opt_omit_ditto: false,
        opt_alt_replicated: false,
        opt_no_live_vers: false,
        opt_last_snap: None,
        uniqueness: ListSnapsOfType::All,
        deleted_mode: DeletedMode::Disabled,
        print_mode: PrintMode::FormattedDefault,
        exec_mode: ExecMode::Display,
        dataset_collection: DatasetCollection {
            map_of_datasets,
            map_of_snaps,
            opt_map_of_aliases: None,
            opt_map_of_alts: None,
            opt_common_snap_dir: None,
            filter_dirs: PathMap::new(),
        },
        pwd: v("/tank"),
        opt_requested_dir: None,
        requested_utc_offset: 0,
    }
}

// s1/a (mtime 100, size 5), s2/a (mtime 200, size 5, same contents), live a (mtime 300, size 5)
fn tank_disk() -> DiskView {
    let mut disk = DiskView::new();
    disk.stats.insert(v("/tank/.zfs/snapshot/s1/a"), Probe::Found(Some(PathMetadata::new(5, 100))));
    disk.stats.insert(v("/tank/.zfs/snapshot/s2/a"), Probe::Found(Some(PathMetadata::new(5, 200))));
    disk.stats.insert(v("/tank/a"), Probe::Found(Some(PathMetadata::new(5, 300))));
    disk.contents.insert(v("/tank/.zfs/snapshot/s1/a"), 0xfeed);
    disk.contents.insert(v("/tank/.zfs/snapshot/s2/a"), 0xfeed);
    disk.contents.insert(v("/tank/a"), 0xfeed);
    disk
}

// records are equal where their paths are; these compare the metadata too
#[derive(Debug, PartialEq)]
struct Rec(Vec<u8>, Option<PathMetadata>);

fn rec(record: &PathData) -> Rec {
    Rec(record.path().clone(), *record.opt_metadata())
}

fn recs(records: &[PathData]) -> Vec<Rec> {
    records.iter().map(rec).collect()
}

fn paths_of(versions: &Vec<PathData>) -> Vec<Vec<u8>> {
    versions.iter().map(|version| version.path().clone()).collect()
}

#[test]
fn all_versions_are_listed_oldest_first() {
    let config = tank_config();
    let disk = tank_disk();
    let live = record("/tank/a", 5, 300);
    let versions = Versions::new(&live, &config, &disk).unwrap();
    assert_eq!(rec(&versions.live_path), rec(&live));
    assert_eq!(
        recs(&versions.snap_versions),
        recs(&[
            record("/tank/.zfs/snapshot/s1/a", 5, 100),
            record("/tank/.zfs/snapshot/s2/a", 5, 200),
        ])
    );
}

#[test]
fn unique_contents_keeps_first_of_equal_contents() {
    let mut config = tank_config();
    config.uniqueness = ListSnapsOfType::UniqueContents;
    let disk = tank_disk();
    let live = record("/tank/a", 5, 300);
    let versions = Versions::new(&live, &config, &disk).unwrap();
    assert_eq!(recs(&versions.snap_versions), recs(&vec![record("/tank/.zfs/snapshot/s1/a", 5, 100)]));
}

#[test]
fn unique_contents_with_omit_ditto_keeps_the_one_version() {
    let mut config = tank_config();
    config.uniqueness = ListSnapsOfType::UniqueContents;
    config.opt_omit_ditto = true;
    let disk = tank_disk();
    let live = record("/tank/a", 5, 300);
    let map = VersionsMap::new(&config, &vec![live], &disk).unwrap();
    assert_eq!(map.len(), 1);
    let (key, snaps) = map.get(0).unwrap();
    assert_eq!(rec(key), rec(&record("/tank/a", 5, 300)));
    assert_eq!(recs(snaps), recs(&vec![record("/tank/.zfs/snapshot/s1/a", 5, 100)]));
}

#[test]
fn unique_metadata_keeps_versions_of_distinct_metadata() {
    let mut config = tank_config();
    config.uniqueness = ListSnapsOfType::UniqueMetadata;
    let disk = tank_disk();
    let live = record("/tank/a", 5, 300);
    let versions = Versions::new(&live, &config, &disk).unwrap();
    assert_eq!(versions.snap_versions.len(), 2);
    // two snapshots that hold the file unchanged count once
    let mut same = tank_disk();
    same.stats.insert(v("/tank/.zfs/snapshot/s2/a"), Probe::Found(Some(PathMetadata::new(5, 100))));
    let versions = Versions::new(&live, &config, &same).unwrap();
    assert_eq!(recs(&versions.snap_versions), recs(&vec![record("/tank/.zfs/snapshot/s1/a", 5, 100)]));
}

#[test]
fn path_outside_every_dataset_fails_with_no_proximate_dataset() {
    let config = tank_config();
    let disk = tank_disk();
    let live = PathData::new(&v("/home/u/file"), None);
    assert_eq!(
        Versions::new(&live, &config, &disk).err(),
        Some(HttmError::NoProximateDataset(v("/home/u/file")))
    );
    assert_eq!(
        get_versions_set(&config, &live, &disk),
        Err(HttmError::NoProximateDataset(v("/home/u/file")))
    );
    assert_eq!(
        ProximateDatasetAndOptAlts::new(&live, &config).err(),
        Some(HttmError::NoProximateDataset(v("/home/u/file")))
    );
}

#[test]
fn snapshot_without_the_file_has_no_version() {
    let config = tank_config();
    let mut disk = DiskView::new();
    disk.stats.insert(v("/tank/.zfs/snapshot/s2/b"), Probe::Found(Some(PathMetadata::new(1, 7))));
    disk.stats.insert(v("/tank/.zfs/snapshot/s1/b"), Probe::Missing);
    let live = record("/tank/b", 1, 8);
    let versions = Versions::new(&live, &config, &disk).unwrap();
    assert_eq!(recs(&versions.snap_versions), recs(&vec![record("/tank/.zfs/snapshot/s2/b", 1, 7)]));
}

#[test]
fn permission_denied_in_a_snapshot_is_fatal() {
    let config = tank_config();
    let mut disk = tank_disk();
    disk.stats.insert(v("/tank/.zfs/snapshot/s2/a"), Probe::PermissionDenied);
    let live = record("/tank/a", 5, 300);
    assert_eq!(
        Versions::new(&live, &config, &disk).err(),
        Some(HttmError::SnapshotPermissionDenied(v("/tank/.zfs/snapshot/s2/a")))
    );
    assert_eq!(
        VersionsMap::new(&config, &vec![record("/tank/a", 5, 300)], &disk).err(),
        Some(HttmError::SnapshotPermissionDenied(v("/tank/.zfs/snapshot/s2/a")))
    );
}

#[test]
fn versions_sort_by_modify_time_not_by_snapshot_order() {
    let config = tank_config();
    let mut disk = DiskView::new();
    disk.stats.insert(v("/tank/.zfs/snapshot/s1/a"), Probe::Found(Some(PathMetadata::new(5, 900))));
    disk.stats.insert(v("/tank/.zfs/snapshot/s2/a"), Probe::Found(Some(PathMetadata::new(6, 100))));
    let live = record("/tank/a", 5, 1000);
    let versions = Versions::new(&live, &config, &disk).unwrap();
    assert_eq!(
        paths_of(&versions.snap_versions),
        vec![v("/tank/.zfs/snapshot/s2/a"), v("/tank/.zfs/snapshot/s1/a")]
    );
}

#[test]
fn sort_is_stable_for_equal_modify_times() {
    let sorted = sort_versions(vec![
        record("/s3/a", 1, 50),
        record("/s1/a", 2, 10),
        record("/s2/a", 3, 50),
        record("/s0/a", 4, 10),
    ]);
    assert_eq!(paths_of(&sorted), vec![v("/s1/a"), v("/s0/a"), v("/s3/a"), v("/s2/a")]);
}

#[test]
fn version_without_metadata_sorts_as_phantom() {
    let sorted = sort_versions(vec![record("/s1/a", 1, 5), PathData::new(&v("/s2/a"), None)]);
    assert_eq!(paths_of(&sorted), vec![v("/s2/a"), v("/s1/a")]);
    let before_epoch = sort_versions(vec![PathData::new(&v("/s2/a"), None), record("/s1/a", 1, -5)]);
    assert_eq!(paths_of(&before_epoch), vec![v("/s1/a"), v("/s2/a")]);
}

#[test]
fn uniqueness_never_lists_more() {
    let found = vec![
        record("/s1/a", 5, 100),
        record("/s2/a", 5, 100),
        record("/s3/a", 5, 200),
        record("/s4/a", 7, 300),
    ];
    let mut disk = DiskView::new();
    disk.contents.insert(v("/s1/a"), 1);
    disk.contents.insert(v("/s2/a"), 1);
    disk.contents.insert(v("/s3/a"), 1);
    disk.contents.insert(v("/s4/a"), 2);
    let all = sort_dedup_versions(found.clone_records(), &ListSnapsOfType::All, &disk);
    let by_metadata = sort_dedup_versions(found.clone_records(), &ListSnapsOfType::UniqueMetadata, &disk);
    let by_contents = sort_dedup_versions(found.clone_records(), &ListSnapsOfType::UniqueContents, &disk);
    assert_eq!(all.len(), 4);
    assert_eq!(paths_of(&by_metadata), vec![v("/s1/a"), v("/s3/a"), v("/s4/a")]);
    assert_eq!(paths_of(&by_contents), vec![v("/s1/a"), v("/s4/a")]);
    assert!(all.len() >= by_metadata.len() && by_metadata.len() >= by_contents.len());
}

trait CloneRecords {
    fn clone_records(&self) -> Vec<PathData>;
}

impl CloneRecords for Vec<PathData> {
    fn clone_records(&self) -> Vec<PathData> {
        self.iter().map(|record| record.clone()).collect()
    }
}

#[test]
fn contents_of_unread_files_hash_alike() {
    let disk = DiskView::new();
    let found = vec![record("/s1/a", 5, 100), record("/s2/a", 6, 200)];
    let by_contents = sort_dedup_versions(found, &ListSnapsOfType::UniqueContents, &disk);
    assert_eq!(paths_of(&by_contents), vec![v("/s1/a")]);
}

#[test]
fn omit_ditto_drops_last_version_with_metadata_of_live() {
    let mut config = tank_config();
    config.opt_omit_ditto = true;
    let disk = tank_disk();
    // the live file is as it was in s2
    let live = record("/tank/a", 5, 200);
    let map = VersionsMap::new(&config, &vec![live], &disk).unwrap();
    let (_, snaps) = map.get(0).unwrap();
    assert_eq!(recs(snaps), recs(&vec![record("/tank/.zfs/snapshot/s1/a", 5, 100)]));
    assert!(snaps.last().unwrap().opt_metadata() != &Some(PathMetadata::new(5, 200)));
}

#[test]
fn omit_ditto_keeps_last_version_that_differs() {
    let mut config = tank_config();
    config.opt_omit_ditto = true;
    let disk = tank_disk();
    let live = record("/tank/a", 5, 300);
    let map = VersionsMap::new(&config, &vec![live], &disk).unwrap();
    let (_, snaps) = map.get(0).unwrap();
    assert_eq!(snaps.len(), 2);
}

#[test]
fn live_version_is_redundant_only_against_the_last_version() {
    let live = record("/tank/a", 5, 100);
    let snaps = vec![record("/s1/a", 5, 100), record("/s2/a", 5, 200)];
    assert!(!VersionsMap::is_live_version_redundant(&live, &snaps));
    let snaps = vec![record("/s1/a", 5, 50), record("/s2/a", 5, 100)];
    assert!(VersionsMap::is_live_version_redundant(&live, &snaps));
    assert!(!VersionsMap::is_live_version_redundant(&live, &vec![]));
    // a phantom has no metadata to share
    let phantom = PathData::new(&v("/tank/a"), None);
    assert!(!VersionsMap::is_live_version_redundant(&phantom, &snaps));
}

fn last_snap_result(mode: LastSnapMode, live: PathData, disk: &DiskView) -> Vec<Rec> {
    let mut config = tank_config();
    config.opt_last_snap = Some(mode);
    let map = VersionsMap::new(&config, &vec![live], disk).unwrap();
    let (_, snaps) = map.get(0).unwrap();
    recs(snaps)
}

#[test]
fn last_snap_any_keeps_just_the_last() {
    let disk = tank_disk();
    assert_eq!(
        last_snap_result(LastSnapMode::Any, record("/tank/a", 5, 300), &disk),
        recs(&[record("/tank/.zfs/snapshot/s2/a", 5, 200)])
    );
}

#[test]
fn last_snap_ditto_only_keeps_last_iff_it_matches_live() {
    let disk = tank_disk();
    assert_eq!(
        last_snap_result(LastSnapMode::DittoOnly, record("/tank/a", 5, 200), &disk),
        recs(&[record("/tank/.zfs/snapshot/s2/a", 5, 200)])
    );
    assert_eq!(last_snap_result(LastSnapMode::DittoOnly, record("/tank/a", 5, 300), &disk), vec![]);
}

#[test]
fn last_snap_no_ditto_keeps_last_iff_it_differs_from_live() {
    let disk = tank_disk();
    for mode in [LastSnapMode::NoDittoExclusive, LastSnapMode::NoDittoInclusive] {
        assert_eq!(
            last_snap_result(mode, record("/tank/a", 5, 300), &disk),
            recs(&[record("/tank/.zfs/snapshot/s2/a", 5, 200)])
        );
        assert_eq!(last_snap_result(mode, record("/tank/a", 5, 200), &disk), vec![]);
    }
}

#[test]
fn last_snap_without_snapshots_may_give_the_live_version() {
    let disk = DiskView::new();
    let live = record("/tank/new", 1, 1);
    assert_eq!(
        last_snap_result(LastSnapMode::Without, record("/tank/new", 1, 1), &disk),
        recs(&[record("/tank/new", 1, 1)])
    );
    assert_eq!(
        last_snap_result(LastSnapMode::NoDittoInclusive, record("/tank/new", 1, 1), &disk),
        recs(&[live])
    );
    assert_eq!(
        last_snap_result(LastSnapMode::NoDittoExclusive, record("/tank/new", 1, 1), &disk),
        vec![]
    );
    assert_eq!(last_snap_result(LastSnapMode::Any, record("/tank/new", 1, 1), &disk), vec![]);
    assert_eq!(last_snap_result(LastSnapMode::DittoOnly, record("/tank/new", 1, 1), &disk), vec![]);
    // with snapshots, asking for paths without snapshots gives nothing
    assert_eq!(
        last_snap_result(LastSnapMode::Without, record("/tank/a", 5, 300), &tank_disk()),
        vec![]
    );
}

#[test]
fn no_live_file_and_no_version_for_any_path_is_an_error() {
    let config = tank_config();
    let disk = DiskView::new();
    let phantoms = vec![PathData::new(&v("/tank/x"), None), PathData::new(&v("/tank/y"), None)];
    assert_eq!(VersionsMap::new(&config, &phantoms, &disk).err(), Some(HttmError::NoVersions));
    assert_eq!(VersionsMap::new(&config, &vec![], &disk).err(), Some(HttmError::NoVersions));
}

#[test]
fn versions_map_fails_where_every_path_lies_under_no_dataset() {
    let config = tank_config();
    let disk = tank_disk();
    let outside = vec![record("/home/u/file", 1, 1)];
    assert_eq!(
        VersionsMap::new(&config, &outside, &disk).err(),
        Some(HttmError::NoProximateDataset(v("/home/u/file")))
    );
    // also as a phantom, and the first of several such paths is named
    let phantom = vec![PathData::new(&v("/home/u/file"), None)];
    assert_eq!(
        VersionsMap::new(&config, &phantom, &disk).err(),
        Some(HttmError::NoProximateDataset(v("/home/u/file")))
    );
    let several = vec![record("/srv/x", 1, 1), record("/home/u/file", 1, 1)];
    assert_eq!(
        VersionsMap::new(&config, &several, &disk).err(),
        Some(HttmError::NoProximateDataset(v("/srv/x")))
    );
}

#[test]
fn path_under_no_dataset_is_passed_by_beside_others() {
    let config = tank_config();
    let disk = tank_disk();
    let mixed = vec![record("/home/u/file", 1, 1), record("/tank/a", 5, 300), record("/srv/x", 1, 1)];
    let map = VersionsMap::new(&config, &mixed, &disk).unwrap();
    assert_eq!(map.len(), 1);
    let (key, snaps) = map.get(0).unwrap();
    assert_eq!(rec(key), rec(&record("/tank/a", 5, 300)));
    assert_eq!(snaps.len(), 2);
    // what is left may still have nothing on disk
    let empty = vec![record("/home/u/file", 1, 1), PathData::new(&v("/tank/never"), None)];
    assert_eq!(VersionsMap::new(&config, &empty, &disk).err(), Some(HttmError::NoVersions));
    // and a snapshot that may not be looked at still fails the whole
    let mut locked = tank_disk();
    locked.stats.insert(v("/tank/.zfs/snapshot/s1/a"), Probe::PermissionDenied);
    assert_eq!(
        VersionsMap::new(&config, &mixed, &locked).err(),
        Some(HttmError::SnapshotPermissionDenied(v("/tank/.zfs/snapshot/s1/a")))
    );
}

#[test]
fn one_path_without_versions_is_no_error() {
    let config = tank_config();
    let disk = tank_disk();
    let paths = vec![PathData::new(&v("/tank/x"), None), record("/tank/a", 5, 300)];
    let map = VersionsMap::new(&config, &paths, &disk).unwrap();
    assert_eq!(map.len(), 2);
    assert_eq!(map.get(1).unwrap().0.path(), &v("/tank/x"));
    assert!(map.get(1).unwrap().1.is_empty());
    // a live file without versions is enough
    let lonely = VersionsMap::new(&config, &vec![record("/tank/z", 1, 1)], &disk).unwrap();
    assert_eq!(lonely.len(), 1);
    assert!(lonely.get(0).unwrap().1.is_empty());
}

#[test]
fn versions_map_is_ordered_by_path_whatever_the_input_order() {
    let config = tank_config();
    let disk = tank_disk();
    let paths = vec![
        record("/tank/b", 1, 1),
        record("/tank/a-b", 1, 1),
        record("/tank/a/b", 1, 1),
        record("/tank/a", 5, 300),
    ];
    let map = VersionsMap::new(&config, &paths, &disk).unwrap();
    let keys: Vec<Vec<u8>> = (0..map.len()).map(|i| map.get(i).unwrap().0.path().clone()).collect();
    assert_eq!(keys, vec![v("/tank/a"), v("/tank/a/b"), v("/tank/a-b"), v("/tank/b")]);
    assert!(map.get(4).is_none());
}

#[test]
fn a_path_given_twice_is_listed_once() {
    let config = tank_config();
    let disk = tank_disk();
    let paths = vec![record("/tank/a", 5, 300), record("/tank/a", 5, 300)];
    let map = VersionsMap::new(&config, &paths, &disk).unwrap();
    assert_eq!(map.len(), 1);
    assert_eq!(map.get(0).unwrap().1.len(), 2);
}

#[test]
fn alias_redirects_the_search() {
    let mut config = tank_config();
    let mut aliases = PathMap::new();
    aliases.insert(
        v("/home/u"),
        RemotePathAndFsType { remote_dir: v("/tank"), fs_type: FilesystemType::Zfs },
    );
    config.dataset_collection.opt_map_of_aliases = Some(aliases);
    let disk = tank_disk();
    let live = record("/home/u/a", 5, 300);
    let found = ProximateDatasetAndOptAlts::new(&live, &config).unwrap();
    assert_eq!(found.proximate_dataset, v("/tank"));
    assert_eq!(found.relative_path, v("a"));
    let versions = Versions::new(&live, &config, &disk).unwrap();
    assert_eq!(
        paths_of(&versions.snap_versions),
        vec![v("/tank/.zfs/snapshot/s1/a"), v("/tank/.zfs/snapshot/s2/a")]
    );
}

fn replicated_config() -> Config {
    let mut config = tank_config();
    let mut alts = PathMap::new();
    alts.insert(v("/tank"), vec![v("/backup/tank")]);
    config.dataset_collection.opt_map_of_alts = Some(alts);
    config.dataset_collection.map_of_snaps.insert(v("/backup/tank"), vec![v("/backup/tank/.zfs/snapshot/r1")]);
    config.opt_alt_replicated = true;
    config
}

#[test]
fn replicas_are_searched_before_the_dataset_itself() {
    let config = replicated_config();
    let mut disk = tank_disk();
    disk.stats.insert(
        v("/backup/tank/.zfs/snapshot/r1/a"),
        Probe::Found(Some(PathMetadata::new(5, 999))),
    );
    let live = record("/tank/a", 5, 300);
    let found = ProximateDatasetAndOptAlts::new(&live, &config).unwrap();
    assert_eq!(found.datasets_of_interest(), vec![v("/backup/tank"), v("/tank")]);
    let bundles = found.into_search_bundles(&config.dataset_collection);
    assert_eq!(bundles.len(), 2);
    assert_eq!(bundles[0].dataset_of_interest, v("/backup/tank"));
    assert_eq!(bundles[1].candidate_paths(), vec![
        v("/tank/.zfs/snapshot/s1/a"),
        v("/tank/.zfs/snapshot/s2/a"),
    ]);
    // each dataset is sorted for itself: the younger replica still comes first
    let versions = Versions::new(&live, &config, &disk).unwrap();
    assert_eq!(
        paths_of(&versions.snap_versions),
        vec![
            v("/backup/tank/.zfs/snapshot/r1/a"),
            v("/tank/.zfs/snapshot/s1/a"),
            v("/tank/.zfs/snapshot/s2/a"),
        ]
    );
}

#[test]
fn replicas_are_left_out_unless_asked_for() {
    let mut config = replicated_config();
    config.opt_alt_replicated = false;
    let live = record("/tank/a", 5, 300);
    let found = ProximateDatasetAndOptAlts::new(&live, &config).unwrap();
    assert_eq!(found.opt_alts, None);
    assert_eq!(found.datasets_of_interest(), vec![v("/tank")]);
}

#[test]
fn dataset_without_snapshots_has_no_bundle() {
    let config = tank_config();
    assert!(RelativePathAndSnapMounts::new(&v("a"), &v("/pool"), &config.dataset_collection).is_none());
    let bundle = RelativePathAndSnapMounts::new(&v("a"), &v("/tank"), &config.dataset_collection).unwrap();
    assert_eq!(bundle.relative_path, v("a"));
    assert_eq!(bundle.snap_mounts.len(), 2);
}

#[test]
fn last_version_is_the_youngest_of_all() {
    let config = tank_config();
    let disk = tank_disk();
    let bundle = RelativePathAndSnapMounts::new(&v("a"), &v("/tank"), &config.dataset_collection).unwrap();
    assert_eq!(
        bundle.last_version(&disk).unwrap().map(|last| rec(&last)),
        Some(rec(&record("/tank/.zfs/snapshot/s2/a", 5, 200)))
    );
    let none = RelativePathAndSnapMounts::new(&v("zzz"), &v("/tank"), &config.dataset_collection).unwrap();
    assert_eq!(none.last_version(&disk), Ok(None));
    assert_eq!(none.versions_unprocessed(&disk), Ok(vec![]));
    assert_eq!(
        recs(&bundle.versions_processed(&ListSnapsOfType::UniqueContents, &disk).unwrap()),
        recs(&[record("/tank/.zfs/snapshot/s1/a", 5, 100)])
    );
}

#[test]
fn snapshot_path_is_a_version_of_its_live_path() {
    let config = tank_config();
    let disk = tank_disk();
    let snap = record("/tank/.zfs/snapshot/s2/a", 5, 200);
    let live_path = ZfsSnapPathGuard::new(&snap).unwrap().live_path().unwrap();
    assert_eq!(live_path, v("/tank/a"));
    let live = PathData::new(&live_path, None);
    let versions = Versions::new(&live, &config, &disk).unwrap();
    assert!(versions.snap_versions.iter().any(|version| version.path() == snap.path()));
}

#[test]
fn network_dataset_is_primed_once() {
    let mut config = tank_config();
    config.dataset_collection.map_of_datasets.insert(
        v("/tank"),
        DatasetMetadata {
            source: v("//server/tank"),
            fs_type: FilesystemType::Zfs,
            link_type: LinkType::Network,
        },
    );
    let bundle = RelativePathAndSnapMounts::new(&v("a"), &v("/tank"), &config.dataset_collection).unwrap();
    let mut cache = AutoMounted::new();
    assert!(!cache.holds(&v("/tank")));
    assert_eq!(
        bundle.auto_mount_network_volumes(&config.dataset_collection, &mut cache),
        vec![v("/tank/.zfs/snapshot/s1"), v("/tank/.zfs/snapshot/s2")]
    );
    assert!(cache.holds(&v("/tank")));
    assert!(!cache.holds(&v("/pool")));
    let nothing: Vec<Vec<u8>> = vec![];
    assert_eq!(bundle.auto_mount_network_volumes(&config.dataset_collection, &mut cache), nothing);
    assert!(cache.holds(&v("/tank")));
}

#[test]
fn local_and_unknown_datasets_are_not_primed() {
    let config = tank_config();
    let bundle = RelativePathAndSnapMounts::new(&v("a"), &v("/tank"), &config.dataset_collection).unwrap();
    let mut cache = AutoMounted::new();
    let nothing: Vec<Vec<u8>> = vec![];
    assert_eq!(bundle.auto_mount_network_volumes(&config.dataset_collection, &mut cache), nothing);
    assert!(!cache.holds(&v("/tank")));
    let snaps = vec![v("/x/s1")];
    let unknown = RelativePathAndSnapMounts {
        relative_path: v("a"),
        snap_mounts: &snaps,
        dataset_of_interest: v("/x"),
        fs_type: None,
    };
    assert_eq!(unknown.auto_mount_network_volumes(&config.dataset_collection, &mut cache), nothing);
    assert!(!cache.holds(&v("/x")));
}

#[test]
fn lookup_exec_lists_snapshot_versions_beside_live_versions() {
    let config = tank_config();
    let disk = tank_disk();
    let lists = lookup_exec(&config, vec![Some(record("/tank/a", 5, 300)), None], &disk).unwrap();
    assert_eq!(lists.len(), 2);
    assert_eq!(
        paths_of(&lists[0]),
        vec![v("/tank/.zfs/snapshot/s1/a"), v("/tank/.zfs/snapshot/s2/a")]
    );
    assert_eq!(recs(&lists[1]), recs(&[record("/tank/a", 5, 300)]));
}

#[test]
fn lookup_exec_can_leave_out_live_versions() {
    let mut config = tank_config();
    config.opt_no_live_vers = true;
    let disk = tank_disk();
    let lists = lookup_exec(&config, vec![Some(record("/tank/a", 5, 300))], &disk).unwrap();
    assert_eq!(lists.len(), 1);
    assert_eq!(lists[0].len(), 2);
    // a live file that is left out is still there: one empty list, no failure
    let lists = lookup_exec(&config, vec![Some(record("/tank/z", 5, 300))], &disk).unwrap();
    assert_eq!(lists.len(), 1);
    assert!(lists[0].is_empty());
    // only where the file is nowhere does the lookup fail
    assert_eq!(
        lookup_exec(&config, vec![Some(PathData::new(&v("/tank/z"), None))], &disk),
        Err(HttmError::NoVersions)
    );
}

#[test]
fn lookup_exec_fails_where_nothing_is_on_disk() {
    let config = tank_config();
    let disk = tank_disk();
    assert_eq!(
        lookup_exec(&config, vec![Some(PathData::new(&v("/tank/never"), None))], &disk),
        Err(HttmError::NoVersions)
    );
    assert_eq!(lookup_exec(&config, vec![None], &disk), Err(HttmError::NoVersions));
    assert_eq!(
        lookup_exec(&config, vec![Some(record("/tank/a", 5, 300)), Some(record("/home/x", 1, 1))], &disk),
        Err(HttmError::NoProximateDataset(v("/home/x")))
    );
    // a live file alone is shown
    let lists = lookup_exec(&config, vec![Some(record("/tank/z", 1, 1))], &disk).unwrap();
    assert_eq!(lists.len(), 2);
    assert!(lists[0].is_empty());
}

#[test]
fn versions_of_the_dataset_mount_itself() {
    let config = tank_config();
    let mut disk = DiskView::new();
    disk.stats.insert(v("/tank/.zfs/snapshot/s1"), Probe::Found(Some(PathMetadata::new(3, 10))));
    let live = record("/tank", 3, 20);
    let versions = Versions::new(&live, &config, &disk).unwrap();
    assert_eq!(recs(&versions.snap_versions), recs(&vec![record("/tank/.zfs/snapshot/s1", 3, 10)]));
}

#[test]
fn records_are_equal_where_their_paths_are() {
    assert_eq!(record("/tank/a", 5, 100), PathData::new(&v("/tank/a"), None));
    assert_ne!(record("/tank/a", 5, 100), record("/tank/b", 5, 100));
}

#[test]
fn snapper_versions_are_also_looked_for_further_down() {
    let mut config = tank_config();
    config.dataset_collection.map_of_datasets.insert(
        v("/home"),
        DatasetMetadata {
            source: v("/dev/sda2"),
            fs_type: FilesystemType::BtrfsSnapper,
            link_type: LinkType::Local,
        },
    );
    config.dataset_collection.map_of_snaps.insert(v("/home"), vec![v("/home/.snapshots/1"), v("/home/.snapshots/2")]);
    let bundle =
        RelativePathAndSnapMounts::new(&v("u/f"), &v("/home"), &config.dataset_collection).unwrap();
    assert_eq!(bundle.fs_type, Some(FilesystemType::BtrfsSnapper));
    assert!(bundle.keeps_files_further_down());
    assert_eq!(
        bundle.candidate_paths(),
        vec![
            v("/home/.snapshots/1/u/f"),
            v("/home/.snapshots/1/snapshot/u/f"),
            v("/home/.snapshots/2/u/f"),
            v("/home/.snapshots/2/snapshot/u/f"),
        ]
    );
    let mut disk = DiskView::new();
    disk.stats.insert(v("/home/.snapshots/1/snapshot/u/f"), Probe::Found(Some(PathMetadata::new(2, 20))));
    disk.stats.insert(v("/home/.snapshots/2/snapshot/u/f"), Probe::Found(Some(PathMetadata::new(2, 10))));
    let versions = Versions::new(&record("/home/u/f", 2, 30), &config, &disk).unwrap();
    assert_eq!(
        recs(&versions.snap_versions),
        recs(&[
            record("/home/.snapshots/2/snapshot/u/f", 2, 10),
            record("/home/.snapshots/1/snapshot/u/f", 2, 20),
        ])
    );
    let zfs = RelativePathAndSnapMounts::new(&v("a"), &v("/tank"), &config.dataset_collection).unwrap();
    assert!(!zfs.keeps_files_further_down());
    assert_eq!(zfs.fs_type, Some(FilesystemType::Zfs));
}

#[test]
fn metadata_comparisons() {
    let a = record("/s1/a", 5, 100);
    let b = record("/s2/a", 5, 100);
    let c = record("/s3/a", 6, 100);
    assert!(is_same_metadata(&a, &b));
    assert!(!is_same_metadata(&a, &c));
    // a phantom counts as empty and as old as the epoch
    assert!(is_same_metadata(&PathData::new(&v("/x"), None), &record("/y", 0, 0)));
    assert!(!same_metadata(&None, &Some(PathMetadata::new(0, 0))));
    assert!(same_metadata(&None, &None));
    assert!(same_metadata(&Some(PathMetadata::new(1, 2)), &Some(PathMetadata::new(1, 2))));
}

#[test]
fn contents_container_compares_by_hash_and_time() {
    let mut disk = DiskView::new();
    disk.contents.insert(v("/s1/a"), 10);
    disk.contents.insert(v("/s2/a"), 10);
    disk.contents.insert(v("/s3/a"), 20);
    let one = CompareContentsContainer::new(record("/s1/a", 5, 100), &disk);
    let two = CompareContentsContainer::new(record("/s2/a", 6, 200), &disk);
    let three = CompareContentsContainer::new(record("/s3/a", 7, 200), &disk);
    assert_eq!(one.mtime(), 100);
    assert_eq!(one.size(), 5);
    assert_eq!(one.cmp_file_contents(&two), std::cmp::Ordering::Equal);
    assert_eq!(one.cmp_file_contents(&three), std::cmp::Ordering::Less);
    assert_eq!(three.cmp_file_contents(&one), std::cmp::Ordering::Greater);
    assert!(one.is_same_contents(&two));
    assert!(!two.is_same_contents(&three));
    assert_eq!(one.cmp(&two), std::cmp::Ordering::Less);
    assert_eq!(two.cmp(&three), std::cmp::Ordering::Less);
    assert_eq!(three.cmp(&two), std::cmp::Ordering::Greater);
    assert_eq!(two.cmp(&two), std::cmp::Ordering::Equal);
    assert!(record("/s1/a", 5, 100).is_same_file_contents(&record("/s2/a", 6, 200), &disk));
    assert!(!record("/s1/a", 5, 100).is_same_file_contents(&record("/s3/a", 6, 200), &disk));
    assert_eq!(rec(&one.into_pathdata()), rec(&record("/s1/a", 5, 100)));
}
