use httm::data::paths::{
    AliasedPath, PathData, PathDeconstruction, PathMetadata, ZfsSnapPathGuard,
};
use httm::filesystem::mounts::{
    DatasetCollection, DatasetMetadata, FilesystemType, LinkType, PathMap, RemotePathAndFsType,
};
use httm::library::results::HttmError;

fn d(text: &str) -> Vec<u8> {
    text.as_bytes().to_vec()
}

fn dataset(source: &str, fs_type: FilesystemType) -> DatasetMetadata {
    DatasetMetadata { source: d(source), fs_type, link_type: LinkType::Local }
}

fn inventory(mounts: Vec<(&str, DatasetMetadata)>) -> DatasetCollection {
    let mut map_of_datasets = PathMap::new();
    for (mount, md) in mounts {
        map_of_datasets.insert(d(mount), md);
    }
    DatasetCollection {
        map_of_datasets,
        map_of_snaps: PathMap::new(),
        opt_map_of_aliases: None,
        opt_map_of_alts: None,
        opt_common_snap_dir: None,
        filter_dirs: PathMap::new(),
    }
}

fn usr_inventory() -> DatasetCollection {
    inventory(vec![
        ("/", dataset("rpool/ROOT", FilesystemType::Zfs)),
        ("/usr", dataset("rpool/usr", FilesystemType::Zfs)),
        ("/usr/bin", dataset("rpool/usr/bin", FilesystemType::BtrfsSnapper)),
    ])
}

#[test]
fn proximate_dataset_is_the_longest_mount_above_the_path() {
    let datasets = usr_inventory();
    let bash = PathData::new(&d("/usr/bin/bash"), None);
    assert_eq!(bash.proximate_dataset(&datasets), Ok(d("/usr/bin")));
    let lib = PathData::new(&d("/usr/lib/libc.so"), None);
    assert_eq!(lib.proximate_dataset(&datasets), Ok(d("/usr")));
    let home = PathData::new(&d("/home/u/file"), None);
    assert_eq!(home.proximate_dataset(&datasets), Ok(d("/")));
}

#[test]
fn proximate_dataset_of_a_mount_is_the_mount() {
    let datasets = usr_inventory();
    let usr = PathData::new(&d("/usr"), None);
    assert_eq!(usr.proximate_dataset(&datasets), Ok(d("/usr")));
}

#[test]
fn proximate_dataset_does_not_match_part_of_a_component() {
    let datasets = inventory(vec![("/tank", dataset("tank", FilesystemType::Zfs))]);
    let tankard = PathData::new(&d("/tankard/a"), None);
    assert_eq!(
        tankard.proximate_dataset(&datasets),
        Err(HttmError::NoProximateDataset(d("/tankard/a")))
    );
}

#[test]
fn path_under_no_dataset_has_no_proximate_dataset() {
    let datasets = inventory(vec![("/tank", dataset("tank", FilesystemType::Zfs))]);
    let file = PathData::new(&d("/home/u/file"), None);
    assert_eq!(
        file.proximate_dataset(&datasets),
        Err(HttmError::NoProximateDataset(d("/home/u/file")))
    );
    assert_eq!(file.source(&datasets, None), None);
    assert_eq!(file.fs_type(&datasets, None), None);
}

#[test]
fn relative_path_strips_the_mount() {
    let file = PathData::new(&d("/tank/sub/f"), None);
    assert_eq!(file.relative_path(&d("/tank")), Ok(d("sub/f")));
    assert_eq!(
        file.relative_path(&d("/pool")),
        Err(HttmError::NoRelativePath(d("/tank/sub/f"), d("/pool")))
    );
}

#[test]
fn source_and_fs_type_come_from_the_proximate_dataset() {
    let datasets = usr_inventory();
    let bash = PathData::new(&d("/usr/bin/bash"), None);
    assert_eq!(bash.source(&datasets, None), Some(d("rpool/usr/bin")));
    assert_eq!(bash.fs_type(&datasets, None), Some(FilesystemType::BtrfsSnapper));
    // a mount that the caller names is looked up as it is
    let usr = d("/usr");
    assert_eq!(bash.source(&datasets, Some(&usr)), Some(d("rpool/usr")));
    assert_eq!(bash.fs_type(&datasets, Some(&usr)), Some(FilesystemType::Zfs));
    let unknown = d("/nowhere");
    assert_eq!(bash.source(&datasets, Some(&unknown)), None);
}

#[test]
fn live_path_and_target_of_a_live_record() {
    let file = PathData::new(&d("/tank/a"), Some(PathMetadata::new(5, 300)));
    assert_eq!(file.live_path(), Some(d("/tank/a")));
    assert_eq!(file.target(&d("/tank")), Some(d("/tank")));
}

#[test]
fn alias_is_found_at_the_longest_aliased_ancestor() {
    let mut datasets = inventory(vec![("/tank", dataset("tank", FilesystemType::Zfs))]);
    let mut aliases = PathMap::new();
    aliases.insert(
        d("/home/u"),
        RemotePathAndFsType { remote_dir: d("/tank/backup"), fs_type: FilesystemType::Zfs },
    );
    aliases.insert(
        d("/home"),
        RemotePathAndFsType { remote_dir: d("/tank/home"), fs_type: FilesystemType::Zfs },
    );
    datasets.opt_map_of_aliases = Some(aliases);
    let file = PathData::new(&d("/home/u/docs/f"), None);
    assert_eq!(
        file.alias(&datasets),
        Some(AliasedPath { proximate_dataset: d("/tank/backup"), relative_path: d("docs/f") })
    );
    let other = PathData::new(&d("/home/v/f"), None);
    assert_eq!(
        other.alias(&datasets),
        Some(AliasedPath { proximate_dataset: d("/tank/home"), relative_path: d("v/f") })
    );
    let outside = PathData::new(&d("/srv/f"), None);
    assert_eq!(outside.alias(&datasets), None);
}

#[test]
fn no_alias_without_alias_map() {
    let datasets = usr_inventory();
    let file = PathData::new(&d("/usr/bin/bash"), None);
    assert_eq!(file.alias(&datasets), None);
}

#[test]
fn zfs_snapshot_path_is_recognised_by_its_marker() {
    let snap = PathData::new(&d("/tank/.zfs/snapshot/s1/sub/f"), None);
    assert!(ZfsSnapPathGuard::is_zfs_snap_path(&snap));
    assert!(ZfsSnapPathGuard::new(&snap).is_some());
    let live = PathData::new(&d("/tank/sub/f"), None);
    assert!(!ZfsSnapPathGuard::is_zfs_snap_path(&live));
    assert!(ZfsSnapPathGuard::new(&live).is_none());
    // the directory of snapshots itself is no path inside a snapshot
    let dir = PathData::new(&d("/tank/.zfs/snapshot"), None);
    assert!(ZfsSnapPathGuard::new(&dir).is_none());
}

#[test]
fn zfs_snapshot_path_deconstructs_to_live_path_type_and_source() {
    let datasets = inventory(vec![("/tank", dataset("tank", FilesystemType::Zfs))]);
    let snap = PathData::new(&d("/tank/.zfs/snapshot/s1/sub/f"), None);
    let guard = ZfsSnapPathGuard::new(&snap).unwrap();
    assert_eq!(guard.live_path(), Some(d("/tank/sub/f")));
    assert_eq!(guard.fs_type(&datasets, None), Some(FilesystemType::Zfs));
    assert_eq!(guard.source(&datasets, None), Some(d("tank@s1")));
    assert_eq!(guard.alias(&datasets), None);
    assert_eq!(guard.proximate_dataset(&datasets), Ok(d("/tank")));
    assert_eq!(guard.relative_path(&d("/tank")), Ok(d("sub/f")));
    assert_eq!(guard.target(&d("/tank")), Some(d("/tank/.zfs/snapshot/s1")));
    assert_eq!(guard.pathdata().path(), &d("/tank/.zfs/snapshot/s1/sub/f"));
}

#[test]
fn zfs_snapshot_root_has_a_source_but_no_live_path() {
    let datasets = inventory(vec![("/tank", dataset("tank", FilesystemType::Zfs))]);
    let snap = PathData::new(&d("/tank/.zfs/snapshot/s1/"), None);
    let guard = ZfsSnapPathGuard::new(&snap).unwrap();
    assert_eq!(guard.source(&datasets, None), Some(d("tank@s1")));
    assert_eq!(guard.live_path(), Some(d("/tank")));
    // without anything behind the name of the snapshot there is no live path
    let bare = PathData::new(&d("/tank/.zfs/snapshot/s1"), None);
    let bare_guard = ZfsSnapPathGuard::new(&bare).unwrap();
    assert_eq!(bare_guard.live_path(), None);
    assert_eq!(bare_guard.source(&datasets, None), Some(d("tank@s1")));
}

#[test]
fn zfs_snapshot_source_needs_a_zfs_dataset() {
    let datasets = inventory(vec![("/tank", dataset("tank", FilesystemType::BtrfsSnapper))]);
    let snap = PathData::new(&d("/tank/.zfs/snapshot/s1/f"), None);
    let guard = ZfsSnapPathGuard::new(&snap).unwrap();
    assert_eq!(guard.source(&datasets, None), None);
    let unknown = inventory(vec![]);
    assert_eq!(guard.source(&unknown, None), None);
}

#[test]
fn zfs_relative_path_fails_below_a_wrong_mount() {
    let snap = PathData::new(&d("/tank/.zfs/snapshot/s1/sub/f"), None);
    let guard = ZfsSnapPathGuard::new(&snap).unwrap();
    assert_eq!(
        guard.relative_path(&d("/pool")),
        Err(HttmError::NoRelativePath(d("/tank/.zfs/snapshot/s1/sub/f"), d("/pool")))
    );
    // the mount must be the dataset, not a directory inside it
    let nested = PathData::new(&d("/tank/data/.zfs/snapshot/s1/f"), None);
    let nested_guard = ZfsSnapPathGuard::new(&nested).unwrap();
    assert_eq!(
        nested_guard.relative_path(&d("/tank")),
        Err(HttmError::NoRelativePath(d("/tank/data/.zfs/snapshot/s1/f"), d("/tank")))
    );
    assert_eq!(nested_guard.target(&d("/tank")), None);
}

#[test]
fn path_metadata_accessors_and_phantom() {
    let md = PathMetadata::new(5, 100);
    assert_eq!(md.size(), 5);
    assert_eq!(md.mtime(), 100);
    let record = PathData::new(&d("/tank/a"), Some(md));
    assert_eq!(record.path(), &d("/tank/a"));
    assert_eq!(record.opt_metadata(), &Some(md));
    assert_eq!(record.metadata_infallible(), md);
    let phantom = PathData::new(&d("/tank/gone"), None);
    assert_eq!(phantom.opt_metadata(), &None);
    assert_eq!(phantom.metadata_infallible(), PathMetadata::new(0, 0));
}

#[test]
fn path_metadata_orders_by_time_then_size() {
    let early_big = PathMetadata::new(900, 100);
    let late_small = PathMetadata::new(1, 200);
    let late_big = PathMetadata::new(2, 200);
    assert!(early_big < late_small);
    assert!(late_small < late_big);
    assert!(!(late_big < late_small));
    assert_eq!(late_small.partial_cmp(&late_small), Some(std::cmp::Ordering::Equal));
    assert_eq!(early_big.cmp(&late_small), std::cmp::Ordering::Less);
    assert_eq!(late_big.cmp(&late_small), std::cmp::Ordering::Greater);
}

#[test]
fn path_records_order_by_path_alone() {
    let a = PathData::new(&d("/tank/a"), Some(PathMetadata::new(9, 900)));
    let b = PathData::new(&d("/tank/b"), None);
    let a_again = PathData::new(&d("/tank/a"), None);
    assert_eq!(a.cmp(&b), std::cmp::Ordering::Less);
    assert_eq!(b.cmp(&a), std::cmp::Ordering::Greater);
    assert_eq!(a.cmp(&a_again), std::cmp::Ordering::Equal);
    assert_eq!(a.partial_cmp(&b), Some(std::cmp::Ordering::Less));
}
