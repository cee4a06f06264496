use httm::config::{Config, DeletedMode, ExecMode, ListSnapsOfType, PrintMode};
use httm::data::disk::{DiskView, Listings, Probe};
use httm::data::paths::{BasicDirEntryInfo, FileType, PathMetadata};
use httm::deleted::{
    get_deleted_per_dataset, get_unique_deleted, pick_representatives, DeletedCandidate,
};
use httm::filesystem::mounts::{
    DatasetCollection, DatasetMetadata, FilesystemType, LinkType, PathMap,
};
use httm::library::results::{HttmError, IoErrorKind};
use httm::lookup::versions::{get_mirror_dir, RelativePathAndSnapMounts};

fn x(text: &str) -> Vec<u8> {
    text.as_bytes().to_vec()
}

fn file(path: &str) -> BasicDirEntryInfo {
    BasicDirEntryInfo::new(x(path), Some(FileType::File))
}

fn dir(path: &str) -> BasicDirEntryInfo {
    BasicDirEntryInfo::new(x(path), Some(FileType::Dir))
}

// entries are equal where their paths are; this compares the kinds too
fn both(entries: Vec<BasicDirEntryInfo>) -> Vec<(Vec<u8>, Option<FileType>)> {
    entries.iter().map(|entry| (entry.path().clone(), *entry.opt_filetype())).collect()
}

fn config_for(mount: &str, fs_type: FilesystemType, snaps: Vec<&str>) -> Config {
    let mut map_of_datasets = PathMap::new();
    map_of_datasets.insert(
        x(mount),
        DatasetMetadata { source: x("pool"), fs_type, link_type: LinkType::Local },
    );
    let mut map_of_snaps = PathMap::new();
    map_of_snaps.insert(x(mount), snaps.into_iter().map(x).collect());
    Config {
        opt_recursive: false,
        opt_no_filter: false,
        opt_no_traverse: false,
        opt_omit_ditto: false,
        opt_alt_replicated: false,
        opt_no_live_vers: false,
        opt_last_snap: None,
        uniqueness: ListSnapsOfType::All,
        deleted_mode: DeletedMode::Enabled,
        print_mode: PrintMode::FormattedDefault,
        exec_mode: ExecMode::Display,
        dataset_collection: DatasetCollection {
            map_of_datasets,
            map_of_snaps,
            opt_map_of_aliases: None,
            opt_map_of_alts: None,
            opt_common_snap_dir: None,
            filter_dirs: PathMap::new(),
        },
        pwd: x(mount),
        opt_requested_dir: None,
        requested_utc_offset: 0,
    }
}

fn tank() -> Config {
    config_for("/tank", FilesystemType::Zfs, vec!["/tank/.zfs/snapshot/s1", "/tank/.zfs/snapshot/s2"])
}

fn seen(disk: &mut DiskView, path: &str, mtime: i128) {
    disk.stats.insert(x(path), Probe::Found(Some(PathMetadata::new(1, mtime))));
}

// live dir holds b; s1 holds b and c; s2 holds c and d
fn dir_disk() -> DiskView {
    let mut disk = DiskView::new();
    disk.listings.insert(x("/tank/dir"), vec![file("/tank/dir/b")]);
    disk.listings.insert(
        x("/tank/.zfs/snapshot/s1/dir"),
        vec![file("/tank/.zfs/snapshot/s1/dir/b"), file("/tank/.zfs/snapshot/s1/dir/c")],
    );
    disk.listings.insert(
        x("/tank/.zfs/snapshot/s2/dir"),
        vec![file("/tank/.zfs/snapshot/s2/dir/c"), file("/tank/.zfs/snapshot/s2/dir/d")],
    );
    seen(&mut disk, "/tank/.zfs/snapshot/s1/dir/b", 50);
    seen(&mut disk, "/tank/.zfs/snapshot/s1/dir/c", 100);
    seen(&mut disk, "/tank/.zfs/snapshot/s2/dir/c", 200);
    seen(&mut disk, "/tank/.zfs/snapshot/s2/dir/d", 150);
    disk
}

#[test]
fn deleted_entries_are_the_latest_of_each_name_not_live() {
    let config = tank();
    let disk = dir_disk();
    assert_eq!(
        both(get_unique_deleted(&config, &x("/tank/dir"), &disk).unwrap()),
        both(vec![file("/tank/.zfs/snapshot/s2/dir/c"), file("/tank/.zfs/snapshot/s2/dir/d")])
    );
}

#[test]
fn older_snapshot_wins_where_its_copy_was_modified_later() {
    let config = tank();
    let mut disk = dir_disk();
    seen(&mut disk, "/tank/.zfs/snapshot/s1/dir/c", 900);
    assert_eq!(
        both(get_unique_deleted(&config, &x("/tank/dir"), &disk).unwrap()),
        both(vec![file("/tank/.zfs/snapshot/s1/dir/c"), file("/tank/.zfs/snapshot/s2/dir/d")])
    );
}

#[test]
fn of_copies_modified_at_one_time_the_last_found_is_taken() {
    let config = tank();
    let mut disk = dir_disk();
    seen(&mut disk, "/tank/.zfs/snapshot/s1/dir/c", 200);
    assert_eq!(
        both(get_unique_deleted(&config, &x("/tank/dir"), &disk).unwrap()),
        both(vec![file("/tank/.zfs/snapshot/s2/dir/c"), file("/tank/.zfs/snapshot/s2/dir/d")])
    );
}

#[test]
fn entry_whose_stat_fails_is_no_candidate() {
    let config = tank();
    let mut disk = dir_disk();
    disk.stats.insert(x("/tank/.zfs/snapshot/s2/dir/d"), Probe::Missing);
    disk.stats.insert(x("/tank/.zfs/snapshot/s2/dir/c"), Probe::PermissionDenied);
    assert_eq!(
        both(get_unique_deleted(&config, &x("/tank/dir"), &disk).unwrap()),
        both(vec![file("/tank/.zfs/snapshot/s1/dir/c")])
    );
}

#[test]
fn snapshot_without_the_directory_contributes_nothing() {
    let config = tank();
    let mut disk = DiskView::new();
    disk.listings.insert(x("/tank/dir"), vec![]);
    disk.listings.insert(
        x("/tank/.zfs/snapshot/s2/dir"),
        vec![dir("/tank/.zfs/snapshot/s2/dir/old")],
    );
    seen(&mut disk, "/tank/.zfs/snapshot/s2/dir/old", 5);
    assert_eq!(
        both(get_unique_deleted(&config, &x("/tank/dir"), &disk).unwrap()),
        both(vec![dir("/tank/.zfs/snapshot/s2/dir/old")])
    );
}

#[test]
fn nothing_is_deleted_where_nothing_differs() {
    let config = tank();
    let mut disk = dir_disk();
    disk.listings.insert(
        x("/tank/dir"),
        vec![file("/tank/dir/b"), file("/tank/dir/c"), dir("/tank/dir/d")],
    );
    assert_eq!(
        both(get_unique_deleted(&config, &x("/tank/dir"), &disk).unwrap()),
        both(vec![])
    );
}

#[test]
fn unreadable_live_directory_has_no_deleted_entries() {
    let config = tank();
    let mut disk = dir_disk();
    disk.listings = Listings::new();
    disk.listings.insert(
        x("/tank/.zfs/snapshot/s1/dir"),
        vec![file("/tank/.zfs/snapshot/s1/dir/c")],
    );
    assert_eq!(
        both(get_unique_deleted(&config, &x("/tank/dir"), &disk).unwrap()),
        both(vec![])
    );
    let bundle =
        RelativePathAndSnapMounts::new(&x("dir"), &x("/tank"), &config.dataset_collection).unwrap();
    assert_eq!(
        get_deleted_per_dataset(&config, &x("/tank/dir"), &bundle, &disk).err(),
        Some(HttmError::IoError(IoErrorKind::Other, x("/tank/dir")))
    );
}

#[test]
fn directory_under_no_dataset_has_no_deleted_entries() {
    let config = tank();
    let mut disk = DiskView::new();
    disk.listings.insert(x("/home/u"), vec![]);
    assert_eq!(
        both(get_unique_deleted(&config, &x("/home/u"), &disk).unwrap()),
        both(vec![])
    );
}

#[test]
fn candidates_of_one_dataset_keep_snapshot_order() {
    let config = tank();
    let disk = dir_disk();
    let bundle =
        RelativePathAndSnapMounts::new(&x("dir"), &x("/tank"), &config.dataset_collection).unwrap();
    let candidates = get_deleted_per_dataset(&config, &x("/tank/dir"), &bundle, &disk).unwrap();
    let summary: Vec<(Vec<u8>, Vec<u8>, i128)> = candidates
        .iter()
        .map(|c| (c.name.clone(), c.entry.path().clone(), c.modify_time))
        .collect();
    assert_eq!(
        summary,
        vec![
            (x("c"), x("/tank/.zfs/snapshot/s1/dir/c"), 100),
            (x("c"), x("/tank/.zfs/snapshot/s2/dir/c"), 200),
            (x("d"), x("/tank/.zfs/snapshot/s2/dir/d"), 150),
        ]
    );
}

#[test]
fn representatives_are_picked_by_name_wherever_they_stand() {
    let candidate = |name: &str, path: &str, mtime: i128| DeletedCandidate {
        name: x(name),
        entry: file(path),
        modify_time: mtime,
    };
    let candidates = vec![
        candidate("a", "/s1/a", 10),
        candidate("b", "/s1/b", 30),
        candidate("a", "/s2/a", 20),
        candidate("b", "/s2/b", 5),
        candidate("a", "/s3/a", 15),
    ];
    assert_eq!(both(pick_representatives(&candidates)), both(vec![file("/s1/b"), file("/s2/a")]));
    assert_eq!(both(pick_representatives(&vec![])), both(vec![]));
}

#[test]
fn snapper_keeps_files_one_directory_further_down() {
    assert_eq!(
        get_mirror_dir(&x("/home/.snapshots/1"), &x("u/docs"), &Some(FilesystemType::BtrfsSnapper)),
        x("/home/.snapshots/1/snapshot/u/docs")
    );
    assert_eq!(
        get_mirror_dir(
            &x("/run/timeshift/7"),
            &x("etc"),
            &Some(FilesystemType::BtrfsTimeshift(x("/run/timeshift")))
        ),
        x("/run/timeshift/7/snapshot/etc")
    );
    assert_eq!(
        get_mirror_dir(&x("/tank/.zfs/snapshot/s1"), &x("dir"), &Some(FilesystemType::Zfs)),
        x("/tank/.zfs/snapshot/s1/dir")
    );
    assert_eq!(get_mirror_dir(&x("/snap/1"), &x("dir"), &None), x("/snap/1/dir"));
}

#[test]
fn deleted_entries_on_snapper() {
    let config = config_for("/home", FilesystemType::BtrfsSnapper, vec!["/home/.snapshots/1"]);
    let mut disk = DiskView::new();
    disk.listings.insert(x("/home/u"), vec![file("/home/u/kept")]);
    disk.listings.insert(
        x("/home/.snapshots/1/snapshot/u"),
        vec![
            file("/home/.snapshots/1/snapshot/u/kept"),
            file("/home/.snapshots/1/snapshot/u/lost"),
        ],
    );
    // the layout of ZFS is not looked at
    disk.listings.insert(x("/home/.snapshots/1/u"), vec![file("/home/.snapshots/1/u/wrong")]);
    seen(&mut disk, "/home/.snapshots/1/snapshot/u/kept", 1);
    seen(&mut disk, "/home/.snapshots/1/snapshot/u/lost", 2);
    seen(&mut disk, "/home/.snapshots/1/u/wrong", 3);
    assert_eq!(
        both(get_unique_deleted(&config, &x("/home/u"), &disk).unwrap()),
        both(vec![file("/home/.snapshots/1/snapshot/u/lost")])
    );
}

#[test]
fn replicas_contribute_deleted_entries_on_equal_footing() {
    let mut config = tank();
    let mut alts = PathMap::new();
    alts.insert(x("/tank"), vec![x("/backup")]);
    config.dataset_collection.opt_map_of_alts = Some(alts);
    config.dataset_collection.map_of_snaps.insert(x("/backup"), vec![x("/backup/.zfs/snapshot/r1")]);
    config.opt_alt_replicated = true;
    let mut disk = dir_disk();
    disk.listings.insert(
        x("/backup/.zfs/snapshot/r1/dir"),
        vec![file("/backup/.zfs/snapshot/r1/dir/c"), file("/backup/.zfs/snapshot/r1/dir/e")],
    );
    seen(&mut disk, "/backup/.zfs/snapshot/r1/dir/c", 500);
    seen(&mut disk, "/backup/.zfs/snapshot/r1/dir/e", 1);
    assert_eq!(
        both(get_unique_deleted(&config, &x("/tank/dir"), &disk).unwrap()),
        both(vec![
            file("/backup/.zfs/snapshot/r1/dir/c"),
            file("/backup/.zfs/snapshot/r1/dir/e"),
            file("/tank/.zfs/snapshot/s2/dir/d"),
        ])
    );
}
