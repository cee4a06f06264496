use httm::config::{Config, DeletedMode, ExecMode, ListSnapsOfType, PrintMode};
use httm::data::disk::{is_listing, DiskView, LinkTarget, Listings, Probe};
use httm::data::paths::{BasicDirEntryInfo, FileType, PathMetadata};
use httm::data::selection::{PathProvenance, SelectionCandidate};
use httm::exec::recursive::{
    combine_and_send_entries, enumerate_deleted, get_entries_behind_deleted_dir,
    get_entries_partitioned, get_live_entries_to_send, get_pseudo_live_versions, is_filter_dir,
    recurse_behind_deleted_dir, spawn_deleted, BehindDeletedDir, RecursiveSearch,
};
use httm::filesystem::mounts::{
    DatasetCollection, DatasetMetadata, FilesystemType, LinkType, PathMap,
};
use httm::library::results::{HttmError, IoErrorKind};
use httm::library::utility::{httm_is_dir, is_ancestor_of, HttmIsDir};

fn r(text: &str) -> Vec<u8> {
    text.as_bytes().to_vec()
}

fn file(path: &str) -> BasicDirEntryInfo {
    BasicDirEntryInfo::new(r(path), Some(FileType::File))
}

fn dir(path: &str) -> BasicDirEntryInfo {
    BasicDirEntryInfo::new(r(path), Some(FileType::Dir))
}

fn link(path: &str) -> BasicDirEntryInfo {
    BasicDirEntryInfo::new(r(path), Some(FileType::Symlink))
}

// entries are equal where their paths are; this compares the kinds too
fn both(entries: Vec<BasicDirEntryInfo>) -> Vec<(Vec<u8>, Option<FileType>)> {
    entries.iter().map(|entry| (entry.path().clone(), *entry.opt_filetype())).collect()
}

fn live(path: &str, file_type: FileType) -> SelectionCandidate {
    SelectionCandidate { path: r(path), opt_filetype: Some(file_type), is_phantom: false }
}

fn phantom(path: &str, file_type: FileType) -> SelectionCandidate {
    SelectionCandidate { path: r(path), opt_filetype: Some(file_type), is_phantom: true }
}

fn browse_config(deleted_mode: DeletedMode, recursive: bool) -> Config {
    let mut map_of_datasets = PathMap::new();
    map_of_datasets.insert(
        r("/tank"),
        DatasetMetadata {
            source: r("tank"),
            fs_type: FilesystemType::Zfs,
            link_type: LinkType::Local,
        },
    );
    let mut map_of_snaps = PathMap::new();
    map_of_snaps.insert(r("/tank"), vec![r("/tank/.zfs/snapshot/s1")]);
    let mut filter_dirs = PathMap::new();
    filter_dirs.insert(r("/tank/proc"), ());
    Config {
        opt_recursive: recursive,
        opt_no_filter: false,
        opt_no_traverse: false,
        opt_omit_ditto: false,
        opt_alt_replicated: false,
        opt_no_live_vers: false,
        opt_last_snap: None,
        uniqueness: ListSnapsOfType::All,
        deleted_mode,
        print_mode: PrintMode::FormattedDefault,
        exec_mode: ExecMode::NonInteractiveRecursive,
        dataset_collection: DatasetCollection {
            map_of_datasets,
            map_of_snaps,
            opt_map_of_aliases: None,
            opt_map_of_alts: None,
            opt_common_snap_dir: Some(r("/tank/snaps")),
            filter_dirs,
        },
        pwd: r("/tank"),
        opt_requested_dir: Some(r("/tank")),
        requested_utc_offset: 0,
    }
}

fn seen(disk: &mut DiskView, path: &str, mtime: i128) {
    disk.stats.insert(r(path), Probe::Found(Some(PathMetadata::new(1, mtime))));
}

// live: /tank { a, dir { b }, .zfs }; s1: { a, dir { b, c }, gone { x, sub { y } } }
fn tree() -> DiskView {
    let mut disk = DiskView::new();
    disk.listings.insert(r("/tank"), vec![file("/tank/a"), dir("/tank/dir"), dir("/tank/.zfs")]);
    disk.listings.insert(r("/tank/dir"), vec![file("/tank/dir/b")]);
    let s1 = "/tank/.zfs/snapshot/s1";
    disk.listings.insert(
        r(s1),
        vec![file(&format!("{s1}/a")), dir(&format!("{s1}/dir")), dir(&format!("{s1}/gone"))],
    );
    disk.listings
        .insert(r(&format!("{s1}/dir")), vec![file(&format!("{s1}/dir/b")), file(&format!("{s1}/dir/c"))]);
    disk.listings
        .insert(r(&format!("{s1}/gone")), vec![file(&format!("{s1}/gone/x")), dir(&format!("{s1}/gone/sub"))]);
    disk.listings.insert(r(&format!("{s1}/gone/sub")), vec![file(&format!("{s1}/gone/sub/y"))]);
    for path in ["a", "dir", "gone", "dir/b", "dir/c", "gone/x", "gone/sub", "gone/sub/y"] {
        seen(&mut disk, &format!("{s1}/{path}"), 10);
    }
    disk
}

// what a caller does: walk, send, and search for deleted entries; stops
// taking items after `limit` of them
fn browse(config: &Config, root: &str, disk: &DiskView, limit: usize) -> Vec<SelectionCandidate> {
    let mut sent: Vec<SelectionCandidate> = Vec::new();
    let mut search = RecursiveSearch::new(&r(root));
    loop {
        let consumer_gone = sent.len() >= limit;
        let Some(requested_dir) = search.next_dir(consumer_gone) else {
            break;
        };
        let Ok(step) = search.enumerate_live(config, &requested_dir, disk) else {
            break;
        };
        sent.extend(step.entries);
        if step.spawn_deleted {
            let deleted = enumerate_deleted(config, &requested_dir, disk).unwrap();
            sent.extend(deleted.entries);
            let mut behind = deleted.behind;
            while let Some(within) = behind.pop() {
                if let Ok(step) = recurse_behind_deleted_dir(config, &within, disk) {
                    sent.extend(step.entries);
                    behind.extend(step.behind);
                }
            }
        }
    }
    sent
}

#[test]
fn recursive_browse_emits_live_entries_once_and_phantoms_under_pseudo_live_parents() {
    let config = browse_config(DeletedMode::Enabled, true);
    let sent = browse(&config, "/tank", &tree(), usize::MAX);
    assert_eq!(
        sent,
        vec![
            live("/tank/a", FileType::File),
            live("/tank/dir", FileType::Dir),
            phantom("/tank/gone", FileType::Dir),
            phantom("/tank/gone/x", FileType::File),
            phantom("/tank/gone/sub", FileType::Dir),
            phantom("/tank/gone/sub/y", FileType::File),
            live("/tank/dir/b", FileType::File),
            phantom("/tank/dir/c", FileType::File),
        ]
    );
    for candidate in &sent {
        assert_eq!(sent.iter().filter(|other| other.path == candidate.path).count(), 1);
    }
}

#[test]
fn dropping_the_consumer_stops_the_walk() {
    let config = browse_config(DeletedMode::Enabled, true);
    let sent = browse(&config, "/tank", &tree(), 1);
    // what the first directory gave was sent; nothing of the directories below it
    assert!(sent.iter().all(|candidate| !candidate.path.starts_with(b"/tank/dir/")));
    assert_eq!(sent.len(), 6);
    let unbounded = browse(&config, "/tank", &tree(), usize::MAX);
    assert!(sent.len() < unbounded.len());
}

#[test]
fn cancelled_search_gives_out_nothing_more() {
    let config = browse_config(DeletedMode::Enabled, true);
    let disk = tree();
    let mut search = RecursiveSearch::new(&r("/tank"));
    assert!(!search.is_cancelled());
    assert_eq!(search.next_dir(false), Some(r("/tank")));
    let step = search.enumerate_live(&config, &r("/tank"), &disk).unwrap();
    assert_eq!(step.entries.len(), 2);
    assert!(step.spawn_deleted);
    assert_eq!(search.next_dir(true), None);
    assert!(search.is_cancelled());
    assert_eq!(search.next_dir(false), None);
    let after = search.enumerate_live(&config, &r("/tank/dir"), &disk).unwrap();
    assert!(after.entries.is_empty());
    assert!(!after.spawn_deleted);
    assert_eq!(search.next_dir(false), None);
}

#[test]
fn cancel_drops_the_queue() {
    let mut search = RecursiveSearch::new(&r("/tank"));
    search.cancel();
    assert!(search.is_cancelled());
    assert_eq!(search.next_dir(false), None);
}

#[test]
fn directories_are_walked_last_found_first() {
    let config = browse_config(DeletedMode::Disabled, true);
    let mut disk = DiskView::new();
    disk.listings.insert(r("/tank"), vec![dir("/tank/d1"), dir("/tank/d2")]);
    disk.listings.insert(r("/tank/d1"), vec![]);
    disk.listings.insert(r("/tank/d2"), vec![dir("/tank/d2/d3")]);
    disk.listings.insert(r("/tank/d2/d3"), vec![]);
    let mut search = RecursiveSearch::new(&r("/tank"));
    let mut order = Vec::new();
    while let Some(requested_dir) = search.next_dir(false) {
        let step = search.enumerate_live(&config, &requested_dir, &disk).unwrap();
        assert!(!step.spawn_deleted);
        order.push(requested_dir);
    }
    assert_eq!(order, vec![r("/tank"), r("/tank/d2"), r("/tank/d2/d3"), r("/tank/d1")]);
}

#[test]
fn without_recursion_only_the_requested_directory_is_walked() {
    let config = browse_config(DeletedMode::Disabled, false);
    let sent = browse(&config, "/tank", &tree(), usize::MAX);
    assert_eq!(sent, vec![live("/tank/a", FileType::File), live("/tank/dir", FileType::Dir)]);
}

#[test]
fn deleted_mode_only_suppresses_live_entries() {
    let config = browse_config(DeletedMode::Only, true);
    let sent = browse(&config, "/tank", &tree(), usize::MAX);
    assert!(sent.iter().all(|candidate| candidate.is_phantom));
    assert_eq!(sent.len(), 5);
}

#[test]
fn depth_of_one_does_not_go_behind_deleted_directories() {
    let config = browse_config(DeletedMode::DepthOfOne, true);
    let sent = browse(&config, "/tank", &tree(), usize::MAX);
    assert_eq!(
        sent,
        vec![
            live("/tank/a", FileType::File),
            live("/tank/dir", FileType::Dir),
            phantom("/tank/gone", FileType::Dir),
            live("/tank/dir/b", FileType::File),
            phantom("/tank/dir/c", FileType::File),
        ]
    );
}

#[test]
fn unreadable_root_fails_the_walk_but_unreadable_subdirectory_does_not() {
    let config = browse_config(DeletedMode::Disabled, true);
    let disk = DiskView::new();
    let mut search = RecursiveSearch::new(&r("/tank"));
    assert_eq!(search.next_dir(false), Some(r("/tank")));
    assert_eq!(
        search.enumerate_live(&config, &r("/tank"), &disk).err(),
        Some(HttmError::IoError(IoErrorKind::Other, r("/tank")))
    );
    assert!(search.is_cancelled());
    let mut partial = DiskView::new();
    partial.listings.insert(r("/tank"), vec![dir("/tank/locked"), file("/tank/a")]);
    let mut search = RecursiveSearch::new(&r("/tank"));
    assert_eq!(search.next_dir(false), Some(r("/tank")));
    assert!(search.enumerate_live(&config, &r("/tank"), &partial).is_ok());
    assert_eq!(search.next_dir(false), Some(r("/tank/locked")));
    let step = search.enumerate_live(&config, &r("/tank/locked"), &partial).unwrap();
    assert!(step.entries.is_empty());
    assert!(!search.is_cancelled());
    assert_eq!(search.next_dir(false), None);
}

#[test]
fn live_entries_are_sent_in_the_order_they_were_read() {
    let config = browse_config(DeletedMode::Disabled, true);
    let mut disk = DiskView::new();
    disk.listings.insert(
        r("/tank"),
        vec![dir("/tank/d"), file("/tank/f"), dir("/tank/.zfs"), dir("/tank/e"), file("/tank/g")],
    );
    let mut search = RecursiveSearch::new(&r("/tank"));
    assert_eq!(search.next_dir(false), Some(r("/tank")));
    let step = search.enumerate_live(&config, &r("/tank"), &disk).unwrap();
    assert_eq!(
        step.entries,
        vec![
            live("/tank/d", FileType::Dir),
            live("/tank/f", FileType::File),
            live("/tank/e", FileType::Dir),
            live("/tank/g", FileType::File),
        ]
    );
    assert_eq!(
        get_live_entries_to_send(&config, disk.read_dir(&r("/tank")).unwrap()),
        step.entries
    );
    assert_eq!(search.next_dir(false), Some(r("/tank/e")));
    assert_eq!(search.next_dir(false), Some(r("/tank/d")));
    assert_eq!(search.next_dir(false), None);
}

#[test]
fn partitioned_entries_are_sent_files_first() {
    let config = browse_config(DeletedMode::Disabled, false);
    let mut disk = DiskView::new();
    disk.listings.insert(r("/tank"), vec![dir("/tank/d"), file("/tank/f"), dir("/tank/e"), file("/tank/g")]);
    let (vec_dirs, vec_files) = get_entries_partitioned(&config, &r("/tank"), &disk).unwrap();
    assert_eq!(both(vec_dirs.clone()), both(vec![dir("/tank/d"), dir("/tank/e")]));
    assert_eq!(both(vec_files.clone()), both(vec![file("/tank/f"), file("/tank/g")]));
    let sent = combine_and_send_entries(&config, vec_files, &vec_dirs, false, &r("/tank"));
    assert_eq!(
        sent,
        vec![
            live("/tank/f", FileType::File),
            live("/tank/g", FileType::File),
            live("/tank/d", FileType::Dir),
            live("/tank/e", FileType::Dir),
        ]
    );
}

#[test]
fn snapshot_and_filter_directories_are_passed_by() {
    let config = browse_config(DeletedMode::Disabled, true);
    assert!(is_filter_dir(&config, &dir("/tank/.zfs")));
    assert!(is_filter_dir(&config, &dir("/tank/home/.snapshots")));
    assert!(is_filter_dir(&config, &dir("/tank/snaps")));
    assert!(is_filter_dir(&config, &dir("/tank/proc")));
    assert!(dir("/tank/proc").is_exclude_path(&config));
    assert!(!is_filter_dir(&config, &dir("/tank/dir")));
    assert!(!is_filter_dir(&config, &dir("/tank/proc/self")));
    assert!(!is_filter_dir(&config, &dir("/tank/not.zfs")));
}

#[test]
fn requested_directory_is_walked_even_if_it_is_a_filter_directory() {
    let mut config = browse_config(DeletedMode::Disabled, true);
    config.opt_requested_dir = Some(r("/tank/proc"));
    assert!(!is_filter_dir(&config, &dir("/tank/proc")));
    assert!(is_filter_dir(&config, &dir("/tank/.zfs")));
    // even a snapshot directory, if that is what the user asked for
    config.opt_requested_dir = Some(r("/tank/.zfs"));
    assert!(!is_filter_dir(&config, &dir("/tank/.zfs")));
    config.opt_requested_dir = Some(r("/tank/snaps"));
    assert!(!is_filter_dir(&config, &dir("/tank/snaps")));
    config.opt_requested_dir = None;
    assert!(is_filter_dir(&config, &dir("/tank/proc")));
}

#[test]
fn only_directories_are_filtered_and_only_on_request() {
    let mut config = browse_config(DeletedMode::Disabled, true);
    let mut disk = DiskView::new();
    disk.listings.insert(
        r("/tank"),
        vec![dir("/tank/.zfs"), file("/tank/proc"), dir("/tank/snaps"), dir("/tank/ok")],
    );
    let (vec_dirs, vec_files) = get_entries_partitioned(&config, &r("/tank"), &disk).unwrap();
    assert_eq!(both(vec_dirs), both(vec![dir("/tank/ok")]));
    assert_eq!(both(vec_files), both(vec![file("/tank/proc")]));
    config.opt_no_filter = true;
    let (vec_dirs, _) = get_entries_partitioned(&config, &r("/tank"), &disk).unwrap();
    assert_eq!(both(vec_dirs), both(vec![dir("/tank/.zfs"), dir("/tank/snaps"), dir("/tank/ok")]));
    assert_eq!(
        get_entries_partitioned(&config, &r("/nowhere"), &disk).err(),
        Some(HttmError::IoError(IoErrorKind::Other, r("/nowhere")))
    );
}

fn linked_disk() -> DiskView {
    let mut disk = DiskView::new();
    disk.link_targets.insert(r("/tank/to_dir"), LinkTarget { path: r("/srv/data"), is_dir: true });
    disk.link_targets.insert(r("/tank/to_file"), LinkTarget { path: r("/srv/f"), is_dir: false });
    disk.link_targets.insert(r("/tank/a/loop"), LinkTarget { path: r("/tank"), is_dir: true });
    disk.link_targets.insert(r("/tank/self"), LinkTarget { path: r("/tank/self"), is_dir: true });
    disk
}

#[test]
fn link_counts_as_directory_unless_it_leads_back_up() {
    let disk = linked_disk();
    assert!(httm_is_dir(&dir("/tank/d"), &disk));
    assert!(!httm_is_dir(&file("/tank/f"), &disk));
    assert!(httm_is_dir(&link("/tank/to_dir"), &disk));
    assert!(!httm_is_dir(&link("/tank/to_file"), &disk));
    assert!(!httm_is_dir(&link("/tank/a/loop"), &disk));
    assert!(!httm_is_dir(&link("/tank/self"), &disk));
    assert!(!httm_is_dir(&link("/tank/dangling"), &disk));
    assert!(!httm_is_dir(&BasicDirEntryInfo::new(r("/tank/dev"), Some(FileType::Other)), &disk));
    assert!(!httm_is_dir(&BasicDirEntryInfo::new(r("/tank/unknown"), None), &disk));
    assert_eq!(link("/tank/to_dir").get_filetype(), Some(FileType::Symlink));
    assert_eq!(link("/tank/to_dir").get_path(), r("/tank/to_dir"));
}

#[test]
fn links_are_not_followed_on_request() {
    let disk = linked_disk();
    let mut config = browse_config(DeletedMode::Disabled, true);
    assert!(link("/tank/to_dir").is_entry_dir(&config, &disk));
    config.opt_no_traverse = true;
    assert!(!link("/tank/to_dir").is_entry_dir(&config, &disk));
    assert!(dir("/tank/d").is_entry_dir(&config, &disk));
    // an entry of unknown kind is still asked about
    assert!(!BasicDirEntryInfo::new(r("/tank/to_dir"), None).is_entry_dir(&config, &disk));
}

#[test]
fn ancestors_include_the_path_itself() {
    assert!(is_ancestor_of(&r("/tank"), &r("/tank/a/b")));
    assert!(is_ancestor_of(&r("/"), &r("/tank/a/b")));
    assert!(is_ancestor_of(&r("/tank/a/b"), &r("/tank/a/b")));
    assert!(!is_ancestor_of(&r("/tan"), &r("/tank/a/b")));
    assert!(!is_ancestor_of(&r("/tank/a/b/c"), &r("/tank/a/b")));
    assert!(is_ancestor_of(&r(""), &r("a/b")));
    assert!(!is_ancestor_of(&r(""), &r("/a/b")));
}

#[test]
fn pseudo_live_version_keeps_name_and_kind() {
    let snap = dir("/tank/.zfs/snapshot/s1/dir/gone");
    assert_eq!(
        both(snap.clone().into_pseudo_live_version(&r("/tank/dir")).into_iter().collect()),
        both(vec![dir("/tank/dir/gone")])
    );
    assert_eq!(dir("/").into_pseudo_live_version(&r("/tank/dir")), None);
    assert_eq!(
        both(get_pseudo_live_versions(vec![snap, dir("/"), file("/s/x")], &r("/live"))),
        both(vec![dir("/live/gone"), file("/live/x")])
    );
    // entries are equal where their paths are
    assert_eq!(dir("/tank/x"), file("/tank/x"));
    assert_ne!(dir("/tank/x"), dir("/tank/y"));
    assert_eq!(file("/tank/.zfs/snapshot/s1/f").filename(), r("f"));
    assert_eq!(dir("/").filename(), r(""));
    assert_eq!(file("/a/f").opt_filetype(), &Some(FileType::File));
    assert_eq!(file("/a/f").to_path_buf(), r("/a/f"));
}

#[test]
fn selection_carries_provenance() {
    let candidate = file("/tank/a").into_selection(&PathProvenance::IsPhantom);
    assert_eq!(candidate, phantom("/tank/a", FileType::File));
    let mut candidate = file("/tank/a").into_selection(&PathProvenance::FromLiveDataset);
    assert_eq!(candidate, live("/tank/a", FileType::File));
    candidate.set_phantom(&PathProvenance::IsPhantom);
    assert!(candidate.is_phantom);
    assert_eq!(candidate.text(), r("a"));
    assert_eq!(live("/", FileType::Dir).text(), r(""));
}

#[test]
fn deleted_search_is_spawned_unless_disabled() {
    assert!(!spawn_deleted(&browse_config(DeletedMode::Disabled, true)));
    assert!(spawn_deleted(&browse_config(DeletedMode::DepthOfOne, true)));
    assert!(spawn_deleted(&browse_config(DeletedMode::Enabled, true)));
    assert!(spawn_deleted(&browse_config(DeletedMode::Only, true)));
}

#[test]
fn behind_a_deleted_directory() {
    assert_eq!(
        get_entries_behind_deleted_dir(&r("/tank/.zfs/snapshot/s1/gone"), &r("/tank")),
        Ok(BehindDeletedDir {
            dir_name: r("gone"),
            from_deleted_dir: r("/tank/.zfs/snapshot/s1"),
            from_requested_dir: r("/tank"),
        })
    );
    assert_eq!(
        get_entries_behind_deleted_dir(&r("/gone"), &r("/tank")),
        Ok(BehindDeletedDir {
            dir_name: r("gone"),
            from_deleted_dir: r("/"),
            from_requested_dir: r("/tank"),
        })
    );
    assert_eq!(
        get_entries_behind_deleted_dir(&r("/"), &r("/tank")),
        Err(HttmError::BadInput(r("/")))
    );
    let config = browse_config(DeletedMode::Enabled, true);
    let within = BehindDeletedDir {
        dir_name: r("gone"),
        from_deleted_dir: r("/tank/.zfs/snapshot/s1"),
        from_requested_dir: r("/tank"),
    };
    let step = recurse_behind_deleted_dir(&config, &within, &tree()).unwrap();
    assert_eq!(
        step.entries,
        vec![phantom("/tank/gone/x", FileType::File), phantom("/tank/gone/sub", FileType::Dir)]
    );
    assert_eq!(
        step.behind,
        vec![BehindDeletedDir {
            dir_name: r("sub"),
            from_deleted_dir: r("/tank/.zfs/snapshot/s1/gone"),
            from_requested_dir: r("/tank/gone"),
        }]
    );
    let missing = BehindDeletedDir {
        dir_name: r("void"),
        from_deleted_dir: r("/tank/.zfs/snapshot/s1"),
        from_requested_dir: r("/tank"),
    };
    assert_eq!(
        recurse_behind_deleted_dir(&config, &missing, &tree()).err(),
        Some(HttmError::IoError(IoErrorKind::Other, r("/tank/.zfs/snapshot/s1/void")))
    );
}

#[test]
fn only_what_a_directory_can_list_is_taken() {
    let mut listings = Listings::new();
    assert!(listings.get(&r("/tank")).is_none());
    assert!(listings.insert(r("/tank"), vec![file("/tank/a"), dir("/tank/dir")]));
    assert_eq!(
        listings.get(&r("/tank")).map(|entries| both(entries.clone())),
        Some(vec![(r("/tank/a"), Some(FileType::File)), (r("/tank/dir"), Some(FileType::Dir))])
    );
    // an entry of another directory
    assert!(!listings.insert(r("/tank/dir"), vec![file("/tank/dir/b"), file("/tank/a")]));
    assert!(listings.get(&r("/tank/dir")).is_none());
    // an entry from further down, the directory itself, and a path twice
    assert!(!listings.insert(r("/tank"), vec![file("/tank/dir/b")]));
    assert!(!listings.insert(r("/tank"), vec![dir("/tank")]));
    assert!(!listings.insert(r("/tank"), vec![file("/tank/a"), dir("/tank/a")]));
    // what the directory listed before stays
    assert_eq!(
        listings.get(&r("/tank")).map(|entries| both(entries.clone())),
        Some(vec![(r("/tank/a"), Some(FileType::File)), (r("/tank/dir"), Some(FileType::Dir))])
    );
    // an empty directory
    assert!(listings.insert(r("/tank/dir"), vec![]));
    assert_eq!(listings.get(&r("/tank/dir")).map(|entries| entries.len()), Some(0));
    // a later listing takes the place of the earlier one
    assert!(listings.insert(r("/tank"), vec![file("/tank/z")]));
    assert_eq!(
        listings.get(&r("/tank")).map(|entries| both(entries.clone())),
        Some(vec![(r("/tank/z"), Some(FileType::File))])
    );
}

#[test]
fn listing_is_of_names_put_below_the_directory() {
    assert!(is_listing(&r("/tank"), &vec![file("/tank/a"), file("/tank/b")]));
    assert!(is_listing(&r("/tank/"), &vec![file("/tank/a")]));
    assert!(is_listing(&r("/"), &vec![file("/a")]));
    assert!(is_listing(&r(""), &vec![file("a")]));
    assert!(is_listing(&r("."), &vec![file("./a")]));
    assert!(is_listing(&r("/tank"), &vec![]));
    assert!(!is_listing(&r("/tank/"), &vec![file("/tank//a")]));
    assert!(!is_listing(&r("/tank"), &vec![file("/tank/..")]));
    assert!(!is_listing(&r("/tank"), &vec![file("/tank/")]));
    assert!(!is_listing(&r("/tank"), &vec![file("/tan/k")]));
    assert!(!is_listing(&r("/tank"), &vec![file("/tank/a"), file("/tank/b"), file("/tank/a")]));
}

#[test]
fn a_listing_that_is_refused_leaves_the_directory_unlisted() {
    let mut disk = DiskView::new();
    assert!(!disk.listings.insert(r("/tank"), vec![file("/elsewhere/a")]));
    assert!(disk.read_dir(&r("/tank")).is_none());
    let config = browse_config(DeletedMode::Disabled, true);
    assert_eq!(browse(&config, "/tank", &disk, usize::MAX), vec![]);
}

#[test]
fn walk_from_a_directory_written_with_a_separator_at_its_end() {
    let mut disk = DiskView::new();
    assert!(disk.listings.insert(r("/tank/"), vec![file("/tank/a"), dir("/tank/dir")]));
    assert!(disk.listings.insert(r("/tank/dir"), vec![file("/tank/dir/b"), dir("/tank/dir/sub")]));
    assert!(disk.listings.insert(r("/tank/dir/sub"), vec![file("/tank/dir/sub/c")]));
    let config = browse_config(DeletedMode::Disabled, true);
    let sent = browse(&config, "/tank/", &disk, usize::MAX);
    assert_eq!(
        sent,
        vec![
            live("/tank/a", FileType::File),
            live("/tank/dir", FileType::Dir),
            live("/tank/dir/b", FileType::File),
            live("/tank/dir/sub", FileType::Dir),
            live("/tank/dir/sub/c", FileType::File),
        ]
    );
    for candidate in &sent {
        assert_eq!(sent.iter().filter(|other| other.path == candidate.path).count(), 1);
    }
}

#[test]
fn phantoms_show_below_a_directory_written_with_a_separator_at_its_end() {
    let config = browse_config(DeletedMode::Enabled, true);
    let within = BehindDeletedDir {
        dir_name: r("gone"),
        from_deleted_dir: r("/tank/.zfs/snapshot/s1"),
        from_requested_dir: r("/tank/"),
    };
    let step = recurse_behind_deleted_dir(&config, &within, &tree()).unwrap();
    assert_eq!(
        step.entries,
        vec![phantom("/tank/gone/x", FileType::File), phantom("/tank/gone/sub", FileType::Dir)]
    );
    assert_eq!(
        step.behind,
        vec![BehindDeletedDir {
            dir_name: r("sub"),
            from_deleted_dir: r("/tank/.zfs/snapshot/s1/gone"),
            from_requested_dir: r("/tank/gone"),
        }]
    );
}
