//! The walk of a live tree: which entries of a directory are shown, which
//! directories the walk goes on into, and what is brought back from the
//! snapshots of each directory. The caller lists the directories and sends
//! what is to be shown; the decisions are made here.

use crate::config::{Config, DeletedMode};
use crate::data::disk::DiskView;
use crate::data::paths::{BasicDirEntryInfo, BasicDirEntryInfoView, FileType};
use crate::data::selection::{
    selection_views, PathProvenance, SelectionCandidate, SelectionCandidateView,
};
use crate::deleted::{dir_entry_views, get_unique_deleted, unique_deleted};
use crate::library::results::{HttmError, HttmErrorView, HttmResult, IoErrorKind};
use crate::library::utility::{counts_as_dir, httm_is_dir};
use crate::path::{
    bytes_eq, count_components, ends_with, ends_with_path, file_name, file_name_of, join,
    join_paths, parent, parent_of, SEPARATOR,
};
use crate::{
    btrfs_snapper_hidden_directory, btrfs_snapper_hidden_directory_bytes, zfs_hidden_directory,
    zfs_hidden_directory_bytes,
};
use std::collections::VecDeque;
use vstd::prelude::*;

verus! {

/// Whether the walk passes by the directory at `path`: a hidden snapshot
/// directory, the directory that holds the snapshots of all datasets, and a
/// mount that holds no snapshots are passed by; but the directory that the
/// user asked for is always walked.
pub open spec fn exclude_path(path: Seq<u8>, config: &Config) -> bool {
    if config.opt_requested_dir matches Some(requested) && requested@ == path {
        false
    } else if ends_with(path, zfs_hidden_directory()) || ends_with(
        path,
        btrfs_snapper_hidden_directory(),
    ) {
        true
    } else if config.dataset_collection.opt_common_snap_dir matches Some(common)
        && common@ == path {
        true
    } else {
        config.dataset_collection.filter_dirs@.dom().contains(path)
    }
}

/// Whether `entry` is taken for a directory: by its kind alone where links
/// are not to be followed and the kind is known, else as `counts_as_dir`
/// tells.
pub open spec fn entry_is_dir(
    entry: BasicDirEntryInfoView,
    config: &Config,
    disk: &DiskView,
) -> bool {
    if config.opt_no_traverse && entry.opt_filetype is Some {
        entry.opt_filetype == Some(FileType::Dir)
    } else {
        counts_as_dir(entry.opt_filetype, entry.path, disk)
    }
}

/// Whether `entry` is shown at all: everything is, but for the directories
/// that the walk passes by, unless the request asks for no filtering.
pub open spec fn is_admitted(entry: BasicDirEntryInfoView, config: &Config) -> bool {
    config.opt_no_filter || !(entry.opt_filetype == Some(FileType::Dir) && exclude_path(
        entry.path,
        config,
    ))
}

/// The entries that `keep` holds of, in the order they stand in.
pub open spec fn entries_where(
    entries: Seq<BasicDirEntryInfoView>,
    keep: spec_fn(BasicDirEntryInfoView) -> bool,
) -> Seq<BasicDirEntryInfoView>
    decreases entries.len(),
{
    if entries.len() == 0 {
        entries
    } else if keep(entries.last()) {
        entries_where(entries.drop_last(), keep).push(entries.last())
    } else {
        entries_where(entries.drop_last(), keep)
    }
}

/// The entries that are shown, in the order they were read in.
pub open spec fn admitted_entries(
    entries: Seq<BasicDirEntryInfoView>,
    config: &Config,
) -> Seq<BasicDirEntryInfoView> {
    entries_where(entries, |entry: BasicDirEntryInfoView| is_admitted(entry, config))
}

/// What is sent of the live entries of a directory: the entries that are
/// shown, in the order they were read in; nothing where only deleted
/// entries are asked for.
pub open spec fn live_entries_to_send(
    entries: Seq<BasicDirEntryInfoView>,
    config: &Config,
) -> Seq<SelectionCandidateView> {
    if config.deleted_mode == DeletedMode::Only {
        Seq::empty()
    } else {
        selections(admitted_entries(entries, config), PathProvenance::FromLiveDataset)
    }
}

/// The directories among the entries that are shown.
pub open spec fn partitioned_dirs(
    entries: Seq<BasicDirEntryInfoView>,
    config: &Config,
    disk: &DiskView,
) -> Seq<BasicDirEntryInfoView> {
    entries_where(
        entries,
        |entry: BasicDirEntryInfoView| is_admitted(entry, config) && entry_is_dir(entry, config, disk),
    )
}

/// The entries that are shown and are no directories.
pub open spec fn partitioned_files(
    entries: Seq<BasicDirEntryInfoView>,
    config: &Config,
    disk: &DiskView,
) -> Seq<BasicDirEntryInfoView> {
    entries_where(
        entries,
        |entry: BasicDirEntryInfoView|
            is_admitted(entry, config) && !entry_is_dir(entry, config, disk),
    )
}

/// The entries as they would show below `pseudo_live_dir`; an entry whose
/// path has no file name is left out.
pub open spec fn pseudo_live_versions(
    entries: Seq<BasicDirEntryInfoView>,
    pseudo_live_dir: Seq<u8>,
) -> Seq<BasicDirEntryInfoView>
    decreases entries.len(),
{
    if entries.len() == 0 {
        entries
    } else {
        let before = pseudo_live_versions(entries.drop_last(), pseudo_live_dir);
        match entries.last().pseudo_live_version(pseudo_live_dir) {
            Some(entry) => before.push(entry),
            None => before,
        }
    }
}

/// The entries as candidates for selection.
pub open spec fn selections(
    entries: Seq<BasicDirEntryInfoView>,
    is_phantom: PathProvenance,
) -> Seq<SelectionCandidateView> {
    entries.map_values(|entry: BasicDirEntryInfoView| entry.selection(is_phantom))
}

/// What is sent of entries that are parted into files and directories: the
/// files, then the directories. Entries from a snapshot are sent as they
/// would show in the live directory, marked as phantoms; live entries are
/// sent as they are, but not at all where only deleted entries are asked
/// for.
pub open spec fn entries_to_send(
    files: Seq<BasicDirEntryInfoView>,
    dirs: Seq<BasicDirEntryInfoView>,
    is_phantom: bool,
    requested_dir: Seq<u8>,
    config: &Config,
) -> Seq<SelectionCandidateView> {
    if is_phantom {
        selections(pseudo_live_versions(files + dirs, requested_dir), PathProvenance::IsPhantom)
    } else if config.deleted_mode == DeletedMode::Only {
        Seq::empty()
    } else {
        selections(files + dirs, PathProvenance::FromLiveDataset)
    }
}

impl BasicDirEntryInfo {
    /// Whether the entry is taken for a directory when a tree is walked.
    pub fn is_entry_dir(&self, config: &Config, disk: &DiskView) -> (r: bool)
        ensures
            r == entry_is_dir(self@, config, disk),
    {
        // the kind that the listing gave says whether a link is a link
        if config.opt_no_traverse {
            if let Some(file_type) = self.opt_filetype {
                return match file_type {
                    FileType::Dir => true,
                    _ => false,
                };
            }
        }
        httm_is_dir(self, disk)
    }

    /// Whether the walk passes by the directory at the path of the entry.
    pub fn is_exclude_path(&self, config: &Config) -> (r: bool)
        ensures
            r == exclude_path(self@.path, config),
    {
        let path = &self.path;
        // what the user asked for is shown
        if let Some(user_requested_dir) = &config.opt_requested_dir {
            if bytes_eq(user_requested_dir, path) {
                return false;
            }
        }
        // a snapshot directory is no place to look for live files
        if ends_with_path(path, &zfs_hidden_directory_bytes()) || ends_with_path(
            path,
            &btrfs_snapper_hidden_directory_bytes(),
        ) {
            return true;
        }
        if let Some(common_snap_dir) = &config.dataset_collection.opt_common_snap_dir {
            if bytes_eq(path, common_snap_dir) {
                return true;
            }
        }
        // no filter dir has more components than the longest of them
        let max_len = config.dataset_collection.filter_dirs.max_len();
        if count_components(path) > max_len {
            return false;
        }
        config.dataset_collection.filter_dirs.contains_key(path)
    }
}

/// Tests whether the walk passes by the directory `entry`.
pub fn is_filter_dir(config: &Config, entry: &BasicDirEntryInfo) -> (r: bool)
    ensures
        r == exclude_path(entry@.path, config),
{
    entry.is_exclude_path(config)
}

/// The entries of the directory `requested_dir` that are shown, parted into
/// directories and others. Fails where the directory could not be listed.
pub fn get_entries_partitioned(config: &Config, requested_dir: &Vec<u8>, disk: &DiskView) -> (r:
    HttmResult<(Vec<BasicDirEntryInfo>, Vec<BasicDirEntryInfo>)>)
    ensures
        match r {
            Ok((vec_dirs, vec_files)) => disk.spec_read_dir(requested_dir@) matches Some(
                entries,
            ) && dir_entry_views(vec_dirs@) == partitioned_dirs(
                dir_entry_views(entries@),
                config,
                disk,
            ) && dir_entry_views(vec_files@) == partitioned_files(
                dir_entry_views(entries@),
                config,
                disk,
            ),
            Err(e) => disk.spec_read_dir(requested_dir@) is None && e@ == HttmErrorView::IoError(
                IoErrorKind::Other,
                requested_dir@,
            ),
        },
{
    let entries = match disk.read_dir(requested_dir) {
        Some(entries) => entries,
        None => {
            return Err(HttmError::IoError(IoErrorKind::Other, requested_dir.clone()));
        },
    };
    let ghost all = dir_entry_views(entries@);
    let mut vec_dirs: Vec<BasicDirEntryInfo> = Vec::new();
    let mut vec_files: Vec<BasicDirEntryInfo> = Vec::new();
    let mut i: usize = 0;
    assert(all.subrange(0, 0) =~= Seq::<BasicDirEntryInfoView>::empty());
    assert(dir_entry_views(vec_dirs@) =~= Seq::<BasicDirEntryInfoView>::empty());
    assert(dir_entry_views(vec_files@) =~= Seq::<BasicDirEntryInfoView>::empty());
    while i < entries.len()
        invariant
            i <= entries.len(),
            all == dir_entry_views(entries@),
            dir_entry_views(vec_dirs@) == partitioned_dirs(all.subrange(0, i as int), config, disk),
            dir_entry_views(vec_files@) == partitioned_files(
                all.subrange(0, i as int),
                config,
                disk,
            ),
        decreases entries.len() - i,
    {
        let ghost dirs_before = dir_entry_views(vec_dirs@);
        let ghost files_before = dir_entry_views(vec_files@);
        proof {
            let upto = all.subrange(0, i + 1);
            assert(upto.drop_last() =~= all.subrange(0, i as int));
            assert(upto.last() == entries@[i as int]@);
        }
        let entry = &entries[i];
        let is_dir_by_kind = match entry.opt_filetype {
            Some(FileType::Dir) => true,
            _ => false,
        };
        let admitted = config.opt_no_filter || !(is_dir_by_kind && is_filter_dir(config, entry));
        if admitted {
            let shown = entry.clone();
            if entry.is_entry_dir(config, disk) {
                vec_dirs.push(shown);
                assert(dir_entry_views(vec_dirs@) =~= dirs_before.push(shown@));
            } else {
                vec_files.push(shown);
                assert(dir_entry_views(vec_files@) =~= files_before.push(shown@));
            }
        }
        i += 1;
    }
    assert(all.subrange(0, entries.len() as int) =~= all);
    Ok((vec_dirs, vec_files))
}

/// The live entries of a directory that are to be sent, in the order they
/// were read in.
pub fn get_live_entries_to_send(config: &Config, entries: &Vec<BasicDirEntryInfo>) -> (r: Vec<
    SelectionCandidate,
>)
    ensures
        selection_views(r@) == live_entries_to_send(dir_entry_views(entries@), config),
{
    let ghost all = dir_entry_views(entries@);
    let mut shown: Vec<BasicDirEntryInfo> = Vec::new();
    let only_deleted = match config.deleted_mode {
        DeletedMode::Only => true,
        _ => false,
    };
    if only_deleted {
        // the deleted entries are sent by the search for them
        let nothing: Vec<SelectionCandidate> = Vec::new();
        assert(selection_views(nothing@) =~= Seq::<SelectionCandidateView>::empty());
        return nothing;
    }
    let mut i: usize = 0;
    assert(all.subrange(0, 0) =~= Seq::<BasicDirEntryInfoView>::empty());
    assert(dir_entry_views(shown@) =~= Seq::<BasicDirEntryInfoView>::empty());
    while i < entries.len()
        invariant
            i <= entries.len(),
            all == dir_entry_views(entries@),
            dir_entry_views(shown@) == admitted_entries(all.subrange(0, i as int), config),
        decreases entries.len() - i,
    {
        let ghost before = dir_entry_views(shown@);
        proof {
            let upto = all.subrange(0, i + 1);
            assert(upto.drop_last() =~= all.subrange(0, i as int));
            assert(upto.last() == entries@[i as int]@);
        }
        let entry = &entries[i];
        let is_dir_by_kind = match entry.opt_filetype {
            Some(FileType::Dir) => true,
            _ => false,
        };
        if config.opt_no_filter || !(is_dir_by_kind && is_filter_dir(config, entry)) {
            let admitted = entry.clone();
            shown.push(admitted);
            assert(dir_entry_views(shown@) =~= before.push(admitted@));
        }
        i += 1;
    }
    assert(all.subrange(0, entries.len() as int) =~= all);
    into_selections(shown, PathProvenance::FromLiveDataset)
}

/// The entries as they would show below `pseudo_live_dir`: entries that were
/// found in a snapshot, put back under the directory they once were in.
pub fn get_pseudo_live_versions(entries: Vec<BasicDirEntryInfo>, pseudo_live_dir: &Vec<u8>) -> (r:
    Vec<BasicDirEntryInfo>)
    ensures
        dir_entry_views(r@) == pseudo_live_versions(dir_entry_views(entries@), pseudo_live_dir@),
{
    let ghost all = dir_entry_views(entries@);
    let mut shown: Vec<BasicDirEntryInfo> = Vec::new();
    let mut i: usize = 0;
    assert(all.subrange(0, 0) =~= Seq::<BasicDirEntryInfoView>::empty());
    assert(dir_entry_views(shown@) =~= Seq::<BasicDirEntryInfoView>::empty());
    while i < entries.len()
        invariant
            i <= entries.len(),
            all == dir_entry_views(entries@),
            dir_entry_views(shown@) == pseudo_live_versions(
                all.subrange(0, i as int),
                pseudo_live_dir@,
            ),
        decreases entries.len() - i,
    {
        let ghost before = dir_entry_views(shown@);
        proof {
            let upto = all.subrange(0, i + 1);
            assert(upto.drop_last() =~= all.subrange(0, i as int));
            assert(upto.last() == entries@[i as int]@);
        }
        if let Some(entry) = entries[i].clone().into_pseudo_live_version(pseudo_live_dir) {
            shown.push(entry);
            assert(dir_entry_views(shown@) =~= before.push(entry@));
        }
        i += 1;
    }
    assert(all.subrange(0, entries.len() as int) =~= all);
    shown
}

/// The entries as candidates for selection.
pub fn into_selections(entries: Vec<BasicDirEntryInfo>, is_phantom: PathProvenance) -> (r: Vec<
    SelectionCandidate,
>)
    ensures
        selection_views(r@) == selections(dir_entry_views(entries@), is_phantom),
{
    let mut candidates: Vec<SelectionCandidate> = Vec::new();
    let mut i: usize = 0;
    while i < entries.len()
        invariant
            i <= entries.len(),
            selection_views(candidates@) == selections(
                dir_entry_views(entries@),
                is_phantom,
            ).subrange(0, i as int),
        decreases entries.len() - i,
    {
        let ghost before = selection_views(candidates@);
        let candidate = entries[i].clone().into_selection(&is_phantom);
        candidates.push(candidate);
        assert(selection_views(candidates@) =~= before.push(candidate@));
        assert(selections(dir_entry_views(entries@), is_phantom).subrange(0, i + 1)
            =~= before.push(candidate@));
        i += 1;
    }
    assert(selections(dir_entry_views(entries@), is_phantom).subrange(0, entries.len() as int)
        =~= selections(dir_entry_views(entries@), is_phantom));
    candidates
}

/// What is to be sent of the entries of `requested_dir`: the files, then the
/// directories, as `entries_to_send` tells. The caller sends them.
pub fn combine_and_send_entries(
    config: &Config,
    vec_files: Vec<BasicDirEntryInfo>,
    vec_dirs: &Vec<BasicDirEntryInfo>,
    is_phantom: bool,
    requested_dir: &Vec<u8>,
) -> (r: Vec<SelectionCandidate>)
    ensures
        selection_views(r@) == entries_to_send(
            dir_entry_views(vec_files@),
            dir_entry_views(vec_dirs@),
            is_phantom,
            requested_dir@,
            config,
        ),
{
    let ghost files = dir_entry_views(vec_files@);
    let ghost dirs = dir_entry_views(vec_dirs@);
    let mut combined = vec_files;
    let mut i: usize = 0;
    assert(dir_entry_views(combined@) =~= files + dirs.subrange(0, 0));
    while i < vec_dirs.len()
        invariant
            i <= vec_dirs.len(),
            dirs == dir_entry_views(vec_dirs@),
            dir_entry_views(combined@) == files + dirs.subrange(0, i as int),
        decreases vec_dirs.len() - i,
    {
        let ghost before = dir_entry_views(combined@);
        let dir = vec_dirs[i].clone();
        combined.push(dir);
        assert(dir_entry_views(combined@) =~= before.push(dir@));
        assert(files + dirs.subrange(0, i + 1) =~= before.push(dir@));
        i += 1;
    }
    assert(dirs.subrange(0, vec_dirs.len() as int) =~= dirs);
    if is_phantom {
        into_selections(
            get_pseudo_live_versions(combined, requested_dir),
            PathProvenance::IsPhantom,
        )
    } else {
        match config.deleted_mode {
            // the deleted entries are sent by the search for them
            DeletedMode::Only => {
                let nothing: Vec<SelectionCandidate> = Vec::new();
                assert(selection_views(nothing@) =~= Seq::<SelectionCandidateView>::empty());
                nothing
            },
            DeletedMode::DepthOfOne | DeletedMode::Enabled | DeletedMode::Disabled => {
                into_selections(combined, PathProvenance::FromLiveDataset)
            },
        }
    }
}

/// Whether a search for deleted entries is to be started for each directory
/// that is walked.
pub fn spawn_deleted(config: &Config) -> (r: bool)
    ensures
        r == (config.deleted_mode != DeletedMode::Disabled),
{
    match config.deleted_mode {
        DeletedMode::Only | DeletedMode::DepthOfOne | DeletedMode::Enabled => true,
        DeletedMode::Disabled => false,
    }
}

/// What the walk of one live directory comes to: what the caller is to send,
/// and whether it is to start a search for the deleted entries of the
/// directory.
#[derive(Debug)]
pub struct LiveStep {
    pub entries: Vec<SelectionCandidate>,
    pub spawn_deleted: bool,
}

/// The outcome of the walk of one live directory, as a value.
pub struct LiveStepView {
    pub entries: Seq<SelectionCandidateView>,
    pub spawn_deleted: bool,
}

impl View for LiveStep {
    type V = LiveStepView;

    open spec fn view(&self) -> LiveStepView {
        LiveStepView { entries: selection_views(self.entries@), spawn_deleted: self.spawn_deleted }
    }
}

/// The walk of a live tree: the directories that are still to be walked,
/// the last one first.
#[derive(Debug)]
pub struct RecursiveSearch {
    queue: VecDeque<BasicDirEntryInfo>,
    primed: bool,
    cancelled: bool,
}

/// A walk as a value.
pub struct RecursiveSearchView {
    /// The directories still to be walked; the last is walked next.
    pub queue: Seq<BasicDirEntryInfoView>,
    /// Whether the directory that the walk starts from has been walked.
    pub primed: bool,
    /// Whether the walk was called off.
    pub cancelled: bool,
}

impl View for RecursiveSearch {
    type V = RecursiveSearchView;

    closed spec fn view(&self) -> RecursiveSearchView {
        RecursiveSearchView {
            queue: dir_entry_views(self.queue@),
            primed: self.primed,
            cancelled: self.cancelled,
        }
    }
}

impl RecursiveSearchView {
    /// The walk after it was called off: nothing is left to walk.
    pub open spec fn called_off(self) -> RecursiveSearchView {
        RecursiveSearchView { queue: Seq::empty(), primed: self.primed, cancelled: true }
    }

    /// The walk after the caller asked for the next directory, having seen
    /// the signal to stop or not, and the directory that it is given.
    pub open spec fn next_dir(self, cancel_observed: bool) -> (RecursiveSearchView, Option<
        Seq<u8>,
    >) {
        if self.cancelled || cancel_observed {
            (self.called_off(), None)
        } else if self.queue.len() == 0 {
            (self, None)
        } else {
            (
                RecursiveSearchView { queue: self.queue.drop_last(), ..self },
                Some(self.queue.last().path),
            )
        }
    }

    /// The walk after the directory `requested_dir` was walked, and what
    /// the walk of the directory comes to. A walk that was called off sends
    /// nothing. A directory that could not be listed sends nothing either;
    /// where it is the directory that the walk starts from, the walk fails
    /// and is over.
    pub open spec fn enumerate_live(
        self,
        config: &Config,
        requested_dir: Seq<u8>,
        disk: &DiskView,
    ) -> (RecursiveSearchView, Result<LiveStepView, HttmErrorView>) {
        let nothing = LiveStepView { entries: Seq::empty(), spawn_deleted: false };
        if self.cancelled {
            (self, Ok(nothing))
        } else {
            match disk.spec_read_dir(requested_dir) {
                Some(entries) => {
                    let vec_dirs = partitioned_dirs(dir_entry_views(entries@), config, disk);
                    (
                        RecursiveSearchView {
                            queue: if config.opt_recursive {
                                self.queue + vec_dirs
                            } else {
                                self.queue
                            },
                            primed: true,
                            cancelled: false,
                        },
                        Ok(
                            LiveStepView {
                                entries: live_entries_to_send(dir_entry_views(entries@), config),
                                spawn_deleted: config.deleted_mode != DeletedMode::Disabled,
                            },
                        ),
                    )
                },
                None => if self.primed {
                    (self, Ok(nothing))
                } else {
                    (
                        self.called_off(),
                        Err(HttmErrorView::IoError(IoErrorKind::Other, requested_dir)),
                    )
                },
            }
        }
    }
}

/// A walk that starts from the directory `requested_dir`.
pub open spec fn walk_from(requested_dir: Seq<u8>) -> RecursiveSearchView {
    RecursiveSearchView {
        queue: seq![
            BasicDirEntryInfoView { path: requested_dir, opt_filetype: Some(FileType::Dir) },
        ],
        primed: false,
        cancelled: false,
    }
}

impl RecursiveSearch {
    /// A walk that starts from the directory `requested_dir`.
    pub fn new(requested_dir: &Vec<u8>) -> (r: Self)
        ensures
            r@ == walk_from(requested_dir@),
    {
        let root = BasicDirEntryInfo {
            path: requested_dir.clone(),
            opt_filetype: Some(FileType::Dir),
        };
        let mut queue: VecDeque<BasicDirEntryInfo> = VecDeque::new();
        queue.push_back(root);
        assert(dir_entry_views(queue@) =~= seq![root@]);
        RecursiveSearch { queue, primed: false, cancelled: false }
    }

    /// Whether the walk was called off.
    pub fn is_cancelled(&self) -> (r: bool)
        ensures
            r == self@.cancelled,
    {
        self.cancelled
    }

    /// Calls the walk off: the directories still to be walked are dropped.
    pub fn cancel(&mut self)
        ensures
            final(self)@ == old(self)@.called_off(),
    {
        self.queue = VecDeque::new();
        self.cancelled = true;
        assert(dir_entry_views(self.queue@) =~= Seq::<BasicDirEntryInfoView>::empty());
    }

    /// The directory to walk next: the one that was found last. The caller
    /// says whether it has seen the signal to stop; if so the walk is called
    /// off and no directory is given, now or later.
    pub fn next_dir(&mut self, cancel_observed: bool) -> (r: Option<Vec<u8>>)
        ensures
            final(self)@ == old(self)@.next_dir(cancel_observed).0,
            match r {
                Some(dir) => old(self)@.next_dir(cancel_observed).1 == Some(dir@),
                None => old(self)@.next_dir(cancel_observed).1 is None,
            },
    {
        if self.cancelled || cancel_observed {
            self.cancel();
            return None;
        }
        let ghost before = dir_entry_views(self.queue@);
        // the last one in is the first one out
        match self.queue.pop_back() {
            Some(item) => {
                assert(dir_entry_views(self.queue@) =~= before.drop_last());
                assert(before.last() == item@);
                Some(item.path)
            },
            None => None,
        }
    }

    /// Walks the directory `requested_dir`: tells what of its entries the
    /// caller is to send and whether a search for deleted entries is to be
    /// started for it, and keeps its directories for the walk to go on into
    /// where the request asks for that.
    pub fn enumerate_live(&mut self, config: &Config, requested_dir: &Vec<u8>, disk: &DiskView) -> (r:
        HttmResult<LiveStep>)
        ensures
            final(self)@ == old(self)@.enumerate_live(config, requested_dir@, disk).0,
            match r {
                Ok(step) => old(self)@.enumerate_live(config, requested_dir@, disk).1 == Ok::<
                    LiveStepView,
                    HttmErrorView,
                >(step@),
                Err(e) => old(self)@.enumerate_live(config, requested_dir@, disk).1 == Err::<
                    LiveStepView,
                    HttmErrorView,
                >(e@),
            },
    {
        let nothing: Vec<SelectionCandidate> = Vec::new();
        assert(selection_views(nothing@) =~= Seq::<SelectionCandidateView>::empty());
        if self.cancelled {
            return Ok(LiveStep { entries: nothing, spawn_deleted: false });
        }
        // the directories are what the walk goes on into
        let (vec_dirs, _vec_files) = match get_entries_partitioned(config, requested_dir, disk) {
            Ok(partitioned) => partitioned,
            Err(e) => {
                // far too likely to run into a directory that may not be read
                if self.primed {
                    return Ok(LiveStep { entries: nothing, spawn_deleted: false });
                }
                self.cancel();
                return Err(e);
            },
        };
        let entries = match disk.read_dir(requested_dir) {
            Some(listing) => get_live_entries_to_send(config, listing),
            None => nothing,
        };
        self.primed = true;
        if config.opt_recursive {
            let ghost before = dir_entry_views(self.queue@);
            let ghost added = dir_entry_views(vec_dirs@);
            let mut i: usize = 0;
            assert(dir_entry_views(self.queue@) =~= before + added.subrange(0, 0));
            while i < vec_dirs.len()
                invariant
                    i <= vec_dirs.len(),
                    added == dir_entry_views(vec_dirs@),
                    dir_entry_views(self.queue@) == before + added.subrange(0, i as int),
                    self.primed,
                    !self.cancelled,
                decreases vec_dirs.len() - i,
            {
                let ghost so_far = dir_entry_views(self.queue@);
                let dir = vec_dirs[i].clone();
                self.queue.push_back(dir);
                assert(dir_entry_views(self.queue@) =~= so_far.push(dir@));
                assert(before + added.subrange(0, i + 1) =~= so_far.push(dir@));
                i += 1;
            }
            assert(added.subrange(0, vec_dirs.len() as int) =~= added);
        }
        Ok(LiveStep { entries, spawn_deleted: spawn_deleted(config) })
    }
}

/// Once a walk is called off it stays called off, gives out no directory
/// and sends nothing, whatever it is asked.
pub proof fn lemma_called_off_walk_is_over(
    search: RecursiveSearchView,
    cancel_observed: bool,
    config: &Config,
    requested_dir: Seq<u8>,
    disk: &DiskView,
)
    requires
        search.cancelled,
    ensures
        search.next_dir(cancel_observed).0.cancelled,
        search.next_dir(cancel_observed).0.queue.len() == 0,
        search.next_dir(cancel_observed).1 is None,
        search.enumerate_live(config, requested_dir, disk).0 == search,
        search.enumerate_live(config, requested_dir, disk).1 matches Ok(step)
            && step.entries.len() == 0 && !step.spawn_deleted,
{
}

/// A walk whose caller has seen the signal to stop is called off at once,
/// with nothing left to walk.
pub proof fn lemma_cancel_signal_calls_walk_off(search: RecursiveSearchView)
    ensures
        search.next_dir(true).0.cancelled,
        search.next_dir(true).0.queue.len() == 0,
        search.next_dir(true).1 is None,
{
}

/// A directory behind a deleted directory: its name, the directory in a
/// snapshot that holds it, and the directory that it is shown under.
#[derive(Debug, Clone, PartialEq, Eq)]
pub struct BehindDeletedDir {
    pub dir_name: Vec<u8>,
    pub from_deleted_dir: Vec<u8>,
    pub from_requested_dir: Vec<u8>,
}

/// A directory behind a deleted directory, as a value.
pub struct BehindDeletedDirView {
    pub dir_name: Seq<u8>,
    pub from_deleted_dir: Seq<u8>,
    pub from_requested_dir: Seq<u8>,
}

impl View for BehindDeletedDir {
    type V = BehindDeletedDirView;

    open spec fn view(&self) -> BehindDeletedDirView {
        BehindDeletedDirView {
            dir_name: self.dir_name@,
            from_deleted_dir: self.from_deleted_dir@,
            from_requested_dir: self.from_requested_dir@,
        }
    }
}

impl BehindDeletedDirView {
    /// Where the directory is in the snapshot.
    pub open spec fn deleted_dir_on_snap(self) -> Seq<u8> {
        join(self.from_deleted_dir, self.dir_name)
    }

    /// Where the directory is shown: the place it once had.
    pub open spec fn pseudo_live_dir(self) -> Seq<u8> {
        join(self.from_requested_dir, self.dir_name)
    }
}

/// The directories of a list, as values.
pub open spec fn behind_views(dirs: Seq<BehindDeletedDir>) -> Seq<BehindDeletedDirView> {
    dirs.map_values(|dir: BehindDeletedDir| dir@)
}

/// What the search for deleted entries comes to for one directory: what the
/// caller is to send, and the directories whose entries are to be brought
/// back next.
#[derive(Debug)]
pub struct DeletedStep {
    pub entries: Vec<SelectionCandidate>,
    pub behind: Vec<BehindDeletedDir>,
}

/// The outcome of a search for deleted entries, as a value.
pub struct DeletedStepView {
    pub entries: Seq<SelectionCandidateView>,
    pub behind: Seq<BehindDeletedDirView>,
}

impl View for DeletedStep {
    type V = DeletedStepView;

    open spec fn view(&self) -> DeletedStepView {
        DeletedStepView {
            entries: selection_views(self.entries@),
            behind: behind_views(self.behind@),
        }
    }
}

/// The deleted directory at `deleted_dir`, a path in a snapshot, as the
/// place to go on from: its name, the directory that holds it, and
/// `requested_dir` as the directory it is shown under.
pub open spec fn behind_deleted_dir(deleted_dir: Seq<u8>, requested_dir: Seq<u8>) -> Option<
    BehindDeletedDirView,
> {
    match file_name(deleted_dir) {
        Some(dir_name) => Some(
            BehindDeletedDirView {
                dir_name,
                from_deleted_dir: match parent(deleted_dir) {
                    Some(up) => up,
                    None => seq![SEPARATOR],
                },
                from_requested_dir: requested_dir,
            },
        ),
        None => None,
    }
}

/// The places to go on from for each of the deleted directories; one whose
/// path has no name is passed by.
pub open spec fn behind_deleted_dirs(
    dirs: Seq<BasicDirEntryInfoView>,
    requested_dir: Seq<u8>,
) -> Seq<BehindDeletedDirView>
    decreases dirs.len(),
{
    if dirs.len() == 0 {
        Seq::empty()
    } else {
        let before = behind_deleted_dirs(dirs.drop_last(), requested_dir);
        match behind_deleted_dir(dirs.last().path, requested_dir) {
            Some(behind) => before.push(behind),
            None => before,
        }
    }
}

/// The places to go on from below the directory `within`: one for each of
/// its directories; one whose path has no name is passed by.
pub open spec fn behind_sub_dirs(
    dirs: Seq<BasicDirEntryInfoView>,
    within: BehindDeletedDirView,
) -> Seq<BehindDeletedDirView>
    decreases dirs.len(),
{
    if dirs.len() == 0 {
        Seq::empty()
    } else {
        let before = behind_sub_dirs(dirs.drop_last(), within);
        match file_name(dirs.last().path) {
            Some(dir_name) => before.push(
                BehindDeletedDirView {
                    dir_name,
                    from_deleted_dir: within.deleted_dir_on_snap(),
                    from_requested_dir: within.pseudo_live_dir(),
                },
            ),
            None => before,
        }
    }
}

/// The entries whose kind is known to be that of a directory.
pub open spec fn entries_of_kind_dir(entries: Seq<BasicDirEntryInfoView>) -> Seq<
    BasicDirEntryInfoView,
> {
    entries_where(
        entries,
        |entry: BasicDirEntryInfoView| entry.opt_filetype == Some(FileType::Dir),
    )
}

/// The entries whose kind is not known to be that of a directory.
pub open spec fn entries_of_other_kind(entries: Seq<BasicDirEntryInfoView>) -> Seq<
    BasicDirEntryInfoView,
> {
    entries_where(
        entries,
        |entry: BasicDirEntryInfoView| !(entry.opt_filetype == Some(FileType::Dir)),
    )
}

/// What the search for the deleted entries of `requested_dir` comes to: the
/// deleted entries are sent as they once showed in the directory, the files
/// before the directories; and unless the search stops at the first level,
/// it goes on behind each deleted directory.
pub open spec fn deleted_step(requested_dir: Seq<u8>, config: &Config, disk: &DiskView) -> DeletedStepView {
    let deleted = unique_deleted(requested_dir, config, disk);
    let vec_dirs = entries_of_kind_dir(deleted);
    let vec_files = entries_of_other_kind(deleted);
    DeletedStepView {
        entries: entries_to_send(vec_files, vec_dirs, true, requested_dir, config),
        behind: if config.deleted_mode != DeletedMode::DepthOfOne && config.opt_recursive {
            behind_deleted_dirs(vec_dirs, requested_dir)
        } else {
            Seq::empty()
        },
    }
}

/// What the search behind one deleted directory comes to: the entries of the
/// directory in the snapshot are sent as they would show under the place
/// that the directory once had, and the search goes on behind each of its
/// directories. Fails where the directory in the snapshot could not be
/// listed.
pub open spec fn behind_step(
    within: BehindDeletedDirView,
    config: &Config,
    disk: &DiskView,
) -> Result<DeletedStepView, HttmErrorView> {
    match disk.spec_read_dir(within.deleted_dir_on_snap()) {
        Some(entries) => {
            let vec_dirs = partitioned_dirs(dir_entry_views(entries@), config, disk);
            let vec_files = partitioned_files(dir_entry_views(entries@), config, disk);
            Ok(
                DeletedStepView {
                    entries: entries_to_send(
                        vec_files,
                        vec_dirs,
                        true,
                        within.pseudo_live_dir(),
                        config,
                    ),
                    behind: behind_sub_dirs(vec_dirs, within),
                },
            )
        },
        None => Err(HttmErrorView::IoError(IoErrorKind::Other, within.deleted_dir_on_snap())),
    }
}

/// The place to go on from behind the deleted directory `deleted_dir`, which
/// is shown under `requested_dir`. Fails where the path of the directory
/// has no name.
pub fn get_entries_behind_deleted_dir(deleted_dir: &Vec<u8>, requested_dir: &Vec<u8>) -> (r:
    HttmResult<BehindDeletedDir>)
    ensures
        match r {
            Ok(behind) => behind_deleted_dir(deleted_dir@, requested_dir@) == Some(behind@),
            Err(e) => behind_deleted_dir(deleted_dir@, requested_dir@) is None && e@
                == HttmErrorView::BadInput(deleted_dir@),
        },
{
    match file_name_of(deleted_dir) {
        Some(dir_name) => {
            let from_deleted_dir = match parent_of(deleted_dir) {
                Some(up) => up,
                None => {
                    let root: Vec<u8> = vec![SEPARATOR];
                    assert(root@ =~= seq![SEPARATOR]);
                    root
                },
            };
            Ok(
                BehindDeletedDir {
                    dir_name,
                    from_deleted_dir,
                    from_requested_dir: requested_dir.clone(),
                },
            )
        },
        None => Err(HttmError::BadInput(deleted_dir.clone())),
    }
}

/// Parts the entries into those of kind directory and the others.
fn partition_by_kind(entries: Vec<BasicDirEntryInfo>) -> (r: (
    Vec<BasicDirEntryInfo>,
    Vec<BasicDirEntryInfo>,
))
    ensures
        dir_entry_views(r.0@) == entries_of_kind_dir(dir_entry_views(entries@)),
        dir_entry_views(r.1@) == entries_of_other_kind(dir_entry_views(entries@)),
{
    let ghost all = dir_entry_views(entries@);
    let mut vec_dirs: Vec<BasicDirEntryInfo> = Vec::new();
    let mut vec_files: Vec<BasicDirEntryInfo> = Vec::new();
    let mut i: usize = 0;
    assert(all.subrange(0, 0) =~= Seq::<BasicDirEntryInfoView>::empty());
    assert(dir_entry_views(vec_dirs@) =~= Seq::<BasicDirEntryInfoView>::empty());
    assert(dir_entry_views(vec_files@) =~= Seq::<BasicDirEntryInfoView>::empty());
    while i < entries.len()
        invariant
            i <= entries.len(),
            all == dir_entry_views(entries@),
            dir_entry_views(vec_dirs@) == entries_of_kind_dir(all.subrange(0, i as int)),
            dir_entry_views(vec_files@) == entries_of_other_kind(all.subrange(0, i as int)),
        decreases entries.len() - i,
    {
        let ghost dirs_before = dir_entry_views(vec_dirs@);
        let ghost files_before = dir_entry_views(vec_files@);
        proof {
            let upto = all.subrange(0, i + 1);
            assert(upto.drop_last() =~= all.subrange(0, i as int));
            assert(upto.last() == entries@[i as int]@);
        }
        let entry = entries[i].clone();
        // no link is followed in a snapshot
        let is_dir_by_kind = match entry.opt_filetype {
            Some(FileType::Dir) => true,
            _ => false,
        };
        if is_dir_by_kind {
            vec_dirs.push(entry);
            assert(dir_entry_views(vec_dirs@) =~= dirs_before.push(entry@));
        } else {
            vec_files.push(entry);
            assert(dir_entry_views(vec_files@) =~= files_before.push(entry@));
        }
        i += 1;
    }
    assert(all.subrange(0, entries.len() as int) =~= all);
    (vec_dirs, vec_files)
}

/// Searches for the deleted entries of the directory `requested_dir`.
pub fn enumerate_deleted(config: &Config, requested_dir: &Vec<u8>, disk: &DiskView) -> (r:
    HttmResult<DeletedStep>)
    ensures
        r matches Ok(step) && step@ == deleted_step(requested_dir@, config, disk),
{
    // one entry for each name, the one that was modified last
    let deleted = match get_unique_deleted(config, requested_dir, disk) {
        Ok(deleted) => deleted,
        Err(_) => Vec::new(),
    };
    let (vec_dirs, vec_files) = partition_by_kind(deleted);
    let entries = combine_and_send_entries(config, vec_files, &vec_dirs, true, requested_dir);
    let mut behind: Vec<BehindDeletedDir> = Vec::new();
    assert(behind_views(behind@) =~= Seq::<BehindDeletedDirView>::empty());
    let goes_on = match config.deleted_mode {
        DeletedMode::DepthOfOne => false,
        _ => config.opt_recursive,
    };
    if goes_on {
        let ghost dirs = dir_entry_views(vec_dirs@);
        let mut i: usize = 0;
        assert(dirs.subrange(0, 0) =~= Seq::<BasicDirEntryInfoView>::empty());
        while i < vec_dirs.len()
            invariant
                i <= vec_dirs.len(),
                dirs == dir_entry_views(vec_dirs@),
                behind_views(behind@) == behind_deleted_dirs(
                    dirs.subrange(0, i as int),
                    requested_dir@,
                ),
            decreases vec_dirs.len() - i,
        {
            let ghost before = behind_views(behind@);
            proof {
                let upto = dirs.subrange(0, i + 1);
                assert(upto.drop_last() =~= dirs.subrange(0, i as int));
                assert(upto.last() == vec_dirs@[i as int]@);
            }
            if let Ok(next) = get_entries_behind_deleted_dir(&vec_dirs[i].path, requested_dir) {
                behind.push(next);
                assert(behind_views(behind@) =~= before.push(next@));
            }
            i += 1;
        }
        assert(dirs.subrange(0, vec_dirs.len() as int) =~= dirs);
    }
    Ok(DeletedStep { entries, behind })
}

/// Brings back the entries of one directory behind a deleted directory.
pub fn recurse_behind_deleted_dir(config: &Config, within: &BehindDeletedDir, disk: &DiskView) -> (r:
    HttmResult<DeletedStep>)
    ensures
        match r {
            Ok(step) => behind_step(within@, config, disk) == Ok::<DeletedStepView, HttmErrorView>(
                step@,
            ),
            Err(e) => behind_step(within@, config, disk) == Err::<DeletedStepView, HttmErrorView>(
                e@,
            ),
        },
{
    // where the directory is in the snapshot, and where it once was
    let deleted_dir_on_snap = join_paths(&within.from_deleted_dir, &within.dir_name);
    let pseudo_live_dir = join_paths(&within.from_requested_dir, &within.dir_name);
    let (vec_dirs, vec_files) = get_entries_partitioned(config, &deleted_dir_on_snap, disk)?;
    let entries = combine_and_send_entries(config, vec_files, &vec_dirs, true, &pseudo_live_dir);
    let mut behind: Vec<BehindDeletedDir> = Vec::new();
    let ghost dirs = dir_entry_views(vec_dirs@);
    let mut i: usize = 0;
    assert(dirs.subrange(0, 0) =~= Seq::<BasicDirEntryInfoView>::empty());
    assert(behind_views(behind@) =~= Seq::<BehindDeletedDirView>::empty());
    while i < vec_dirs.len()
        invariant
            i <= vec_dirs.len(),
            dirs == dir_entry_views(vec_dirs@),
            deleted_dir_on_snap@ == within@.deleted_dir_on_snap(),
            pseudo_live_dir@ == within@.pseudo_live_dir(),
            behind_views(behind@) == behind_sub_dirs(dirs.subrange(0, i as int), within@),
        decreases vec_dirs.len() - i,
    {
        let ghost before = behind_views(behind@);
        proof {
            let upto = dirs.subrange(0, i + 1);
            assert(upto.drop_last() =~= dirs.subrange(0, i as int));
            assert(upto.last() == vec_dirs@[i as int]@);
        }
        if let Some(dir_name) = file_name_of(&vec_dirs[i].path) {
            let next = BehindDeletedDir {
                dir_name,
                from_deleted_dir: deleted_dir_on_snap.clone(),
                from_requested_dir: pseudo_live_dir.clone(),
            };
            behind.push(next);
            assert(behind_views(behind@) =~= before.push(next@));
        }
        i += 1;
    }
    assert(dirs.subrange(0, vec_dirs.len() as int) =~= dirs);
    Ok(DeletedStep { entries, behind })
}

} // verus!
