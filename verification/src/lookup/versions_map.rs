//! The map from live paths to their versions that a request is answered
//! with.

use crate::config::{Config, LastSnapMode, ListSnapsOfType};
use crate::data::disk::DiskView;
use crate::data::paths::{PathData, PathDataView, PathMetadata};
use crate::library::results::{HttmError, HttmErrorView, HttmResult};
use crate::lookup::sorting::{
    lemma_unique_metadata_neighbours_differ, path_views, sort_by_mtime, sort_dedup,
};
use crate::lookup::versions::{bundles_of, lookup_versions, search_failure, Versions};
use crate::path::{bytes_eq, lemma_path_lt_total, lemma_path_lt_transitive, path_less, path_lt};
use vstd::prelude::*;

verus! {

/// A live path and the versions listed for it.
pub type VersionsEntryView = (PathDataView, Seq<PathDataView>);

/// The entries of a list, as values.
pub open spec fn entry_views(entries: Seq<(PathData, Vec<PathData>)>) -> Seq<VersionsEntryView> {
    entries.map_values(|entry: (PathData, Vec<PathData>)| (entry.0@, path_views(entry.1@)))
}

/// The entries with `versions` listed for the path of `live`: in place of
/// what was listed for that path before, or as a new entry where the order of
/// paths puts it.
pub open spec fn map_insert(
    entries: Seq<VersionsEntryView>,
    live: PathDataView,
    versions: Seq<PathDataView>,
) -> Seq<VersionsEntryView>
    decreases entries.len(),
{
    if entries.len() == 0 {
        seq![(live, versions)]
    } else if entries.last().0.path == live.path {
        entries.drop_last().push((entries.last().0, versions))
    } else if path_lt(entries.last().0.path, live.path) {
        entries.push((live, versions))
    } else {
        map_insert(entries.drop_last(), live, versions).push(entries.last())
    }
}

/// Whether the last version listed says nothing that the live path does
/// not: its metadata is that of the live path.
pub open spec fn live_version_redundant(live: PathDataView, snaps: Seq<PathDataView>) -> bool {
    snaps.len() > 0 && snaps.last().metadata == live.metadata
}

/// The versions without the last one, where that one is redundant.
pub open spec fn omit_ditto_of(live: PathDataView, snaps: Seq<PathDataView>) -> Seq<
    PathDataView,
> {
    if live_version_redundant(live, snaps) {
        snaps.drop_last()
    } else {
        snaps
    }
}

/// What is left of the versions where only the last one is asked for.
pub open spec fn last_snap_of(
    live: PathDataView,
    snaps: Seq<PathDataView>,
    mode: LastSnapMode,
) -> Seq<PathDataView> {
    if snaps.len() > 0 {
        let last = snaps.last();
        match mode {
            LastSnapMode::Any => seq![last],
            LastSnapMode::DittoOnly => if live.metadata == last.metadata {
                seq![last]
            } else {
                Seq::empty()
            },
            LastSnapMode::NoDittoExclusive | LastSnapMode::NoDittoInclusive => if live.metadata
                != last.metadata {
                seq![last]
            } else {
                Seq::empty()
            },
            LastSnapMode::Without => Seq::empty(),
        }
    } else {
        match mode {
            LastSnapMode::Without | LastSnapMode::NoDittoInclusive => seq![live],
            _ => Seq::empty(),
        }
    }
}

/// The entries with the redundant last version of each left out.
pub open spec fn omit_ditto_all(entries: Seq<VersionsEntryView>) -> Seq<VersionsEntryView> {
    entries.map_values(|entry: VersionsEntryView| (entry.0, omit_ditto_of(entry.0, entry.1)))
}

/// The entries with only the last version of each, as `mode` asks.
pub open spec fn last_snap_all(entries: Seq<VersionsEntryView>, mode: LastSnapMode) -> Seq<
    VersionsEntryView,
> {
    entries.map_values(|entry: VersionsEntryView| (entry.0, last_snap_of(entry.0, entry.1, mode)))
}

/// Whether nothing is on disk for any entry: no version, and no live file.
pub open spec fn nothing_found(entries: Seq<VersionsEntryView>) -> bool {
    forall|i: int|
        0 <= i < entries.len() ==> (#[trigger] entries[i]).1.len() == 0
            && entries[i].0.metadata is None
}

/// Whether the search for the versions of `live` cannot be made: the path
/// lies under no dataset, or not below the mount it was found under.
pub open spec fn cannot_be_searched(live: PathDataView, config: &Config) -> bool {
    bundles_of(live.path, config) is None
}

/// Whether the search can be made for none of the paths.
pub open spec fn none_searched(paths: Seq<PathDataView>, config: &Config) -> bool {
    forall|i: int| 0 <= i < paths.len() ==> cannot_be_searched(#[trigger] paths[i], config)
}

/// The versions of each live path, collected under the paths in order. A
/// path whose search cannot be made is passed by; a place in a snapshot that
/// the caller was not allowed to look at fails the whole.
pub open spec fn collect_versions(
    paths: Seq<PathDataView>,
    config: &Config,
    disk: &DiskView,
) -> Result<Seq<VersionsEntryView>, HttmErrorView>
    decreases paths.len(),
{
    if paths.len() == 0 {
        Ok(Seq::empty())
    } else {
        match collect_versions(paths.drop_last(), config, disk) {
            Ok(entries) => match lookup_versions(paths.last(), config, disk) {
                Ok(versions) => Ok(
                    map_insert(entries, versions.live_path, versions.snap_versions),
                ),
                Err(e) => if cannot_be_searched(paths.last(), config) {
                    Ok(entries)
                } else {
                    Err(e)
                },
            },
            Err(e) => Err(e),
        }
    }
}

/// What the request leaves of the versions collected.
pub open spec fn post_process(entries: Seq<VersionsEntryView>, config: &Config) -> Seq<
    VersionsEntryView,
> {
    let omitted = if config.opt_omit_ditto {
        omit_ditto_all(entries)
    } else {
        entries
    };
    match config.opt_last_snap {
        Some(mode) => last_snap_all(omitted, mode),
        None => omitted,
    }
}

/// The map of live paths to their versions that a request is answered with.
/// A path whose search cannot be made is left out of the map. The request
/// fails where a snapshot could not be looked at; where it names paths and
/// the search can be made for none of them, with the failure of the first
/// path; and where nothing is on disk for any path that is listed.
pub open spec fn versions_map_of(paths: Seq<PathDataView>, config: &Config, disk: &DiskView) -> Result<
    Seq<VersionsEntryView>,
    HttmErrorView,
> {
    match collect_versions(paths, config, disk) {
        Ok(entries) => if paths.len() > 0 && none_searched(paths, config) {
            Err(search_failure(paths[0].path, &config.dataset_collection))
        } else if nothing_found(entries) {
            Err(HttmErrorView::NoVersions)
        } else {
            Ok(post_process(entries, config))
        },
        Err(e) => Err(e),
    }
}

/// Live paths in the order of paths, each with the versions listed for it.
#[derive(Debug, PartialEq, Eq)]
pub struct VersionsMap {
    inner: Vec<(PathData, Vec<PathData>)>,
}

impl View for VersionsMap {
    type V = Seq<VersionsEntryView>;

    closed spec fn view(&self) -> Seq<VersionsEntryView> {
        entry_views(self.inner@)
    }
}

proof fn lemma_map_insert_at(
    entries: Seq<VersionsEntryView>,
    live: PathDataView,
    versions: Seq<PathDataView>,
    at: int,
)
    requires
        0 <= at <= entries.len(),
        forall|k: int|
            at <= k < entries.len() ==> entries[k].0.path != live.path && !path_lt(
                entries[k].0.path,
                live.path,
            ),
        at > 0 ==> entries[at - 1].0.path == live.path || path_lt(
            entries[at - 1].0.path,
            live.path,
        ),
    ensures
        map_insert(entries, live, versions) == if at > 0 && entries[at - 1].0.path == live.path {
            entries.update(at - 1, (entries[at - 1].0, versions))
        } else {
            entries.insert(at, (live, versions))
        },
    decreases entries.len(),
{
    if entries.len() == 0 {
        assert(entries.insert(at, (live, versions)) =~= seq![(live, versions)]);
    } else if at == entries.len() {
        if entries.last().0.path == live.path {
            assert(entries.drop_last().push((entries.last().0, versions)) =~= entries.update(
                at - 1,
                (entries[at - 1].0, versions),
            ));
        } else {
            assert(entries.insert(at, (live, versions)) =~= entries.push((live, versions)));
        }
    } else {
        let front = entries.drop_last();
        assert forall|k: int| at <= k < front.len() implies front[k].0.path != live.path
            && !path_lt(front[k].0.path, live.path) by {
            assert(front[k] == entries[k]);
        }
        if at > 0 {
            assert(front[at - 1] == entries[at - 1]);
        }
        lemma_map_insert_at(front, live, versions, at);
        if at > 0 && entries[at - 1].0.path == live.path {
            assert(front.update(at - 1, (front[at - 1].0, versions)).push(entries.last())
                =~= entries.update(at - 1, (entries[at - 1].0, versions)));
        } else {
            assert(front.insert(at, (live, versions)).push(entries.last()) =~= entries.insert(
                at,
                (live, versions),
            ));
        }
    }
}

/// Lists `versions` for the path of `live` among `entries`.
fn insert_entry(entries: &mut Vec<(PathData, Vec<PathData>)>, live: PathData, versions: Vec<PathData>)
    ensures
        entry_views(final(entries)@) == map_insert(
            entry_views(old(entries)@),
            live@,
            path_views(versions@),
        ),
{
    let ghost before = entry_views(entries@);
    let mut at: usize = entries.len();
    while at > 0 && !bytes_eq(&entries[at - 1].0.path_buf, &live.path_buf) && !path_less(
        &entries[at - 1].0.path_buf,
        &live.path_buf,
    )
        invariant
            at <= entries.len(),
            before == entry_views(entries@),
            forall|k: int|
                at <= k < entries.len() ==> before[k].0.path != live@.path && !path_lt(
                    before[k].0.path,
                    live@.path,
                ),
        decreases at,
    {
        at -= 1;
        assert(before[at as int] == (entries@[at as int].0@, path_views(entries@[at as int].1@)));
    }
    proof {
        if at > 0 {
            assert(before[at - 1] == (entries@[at - 1].0@, path_views(entries@[at - 1].1@)));
        }
        lemma_map_insert_at(before, live@, path_views(versions@), at as int);
    }
    if at > 0 && bytes_eq(&entries[at - 1].0.path_buf, &live.path_buf) {
        let replaced = entries.remove(at - 1);
        let entry = (replaced.0, versions);
        entries.insert(at - 1, entry);
        assert(entry_views(entries@) =~= before.update(
            at - 1,
            (before[at - 1].0, path_views(versions@)),
        ));
    } else {
        let entry = (live, versions);
        entries.insert(at, entry);
        assert(entry_views(entries@) =~= before.insert(at as int, (live@, path_views(versions@))));
    }
}

/// Tests whether two records have the same metadata, or both none.
pub fn same_metadata(a: &Option<PathMetadata>, b: &Option<PathMetadata>) -> (r: bool)
    ensures
        r == (*a == *b),
{
    match (a, b) {
        (Some(x), Some(y)) => x.size == y.size && x.modify_time == y.modify_time,
        (None, None) => true,
        _ => false,
    }
}

/// A copy of the records.
pub fn clone_versions(versions: &Vec<PathData>) -> (r: Vec<PathData>)
    ensures
        path_views(r@) == path_views(versions@),
{
    let mut copy: Vec<PathData> = Vec::new();
    let mut i: usize = 0;
    while i < versions.len()
        invariant
            i <= versions.len(),
            path_views(copy@) == path_views(versions@).subrange(0, i as int),
        decreases versions.len() - i,
    {
        let ghost before = path_views(copy@);
        let record = versions[i].clone();
        copy.push(record);
        assert(path_views(copy@) =~= before.push(record@));
        assert(path_views(versions@).subrange(0, i + 1) =~= before.push(record@));
        i += 1;
    }
    assert(path_views(versions@).subrange(0, versions.len() as int) =~= path_views(versions@));
    copy
}

impl VersionsMap {
    /// The versions of each of the paths, as the request asks for them. A
    /// path that lies under no dataset is left out. Fails where a place in
    /// a snapshot could not be looked at; where every path that is asked
    /// for lies under no dataset, with the failure of the first; and where
    /// neither a live file nor a version was found for any path listed.
    pub fn new(config: &Config, path_set: &Vec<PathData>, disk: &DiskView) -> (r: HttmResult<
        VersionsMap,
    >)
        ensures
            match r {
                Ok(map) => versions_map_of(path_views(path_set@), config, disk) == Ok::<
                    Seq<VersionsEntryView>,
                    HttmErrorView,
                >(map@),
                Err(e) => versions_map_of(path_views(path_set@), config, disk) == Err::<
                    Seq<VersionsEntryView>,
                    HttmErrorView,
                >(e@),
            },
    {
        let mut inner: Vec<(PathData, Vec<PathData>)> = Vec::new();
        let mut searched_any = false;
        let mut first_failure: Option<HttmError> = None;
        let mut i: usize = 0;
        let ghost paths = path_views(path_set@);
        assert(paths.subrange(0, 0) =~= Seq::<PathDataView>::empty());
        assert(entry_views(inner@) =~= Seq::<VersionsEntryView>::empty());
        while i < path_set.len()
            invariant
                i <= path_set.len(),
                paths == path_views(path_set@),
                collect_versions(paths.subrange(0, i as int), config, disk) == Ok::<
                    Seq<VersionsEntryView>,
                    HttmErrorView,
                >(entry_views(inner@)),
                searched_any == !none_searched(paths.subrange(0, i as int), config),
                match first_failure {
                    Some(e) => i > 0 && cannot_be_searched(paths[0], config) && e@
                        == search_failure(paths[0].path, &config.dataset_collection),
                    None => i == 0 || !cannot_be_searched(paths[0], config),
                },
            decreases path_set.len() - i,
        {
            let ghost before = paths.subrange(0, i as int);
            let ghost upto = paths.subrange(0, i + 1);
            proof {
                assert(upto.drop_last() =~= before);
                assert(upto.last() == path_set@[i as int]@);
                assert(upto[i as int] == paths[i as int]);
                assert forall|k: int| 0 <= k < before.len() implies before[k] == upto[k] by {}
                if !none_searched(before, config) {
                    let k = choose|k: int|
                        0 <= k < before.len() && !cannot_be_searched(#[trigger] before[k], config);
                    assert(!cannot_be_searched(upto[k], config));
                }
            }
            match Versions::new(&path_set[i], config, disk) {
                Ok(versions) => {
                    let (live_path, snap_versions) = versions.into_inner();
                    insert_entry(&mut inner, live_path, snap_versions);
                    searched_any = true;
                },
                Err(HttmError::SnapshotPermissionDenied(denied)) => {
                    proof {
                        lemma_collect_versions_fails(paths, config, disk, i + 1);
                    }
                    return Err(HttmError::SnapshotPermissionDenied(denied));
                },
                // a path that lies under no dataset has no versions to list
                Err(e) => {
                    if i == 0 {
                        first_failure = Some(e);
                    }
                    proof {
                        if none_searched(before, config) {
                            assert forall|k: int| 0 <= k < upto.len() implies cannot_be_searched(
                                #[trigger] upto[k],
                                config,
                            ) by {
                                if k < before.len() {
                                    assert(before[k] == upto[k]);
                                }
                            }
                        }
                    }
                },
            }
            i += 1;
        }
        assert(paths.subrange(0, path_set.len() as int) =~= paths);
        // was there anything that could be looked for at all?
        if !searched_any {
            if let Some(e) = first_failure {
                return Err(e);
            }
        }
        let mut versions_map = VersionsMap { inner };
        // has the user asked for files that never were?
        if versions_map.nothing_found() {
            return Err(HttmError::NoVersions);
        }
        // the redundant versions leave before the last one is picked
        if config.opt_omit_ditto {
            versions_map.omit_ditto();
        }
        if let Some(last_snap_mode) = &config.opt_last_snap {
            versions_map.last_snap(last_snap_mode);
        }
        Ok(versions_map)
    }

    /// Whether neither a live file nor a version is on disk for any entry.
    fn nothing_found(&self) -> (r: bool)
        ensures
            r == nothing_found(self@),
    {
        let mut i: usize = 0;
        while i < self.inner.len()
            invariant
                i <= self.inner.len(),
                forall|k: int|
                    0 <= k < i ==> (#[trigger] self@[k]).1.len() == 0
                        && self@[k].0.metadata is None,
            decreases self.inner.len() - i,
        {
            assert(self@[i as int] == (self.inner@[i as int].0@, path_views(self.inner@[i as int].1@)));
            if self.inner[i].1.len() > 0 || self.inner[i].0.metadata.is_some() {
                return false;
            }
            i += 1;
        }
        true
    }

    /// Whether the last of `snaps` says nothing that `live_pathdata` does
    /// not: its metadata is that of the live path.
    pub fn is_live_version_redundant(live_pathdata: &PathData, snaps: &Vec<PathData>) -> (r: bool)
        ensures
            r == live_version_redundant(live_pathdata@, path_views(snaps@)),
    {
        if snaps.len() > 0 {
            let last_snap = &snaps[snaps.len() - 1];
            assert(path_views(snaps@).last() == last_snap@);
            return same_metadata(&last_snap.metadata, &live_pathdata.metadata);
        }
        false
    }

    /// Leaves out the last version of each path where it is redundant.
    fn omit_ditto(&mut self)
        ensures
            final(self)@ == omit_ditto_all(old(self)@),
    {
        let mut out: Vec<(PathData, Vec<PathData>)> = Vec::new();
        let mut i: usize = 0;
        while i < self.inner.len()
            invariant
                i <= self.inner.len(),
                entry_views(out@) == omit_ditto_all(self@).subrange(0, i as int),
            decreases self.inner.len() - i,
        {
            let ghost before = entry_views(out@);
            let pathdata = self.inner[i].0.clone();
            let mut snaps = clone_versions(&self.inner[i].1);
            assert(self@[i as int] == (pathdata@, path_views(snaps@)));
            if Self::is_live_version_redundant(&pathdata, &snaps) {
                let ghost all = path_views(snaps@);
                snaps.pop();
                assert(path_views(snaps@) =~= all.drop_last());
            }
            let entry = (pathdata, snaps);
            out.push(entry);
            assert(entry_views(out@) =~= before.push((entry.0@, path_views(entry.1@))));
            assert(omit_ditto_all(self@).subrange(0, i + 1) =~= before.push(
                (entry.0@, path_views(entry.1@)),
            ));
            i += 1;
        }
        assert(omit_ditto_all(self@).subrange(0, self.inner.len() as int) =~= omit_ditto_all(
            self@,
        ));
        self.inner = out;
    }

    /// Leaves of the versions of each path only what `last_snap_mode` asks
    /// for of the last one.
    fn last_snap(&mut self, last_snap_mode: &LastSnapMode)
        ensures
            final(self)@ == last_snap_all(old(self)@, *last_snap_mode),
    {
        let mut out: Vec<(PathData, Vec<PathData>)> = Vec::new();
        let mut i: usize = 0;
        while i < self.inner.len()
            invariant
                i <= self.inner.len(),
                entry_views(out@) == last_snap_all(self@, *last_snap_mode).subrange(0, i as int),
            decreases self.inner.len() - i,
        {
            let ghost before = entry_views(out@);
            let pathdata = self.inner[i].0.clone();
            let snaps = &self.inner[i].1;
            assert(self@[i as int] == (pathdata@, path_views(snaps@)));
            let mut kept: Vec<PathData> = Vec::new();
            assert(path_views(kept@) =~= Seq::<PathDataView>::empty());
            if snaps.len() > 0 {
                let last = &snaps[snaps.len() - 1];
                assert(path_views(snaps@).last() == last@);
                let ditto = same_metadata(&pathdata.metadata, &last.metadata);
                let keep = match last_snap_mode {
                    LastSnapMode::Any => true,
                    LastSnapMode::DittoOnly => ditto,
                    LastSnapMode::NoDittoExclusive | LastSnapMode::NoDittoInclusive => !ditto,
                    LastSnapMode::Without => false,
                };
                if keep {
                    let record = last.clone();
                    kept.push(record);
                    assert(path_views(kept@) =~= seq![record@]);
                }
            } else {
                match last_snap_mode {
                    LastSnapMode::Without | LastSnapMode::NoDittoInclusive => {
                        let record = pathdata.clone();
                        kept.push(record);
                        assert(path_views(kept@) =~= seq![record@]);
                    },
                    _ => {},
                }
            }
            let entry = (pathdata, kept);
            out.push(entry);
            assert(entry_views(out@) =~= before.push((entry.0@, path_views(entry.1@))));
            assert(last_snap_all(self@, *last_snap_mode).subrange(0, i + 1) =~= before.push(
                (entry.0@, path_views(entry.1@)),
            ));
            i += 1;
        }
        assert(last_snap_all(self@, *last_snap_mode).subrange(0, self.inner.len() as int)
            =~= last_snap_all(self@, *last_snap_mode));
        self.inner = out;
    }

    /// The number of live paths.
    pub fn len(&self) -> (r: usize)
        ensures
            r == self@.len(),
    {
        self.inner.len()
    }

    /// The live path at place `i` in the order of paths, and its versions.
    pub fn get(&self, i: usize) -> (r: Option<(&PathData, &Vec<PathData>)>)
        ensures
            match r {
                Some((live, snaps)) => i < self@.len() && self@[i as int] == (
                    live@,
                    path_views(snaps@),
                ),
                None => i >= self@.len(),
            },
    {
        if i < self.inner.len() {
            Some((&self.inner[i].0, &self.inner[i].1))
        } else {
            None
        }
    }
}

/// A path whose search cannot be made is passed by: the versions collected
/// are those collected without it.
pub proof fn lemma_unsearchable_path_is_passed_by(
    paths: Seq<PathDataView>,
    config: &Config,
    disk: &DiskView,
    at: int,
)
    requires
        0 <= at < paths.len(),
        cannot_be_searched(paths[at], config),
    ensures
        collect_versions(paths, config, disk) == collect_versions(paths.remove(at), config, disk),
    decreases paths.len(),
{
    if at == paths.len() - 1 {
        assert(paths.remove(at) =~= paths.drop_last());
    } else {
        let without = paths.remove(at);
        assert(without.drop_last() =~= paths.drop_last().remove(at));
        assert(without.last() == paths.last());
        assert(paths.drop_last()[at] == paths[at]);
        lemma_unsearchable_path_is_passed_by(paths.drop_last(), config, disk, at);
    }
}

/// Where a request names paths and the search can be made for none of them,
/// it fails with the failure of the first path: the path lies under no
/// dataset, or not below the mount it was found under.
pub proof fn lemma_unsearchable_request_fails(
    paths: Seq<PathDataView>,
    config: &Config,
    disk: &DiskView,
)
    requires
        paths.len() > 0,
        none_searched(paths, config),
    ensures
        versions_map_of(paths, config, disk) == Err::<Seq<VersionsEntryView>, HttmErrorView>(
            search_failure(paths[0].path, &config.dataset_collection),
        ),
        lookup_versions(paths[0], config, disk) == Err::<
            crate::lookup::versions::VersionsView,
            HttmErrorView,
        >(search_failure(paths[0].path, &config.dataset_collection)),
{
    lemma_collect_versions_of_unsearchable(paths, config, disk);
}

/// Where the search can be made for none of the paths, nothing is collected.
proof fn lemma_collect_versions_of_unsearchable(
    paths: Seq<PathDataView>,
    config: &Config,
    disk: &DiskView,
)
    requires
        none_searched(paths, config),
    ensures
        collect_versions(paths, config, disk) == Ok::<Seq<VersionsEntryView>, HttmErrorView>(
            Seq::empty(),
        ),
    decreases paths.len(),
{
    if paths.len() > 0 {
        let front = paths.drop_last();
        assert forall|i: int| 0 <= i < front.len() implies cannot_be_searched(
            #[trigger] front[i],
            config,
        ) by {
            assert(front[i] == paths[i]);
        }
        lemma_collect_versions_of_unsearchable(front, config, disk);
        assert(cannot_be_searched(paths[paths.len() - 1], config));
    }
}

/// A request fails for want of a dataset only where the search can be made
/// for none of its paths: where it can be made for one, the request gives a
/// map, or fails because a snapshot could not be looked at or because
/// nothing is on disk.
pub proof fn lemma_searchable_request_passes_others_by(
    paths: Seq<PathDataView>,
    config: &Config,
    disk: &DiskView,
)
    requires
        !none_searched(paths, config),
    ensures
        match versions_map_of(paths, config, disk) {
            Ok(_) => true,
            Err(e) => e is NoVersions || e is SnapshotPermissionDenied,
        },
{
    lemma_collect_versions_fails_on_denial(paths, config, disk);
}

/// Collecting versions fails only where a snapshot could not be looked at.
proof fn lemma_collect_versions_fails_on_denial(
    paths: Seq<PathDataView>,
    config: &Config,
    disk: &DiskView,
)
    ensures
        collect_versions(paths, config, disk) matches Err(e) ==> e is SnapshotPermissionDenied,
    decreases paths.len(),
{
    if paths.len() > 0 {
        lemma_collect_versions_fails_on_denial(paths.drop_last(), config, disk);
    }
}

/// A lookup that has failed for the first paths fails for all.
proof fn lemma_collect_versions_fails(
    paths: Seq<PathDataView>,
    config: &Config,
    disk: &DiskView,
    upto: int,
)
    requires
        0 <= upto <= paths.len(),
        collect_versions(paths.subrange(0, upto), config, disk) is Err,
    ensures
        collect_versions(paths, config, disk) == collect_versions(
            paths.subrange(0, upto),
            config,
            disk,
        ),
    decreases paths.len() - upto,
{
    if upto < paths.len() {
        let next = paths.subrange(0, upto + 1);
        assert(next.drop_last() =~= paths.subrange(0, upto));
        lemma_collect_versions_fails(paths, config, disk, upto + 1);
    } else {
        assert(paths.subrange(0, upto) =~= paths);
    }
}

/// Leaving out the redundant last version leaves a last version whose
/// metadata is not that of the live path, unless the last two versions both
/// have the metadata of the live path.
pub proof fn lemma_omit_ditto_last_differs(live: PathDataView, snaps: Seq<PathDataView>)
    requires
        !(snaps.len() >= 2 && snaps[snaps.len() - 1].metadata == live.metadata && snaps[snaps.len()
            - 2].metadata == live.metadata),
    ensures
        omit_ditto_of(live, snaps).len() > 0 ==> omit_ditto_of(live, snaps).last().metadata
            != live.metadata,
{
}

/// With versions listed by distinct metadata, leaving out the redundant last
/// version always leaves a last version whose metadata is not that of the
/// live path.
pub proof fn lemma_omit_ditto_of_unique_metadata(
    live: PathDataView,
    records: Seq<PathDataView>,
    disk: &DiskView,
)
    ensures
        ({
            let left = omit_ditto_of(
                live,
                sort_dedup(records, ListSnapsOfType::UniqueMetadata, disk),
            );
            left.len() > 0 ==> left.last().metadata != live.metadata
        }),
{
    let listed = sort_dedup(records, ListSnapsOfType::UniqueMetadata, disk);
    lemma_unique_metadata_neighbours_differ(sort_by_mtime(records), disk);
    if listed.len() >= 2 {
        assert(listed[listed.len() - 2].metadata_infallible() != listed[listed.len() - 2
            + 1].metadata_infallible());
    }
    lemma_omit_ditto_last_differs(live, listed);
}

/// Whether the entries stand in the order of their paths, each path once.
pub open spec fn is_ordered_by_path(entries: Seq<VersionsEntryView>) -> bool {
    forall|i: int, j: int|
        0 <= i < j < entries.len() ==> path_lt(
            (#[trigger] entries[i]).0.path,
            (#[trigger] entries[j]).0.path,
        )
}

proof fn lemma_map_insert_keys(
    entries: Seq<VersionsEntryView>,
    live: PathDataView,
    versions: Seq<PathDataView>,
)
    ensures
        forall|k: int|
            0 <= k < map_insert(entries, live, versions).len() ==> (#[trigger] map_insert(
                entries,
                live,
                versions,
            )[k]).0.path == live.path || exists|i: int|
                0 <= i < entries.len() && (#[trigger] entries[i]).0.path == map_insert(
                    entries,
                    live,
                    versions,
                )[k].0.path,
    decreases entries.len(),
{
    let out = map_insert(entries, live, versions);
    if entries.len() > 0 {
        let front = entries.drop_last();
        let last = entries.last();
        lemma_map_insert_keys(front, live, versions);
        assert forall|k: int| 0 <= k < out.len() implies (#[trigger] out[k]).0.path == live.path
            || exists|i: int| 0 <= i < entries.len() && (#[trigger] entries[i]).0.path
                == out[k].0.path by {
            if last.0.path == live.path {
                if k < front.len() {
                    assert(entries[k].0.path == out[k].0.path);
                }
            } else if path_lt(last.0.path, live.path) {
                if k < entries.len() {
                    assert(entries[k].0.path == out[k].0.path);
                }
            } else {
                let inner = map_insert(front, live, versions);
                if k < inner.len() {
                    assert(out[k] == inner[k]);
                    if inner[k].0.path != live.path {
                        let i = choose|i: int|
                            0 <= i < front.len() && (#[trigger] front[i]).0.path
                                == inner[k].0.path;
                        assert(entries[i].0.path == out[k].0.path);
                    }
                } else {
                    assert(entries[entries.len() - 1].0.path == out[k].0.path);
                }
            }
        }
    }
}

/// Listing versions for a path keeps the entries in the order of their
/// paths, each path once.
pub proof fn lemma_map_insert_ordered(
    entries: Seq<VersionsEntryView>,
    live: PathDataView,
    versions: Seq<PathDataView>,
)
    requires
        is_ordered_by_path(entries),
    ensures
        is_ordered_by_path(map_insert(entries, live, versions)),
    decreases entries.len(),
{
    let out = map_insert(entries, live, versions);
    if entries.len() > 0 {
        let front = entries.drop_last();
        let last = entries.last();
        assert(last == entries[entries.len() - 1]);
        assert(is_ordered_by_path(front)) by {
            assert forall|i: int, j: int| 0 <= i < j < front.len() implies path_lt(
                (#[trigger] front[i]).0.path,
                (#[trigger] front[j]).0.path,
            ) by {
                assert(front[i] == entries[i] && front[j] == entries[j]);
            }
        }
        if last.0.path == live.path {
            assert forall|i: int, j: int| 0 <= i < j < out.len() implies path_lt(
                (#[trigger] out[i]).0.path,
                (#[trigger] out[j]).0.path,
            ) by {
                assert(out[i].0.path == entries[i].0.path);
                assert(out[j].0.path == entries[j].0.path);
            }
        } else if path_lt(last.0.path, live.path) {
            assert forall|i: int, j: int| 0 <= i < j < out.len() implies path_lt(
                (#[trigger] out[i]).0.path,
                (#[trigger] out[j]).0.path,
            ) by {
                assert(out[i] == entries[i]);
                if j < entries.len() {
                    assert(out[j] == entries[j]);
                } else if i < entries.len() - 1 {
                    lemma_path_lt_transitive(entries[i].0.path, last.0.path, live.path);
                }
            }
        } else {
            let inner = map_insert(front, live, versions);
            lemma_map_insert_ordered(front, live, versions);
            lemma_map_insert_keys(front, live, versions);
            lemma_path_lt_total(last.0.path, live.path);
            assert forall|i: int, j: int| 0 <= i < j < out.len() implies path_lt(
                (#[trigger] out[i]).0.path,
                (#[trigger] out[j]).0.path,
            ) by {
                assert(out[i] == inner[i]);
                if j < inner.len() {
                    assert(out[j] == inner[j]);
                } else {
                    assert(out[j] == last);
                    if inner[i].0.path != live.path {
                        let k = choose|k: int|
                            0 <= k < front.len() && (#[trigger] front[k]).0.path
                                == inner[i].0.path;
                        assert(front[k] == entries[k]);
                    }
                }
            }
        }
    }
}

/// The map that a request is answered with lists each live path once, in
/// the order of paths.
pub proof fn lemma_versions_map_is_ordered(
    paths: Seq<PathDataView>,
    config: &Config,
    disk: &DiskView,
)
    ensures
        collect_versions(paths, config, disk) matches Ok(entries) ==> is_ordered_by_path(entries),
        versions_map_of(paths, config, disk) matches Ok(entries) ==> is_ordered_by_path(entries),
    decreases paths.len(),
{
    if paths.len() > 0 {
        lemma_versions_map_is_ordered(paths.drop_last(), config, disk);
        if let Ok(before) = collect_versions(paths.drop_last(), config, disk) {
            if let Ok(versions) = lookup_versions(paths.last(), config, disk) {
                lemma_map_insert_ordered(before, versions.live_path, versions.snap_versions);
            }
        }
    }
    if let Ok(entries) = collect_versions(paths, config, disk) {
        let omitted = omit_ditto_all(entries);
        assert forall|i: int, j: int| 0 <= i < j < omitted.len() implies path_lt(
            (#[trigger] omitted[i]).0.path,
            (#[trigger] omitted[j]).0.path,
        ) by {
            assert(omitted[i].0 == entries[i].0 && omitted[j].0 == entries[j].0);
        }
        let processed = post_process(entries, config);
        assert forall|i: int, j: int| 0 <= i < j < processed.len() implies path_lt(
            (#[trigger] processed[i]).0.path,
            (#[trigger] processed[j]).0.path,
        ) by {
            assert(processed[i].0 == entries[i].0 && processed[j].0 == entries[j].0);
        }
    }
}

/// Where redundant versions are left out, the last version listed for a
/// live path never has the metadata of the live path, unless the last two
/// versions found for it both have.
pub proof fn lemma_omit_ditto_all_last_differs(entries: Seq<VersionsEntryView>, i: int)
    requires
        0 <= i < entries.len(),
        !(entries[i].1.len() >= 2 && entries[i].1[entries[i].1.len() - 1].metadata
            == entries[i].0.metadata && entries[i].1[entries[i].1.len() - 2].metadata
            == entries[i].0.metadata),
    ensures
        omit_ditto_all(entries)[i].0 == entries[i].0,
        omit_ditto_all(entries)[i].1.len() > 0 ==> omit_ditto_all(entries)[i].1.last().metadata
            != entries[i].0.metadata,
{
    lemma_omit_ditto_last_differs(entries[i].0, entries[i].1);
}

} // verus!
