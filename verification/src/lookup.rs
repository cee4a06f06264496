//! Lookup of versions for a list of paths: all snapshot versions in one list,
//! beside the live versions.

use crate::config::Config;
use crate::data::disk::DiskView;
use crate::data::paths::{PathData, PathDataView};
use crate::library::results::{HttmError, HttmErrorView, HttmResult};
use crate::lookup::sorting::path_views;
use crate::lookup::versions::{lookup_versions, Versions, VersionsView};
use vstd::prelude::*;

pub mod versions;
pub mod sorting;
pub mod versions_map;
pub mod automount;

verus! {

/// The records that are there, as values.
pub open spec fn given_paths(path_data: Seq<Option<PathData>>) -> Seq<PathDataView>
    decreases path_data.len(),
{
    if path_data.len() == 0 {
        Seq::empty()
    } else {
        match path_data.last() {
            Some(pathdata) => given_paths(path_data.drop_last()).push(pathdata@),
            None => given_paths(path_data.drop_last()),
        }
    }
}

/// The snapshot versions of all the paths, path after path; the failure of
/// the first path whose lookup fails.
pub open spec fn all_snapshot_versions(
    paths: Seq<PathDataView>,
    config: &Config,
    disk: &DiskView,
) -> Result<Seq<PathDataView>, HttmErrorView>
    decreases paths.len(),
{
    if paths.len() == 0 {
        Ok(Seq::empty())
    } else {
        match all_snapshot_versions(paths.drop_last(), config, disk) {
            Ok(before) => match lookup_versions(paths.last(), config, disk) {
                Ok(versions) => Ok(before + versions.snap_versions),
                Err(e) => Err(e),
            },
            Err(e) => Err(e),
        }
    }
}

/// Whether none of the records has metadata.
pub open spec fn all_phantom(paths: Seq<PathDataView>) -> bool {
    forall|i: int| 0 <= i < paths.len() ==> (#[trigger] paths[i]).metadata is None
}

/// What a lookup for a list of paths gives: the list of all snapshot
/// versions and, unless the request leaves them out, the list of live
/// versions. The lookup fails where it fails for a path, and where nothing
/// is on disk for any path: no snapshot version, and no live file, whether
/// the live versions are asked for or not.
pub open spec fn lookup_result(paths: Seq<PathDataView>, config: &Config, disk: &DiskView) -> Result<
    Seq<Seq<PathDataView>>,
    HttmErrorView,
> {
    match all_snapshot_versions(paths, config, disk) {
        Ok(snapshot_versions) => {
            let live_versions = if config.opt_no_live_vers {
                Seq::empty()
            } else {
                paths
            };
            if snapshot_versions.len() == 0 && all_phantom(paths) {
                Err(HttmErrorView::NoVersions)
            } else if live_versions.len() == 0 {
                Ok(seq![snapshot_versions])
            } else {
                Ok(seq![snapshot_versions, live_versions])
            }
        },
        Err(e) => Err(e),
    }
}

/// The lists of a list of lists of records, as values.
pub open spec fn list_views(lists: Seq<Vec<PathData>>) -> Seq<Seq<PathDataView>> {
    lists.map_values(|list: Vec<PathData>| path_views(list@))
}

/// The snapshot versions of `pathdata`.
pub fn get_versions_set(config: &Config, pathdata: &PathData, disk: &DiskView) -> (r: HttmResult<
    Vec<PathData>,
>)
    ensures
        match r {
            Ok(versions) => lookup_versions(pathdata@, config, disk) matches Ok(found)
                && found.snap_versions == path_views(versions@),
            Err(e) => lookup_versions(pathdata@, config, disk) == Err::<
                VersionsView,
                HttmErrorView,
            >(e@),
        },
{
    let versions = Versions::new(pathdata, config, disk)?;
    Ok(versions.into_inner().1)
}

/// Looks up the versions of all the paths that are there.
pub fn lookup_exec(config: &Config, path_data: Vec<Option<PathData>>, disk: &DiskView) -> (r:
    HttmResult<Vec<Vec<PathData>>>)
    ensures
        match r {
            Ok(lists) => lookup_result(given_paths(path_data@), config, disk) == Ok::<
                Seq<Seq<PathDataView>>,
                HttmErrorView,
            >(list_views(lists@)),
            Err(e) => lookup_result(given_paths(path_data@), config, disk) == Err::<
                Seq<Seq<PathDataView>>,
                HttmErrorView,
            >(e@),
        },
{
    let mut snapshot_versions: Vec<PathData> = Vec::new();
    let mut given: Vec<PathData> = Vec::new();
    let mut any_live = false;
    let mut i: usize = 0;
    assert(path_data@.subrange(0, 0) =~= Seq::<Option<PathData>>::empty());
    assert(path_views(snapshot_versions@) =~= Seq::<PathDataView>::empty());
    assert(path_views(given@) =~= Seq::<PathDataView>::empty());
    while i < path_data.len()
        invariant
            i <= path_data.len(),
            path_views(given@) == given_paths(path_data@.subrange(0, i as int)),
            all_snapshot_versions(path_views(given@), config, disk) == Ok::<
                Seq<PathDataView>,
                HttmErrorView,
            >(path_views(snapshot_versions@)),
            any_live == !all_phantom(path_views(given@)),
        decreases path_data.len() - i,
    {
        proof {
            let upto = path_data@.subrange(0, i + 1);
            assert(upto.drop_last() =~= path_data@.subrange(0, i as int));
            assert(upto.last() == path_data@[i as int]);
        }
        if let Some(pathdata) = &path_data[i] {
            let ghost before = path_views(snapshot_versions@);
            let ghost given_before = path_views(given@);
            let record = pathdata.clone();
            match get_versions_set(config, pathdata, disk) {
                Ok(mut versions) => {
                    let ghost added = path_views(versions@);
                    snapshot_versions.append(&mut versions);
                    assert(path_views(snapshot_versions@) =~= before + added);
                },
                Err(e) => {
                    proof {
                        let failing = given_before.push(record@);
                        assert(failing.drop_last() =~= given_before);
                        lemma_given_paths_grow(path_data@, i + 1);
                        lemma_all_snapshot_versions_fail(
                            given_paths(path_data@),
                            config,
                            disk,
                            failing.len() as int,
                        );
                        assert(given_paths(path_data@).subrange(0, failing.len() as int)
                            =~= failing);
                    }
                    return Err(e);
                },
            }
            if record.metadata.is_some() {
                any_live = true;
            }
            given.push(record);
            proof {
                let now = path_views(given@);
                assert(now =~= given_before.push(record@));
                assert(now.drop_last() =~= given_before);
                if record@.metadata is Some {
                    assert(now[now.len() - 1].metadata is Some);
                } else if !all_phantom(given_before) {
                    let k = choose|k: int|
                        0 <= k < given_before.len() && !((#[trigger] given_before[k]).metadata
                            is None);
                    assert(now[k] == given_before[k]);
                } else {
                    assert forall|k: int| 0 <= k < now.len() implies (#[trigger] now[k]).metadata
                        is None by {
                        if k < given_before.len() {
                            assert(now[k] == given_before[k]);
                        }
                    }
                }
            }
        }
        i += 1;
    }
    assert(path_data@.subrange(0, path_data.len() as int) =~= path_data@);
    let live_versions: Vec<PathData> = if !config.opt_no_live_vers {
        given
    } else {
        let none: Vec<PathData> = Vec::new();
        assert(path_views(none@) =~= Seq::<PathDataView>::empty());
        none
    };
    // has the user asked for files that never were?
    if snapshot_versions.len() == 0 && !any_live {
        return Err(HttmError::NoVersions);
    }
    let mut lists: Vec<Vec<PathData>> = Vec::new();
    if live_versions.len() == 0 {
        lists.push(snapshot_versions);
        assert(list_views(lists@) =~= seq![path_views(snapshot_versions@)]);
    } else {
        lists.push(snapshot_versions);
        lists.push(live_versions);
        assert(list_views(lists@) =~= seq![
            path_views(snapshot_versions@),
            path_views(live_versions@),
        ]);
    }
    Ok(lists)
}

/// The records among the first entries are the first of the records among
/// all.
proof fn lemma_given_paths_grow(path_data: Seq<Option<PathData>>, upto: int)
    requires
        0 <= upto <= path_data.len(),
    ensures
        given_paths(path_data.subrange(0, upto)).len() <= given_paths(path_data).len(),
        given_paths(path_data).subrange(
            0,
            given_paths(path_data.subrange(0, upto)).len() as int,
        ) == given_paths(path_data.subrange(0, upto)),
    decreases path_data.len() - upto,
{
    if upto < path_data.len() {
        let next = path_data.subrange(0, upto + 1);
        assert(next.drop_last() =~= path_data.subrange(0, upto));
        lemma_given_paths_grow(path_data, upto + 1);
        let few = given_paths(path_data.subrange(0, upto));
        let more = given_paths(next);
        assert(given_paths(path_data).subrange(0, few.len() as int) =~= given_paths(
            path_data,
        ).subrange(0, more.len() as int).subrange(0, few.len() as int));
        assert(more.subrange(0, few.len() as int) =~= few);
    } else {
        assert(path_data.subrange(0, upto) =~= path_data);
        assert(given_paths(path_data).subrange(0, given_paths(path_data).len() as int)
            =~= given_paths(path_data));
    }
}

/// A lookup that has failed for the first paths fails for all.
proof fn lemma_all_snapshot_versions_fail(
    paths: Seq<PathDataView>,
    config: &Config,
    disk: &DiskView,
    upto: int,
)
    requires
        0 <= upto <= paths.len(),
        all_snapshot_versions(paths.subrange(0, upto), config, disk) is Err,
    ensures
        all_snapshot_versions(paths, config, disk) == all_snapshot_versions(
            paths.subrange(0, upto),
            config,
            disk,
        ),
    decreases paths.len() - upto,
{
    if upto < paths.len() {
        let next = paths.subrange(0, upto + 1);
        assert(next.drop_last() =~= paths.subrange(0, upto));
        lemma_all_snapshot_versions_fail(paths, config, disk, upto + 1);
    } else {
        assert(paths.subrange(0, upto) =~= paths);
    }
}

} // verus!
