//! That a walk comes to an end: it walks no directory twice, and there are
//! only so many directories it can come to.

use crate::config::Config;
use crate::data::disk::DiskView;
use crate::data::paths::BasicDirEntryInfoView;
use crate::exec::recursive::{walk_from, RecursiveSearchView};
use crate::exec::walk::{
    are_walked_once, come_from, lemma_partitioned_dirs, lemma_walk_sends_each_path_once,
    lemma_walk_sends_what_lies_below, listed, sends_what_lies_below, sub_dirs, walk_leaves,
    walk_visits,
};
use vstd::prelude::*;
use vstd::seq_lib::seq_to_set_is_finite;
use vstd::set_lib::lemma_len_subset;

verus! {

/// The paths of the entries.
pub open spec fn entry_paths(entries: Seq<BasicDirEntryInfoView>) -> Seq<Seq<u8>> {
    entries.map_values(|entry: BasicDirEntryInfoView| entry.path)
}

/// The paths of the entries of each of the directories `dirs`.
pub open spec fn paths_listed(dirs: Seq<Seq<u8>>, disk: &DiskView) -> Seq<Seq<u8>>
    decreases dirs.len(),
{
    if dirs.len() == 0 {
        Seq::empty()
    } else {
        paths_listed(dirs.drop_last(), disk) + entry_paths(listed(dirs.last(), disk))
    }
}

/// The places that a walk from `root` can come to: `root`, and the path of
/// every entry that some directory lists.
pub open spec fn places(root: Seq<u8>, disk: &DiskView) -> Seq<Seq<u8>> {
    seq![root] + paths_listed(disk.listings@.dom().to_seq(), disk)
}

/// The paths listed by directories hold the path of each entry of each of
/// them.
proof fn lemma_paths_listed(dirs: Seq<Seq<u8>>, disk: &DiskView, dir: Seq<u8>, i: int)
    requires
        dirs.contains(dir),
        0 <= i < listed(dir, disk).len(),
    ensures
        paths_listed(dirs, disk).contains(listed(dir, disk)[i].path),
    decreases dirs.len(),
{
    let all = paths_listed(dirs, disk);
    let front = paths_listed(dirs.drop_last(), disk);
    let tail = entry_paths(listed(dirs.last(), disk));
    let path = listed(dir, disk)[i].path;
    if dirs.last() == dir {
        assert(all[front.len() + i] == tail[i]);
    } else {
        let at = choose|at: int| 0 <= at < dirs.len() && dirs[at] == dir;
        assert(dirs.drop_last()[at] == dir);
        lemma_paths_listed(dirs.drop_last(), disk, dir, i);
        let k = choose|k: int| 0 <= k < front.len() && front[k] == path;
        assert(all[k] == path);
    }
}

/// The places hold the path of every entry that a directory lists.
proof fn lemma_places(root: Seq<u8>, disk: &DiskView)
    requires
        disk.is_well_listed(),
    ensures
        places(root, disk).contains(root),
        forall|dir: Seq<u8>, i: int|
            0 <= i < listed(dir, disk).len() ==> places(root, disk).contains(
                (#[trigger] listed(dir, disk)[i]).path,
            ),
{
    let dirs = disk.listings@.dom().to_seq();
    let all = places(root, disk);
    assert(all[0] == root);
    assert forall|dir: Seq<u8>, i: int| 0 <= i < listed(dir, disk).len() implies all.contains(
        (#[trigger] listed(dir, disk)[i]).path,
    ) by {
        assert(disk.listings@.dom().contains(dir));
        disk.listings@.dom().lemma_to_seq_to_set_id();
        assert(dirs.to_set().contains(dir));
        assert(dirs.contains(dir));
        lemma_paths_listed(dirs, disk, dir, i);
        let path = listed(dir, disk)[i].path;
        let k = choose|k: int| 0 <= k < paths_listed(dirs, disk).len() && paths_listed(dirs, disk)[k]
            == path;
        assert(all[1 + k] == path);
    }
}

/// The walk stays within the places that hold the directories still to be
/// walked and the path of every entry that a directory lists.
proof fn lemma_walk_stays_within(
    search: RecursiveSearchView,
    within: Seq<Seq<u8>>,
    config: &Config,
    disk: &DiskView,
    steps: nat,
)
    requires
        forall|j: int| 0 <= j < search.queue.len() ==> within.contains((#[trigger] search.queue[j]).path),
        forall|dir: Seq<u8>, i: int|
            0 <= i < listed(dir, disk).len() ==> within.contains(
                (#[trigger] listed(dir, disk)[i]).path,
            ),
    ensures
        forall|a: int|
            0 <= a < walk_visits(search, config, disk, steps).len() ==> within.contains(
                #[trigger] walk_visits(search, config, disk, steps)[a],
            ),
    decreases steps,
{
    if steps > 0 {
        if let Some(dir) = search.next_dir(false).1 {
            let queue = search.queue;
            assert(queue[queue.len() - 1].path == dir);
            let popped = search.next_dir(false).0;
            let walked = popped.enumerate_live(config, dir, disk);
            let subs = sub_dirs(dir, config, disk);
            let queue_now = walked.0.queue;
            let visits = walk_visits(search, config, disk, steps);
            let rest = walk_visits(walked.0, config, disk, (steps - 1) as nat);
            assert(queue_now =~= popped.queue || queue_now =~= popped.queue + subs || queue_now
                =~= Seq::empty());
            lemma_partitioned_dirs(listed(dir, disk), config, disk);
            assert forall|j: int| 0 <= j < queue_now.len() implies within.contains(
                (#[trigger] queue_now[j]).path,
            ) by {
                if j < popped.queue.len() {
                    assert(queue_now[j] == queue[j]);
                } else {
                    let k = j - popped.queue.len();
                    assert(queue_now[j] == subs[k]);
                    assert(come_from(subs, listed(dir, disk)));
                    assert(listed(dir, disk).contains(subs[k]));
                    let i = choose|i: int|
                        0 <= i < listed(dir, disk).len() && listed(dir, disk)[i] == subs[k];
                    assert(within.contains(listed(dir, disk)[i].path));
                }
            }
            lemma_walk_stays_within(walked.0, within, config, disk, (steps - 1) as nat);
            assert forall|a: int| 0 <= a < visits.len() implies within.contains(
                #[trigger] visits[a],
            ) by {
                if a > 0 {
                    assert(visits[a] == rest[a - 1]);
                }
            }
        }
    }
}

/// Each step of a walk walks a directory, until none is left.
proof fn lemma_walk_goes_on(
    search: RecursiveSearchView,
    config: &Config,
    disk: &DiskView,
    steps: nat,
)
    ensures
        walk_visits(search, config, disk, steps).len() == steps || walk_leaves(
            search,
            config,
            disk,
            steps,
        ).queue.len() == 0,
    decreases steps,
{
    if steps > 0 {
        if let Some(dir) = search.next_dir(false).1 {
            let walked = search.next_dir(false).0.enumerate_live(config, dir, disk);
            lemma_walk_goes_on(walked.0, config, disk, (steps - 1) as nat);
        }
    }
}

/// Paths of which no two are the same, each of them among the paths `all`,
/// are no more than `all`.
proof fn lemma_distinct_fit(some: Seq<Seq<u8>>, all: Seq<Seq<u8>>)
    requires
        are_walked_once(some),
        forall|a: int| 0 <= a < some.len() ==> all.contains(#[trigger] some[a]),
    ensures
        some.len() <= all.len(),
{
    assert(some.no_duplicates()) by {
        assert forall|i: int, j: int|
            0 <= i < some.len() && 0 <= j < some.len() && i != j implies some[i] != some[j] by {
            if i < j {
                assert(some[i] != some[j]);
            } else {
                assert(some[j] != some[i]);
            }
        }
    }
    some.unique_seq_to_set();
    all.lemma_cardinality_of_set();
    seq_to_set_is_finite(all);
    assert forall|path: Seq<u8>| some.to_set().contains(path) implies all.to_set().contains(
        path,
    ) by {
        let a = choose|a: int| 0 <= a < some.len() && some[a] == path;
        assert(all.contains(some[a]));
    }
    lemma_len_subset(some.to_set(), all.to_set());
}

/// Every walk comes to an end: after some number of steps no directory is
/// left to walk. The walk walks no directory twice, and each directory that
/// it walks is the one it started from or an entry that some directory
/// lists, of which there are only so many.
pub proof fn lemma_walk_comes_to_an_end(requested_dir: Seq<u8>, config: &Config, disk: &DiskView)
    requires
        disk.is_well_listed(),
    ensures
        exists|steps: nat|
            (#[trigger] walk_leaves(walk_from(requested_dir), config, disk, steps)).queue.len()
                == 0,
{
    let start = walk_from(requested_dir);
    let all = places(requested_dir, disk);
    let steps = all.len() + 1;
    let visits = walk_visits(start, config, disk, steps);
    lemma_places(requested_dir, disk);
    assert(start.queue[0].path == requested_dir);
    lemma_walk_stays_within(start, all, config, disk, steps);
    lemma_walk_sends_each_path_once(requested_dir, config, disk, steps);
    lemma_distinct_fit(visits, all);
    lemma_walk_goes_on(start, config, disk, steps);
    assert(walk_leaves(start, config, disk, steps).queue.len() == 0);
}

/// Whether the walk from `requested_dir` is over after `steps` steps, and
/// has by then walked and sent what lies below the directory, all of it and
/// nothing else, each path once.
pub open spec fn is_whole_walk(
    requested_dir: Seq<u8>,
    config: &Config,
    disk: &DiskView,
    steps: nat,
) -> bool {
    &&& walk_leaves(walk_from(requested_dir), config, disk, steps).queue.len() == 0
    &&& sends_what_lies_below(requested_dir, config, disk, steps)
}

/// A walk that goes on into directories, left to run, comes to an end, and
/// has then sent the shown entries of the directory that was asked for and
/// of every directory that can be found below it, each path once, and
/// nothing else.
pub proof fn lemma_walk_sends_all_below_once(
    requested_dir: Seq<u8>,
    config: &Config,
    disk: &DiskView,
)
    requires
        config.opt_recursive,
        disk.is_well_listed(),
    ensures
        exists|steps: nat| is_whole_walk(requested_dir, config, disk, steps),
{
    lemma_walk_comes_to_an_end(requested_dir, config, disk);
    let steps = choose|steps: nat|
        (#[trigger] walk_leaves(walk_from(requested_dir), config, disk, steps)).queue.len() == 0;
    lemma_walk_sends_what_lies_below(requested_dir, config, disk, steps);
    assert(is_whole_walk(requested_dir, config, disk, steps));
}

} // verus!
