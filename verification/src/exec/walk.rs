//! The walk of a live tree as a whole: what a run of steps sends, which
//! directories it walks, and what holds of both over the whole run.

use crate::config::{Config, DeletedMode};
use crate::data::disk::{have_distinct_paths, is_listing_of, DiskView};
use crate::data::paths::BasicDirEntryInfoView;
use crate::data::selection::{PathProvenance, SelectionCandidateView};
use crate::deleted::dir_entry_views;
use crate::exec::recursive::{
    admitted_entries, live_entries_to_send, partitioned_dirs, selections, walk_from,
    RecursiveSearchView,
};
use crate::path::{ends_well, lemma_lies_directly_in, parent, trimmed};
use vstd::prelude::*;

verus! {

/// The walk after its next `steps` directories, the caller seeing no signal
/// to stop: each step takes the directory that was found last and walks it.
/// The run is over when no directory is left, and when the directory that
/// the walk starts from cannot be listed.
pub open spec fn walk_leaves(
    search: RecursiveSearchView,
    config: &Config,
    disk: &DiskView,
    steps: nat,
) -> RecursiveSearchView
    decreases steps,
{
    if steps == 0 {
        search
    } else {
        match search.next_dir(false).1 {
            Some(requested_dir) => walk_leaves(
                search.next_dir(false).0.enumerate_live(config, requested_dir, disk).0,
                config,
                disk,
                (steps - 1) as nat,
            ),
            None => search.next_dir(false).0,
        }
    }
}

/// The directories that the next `steps` steps of the walk walk, in the
/// order they are walked in.
pub open spec fn walk_visits(
    search: RecursiveSearchView,
    config: &Config,
    disk: &DiskView,
    steps: nat,
) -> Seq<Seq<u8>>
    decreases steps,
{
    if steps == 0 {
        Seq::empty()
    } else {
        match search.next_dir(false).1 {
            Some(requested_dir) => seq![requested_dir] + walk_visits(
                search.next_dir(false).0.enumerate_live(config, requested_dir, disk).0,
                config,
                disk,
                (steps - 1) as nat,
            ),
            None => Seq::empty(),
        }
    }
}

/// What the next `steps` steps of the walk send, in the order it is sent
/// in.
pub open spec fn walk_sends(
    search: RecursiveSearchView,
    config: &Config,
    disk: &DiskView,
    steps: nat,
) -> Seq<SelectionCandidateView>
    decreases steps,
{
    if steps == 0 {
        Seq::empty()
    } else {
        match search.next_dir(false).1 {
            Some(requested_dir) => {
                let walked = search.next_dir(false).0.enumerate_live(config, requested_dir, disk);
                (match walked.1 {
                    Ok(step) => step.entries,
                    Err(_) => Seq::empty(),
                }) + walk_sends(walked.0, config, disk, (steps - 1) as nat)
            },
            None => Seq::empty(),
        }
    }
}

/// What the walk of the directory `dir` sends: its entries that are shown,
/// as live entries, in the order they were read in. A directory that cannot
/// be listed sends nothing.
pub open spec fn sent_for(dir: Seq<u8>, config: &Config, disk: &DiskView) -> Seq<
    SelectionCandidateView,
> {
    match disk.spec_read_dir(dir) {
        Some(entries) => live_entries_to_send(dir_entry_views(entries@), config),
        None => Seq::empty(),
    }
}

/// What the walks of the directories `dirs` send, one directory after the
/// other.
pub open spec fn sent_for_all(dirs: Seq<Seq<u8>>, config: &Config, disk: &DiskView) -> Seq<
    SelectionCandidateView,
>
    decreases dirs.len(),
{
    if dirs.len() == 0 {
        Seq::empty()
    } else {
        sent_for(dirs[0], config, disk) + sent_for_all(dirs.drop_first(), config, disk)
    }
}

/// Over a whole run, what the walk sends is what the directories that it
/// walks hold: for each directory walked, in the order of the walk, its
/// entries that are shown, each as a live entry and in the order it was read
/// in; and nothing else.
pub proof fn lemma_walk_sends_entries_of_visited(
    search: RecursiveSearchView,
    config: &Config,
    disk: &DiskView,
    steps: nat,
)
    requires
        !search.cancelled,
    ensures
        walk_sends(search, config, disk, steps) == sent_for_all(
            walk_visits(search, config, disk, steps),
            config,
            disk,
        ),
    decreases steps,
{
    if steps > 0 {
        if let Some(requested_dir) = search.next_dir(false).1 {
            let walked = search.next_dir(false).0.enumerate_live(config, requested_dir, disk);
            let rest = walk_visits(walked.0, config, disk, (steps - 1) as nat);
            let visits = walk_visits(search, config, disk, steps);
            assert(visits.drop_first() =~= rest);
            assert(visits[0] == requested_dir);
            let first = match walked.1 {
                Ok(step) => step.entries,
                Err(_) => Seq::empty(),
            };
            assert(first == sent_for(requested_dir, config, disk));
            let rest_sent = walk_sends(walked.0, config, disk, (steps - 1) as nat);
            if walked.0.cancelled {
                lemma_called_off_walk_does_nothing(walked.0, config, disk, (steps - 1) as nat);
                assert(rest_sent =~= Seq::empty());
                assert(rest =~= Seq::empty());
            } else {
                lemma_walk_sends_entries_of_visited(walked.0, config, disk, (steps - 1) as nat);
            }
            assert(rest_sent == sent_for_all(rest, config, disk));
            assert(walk_sends(search, config, disk, steps) == first + rest_sent);
        }
    }
}

/// A walk that was called off walks no directory and sends nothing.
pub proof fn lemma_called_off_walk_does_nothing(
    search: RecursiveSearchView,
    config: &Config,
    disk: &DiskView,
    steps: nat,
)
    requires
        search.cancelled,
    ensures
        walk_visits(search, config, disk, steps).len() == 0,
        walk_sends(search, config, disk, steps).len() == 0,
        walk_leaves(search, config, disk, steps).cancelled,
        walk_leaves(search, config, disk, steps).queue.len() == 0 || steps == 0,
{
}

/// The directories that the walk goes on into from the directory `dir`:
/// the directories among its entries that are shown. A directory that
/// cannot be listed has none.
pub open spec fn sub_dirs(dir: Seq<u8>, config: &Config, disk: &DiskView) -> Seq<
    BasicDirEntryInfoView,
> {
    match disk.spec_read_dir(dir) {
        Some(entries) => partitioned_dirs(dir_entry_views(entries@), config, disk),
        None => Seq::empty(),
    }
}

/// Whether the directory at `path` is among those still to be walked.
pub open spec fn is_queued(queue: Seq<BasicDirEntryInfoView>, path: Seq<u8>) -> bool {
    exists|j: int| 0 <= j < queue.len() && (#[trigger] queue[j]).path == path
}

/// Whether the directory at `path` was walked or is still to be walked.
pub open spec fn is_known(
    visited: Seq<Seq<u8>>,
    queue: Seq<BasicDirEntryInfoView>,
    path: Seq<u8>,
) -> bool {
    visited.contains(path) || is_queued(queue, path)
}

/// Whether no directory was lost: every directory that the walk goes on into
/// from a directory that was walked was itself walked or is still to be
/// walked.
pub open spec fn is_closed(
    visited: Seq<Seq<u8>>,
    queue: Seq<BasicDirEntryInfoView>,
    config: &Config,
    disk: &DiskView,
) -> bool {
    forall|i: int, k: int|
        0 <= i < visited.len() && 0 <= k < sub_dirs(visited[i], config, disk).len() ==> is_known(
            visited,
            queue,
            (#[trigger] sub_dirs(visited[i], config, disk)[k]).path,
        )
}

proof fn lemma_walk_is_closed(
    search: RecursiveSearchView,
    done: Seq<Seq<u8>>,
    config: &Config,
    disk: &DiskView,
    steps: nat,
)
    requires
        config.opt_recursive,
        !search.cancelled,
        search.primed || done.len() == 0,
        is_closed(done, search.queue, config, disk),
    ensures
        is_closed(
            done + walk_visits(search, config, disk, steps),
            walk_leaves(search, config, disk, steps).queue,
            config,
            disk,
        ),
    decreases steps,
{
    let visits = walk_visits(search, config, disk, steps);
    if steps == 0 || search.queue.len() == 0 {
        assert(done + visits =~= done);
    } else {
        let dir = search.queue.last().path;
        let popped = search.next_dir(false).0;
        let walked = popped.enumerate_live(config, dir, disk);
        let rest = walk_visits(walked.0, config, disk, (steps - 1) as nat);
        let done_now = done.push(dir);
        assert(done + visits =~= done_now + rest);
        if walked.0.cancelled {
            lemma_called_off_walk_does_nothing(walked.0, config, disk, (steps - 1) as nat);
            assert(done_now + rest =~= seq![dir]);
            assert(sub_dirs(dir, config, disk).len() == 0);
        } else {
            let queue = search.queue;
            let queue_now = walked.0.queue;
            assert forall|i: int, k: int|
                0 <= i < done_now.len() && 0 <= k < sub_dirs(
                    done_now[i],
                    config,
                    disk,
                ).len() implies is_known(
                done_now,
                queue_now,
                (#[trigger] sub_dirs(done_now[i], config, disk)[k]).path,
            ) by {
                let child = sub_dirs(done_now[i], config, disk)[k].path;
                if i == done.len() {
                    assert(queue_now[popped.queue.len() + k].path == child);
                } else {
                    assert(done_now[i] == done[i]);
                    assert(is_known(done, queue, sub_dirs(done[i], config, disk)[k].path));
                    if done.contains(child) {
                        let at = choose|at: int| 0 <= at < done.len() && done[at] == child;
                        assert(done_now[at] == child);
                    } else {
                        let j = choose|j: int|
                            0 <= j < queue.len() && (#[trigger] queue[j]).path == child;
                        if j == queue.len() - 1 {
                            assert(done_now[done.len() as int] == child);
                        } else {
                            assert(queue_now[j] == queue[j]);
                        }
                    }
                }
            }
            lemma_walk_is_closed(walked.0, done_now, config, disk, (steps - 1) as nat);
        }
    }
}

/// A walk that goes on into directories loses none: it starts with the
/// directory that was asked for, and when it has run until no directory is
/// left, every directory among the entries shown of a directory that it
/// walked was walked as well.
pub proof fn lemma_walk_reaches_every_directory(
    requested_dir: Seq<u8>,
    config: &Config,
    disk: &DiskView,
    steps: nat,
)
    requires
        config.opt_recursive,
    ensures
        steps > 0 ==> walk_visits(walk_from(requested_dir), config, disk, steps).len() > 0
            && walk_visits(walk_from(requested_dir), config, disk, steps)[0] == requested_dir,
        walk_leaves(walk_from(requested_dir), config, disk, steps).queue.len() == 0 ==> {
            let visits = walk_visits(walk_from(requested_dir), config, disk, steps);
            forall|i: int, k: int|
                0 <= i < visits.len() && 0 <= k < sub_dirs(visits[i], config, disk).len()
                    ==> visits.contains(
                    (#[trigger] sub_dirs(visits[i], config, disk)[k]).path,
                )
        },
{
    let start = walk_from(requested_dir);
    let visits = walk_visits(start, config, disk, steps);
    let left = walk_leaves(start, config, disk, steps);
    lemma_walk_is_closed(start, Seq::empty(), config, disk, steps);
    assert(Seq::<Seq<u8>>::empty() + visits =~= visits);
    if left.queue.len() == 0 {
        assert forall|i: int, k: int|
            0 <= i < visits.len() && 0 <= k < sub_dirs(
                visits[i],
                config,
                disk,
            ).len() implies visits.contains(
            (#[trigger] sub_dirs(visits[i], config, disk)[k]).path,
        ) by {
            assert(is_known(visits, left.queue, sub_dirs(visits[i], config, disk)[k].path));
        }
    }
}

/// The entries of the directory `dir`, as far as it could be listed.
pub open spec fn listed(dir: Seq<u8>, disk: &DiskView) -> Seq<BasicDirEntryInfoView> {
    match disk.spec_read_dir(dir) {
        Some(entries) => dir_entry_views(entries@),
        None => Seq::empty(),
    }
}

/// Whether each of `part` is one of `whole`.
pub open spec fn come_from(
    part: Seq<BasicDirEntryInfoView>,
    whole: Seq<BasicDirEntryInfoView>,
) -> bool {
    forall|a: int| 0 <= a < part.len() ==> whole.contains(#[trigger] part[a])
}

/// Keeping or leaving out the last entry of a list keeps what holds of the
/// entries kept of the list before it: they are entries of the list, and
/// have distinct paths where those of the list have.
pub(crate) proof fn lemma_keep_step(
    entries: Seq<BasicDirEntryInfoView>,
    kept: Seq<BasicDirEntryInfoView>,
    out: Seq<BasicDirEntryInfoView>,
)
    requires
        entries.len() > 0,
        come_from(kept, entries.drop_last()),
        have_distinct_paths(entries.drop_last()) ==> have_distinct_paths(kept),
        out == kept || out == kept.push(entries.last()),
    ensures
        come_from(out, entries),
        have_distinct_paths(entries) ==> have_distinct_paths(out),
{
    let front = entries.drop_last();
    assert forall|a: int| 0 <= a < out.len() implies entries.contains(#[trigger] out[a]) by {
        if a < kept.len() {
            assert(out[a] == kept[a]);
            assert(front.contains(kept[a]));
            let i = choose|i: int| 0 <= i < front.len() && front[i] == kept[a];
            assert(entries[i] == out[a]);
        } else {
            assert(entries[entries.len() - 1] == out[a]);
        }
    }
    if have_distinct_paths(entries) {
        assert(have_distinct_paths(front)) by {
            assert forall|i: int, j: int| 0 <= i < j < front.len() implies (
            #[trigger] front[i]).path != (#[trigger] front[j]).path by {
                assert(front[i] == entries[i] && front[j] == entries[j]);
            }
        }
        assert forall|a: int, b: int| 0 <= a < b < out.len() implies (#[trigger] out[a]).path != (
        #[trigger] out[b]).path by {
            assert(out[a] == kept[a]);
            if b < kept.len() {
                assert(out[b] == kept[b]);
            } else {
                assert(front.contains(kept[a]));
                let i = choose|i: int| 0 <= i < front.len() && front[i] == kept[a];
                assert(entries[i] == kept[a]);
                assert(entries[entries.len() - 1] == out[b]);
            }
        }
    }
}

/// The entries that are shown are entries of the list, and have distinct
/// paths where those of the list have.
proof fn lemma_admitted_entries(entries: Seq<BasicDirEntryInfoView>, config: &Config)
    ensures
        come_from(admitted_entries(entries, config), entries),
        have_distinct_paths(entries) ==> have_distinct_paths(admitted_entries(entries, config)),
        admitted_entries(entries, config).len() <= entries.len(),
    decreases entries.len(),
{
    if entries.len() > 0 {
        lemma_admitted_entries(entries.drop_last(), config);
        lemma_keep_step(
            entries,
            admitted_entries(entries.drop_last(), config),
            admitted_entries(entries, config),
        );
    }
}

/// The directories among the entries shown are entries of the list, and
/// have distinct paths where those of the list have.
pub(crate) proof fn lemma_partitioned_dirs(
    entries: Seq<BasicDirEntryInfoView>,
    config: &Config,
    disk: &DiskView,
)
    ensures
        come_from(partitioned_dirs(entries, config, disk), entries),
        have_distinct_paths(entries) ==> have_distinct_paths(
            partitioned_dirs(entries, config, disk),
        ),
    decreases entries.len(),
{
    if entries.len() > 0 {
        lemma_partitioned_dirs(entries.drop_last(), config, disk);
        lemma_keep_step(
            entries,
            partitioned_dirs(entries.drop_last(), config, disk),
            partitioned_dirs(entries, config, disk),
        );
    }
}

/// Whether the directory at `path` is the one the walk started from, or lies
/// directly in a directory that was walked. `done` holds the directories
/// that were walked, each as its entries have it above them.
pub open spec fn is_rooted(path: Seq<u8>, done: Seq<Seq<u8>>, root: Seq<u8>) -> bool {
    path == root || (ends_well(path) && lies_in(path, done))
}

/// What holds of a walk of a tree at every step: the directories still to
/// be walked are distinct and none of them was walked; each directory, walked
/// or still to be walked, is the one the walk started from or lies directly
/// in a directory that was walked; and none has a shorter path than the one
/// the walk started from.
pub open spec fn is_walk_of_tree(
    done: Seq<Seq<u8>>,
    queue: Seq<BasicDirEntryInfoView>,
    root: Seq<u8>,
) -> bool {
    &&& have_distinct_paths(queue)
    &&& forall|j: int| 0 <= j < queue.len() ==> !done.contains(trimmed((#[trigger] queue[j]).path))
    &&& forall|j: int| 0 <= j < queue.len() ==> is_rooted((#[trigger] queue[j]).path, done, root)
    &&& forall|i: int|
        0 <= i < done.len() ==> (#[trigger] done[i]) == trimmed(root) || lies_in(done[i], done)
    &&& forall|j: int| 0 <= j < queue.len() ==> (#[trigger] queue[j]).path.len() >= root.len()
    &&& forall|i: int| 0 <= i < done.len() ==> (#[trigger] done[i]).len() >= trimmed(root).len()
}

/// Whether the entry at `path` lies directly in one of the directories
/// `done`.
pub open spec fn lies_in(path: Seq<u8>, done: Seq<Seq<u8>>) -> bool {
    parent(path) matches Some(up) && done.contains(up)
}

/// Whether no two of the directories are the same.
pub open spec fn are_walked_once(visits: Seq<Seq<u8>>) -> bool {
    forall|a: int, b: int| 0 <= a < b < visits.len() ==> (#[trigger] visits[a]) != (
    #[trigger] visits[b])
}

/// Whether no two of the candidates have the same path.
pub open spec fn are_sent_once(sent: Seq<SelectionCandidateView>) -> bool {
    forall|a: int, b: int|
        0 <= a < b < sent.len() ==> (#[trigger] sent[a]).path != (#[trigger] sent[b]).path
}

/// What the walk of a directory of a tree sends lies directly in that
/// directory, and no path is sent twice.
proof fn lemma_sent_for(dir: Seq<u8>, config: &Config, disk: &DiskView)
    requires
        disk.is_well_listed(),
    ensures
        are_sent_once(sent_for(dir, config, disk)),
        forall|a: int|
            0 <= a < sent_for(dir, config, disk).len() ==> parent(
                (#[trigger] sent_for(dir, config, disk)[a]).path,
            ) == Some(trimmed(dir)),
        have_distinct_paths(sub_dirs(dir, config, disk)),
        forall|k: int|
            0 <= k < sub_dirs(dir, config, disk).len() ==> {
                &&& parent((#[trigger] sub_dirs(dir, config, disk)[k]).path) == Some(trimmed(dir))
                &&& ends_well(sub_dirs(dir, config, disk)[k].path)
                &&& sub_dirs(dir, config, disk)[k].path.len() > dir.len()
            },
{
    let all = listed(dir, disk);
    if let Some(entries) = disk.spec_read_dir(dir) {
        assert(disk.listings@.dom().contains(dir));
        assert(is_listing_of(dir, all));
        assert forall|i: int| 0 <= i < all.len() implies {
            &&& parent((#[trigger] all[i]).path) == Some(trimmed(dir))
            &&& ends_well(all[i].path)
            &&& all[i].path.len() > dir.len()
        } by {
            lemma_lies_directly_in(dir, all[i].path);
        }
        let shown = admitted_entries(all, config);
        lemma_admitted_entries(all, config);
        let sent = sent_for(dir, config, disk);
        if config.deleted_mode != DeletedMode::Only {
            assert(sent == selections(shown, PathProvenance::FromLiveDataset));
            assert forall|a: int| 0 <= a < sent.len() implies parent((#[trigger] sent[a]).path)
                == Some(trimmed(dir)) by {
                assert(sent[a].path == shown[a].path);
                assert(all.contains(shown[a]));
                let i = choose|i: int| 0 <= i < all.len() && all[i] == shown[a];
                assert(parent(all[i].path) == Some(trimmed(dir)));
            }
            assert forall|a: int, b: int| 0 <= a < b < sent.len() implies (#[trigger] sent[a]).path
                != (#[trigger] sent[b]).path by {
                assert(sent[a].path == shown[a].path && sent[b].path == shown[b].path);
            }
        }
        let subs = sub_dirs(dir, config, disk);
        lemma_partitioned_dirs(all, config, disk);
        assert forall|k: int| 0 <= k < subs.len() implies {
            &&& parent((#[trigger] subs[k]).path) == Some(trimmed(dir))
            &&& ends_well(subs[k].path)
            &&& subs[k].path.len() > dir.len()
        } by {
            assert(all.contains(subs[k]));
            let i = choose|i: int| 0 <= i < all.len() && all[i] == subs[k];
            assert(parent(all[i].path) == Some(trimmed(dir)));
        }
    }
}

/// A step of the walk of a tree keeps what holds of such a walk: the
/// directory that was found last is walked, and the directories `subs` that
/// lie directly in it may come to those still to be walked.
pub(crate) proof fn lemma_walk_step_keeps_tree(
    done: Seq<Seq<u8>>,
    queue: Seq<BasicDirEntryInfoView>,
    subs: Seq<BasicDirEntryInfoView>,
    queue_now: Seq<BasicDirEntryInfoView>,
    root: Seq<u8>,
)
    requires
        is_walk_of_tree(done, queue, root),
        queue.len() > 0,
        have_distinct_paths(subs),
        forall|k: int|
            0 <= k < subs.len() ==> {
                &&& parent((#[trigger] subs[k]).path) == Some(trimmed(queue.last().path))
                &&& ends_well(subs[k].path)
                &&& subs[k].path.len() > queue.last().path.len()
            },
        queue_now == queue.drop_last() || queue_now == queue.drop_last() + subs,
    ensures
        is_walk_of_tree(done.push(trimmed(queue.last().path)), queue_now, root),
{
    let dir = queue.last().path;
    let kept = queue.drop_last();
    let done_now = done.push(trimmed(dir));
    assert(queue[queue.len() - 1].path == dir);
    assert(!done.contains(trimmed(dir)));
    assert(is_rooted(dir, done, root));
    assert(done_now[done.len() as int] == trimmed(dir));
    assert forall|up: Seq<u8>| done.contains(up) implies done_now.contains(up) by {
        let at = choose|at: int| 0 <= at < done.len() && done[at] == up;
        assert(done_now[at] == up);
    }
    assert forall|up: Seq<u8>| done_now.contains(up) implies done.contains(up) || up == trimmed(
        dir,
    ) by {
        let at = choose|at: int| 0 <= at < done_now.len() && done_now[at] == up;
        if at < done.len() {
            assert(done[at] == up);
        }
    }
    assert(trimmed(root).len() <= root.len());
    // what is true of each directory that was still to be walked before
    assert forall|j: int| 0 <= j < kept.len() implies {
        &&& !done_now.contains(trimmed((#[trigger] kept[j]).path))
        &&& is_rooted(kept[j].path, done_now, root)
        &&& kept[j].path.len() >= root.len()
        &&& trimmed(kept[j].path) != trimmed(dir)
    } by {
        assert(kept[j] == queue[j]);
        assert(!done.contains(trimmed(queue[j].path)));
        assert(is_rooted(queue[j].path, done, root));
        assert(queue[j].path.len() >= root.len());
        assert(queue[j].path != dir);
    }
    // and of each directory that was found in this step
    assert forall|k: int| 0 <= k < subs.len() implies {
        &&& !done_now.contains(trimmed((#[trigger] subs[k]).path))
        &&& is_rooted(subs[k].path, done_now, root)
        &&& subs[k].path.len() >= root.len()
        &&& !lies_in(subs[k].path, done)
    } by {
        let child = subs[k].path;
        assert(parent(child) == Some(trimmed(dir)));
        assert(trimmed(child) == child);
        assert(dir.len() >= root.len());
        assert(done_now.contains(trimmed(dir)));
        if done.contains(child) {
            let at = choose|at: int| 0 <= at < done.len() && done[at] == child;
            assert(done[at] == trimmed(root) || lies_in(done[at], done));
        }
    }
    assert forall|i: int, j: int| 0 <= i < j < kept.len() implies (#[trigger] kept[i]).path != (
    #[trigger] kept[j]).path by {
        assert(kept[i] == queue[i] && kept[j] == queue[j]);
    }
    assert forall|i: int| 0 <= i < done_now.len() implies {
        &&& ((#[trigger] done_now[i]) == trimmed(root) || lies_in(done_now[i], done_now))
        &&& done_now[i].len() >= trimmed(root).len()
    } by {
        if i < done.len() {
            assert(done_now[i] == done[i]);
            assert(done[i] == trimmed(root) || lies_in(done[i], done));
        }
    }
    if queue_now == kept {
    } else {
        assert forall|j: int| 0 <= j < queue_now.len() implies {
            &&& !done_now.contains(trimmed((#[trigger] queue_now[j]).path))
            &&& is_rooted(queue_now[j].path, done_now, root)
            &&& queue_now[j].path.len() >= root.len()
        } by {
            if j < kept.len() {
                assert(queue_now[j] == kept[j]);
            } else {
                assert(queue_now[j] == subs[j - kept.len()]);
            }
        }
        assert forall|i: int, j: int| 0 <= i < j < queue_now.len() implies (
        #[trigger] queue_now[i]).path != (#[trigger] queue_now[j]).path by {
            if j < kept.len() {
                assert(queue_now[i] == kept[i] && queue_now[j] == kept[j]);
            } else {
                assert(queue_now[j] == subs[j - kept.len()]);
                assert(!lies_in(subs[j - kept.len()].path, done));
                if i < kept.len() {
                    assert(queue_now[i] == kept[i]);
                    assert(kept[i] == queue[i]);
                    assert(is_rooted(queue[i].path, done, root));
                } else {
                    assert(queue_now[i] == subs[i - kept.len()]);
                }
            }
        }
    }
}

proof fn lemma_walk_sends_once(
    search: RecursiveSearchView,
    done: Seq<Seq<u8>>,
    root: Seq<u8>,
    config: &Config,
    disk: &DiskView,
    steps: nat,
)
    requires
        disk.is_well_listed(),
        !search.cancelled,
        is_walk_of_tree(done, search.queue, root),
    ensures
        are_sent_once(walk_sends(search, config, disk, steps)),
        forall|a: int|
            0 <= a < walk_sends(search, config, disk, steps).len() ==> !lies_in(
                (#[trigger] walk_sends(search, config, disk, steps)[a]).path,
                done,
            ),
        are_walked_once(walk_visits(search, config, disk, steps)),
        forall|a: int|
            0 <= a < walk_visits(search, config, disk, steps).len() ==> !done.contains(
                trimmed(#[trigger] walk_visits(search, config, disk, steps)[a]),
            ),
    decreases steps,
{
    let sent = walk_sends(search, config, disk, steps);
    let visits = walk_visits(search, config, disk, steps);
    if steps > 0 && search.queue.len() > 0 {
        let queue = search.queue;
        let dir = queue.last().path;
        assert(queue[queue.len() - 1].path == dir);
        let popped = search.next_dir(false).0;
        let walked = popped.enumerate_live(config, dir, disk);
        let first = match walked.1 {
            Ok(step) => step.entries,
            Err(_) => Seq::empty(),
        };
        let rest = walk_sends(walked.0, config, disk, (steps - 1) as nat);
        let rest_visits = walk_visits(walked.0, config, disk, (steps - 1) as nat);
        assert(sent == first + rest);
        assert(visits == seq![dir] + rest_visits);
        assert(!done.contains(trimmed(dir)));
        assert(is_rooted(dir, done, root));
        assert(first == sent_for(dir, config, disk));
        lemma_sent_for(dir, config, disk);
        let done_now = done.push(trimmed(dir));
        assert(done_now[done.len() as int] == trimmed(dir));
        assert forall|up: Seq<u8>| done.contains(up) implies done_now.contains(up) by {
            let at = choose|at: int| 0 <= at < done.len() && done[at] == up;
            assert(done_now[at] == up);
        }
        assert forall|up: Seq<u8>| done_now.contains(up) implies done.contains(up) || up == trimmed(
            dir,
        ) by {
            let at = choose|at: int| 0 <= at < done_now.len() && done_now[at] == up;
            if at < done.len() {
                assert(done[at] == up);
            }
        }
        if walked.0.cancelled {
            lemma_called_off_walk_does_nothing(walked.0, config, disk, (steps - 1) as nat);
            assert(rest =~= Seq::empty());
            assert(rest_visits =~= Seq::empty());
        } else {
            let subs = sub_dirs(dir, config, disk);
            let queue_now = walked.0.queue;
            assert(queue_now =~= popped.queue || queue_now =~= popped.queue + subs);
            assert(popped.queue == queue.drop_last());
            lemma_walk_step_keeps_tree(done, queue, subs, queue_now, root);
            lemma_walk_sends_once(walked.0, done_now, root, config, disk, (steps - 1) as nat);
        }
        assert forall|a: int| 0 <= a < visits.len() implies !done.contains(
            trimmed(#[trigger] visits[a]),
        ) by {
            if a > 0 {
                assert(visits[a] == rest_visits[a - 1]);
                assert(!done_now.contains(trimmed(rest_visits[a - 1])));
            }
        }
        assert forall|a: int, b: int| 0 <= a < b < visits.len() implies (#[trigger] visits[a]) != (
        #[trigger] visits[b]) by {
            assert(visits[b] == rest_visits[b - 1]);
            assert(!done_now.contains(trimmed(rest_visits[b - 1])));
            if a > 0 {
                assert(visits[a] == rest_visits[a - 1]);
            }
        }
        assert forall|a: int| 0 <= a < sent.len() implies !lies_in((#[trigger] sent[a]).path, done) by {
            if a < first.len() {
                assert(sent[a] == first[a]);
                assert(parent(first[a].path) == Some(trimmed(dir)));
            } else {
                assert(sent[a] == rest[a - first.len()]);
                assert(!lies_in(rest[a - first.len()].path, done_now));
            }
        }
        assert forall|a: int, b: int| 0 <= a < b < sent.len() implies (#[trigger] sent[a]).path != (
        #[trigger] sent[b]).path by {
            if b < first.len() {
                assert(sent[a] == first[a] && sent[b] == first[b]);
            } else if a < first.len() {
                assert(sent[a] == first[a]);
                assert(parent(first[a].path) == Some(trimmed(dir)));
                assert(sent[b] == rest[b - first.len()]);
                assert(!lies_in(rest[b - first.len()].path, done_now));
            } else {
                assert(sent[a] == rest[a - first.len()]);
                assert(sent[b] == rest[b - first.len()]);
            }
        }
    }
}

/// Over a whole run no directory is walked twice and no path is sent twice:
/// each entry that is shown is sent once, when the directory that holds it
/// is walked. This rests on nothing but the validity of the view of the
/// disk, which lists each directory with names put below it, and holds
/// however the directory that the walk starts from was written.
pub proof fn lemma_walk_sends_each_path_once(
    requested_dir: Seq<u8>,
    config: &Config,
    disk: &DiskView,
    steps: nat,
)
    requires
        disk.is_well_listed(),
    ensures
        are_walked_once(walk_visits(walk_from(requested_dir), config, disk, steps)),
        are_sent_once(walk_sends(walk_from(requested_dir), config, disk, steps)),
{
    let start = walk_from(requested_dir);
    assert(start.queue[0].path == requested_dir);
    lemma_walk_sends_once(start, Seq::empty(), requested_dir, config, disk, steps);
}

/// Whether the walk goes on from the directory `up` into the directory
/// `dir`: `dir` is a directory among the entries shown of `up`.
pub open spec fn goes_on_into(up: Seq<u8>, dir: Seq<u8>, config: &Config, disk: &DiskView) -> bool {
    exists|k: int|
        0 <= k < sub_dirs(up, config, disk).len() && (#[trigger] sub_dirs(up, config, disk)[k]).path
            == dir
}

/// Whether `dir` lies `depth` directories below `root`, each of them a
/// directory among the entries shown of the one above it.
pub open spec fn lies_below_at(
    root: Seq<u8>,
    dir: Seq<u8>,
    config: &Config,
    disk: &DiskView,
    depth: nat,
) -> bool
    decreases depth,
{
    if depth == 0 {
        dir == root
    } else {
        exists|up: Seq<u8>| #[trigger]
            goes_on_into(up, dir, config, disk) && lies_below_at(
                root,
                up,
                config,
                disk,
                (depth - 1) as nat,
            )
    }
}

/// Whether `dir` is `root`, or a directory that can be found below it.
pub open spec fn lies_below(root: Seq<u8>, dir: Seq<u8>, config: &Config, disk: &DiskView) -> bool {
    exists|depth: nat| lies_below_at(root, dir, config, disk, depth)
}

/// Whether `sent` is one of the entries that the directory `dir` sends.
pub open spec fn is_sent_for(
    sent: SelectionCandidateView,
    dir: Seq<u8>,
    config: &Config,
    disk: &DiskView,
) -> bool {
    sent_for(dir, config, disk).contains(sent)
}

/// The walk stays below the directory it started from: where each directory
/// that is still to be walked lies below `root`, so does each directory
/// that the walk goes on to walk.
proof fn lemma_walk_stays_below(
    search: RecursiveSearchView,
    root: Seq<u8>,
    config: &Config,
    disk: &DiskView,
    steps: nat,
)
    requires
        forall|j: int|
            0 <= j < search.queue.len() ==> lies_below(
                root,
                (#[trigger] search.queue[j]).path,
                config,
                disk,
            ),
    ensures
        forall|a: int|
            0 <= a < walk_visits(search, config, disk, steps).len() ==> lies_below(
                root,
                #[trigger] walk_visits(search, config, disk, steps)[a],
                config,
                disk,
            ),
    decreases steps,
{
    if steps > 0 {
        if let Some(dir) = search.next_dir(false).1 {
            let queue = search.queue;
            assert(queue[queue.len() - 1].path == dir);
            let popped = search.next_dir(false).0;
            let walked = popped.enumerate_live(config, dir, disk);
            let subs = sub_dirs(dir, config, disk);
            let queue_now = walked.0.queue;
            let visits = walk_visits(search, config, disk, steps);
            let rest = walk_visits(walked.0, config, disk, (steps - 1) as nat);
            assert(queue_now =~= popped.queue || queue_now =~= popped.queue + subs || queue_now
                =~= Seq::empty());
            let depth = choose|depth: nat| lies_below_at(root, dir, config, disk, depth);
            assert forall|j: int| 0 <= j < queue_now.len() implies lies_below(
                root,
                (#[trigger] queue_now[j]).path,
                config,
                disk,
            ) by {
                if j < popped.queue.len() {
                    assert(queue_now[j] == queue[j]);
                } else {
                    let k = j - popped.queue.len();
                    assert(queue_now[j] == subs[k]);
                    assert(goes_on_into(dir, subs[k].path, config, disk));
                    assert(lies_below_at(root, subs[k].path, config, disk, depth + 1));
                }
            }
            lemma_walk_stays_below(walked.0, root, config, disk, (steps - 1) as nat);
            assert forall|a: int| 0 <= a < visits.len() implies lies_below(
                root,
                #[trigger] visits[a],
                config,
                disk,
            ) by {
                if a > 0 {
                    assert(visits[a] == rest[a - 1]);
                }
            }
        }
    }
}

/// Where the directories `visits` hold `root` and every directory that the
/// walk goes on into from one of them, they hold every directory that lies
/// below `root`.
proof fn lemma_all_below_are_walked(
    visits: Seq<Seq<u8>>,
    root: Seq<u8>,
    dir: Seq<u8>,
    config: &Config,
    disk: &DiskView,
    depth: nat,
)
    requires
        visits.contains(root),
        forall|i: int, k: int|
            0 <= i < visits.len() && 0 <= k < sub_dirs(visits[i], config, disk).len()
                ==> visits.contains((#[trigger] sub_dirs(visits[i], config, disk)[k]).path),
        lies_below_at(root, dir, config, disk, depth),
    ensures
        visits.contains(dir),
    decreases depth,
{
    if depth > 0 {
        let up = choose|up: Seq<u8>| #[trigger]
            goes_on_into(up, dir, config, disk) && lies_below_at(
                root,
                up,
                config,
                disk,
                (depth - 1) as nat,
            );
        lemma_all_below_are_walked(visits, root, up, config, disk, (depth - 1) as nat);
        let i = choose|i: int| 0 <= i < visits.len() && visits[i] == up;
        let k = choose|k: int|
            0 <= k < sub_dirs(up, config, disk).len() && (#[trigger] sub_dirs(
                up,
                config,
                disk,
            )[k]).path == dir;
        assert(visits.contains(sub_dirs(visits[i], config, disk)[k].path));
    }
}

/// What the directories `dirs` send holds what each of them sends, and
/// nothing else.
proof fn lemma_sent_for_all(dirs: Seq<Seq<u8>>, config: &Config, disk: &DiskView)
    ensures
        forall|i: int, k: int|
            0 <= i < dirs.len() && 0 <= k < sent_for(dirs[i], config, disk).len() ==> sent_for_all(
                dirs,
                config,
                disk,
            ).contains(#[trigger] sent_for(dirs[i], config, disk)[k]),
        forall|a: int|
            0 <= a < sent_for_all(dirs, config, disk).len() ==> exists|i: int|
                0 <= i < dirs.len() && is_sent_for(
                    #[trigger] sent_for_all(dirs, config, disk)[a],
                    #[trigger] dirs[i],
                    config,
                    disk,
                ),
    decreases dirs.len(),
{
    if dirs.len() > 0 {
        let first = sent_for(dirs[0], config, disk);
        let rest = sent_for_all(dirs.drop_first(), config, disk);
        let all = sent_for_all(dirs, config, disk);
        assert(all == first + rest);
        lemma_sent_for_all(dirs.drop_first(), config, disk);
        assert forall|i: int, k: int|
            0 <= i < dirs.len() && 0 <= k < sent_for(dirs[i], config, disk).len() implies all.contains(
            #[trigger] sent_for(dirs[i], config, disk)[k],
        ) by {
            if i == 0 {
                assert(all[k] == first[k]);
            } else {
                assert(dirs.drop_first()[i - 1] == dirs[i]);
                let item = sent_for(dirs.drop_first()[i - 1], config, disk)[k];
                assert(rest.contains(item));
                let at = choose|at: int| 0 <= at < rest.len() && rest[at] == item;
                assert(all[first.len() + at] == item);
            }
        }
        assert forall|a: int| 0 <= a < all.len() implies exists|i: int|
            0 <= i < dirs.len() && is_sent_for(#[trigger] all[a], #[trigger] dirs[i], config, disk) by {
            if a < first.len() {
                assert(all[a] == first[a]);
                assert(is_sent_for(all[a], dirs[0], config, disk));
            } else {
                let b = a - first.len();
                assert(all[a] == rest[b]);
                let i = choose|i: int|
                    0 <= i < dirs.drop_first().len() && is_sent_for(
                        #[trigger] rest[b],
                        #[trigger] dirs.drop_first()[i],
                        config,
                        disk,
                    );
                assert(dirs[i + 1] == dirs.drop_first()[i]);
                assert(is_sent_for(all[a], dirs[i + 1], config, disk));
            }
        }
    }
}

/// Whether the first `steps` steps of the walk from `requested_dir` walked
/// and sent what lies below the directory, all of it and nothing else: the
/// directories walked are that directory and every directory that can be
/// found below it, each walked once; what was sent is made of the shown
/// entries of each of them, as live entries, and no path was sent twice.
pub open spec fn sends_what_lies_below(
    requested_dir: Seq<u8>,
    config: &Config,
    disk: &DiskView,
    steps: nat,
) -> bool {
    let visits = walk_visits(walk_from(requested_dir), config, disk, steps);
    let sends = walk_sends(walk_from(requested_dir), config, disk, steps);
    &&& forall|dir: Seq<u8>| #[trigger]
        visits.contains(dir) <==> lies_below(requested_dir, dir, config, disk)
    &&& are_walked_once(visits)
    &&& forall|dir: Seq<u8>, k: int|
        lies_below(requested_dir, dir, config, disk) && 0 <= k < sent_for(dir, config, disk).len()
            ==> sends.contains(#[trigger] sent_for(dir, config, disk)[k])
    &&& forall|a: int|
        0 <= a < sends.len() ==> !(#[trigger] sends[a]).is_phantom && exists|dir: Seq<u8>|
            lies_below(requested_dir, dir, config, disk) && #[trigger] is_sent_for(
                sends[a],
                dir,
                config,
                disk,
            )
    &&& are_sent_once(sends)
}

/// A walk that goes on into directories and has run until no directory is
/// left has walked and sent what lies below the directory that was asked
/// for, all of it and nothing else.
pub proof fn lemma_walk_sends_what_lies_below(
    requested_dir: Seq<u8>,
    config: &Config,
    disk: &DiskView,
    steps: nat,
)
    requires
        config.opt_recursive,
        disk.is_well_listed(),
        walk_leaves(walk_from(requested_dir), config, disk, steps).queue.len() == 0,
    ensures
        sends_what_lies_below(requested_dir, config, disk, steps),
{
    let start = walk_from(requested_dir);
    let visits = walk_visits(start, config, disk, steps);
    let sends = walk_sends(start, config, disk, steps);
    assert(start.queue[0].path == requested_dir);
    assert(steps > 0);
    lemma_walk_reaches_every_directory(requested_dir, config, disk, steps);
    lemma_walk_sends_each_path_once(requested_dir, config, disk, steps);
    lemma_walk_sends_entries_of_visited(start, config, disk, steps);
    lemma_sent_for_all(visits, config, disk);
    assert(lies_below_at(requested_dir, requested_dir, config, disk, 0));
    lemma_walk_stays_below(start, requested_dir, config, disk, steps);
    assert(visits[0] == requested_dir);
    assert forall|dir: Seq<u8>| #[trigger]
        visits.contains(dir) <==> lies_below(requested_dir, dir, config, disk) by {
        if visits.contains(dir) {
            let a = choose|a: int| 0 <= a < visits.len() && visits[a] == dir;
            assert(lies_below(requested_dir, visits[a], config, disk));
        }
        if lies_below(requested_dir, dir, config, disk) {
            let depth = choose|depth: nat| lies_below_at(requested_dir, dir, config, disk, depth);
            lemma_all_below_are_walked(visits, requested_dir, dir, config, disk, depth);
        }
    }
    assert forall|dir: Seq<u8>, k: int|
        lies_below(requested_dir, dir, config, disk) && 0 <= k < sent_for(
            dir,
            config,
            disk,
        ).len() implies sends.contains(#[trigger] sent_for(dir, config, disk)[k]) by {
        assert(visits.contains(dir));
        let i = choose|i: int| 0 <= i < visits.len() && visits[i] == dir;
        assert(sends.contains(sent_for(visits[i], config, disk)[k]));
    }
    assert forall|a: int| 0 <= a < sends.len() implies !(#[trigger] sends[a]).is_phantom
        && exists|dir: Seq<u8>|
        lies_below(requested_dir, dir, config, disk) && #[trigger] is_sent_for(
            sends[a],
            dir,
            config,
            disk,
        ) by {
        let i = choose|i: int|
            0 <= i < visits.len() && is_sent_for(#[trigger] sends[a], #[trigger] visits[i], config, disk);
        assert(visits.contains(visits[i]));
        assert(lies_below(requested_dir, visits[i], config, disk));
        let from = sent_for(visits[i], config, disk);
        let k = choose|k: int| 0 <= k < from.len() && from[k] == sends[a];
    }
}

/// Where the consumer goes away while the first directory is sent, the walk
/// is over at the next step: the caller sees the signal when it asks for the
/// next directory, no directory is given out, and nothing more is sent. What
/// the walk has sent by then is no more than the entries of the directory
/// that was asked for.
pub proof fn lemma_walk_called_off_after_first_directory(
    requested_dir: Seq<u8>,
    config: &Config,
    disk: &DiskView,
    steps: nat,
)
    ensures
        ({
            let first = walk_from(requested_dir).next_dir(false);
            let walked = first.0.enumerate_live(config, requested_dir, disk);
            let stopped = walked.0.next_dir(true);
            &&& first.1 == Some(requested_dir)
            &&& walked.1 matches Ok(step) ==> step.entries.len() <= listed(
                requested_dir,
                disk,
            ).len()
            &&& stopped.1 is None
            &&& stopped.0.cancelled
            &&& stopped.0.queue.len() == 0
            &&& walk_visits(stopped.0, config, disk, steps).len() == 0
            &&& walk_sends(stopped.0, config, disk, steps).len() == 0
        }),
{
    let first = walk_from(requested_dir).next_dir(false);
    let walked = first.0.enumerate_live(config, requested_dir, disk);
    let stopped = walked.0.next_dir(true);
    assert(walk_from(requested_dir).queue.last().path == requested_dir);
    lemma_admitted_entries(listed(requested_dir, disk), config);
    lemma_called_off_walk_does_nothing(stopped.0, config, disk, steps);
}

} // verus!
