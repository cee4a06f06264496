//! The search behind a deleted directory as a whole: what a run of steps
//! brings back from the snapshot, and where each entry shows.

use crate::config::Config;
use crate::data::disk::{have_distinct_paths, is_listing_of, DiskView};
use crate::data::paths::{BasicDirEntryInfoView, FileType};
use crate::data::selection::SelectionCandidateView;
use crate::deleted::dir_entry_views;
use crate::exec::recursive::{
    behind_deleted_dir, behind_step, behind_sub_dirs, entry_is_dir, partitioned_dirs,
    partitioned_files, pseudo_live_versions, BehindDeletedDirView,
};
use crate::exec::walk::{
    are_sent_once, come_from, is_walk_of_tree, lemma_keep_step, lemma_partitioned_dirs,
    lemma_walk_step_keeps_tree, lies_in, listed,
};
use crate::path::{
    ends_well, file_name, is_ancestor, is_entry_name, join, lemma_file_name, lemma_is_ancestor,
    lemma_join_lies_below, lemma_parent_shorter, lies_directly_in, parent, trimmed, SEPARATOR,
};
use vstd::prelude::*;

verus! {

/// What a search behind deleted directories sends through its next `steps`
/// steps: each step takes the directory that was found last, sends its
/// entries as they would show in the place the directory once had, and goes
/// on behind its directories. The search is over when no directory is left,
/// and when a directory in a snapshot cannot be listed.
pub open spec fn behind_sends(
    stack: Seq<BehindDeletedDirView>,
    config: &Config,
    disk: &DiskView,
    steps: nat,
) -> Seq<SelectionCandidateView>
    decreases steps,
{
    if steps == 0 || stack.len() == 0 {
        Seq::empty()
    } else {
        match behind_step(stack.last(), config, disk) {
            Ok(step) => step.entries + behind_sends(
                stack.drop_last() + step.behind,
                config,
                disk,
                (steps - 1) as nat,
            ),
            Err(_) => Seq::empty(),
        }
    }
}

/// Whether the place that the directory `within` is shown at is `top` or
/// below it.
pub open spec fn is_shown_below(top: Seq<u8>, within: BehindDeletedDirView) -> bool {
    is_ancestor(top, within.pseudo_live_dir()) && ends_well(within.pseudo_live_dir())
}

/// Whether `sent` is a phantom that is shown below `top`.
pub open spec fn is_phantom_below(top: Seq<u8>, sent: SelectionCandidateView) -> bool {
    sent.is_phantom && is_ancestor(top, sent.path) && sent.path != top
}

/// Entries that are shown in a directory lie directly in it.
proof fn lemma_pseudo_live_versions(entries: Seq<BasicDirEntryInfoView>, pseudo_live_dir: Seq<u8>)
    requires
        ends_well(pseudo_live_dir),
    ensures
        forall|a: int|
            0 <= a < pseudo_live_versions(entries, pseudo_live_dir).len() ==> parent(
                (#[trigger] pseudo_live_versions(entries, pseudo_live_dir)[a]).path,
            ) == Some(pseudo_live_dir),
    decreases entries.len(),
{
    if entries.len() > 0 {
        let before = pseudo_live_versions(entries.drop_last(), pseudo_live_dir);
        let all = pseudo_live_versions(entries, pseudo_live_dir);
        lemma_pseudo_live_versions(entries.drop_last(), pseudo_live_dir);
        assert forall|a: int| 0 <= a < all.len() implies parent((#[trigger] all[a]).path) == Some(
            pseudo_live_dir,
        ) by {
            if a < before.len() {
                assert(all[a] == before[a]);
            } else {
                let name = file_name(entries.last().path)->Some_0;
                lemma_file_name(entries.last().path);
                lemma_join_lies_below(pseudo_live_dir, name);
            }
        }
    }
}

/// The directories behind a directory are shown below where it is shown.
proof fn lemma_behind_sub_dirs(
    dirs: Seq<BasicDirEntryInfoView>,
    within: BehindDeletedDirView,
    top: Seq<u8>,
)
    requires
        is_shown_below(top, within),
    ensures
        forall|k: int|
            0 <= k < behind_sub_dirs(dirs, within).len() ==> is_shown_below(
                top,
                #[trigger] behind_sub_dirs(dirs, within)[k],
            ),
    decreases dirs.len(),
{
    if dirs.len() > 0 {
        let before = behind_sub_dirs(dirs.drop_last(), within);
        let all = behind_sub_dirs(dirs, within);
        lemma_behind_sub_dirs(dirs.drop_last(), within, top);
        assert forall|k: int| 0 <= k < all.len() implies is_shown_below(top, #[trigger] all[k]) by {
            if k < before.len() {
                assert(all[k] == before[k]);
            } else {
                let name = file_name(dirs.last().path)->Some_0;
                lemma_file_name(dirs.last().path);
                lemma_join_lies_below(within.pseudo_live_dir(), name);
                lemma_is_ancestor(top, all[k].pseudo_live_dir());
            }
        }
    }
}

proof fn lemma_behind_sends_below(
    stack: Seq<BehindDeletedDirView>,
    top: Seq<u8>,
    config: &Config,
    disk: &DiskView,
    steps: nat,
)
    requires
        forall|j: int| 0 <= j < stack.len() ==> is_shown_below(top, #[trigger] stack[j]),
    ensures
        forall|a: int|
            0 <= a < behind_sends(stack, config, disk, steps).len() ==> is_phantom_below(
                top,
                #[trigger] behind_sends(stack, config, disk, steps)[a],
            ),
    decreases steps,
{
    if steps > 0 && stack.len() > 0 {
        let within = stack.last();
        assert(stack[stack.len() - 1] == within);
        if let Ok(step) = behind_step(within, config, disk) {
            let entries = disk.spec_read_dir(within.deleted_dir_on_snap())->Some_0;
            let vec_dirs = partitioned_dirs(dir_entry_views(entries@), config, disk);
            let vec_files = partitioned_files(dir_entry_views(entries@), config, disk);
            let shown = pseudo_live_versions(vec_files + vec_dirs, within.pseudo_live_dir());
            lemma_pseudo_live_versions(vec_files + vec_dirs, within.pseudo_live_dir());
            lemma_behind_sub_dirs(vec_dirs, within, top);
            let stack_now = stack.drop_last() + step.behind;
            assert forall|j: int| 0 <= j < stack_now.len() implies is_shown_below(
                top,
                #[trigger] stack_now[j],
            ) by {
                if j < stack.len() - 1 {
                    assert(stack_now[j] == stack[j]);
                } else {
                    assert(stack_now[j] == step.behind[j - (stack.len() - 1)]);
                }
            }
            lemma_behind_sends_below(stack_now, top, config, disk, (steps - 1) as nat);
            let rest = behind_sends(stack_now, config, disk, (steps - 1) as nat);
            let sent = behind_sends(stack, config, disk, steps);
            assert(sent == step.entries + rest);
            assert forall|a: int| 0 <= a < sent.len() implies is_phantom_below(
                top,
                #[trigger] sent[a],
            ) by {
                if a < step.entries.len() {
                    assert(sent[a] == step.entries[a]);
                    assert(step.entries[a].path == shown[a].path);
                    assert(parent(shown[a].path) == Some(within.pseudo_live_dir()));
                    lemma_is_ancestor(top, shown[a].path);
                    lemma_is_ancestor(top, within.pseudo_live_dir());
                    lemma_parent_shorter(shown[a].path);
                } else {
                    assert(sent[a] == rest[a - step.entries.len()]);
                }
            }
        }
    }
}

/// What is brought back from behind a deleted directory shows below the
/// place that the directory once had: the deleted directory is shown
/// directly in `requested_dir`, however that was written, and every entry
/// that the search behind it sends is a phantom whose path lies below the
/// path that the directory is shown at, not in the snapshot that holds it.
pub proof fn lemma_phantoms_show_below_deleted_directory(
    deleted_dir: Seq<u8>,
    requested_dir: Seq<u8>,
    config: &Config,
    disk: &DiskView,
    steps: nat,
)
    ensures
        behind_deleted_dir(deleted_dir, requested_dir) matches Some(within) ==> {
            let sent = behind_sends(seq![within], config, disk, steps);
            &&& parent(within.pseudo_live_dir()) == Some(trimmed(requested_dir))
            &&& forall|a: int|
                0 <= a < sent.len() ==> is_phantom_below(
                    within.pseudo_live_dir(),
                    #[trigger] sent[a],
                )
        },
{
    if let Some(within) = behind_deleted_dir(deleted_dir, requested_dir) {
        lemma_file_name(deleted_dir);
        lemma_join_lies_below(requested_dir, within.dir_name);
        lemma_is_ancestor(within.pseudo_live_dir(), within.pseudo_live_dir());
        let stack = seq![within];
        assert(stack[0] == within);
        lemma_behind_sends_below(stack, within.pseudo_live_dir(), config, disk, steps);
    }
}

/// Whether `path` ends in a name: it is not empty, and has no separator at
/// its end.
pub open spec fn ends_in_name(path: Seq<u8>) -> bool {
    path.len() > 0 && path.last() != SEPARATOR
}

/// Whether `path` is `base` with `rel` behind it.
pub open spec fn is_at(path: Seq<u8>, base: Seq<u8>, rel: Seq<u8>) -> bool {
    path == base + rel
}

/// Whether some directory that was listed holds an entry at `path`.
pub open spec fn is_listed(disk: &DiskView, path: Seq<u8>) -> bool {
    exists|dir: Seq<u8>, i: int|
        0 <= i < listed(dir, disk).len() && (#[trigger] listed(dir, disk)[i]).path == path
}

/// Whether `sent` is a phantom that shows an entry of the snapshot in the
/// place it once had: its path lies as far below `top` as an entry that was
/// listed in the snapshot lies below `top_on_snap`.
pub open spec fn is_brought_back(
    sent: SelectionCandidateView,
    top: Seq<u8>,
    top_on_snap: Seq<u8>,
    disk: &DiskView,
) -> bool {
    sent.is_phantom && exists|rel: Seq<u8>| #[trigger]
        is_at(sent.path, top, rel) && rel.len() > 0 && is_listed(disk, top_on_snap + rel)
}

/// Whether the directory `within` is shown as far below `top` as it lies
/// below `top_on_snap` in the snapshot.
pub open spec fn is_mirrored(within: BehindDeletedDirView, top: Seq<u8>, top_on_snap: Seq<u8>) -> bool {
    &&& ends_in_name(within.pseudo_live_dir())
    &&& ends_in_name(within.deleted_dir_on_snap())
    &&& exists|rel: Seq<u8>| #[trigger]
        is_at(within.pseudo_live_dir(), top, rel) && is_at(
            within.deleted_dir_on_snap(),
            top_on_snap,
            rel,
        )
}

/// The places that the directories are shown at, as entries.
pub open spec fn shown_dirs(stack: Seq<BehindDeletedDirView>) -> Seq<BasicDirEntryInfoView> {
    stack.map_values(
        |within: BehindDeletedDirView|
            BasicDirEntryInfoView {
                path: within.pseudo_live_dir(),
                opt_filetype: Some(FileType::Dir),
            },
    )
}

/// The entries of the directory `within` in the snapshot that are brought
/// back: those that are shown, the files before the directories.
pub open spec fn entries_behind(
    within: BehindDeletedDirView,
    config: &Config,
    disk: &DiskView,
) -> Seq<BasicDirEntryInfoView> {
    partitioned_files(listed(within.deleted_dir_on_snap(), disk), config, disk) + partitioned_dirs(
        listed(within.deleted_dir_on_snap(), disk),
        config,
        disk,
    )
}

/// The files among the entries shown are entries of the list, and have
/// distinct paths where those of the list have.
proof fn lemma_partitioned_files(
    entries: Seq<BasicDirEntryInfoView>,
    config: &Config,
    disk: &DiskView,
)
    ensures
        come_from(partitioned_files(entries, config, disk), entries),
        have_distinct_paths(entries) ==> have_distinct_paths(
            partitioned_files(entries, config, disk),
        ),
    decreases entries.len(),
{
    if entries.len() > 0 {
        lemma_partitioned_files(entries.drop_last(), config, disk);
        lemma_keep_step(
            entries,
            partitioned_files(entries.drop_last(), config, disk),
            partitioned_files(entries, config, disk),
        );
    }
}

/// An entry is parted to the directories where it is taken for one, and to
/// the files where it is not.
proof fn lemma_parted_by_kind(entries: Seq<BasicDirEntryInfoView>, config: &Config, disk: &DiskView)
    ensures
        forall|a: int|
            0 <= a < partitioned_files(entries, config, disk).len() ==> !entry_is_dir(
                #[trigger] partitioned_files(entries, config, disk)[a],
                config,
                disk,
            ),
        forall|b: int|
            0 <= b < partitioned_dirs(entries, config, disk).len() ==> entry_is_dir(
                #[trigger] partitioned_dirs(entries, config, disk)[b],
                config,
                disk,
            ),
    decreases entries.len(),
{
    if entries.len() > 0 {
        lemma_parted_by_kind(entries.drop_last(), config, disk);
        let files = partitioned_files(entries, config, disk);
        let files_before = partitioned_files(entries.drop_last(), config, disk);
        let dirs = partitioned_dirs(entries, config, disk);
        let dirs_before = partitioned_dirs(entries.drop_last(), config, disk);
        assert forall|a: int| 0 <= a < files.len() implies !entry_is_dir(
            #[trigger] files[a],
            config,
            disk,
        ) by {
            if a < files_before.len() {
                assert(files[a] == files_before[a]);
            }
        }
        assert forall|b: int| 0 <= b < dirs.len() implies entry_is_dir(
            #[trigger] dirs[b],
            config,
            disk,
        ) by {
            if b < dirs_before.len() {
                assert(dirs[b] == dirs_before[b]);
            }
        }
    }
}

/// The entries that are brought back from a directory of the snapshot lie
/// directly in that directory, and no two of them have the same path.
proof fn lemma_entries_behind(within: BehindDeletedDirView, config: &Config, disk: &DiskView)
    requires
        disk.is_well_listed(),
    ensures
        is_listing_of(within.deleted_dir_on_snap(), entries_behind(within, config, disk)),
        is_listing_of(
            within.deleted_dir_on_snap(),
            partitioned_dirs(listed(within.deleted_dir_on_snap(), disk), config, disk),
        ),
        come_from(entries_behind(within, config, disk), listed(within.deleted_dir_on_snap(), disk)),
{
    let dir = within.deleted_dir_on_snap();
    let all = listed(dir, disk);
    let files = partitioned_files(all, config, disk);
    let dirs = partitioned_dirs(all, config, disk);
    let both = files + dirs;
    if disk.spec_read_dir(dir) is Some {
        assert(disk.listings@.dom().contains(dir));
    }
    assert(is_listing_of(dir, all));
    lemma_partitioned_files(all, config, disk);
    lemma_partitioned_dirs(all, config, disk);
    lemma_parted_by_kind(all, config, disk);
    assert forall|a: int| 0 <= a < both.len() implies all.contains(#[trigger] both[a]) by {
        if a < files.len() {
            assert(both[a] == files[a]);
        } else {
            assert(both[a] == dirs[a - files.len()]);
        }
    }
    assert forall|a: int| 0 <= a < both.len() implies lies_directly_in(
        dir,
        (#[trigger] both[a]).path,
    ) by {
        let i = choose|i: int| 0 <= i < all.len() && all[i] == both[a];
        assert(lies_directly_in(dir, all[i].path));
    }
    assert forall|b: int| 0 <= b < dirs.len() implies lies_directly_in(
        dir,
        (#[trigger] dirs[b]).path,
    ) by {
        assert(all.contains(dirs[b]));
        let i = choose|i: int| 0 <= i < all.len() && all[i] == dirs[b];
        assert(lies_directly_in(dir, all[i].path));
    }
    assert forall|a: int, b: int| 0 <= a < b < both.len() implies (#[trigger] both[a]).path != (
    #[trigger] both[b]).path by {
        if b < files.len() {
            assert(both[a] == files[a] && both[b] == files[b]);
        } else if a >= files.len() {
            assert(both[a] == dirs[a - files.len()] && both[b] == dirs[b - files.len()]);
        } else {
            let file = files[a];
            let dir_entry = dirs[b - files.len()];
            assert(both[a] == file && both[b] == dir_entry);
            assert(all.contains(file) && all.contains(dir_entry));
            let i = choose|i: int| 0 <= i < all.len() && all[i] == file;
            let j = choose|j: int| 0 <= j < all.len() && all[j] == dir_entry;
            if file.path == dir_entry.path {
                if i < j {
                    assert(all[i].path != all[j].path);
                } else if j < i {
                    assert(all[j].path != all[i].path);
                }
                assert(file == dir_entry);
            }
        }
    }
}

/// Entries that lie directly in one directory show below another under
/// the names they have, one for one.
proof fn lemma_shown_one_for_one(
    entries: Seq<BasicDirEntryInfoView>,
    dir: Seq<u8>,
    pseudo_live_dir: Seq<u8>,
)
    requires
        forall|i: int| 0 <= i < entries.len() ==> lies_directly_in(dir, (#[trigger] entries[i]).path),
    ensures
        pseudo_live_versions(entries, pseudo_live_dir).len() == entries.len(),
        forall|i: int|
            0 <= i < entries.len() ==> (#[trigger] pseudo_live_versions(
                entries,
                pseudo_live_dir,
            )[i]).path == join(pseudo_live_dir, file_name(entries[i].path)->Some_0),
    decreases entries.len(),
{
    if entries.len() > 0 {
        let front = entries.drop_last();
        assert forall|i: int| 0 <= i < front.len() implies lies_directly_in(
            dir,
            (#[trigger] front[i]).path,
        ) by {
            assert(front[i] == entries[i]);
        }
        lemma_shown_one_for_one(front, dir, pseudo_live_dir);
        let before = pseudo_live_versions(front, pseudo_live_dir);
        let all = pseudo_live_versions(entries, pseudo_live_dir);
        assert(lies_directly_in(dir, entries[entries.len() - 1].path));
        assert forall|i: int| 0 <= i < entries.len() implies (#[trigger] all[i]).path == join(
            pseudo_live_dir,
            file_name(entries[i].path)->Some_0,
        ) by {
            if i < front.len() {
                assert(all[i] == before[i]);
                assert(front[i] == entries[i]);
            }
        }
    }
}

/// The directories that lie directly in a directory of the snapshot are
/// gone on behind under the names they have, one for one.
proof fn lemma_behind_one_for_one(
    dirs: Seq<BasicDirEntryInfoView>,
    dir: Seq<u8>,
    within: BehindDeletedDirView,
)
    requires
        forall|i: int| 0 <= i < dirs.len() ==> lies_directly_in(dir, (#[trigger] dirs[i]).path),
    ensures
        behind_sub_dirs(dirs, within).len() == dirs.len(),
        forall|i: int|
            0 <= i < dirs.len() ==> {
                &&& (#[trigger] behind_sub_dirs(dirs, within)[i]).dir_name == file_name(
                    dirs[i].path,
                )->Some_0
                &&& behind_sub_dirs(dirs, within)[i].from_deleted_dir
                    == within.deleted_dir_on_snap()
                &&& behind_sub_dirs(dirs, within)[i].from_requested_dir
                    == within.pseudo_live_dir()
            },
    decreases dirs.len(),
{
    if dirs.len() > 0 {
        let front = dirs.drop_last();
        assert forall|i: int| 0 <= i < front.len() implies lies_directly_in(
            dir,
            (#[trigger] front[i]).path,
        ) by {
            assert(front[i] == dirs[i]);
        }
        lemma_behind_one_for_one(front, dir, within);
        let before = behind_sub_dirs(front, within);
        let all = behind_sub_dirs(dirs, within);
        assert(lies_directly_in(dir, dirs[dirs.len() - 1].path));
        assert forall|i: int| 0 <= i < dirs.len() implies {
            &&& (#[trigger] all[i]).dir_name == file_name(dirs[i].path)->Some_0
            &&& all[i].from_deleted_dir == within.deleted_dir_on_snap()
            &&& all[i].from_requested_dir == within.pseudo_live_dir()
        } by {
            if i < front.len() {
                assert(all[i] == before[i]);
                assert(front[i] == dirs[i]);
            }
        }
    }
}

/// A name put below a path that ends in a name stands behind the path and
/// a separator; so two names put below two such paths lie as far below
/// them, and two names put below one such path differ where the names do.
proof fn lemma_join_behind(dir: Seq<u8>, name: Seq<u8>)
    requires
        ends_in_name(dir),
        is_entry_name(name),
    ensures
        join(dir, name) == dir + (seq![SEPARATOR] + name),
        (seq![SEPARATOR] + name).len() > 0,
        (seq![SEPARATOR] + name).drop_first() == name,
{
    assert(name[0] != SEPARATOR);
    assert(dir + seq![SEPARATOR] + name =~= dir + (seq![SEPARATOR] + name));
    assert((seq![SEPARATOR] + name).drop_first() =~= name);
}

/// Two names put below one path that ends in a name differ where the names
/// do.
proof fn lemma_join_differs(dir: Seq<u8>, one: Seq<u8>, other: Seq<u8>)
    requires
        ends_in_name(dir),
        is_entry_name(one),
        is_entry_name(other),
        one != other,
    ensures
        join(dir, one) != join(dir, other),
{
    lemma_join_behind(dir, one);
    lemma_join_behind(dir, other);
    let tail_one = seq![SEPARATOR] + one;
    let tail_other = seq![SEPARATOR] + other;
    let with_one = dir + tail_one;
    let with_other = dir + tail_other;
    if with_one == with_other {
        let cut = dir.len() as int;
        let end = with_one.len() as int;
        assert(with_one.subrange(cut, end) =~= tail_one);
        assert(with_other.subrange(cut, end) =~= tail_other);
        assert(tail_one == tail_other);
        assert(tail_one.drop_first() == tail_other.drop_first());
    }
}

/// What one step behind a directory brings back: each entry that is sent
/// shows an entry of the snapshot in the place it once had, directly in the
/// place that the directory is shown at, and no path is sent twice; and the
/// directories that the search goes on behind are shown directly in that
/// place too, each as far below as it lies in the snapshot, no two in one
/// place.
proof fn lemma_behind_step(
    within: BehindDeletedDirView,
    top: Seq<u8>,
    top_on_snap: Seq<u8>,
    config: &Config,
    disk: &DiskView,
)
    requires
        disk.is_well_listed(),
        is_mirrored(within, top, top_on_snap),
        behind_step(within, config, disk) is Ok,
    ensures
        ({
            let step = behind_step(within, config, disk)->Ok_0;
            let pseudo = within.pseudo_live_dir();
            &&& forall|a: int|
                0 <= a < step.entries.len() ==> is_brought_back(
                    #[trigger] step.entries[a],
                    top,
                    top_on_snap,
                    disk,
                )
            &&& forall|a: int|
                0 <= a < step.entries.len() ==> parent((#[trigger] step.entries[a]).path) == Some(
                    pseudo,
                )
            &&& are_sent_once(step.entries)
            &&& forall|k: int|
                0 <= k < step.behind.len() ==> is_mirrored(
                    #[trigger] step.behind[k],
                    top,
                    top_on_snap,
                )
            &&& have_distinct_paths(shown_dirs(step.behind))
            &&& forall|k: int|
                0 <= k < step.behind.len() ==> {
                    &&& parent((#[trigger] shown_dirs(step.behind)[k]).path) == Some(pseudo)
                    &&& ends_well(shown_dirs(step.behind)[k].path)
                    &&& shown_dirs(step.behind)[k].path.len() > pseudo.len()
                }
        }),
{
    let step = behind_step(within, config, disk)->Ok_0;
    let pseudo = within.pseudo_live_dir();
    let on_snap = within.deleted_dir_on_snap();
    let all = listed(on_snap, disk);
    let dirs = partitioned_dirs(all, config, disk);
    let both = entries_behind(within, config, disk);
    let shown = pseudo_live_versions(both, pseudo);
    let rel = choose|rel: Seq<u8>| #[trigger]
        is_at(pseudo, top, rel) && is_at(on_snap, top_on_snap, rel);
    lemma_entries_behind(within, config, disk);
    lemma_shown_one_for_one(both, on_snap, pseudo);
    lemma_behind_one_for_one(dirs, on_snap, within);
    assert(trimmed(pseudo) == pseudo);
    assert forall|a: int| 0 <= a < step.entries.len() implies {
        &&& is_brought_back(#[trigger] step.entries[a], top, top_on_snap, disk)
        &&& parent(step.entries[a].path) == Some(pseudo)
    } by {
        let name = file_name(both[a].path)->Some_0;
        assert(step.entries[a].path == shown[a].path);
        assert(lies_directly_in(on_snap, both[a].path));
        lemma_file_name(both[a].path);
        lemma_join_behind(on_snap, name);
        lemma_join_behind(pseudo, name);
        lemma_join_lies_below(pseudo, name);
        let tail = seq![SEPARATOR] + name;
        let further = rel + tail;
        assert(top + further =~= top + rel + tail);
        assert(top_on_snap + further =~= top_on_snap + rel + tail);
        assert(is_at(step.entries[a].path, top, further));
        assert(all.contains(both[a]));
        let i = choose|i: int| 0 <= i < all.len() && all[i] == both[a];
        assert(listed(on_snap, disk)[i].path == top_on_snap + further);
        assert(is_listed(disk, top_on_snap + further));
    }
    assert forall|a: int, b: int| 0 <= a < b < step.entries.len() implies (
    #[trigger] step.entries[a]).path != (#[trigger] step.entries[b]).path by {
        assert(step.entries[a].path == shown[a].path && step.entries[b].path == shown[b].path);
        assert(lies_directly_in(on_snap, both[a].path));
        assert(lies_directly_in(on_snap, both[b].path));
        lemma_file_name(both[a].path);
        lemma_file_name(both[b].path);
        lemma_join_differs(
            pseudo,
            file_name(both[a].path)->Some_0,
            file_name(both[b].path)->Some_0,
        );
    }
    let subs = shown_dirs(step.behind);
    assert forall|k: int| 0 <= k < step.behind.len() implies {
        &&& is_mirrored(#[trigger] step.behind[k], top, top_on_snap)
        &&& parent(step.behind[k].pseudo_live_dir()) == Some(pseudo)
        &&& ends_well(step.behind[k].pseudo_live_dir())
        &&& step.behind[k].pseudo_live_dir().len() > pseudo.len()
    } by {
        let name = file_name(dirs[k].path)->Some_0;
        assert(lies_directly_in(on_snap, dirs[k].path));
        lemma_file_name(dirs[k].path);
        lemma_join_behind(on_snap, name);
        lemma_join_behind(pseudo, name);
        lemma_join_lies_below(pseudo, name);
        lemma_join_lies_below(on_snap, name);
        let tail = seq![SEPARATOR] + name;
        let further = rel + tail;
        assert(top + further =~= top + rel + tail);
        assert(top_on_snap + further =~= top_on_snap + rel + tail);
        assert(is_at(step.behind[k].pseudo_live_dir(), top, further));
        assert(is_at(step.behind[k].deleted_dir_on_snap(), top_on_snap, further));
    }
    assert forall|k: int| 0 <= k < step.behind.len() implies {
        &&& parent((#[trigger] subs[k]).path) == Some(pseudo)
        &&& ends_well(subs[k].path)
        &&& subs[k].path.len() > pseudo.len()
    } by {
        assert(subs[k].path == step.behind[k].pseudo_live_dir());
    }
    assert forall|i: int, j: int| 0 <= i < j < subs.len() implies (#[trigger] subs[i]).path != (
    #[trigger] subs[j]).path by {
        assert(lies_directly_in(on_snap, dirs[i].path));
        assert(lies_directly_in(on_snap, dirs[j].path));
        lemma_file_name(dirs[i].path);
        lemma_file_name(dirs[j].path);
        assert(step.behind[i].dir_name == file_name(dirs[i].path)->Some_0);
        assert(step.behind[j].dir_name == file_name(dirs[j].path)->Some_0);
        lemma_join_differs(
            pseudo,
            file_name(dirs[i].path)->Some_0,
            file_name(dirs[j].path)->Some_0,
        );
    }
}

/// Over a whole search behind deleted directories, each entry that is sent
/// shows an entry of the snapshot in the place it once had, and no path is
/// sent twice.
proof fn lemma_behind_sends_back(
    stack: Seq<BehindDeletedDirView>,
    done: Seq<Seq<u8>>,
    root: Seq<u8>,
    top: Seq<u8>,
    top_on_snap: Seq<u8>,
    config: &Config,
    disk: &DiskView,
    steps: nat,
)
    requires
        disk.is_well_listed(),
        forall|j: int| 0 <= j < stack.len() ==> is_mirrored(#[trigger] stack[j], top, top_on_snap),
        is_walk_of_tree(done, shown_dirs(stack), root),
    ensures
        forall|a: int|
            0 <= a < behind_sends(stack, config, disk, steps).len() ==> is_brought_back(
                #[trigger] behind_sends(stack, config, disk, steps)[a],
                top,
                top_on_snap,
                disk,
            ),
        are_sent_once(behind_sends(stack, config, disk, steps)),
        forall|a: int|
            0 <= a < behind_sends(stack, config, disk, steps).len() ==> !lies_in(
                (#[trigger] behind_sends(stack, config, disk, steps)[a]).path,
                done,
            ),
    decreases steps,
{
    if steps > 0 && stack.len() > 0 {
        let within = stack.last();
        assert(stack[stack.len() - 1] == within);
        if let Ok(step) = behind_step(within, config, disk) {
            let pseudo = within.pseudo_live_dir();
            let queue = shown_dirs(stack);
            let subs = shown_dirs(step.behind);
            let stack_now = stack.drop_last() + step.behind;
            let queue_now = shown_dirs(stack_now);
            let done_now = done.push(pseudo);
            let sent = behind_sends(stack, config, disk, steps);
            let rest = behind_sends(stack_now, config, disk, (steps - 1) as nat);
            assert(sent == step.entries + rest);
            lemma_behind_step(within, top, top_on_snap, config, disk);
            assert(queue[queue.len() - 1].path == pseudo);
            assert(trimmed(pseudo) == pseudo);
            assert(!done.contains(pseudo));
            assert(queue_now =~= queue.drop_last() + subs);
            lemma_walk_step_keeps_tree(done, queue, subs, queue_now, root);
            assert forall|j: int| 0 <= j < stack_now.len() implies is_mirrored(
                #[trigger] stack_now[j],
                top,
                top_on_snap,
            ) by {
                if j < stack.len() - 1 {
                    assert(stack_now[j] == stack[j]);
                } else {
                    assert(stack_now[j] == step.behind[j - (stack.len() - 1)]);
                }
            }
            lemma_behind_sends_back(
                stack_now,
                done_now,
                root,
                top,
                top_on_snap,
                config,
                disk,
                (steps - 1) as nat,
            );
            assert(done_now[done.len() as int] == pseudo);
            assert forall|up: Seq<u8>| done.contains(up) implies done_now.contains(up) by {
                let at = choose|at: int| 0 <= at < done.len() && done[at] == up;
                assert(done_now[at] == up);
            }
            assert forall|a: int| 0 <= a < sent.len() implies {
                &&& is_brought_back(#[trigger] sent[a], top, top_on_snap, disk)
                &&& !lies_in(sent[a].path, done)
            } by {
                if a < step.entries.len() {
                    assert(sent[a] == step.entries[a]);
                    assert(parent(step.entries[a].path) == Some(pseudo));
                } else {
                    assert(sent[a] == rest[a - step.entries.len()]);
                    assert(!lies_in(rest[a - step.entries.len()].path, done_now));
                }
            }
            assert forall|a: int, b: int| 0 <= a < b < sent.len() implies (#[trigger] sent[a]).path
                != (#[trigger] sent[b]).path by {
                if b < step.entries.len() {
                    assert(sent[a] == step.entries[a] && sent[b] == step.entries[b]);
                } else if a < step.entries.len() {
                    assert(sent[a] == step.entries[a]);
                    assert(parent(step.entries[a].path) == Some(pseudo));
                    assert(sent[b] == rest[b - step.entries.len()]);
                    assert(!lies_in(rest[b - step.entries.len()].path, done_now));
                } else {
                    assert(sent[a] == rest[a - step.entries.len()]);
                    assert(sent[b] == rest[b - step.entries.len()]);
                }
            }
        }
    }
}

/// What is brought back from behind a deleted directory shows what the
/// snapshot holds below it, in the place it once had: every entry that the
/// search sends is a phantom, its path lies as far below the place that the
/// deleted directory is shown at as an entry of the snapshot lies below the
/// deleted directory there, and no path is sent twice.
pub proof fn lemma_deleted_directory_is_brought_back(
    deleted_dir: Seq<u8>,
    requested_dir: Seq<u8>,
    config: &Config,
    disk: &DiskView,
    steps: nat,
)
    requires
        disk.is_well_listed(),
    ensures
        behind_deleted_dir(deleted_dir, requested_dir) matches Some(within) ==> {
            let sent = behind_sends(seq![within], config, disk, steps);
            &&& forall|a: int|
                0 <= a < sent.len() ==> is_brought_back(
                    #[trigger] sent[a],
                    within.pseudo_live_dir(),
                    within.deleted_dir_on_snap(),
                    disk,
                )
            &&& are_sent_once(sent)
        },
{
    if let Some(within) = behind_deleted_dir(deleted_dir, requested_dir) {
        let top = within.pseudo_live_dir();
        let top_on_snap = within.deleted_dir_on_snap();
        lemma_file_name(deleted_dir);
        lemma_join_lies_below(within.from_requested_dir, within.dir_name);
        lemma_join_lies_below(within.from_deleted_dir, within.dir_name);
        let stack = seq![within];
        assert(stack[0] == within);
        assert(top + Seq::<u8>::empty() =~= top);
        assert(top_on_snap + Seq::<u8>::empty() =~= top_on_snap);
        assert(is_at(top, top, Seq::<u8>::empty()));
        assert(is_at(top_on_snap, top_on_snap, Seq::<u8>::empty()));
        assert(is_mirrored(within, top, top_on_snap));
        assert(shown_dirs(stack)[0].path == top);
        lemma_behind_sends_back(
            stack,
            Seq::empty(),
            top,
            top,
            top_on_snap,
            config,
            disk,
            steps,
        );
    }
}

/// What the step behind the directory `within` sends; nothing where the
/// directory could not be listed.
pub open spec fn sent_behind(
    within: BehindDeletedDirView,
    config: &Config,
    disk: &DiskView,
) -> Seq<SelectionCandidateView> {
    match behind_step(within, config, disk) {
        Ok(step) => step.entries,
        Err(_) => Seq::empty(),
    }
}

/// The directories that the search goes on behind from the directory
/// `within`; none where the directory could not be listed.
pub open spec fn found_behind(
    within: BehindDeletedDirView,
    config: &Config,
    disk: &DiskView,
) -> Seq<BehindDeletedDirView> {
    match behind_step(within, config, disk) {
        Ok(step) => step.behind,
        Err(_) => Seq::empty(),
    }
}

/// The directories that are left to go behind after the next `steps` steps
/// of a search; nothing where a directory could not be listed, and the
/// search failed.
pub open spec fn behind_leaves(
    stack: Seq<BehindDeletedDirView>,
    config: &Config,
    disk: &DiskView,
    steps: nat,
) -> Option<Seq<BehindDeletedDirView>>
    decreases steps,
{
    if steps == 0 || stack.len() == 0 {
        Some(stack)
    } else {
        match behind_step(stack.last(), config, disk) {
            Ok(step) => behind_leaves(
                stack.drop_last() + step.behind,
                config,
                disk,
                (steps - 1) as nat,
            ),
            Err(_) => None,
        }
    }
}

/// The directories that the next `steps` steps of a search go behind, in
/// the order of the search, as far as they could be listed.
pub open spec fn behind_visits(
    stack: Seq<BehindDeletedDirView>,
    config: &Config,
    disk: &DiskView,
    steps: nat,
) -> Seq<BehindDeletedDirView>
    decreases steps,
{
    if steps == 0 || stack.len() == 0 {
        Seq::empty()
    } else {
        match behind_step(stack.last(), config, disk) {
            Ok(step) => seq![stack.last()] + behind_visits(
                stack.drop_last() + step.behind,
                config,
                disk,
                (steps - 1) as nat,
            ),
            Err(_) => Seq::empty(),
        }
    }
}

/// Whether the search goes on from the directory `up` behind the directory
/// `within`.
pub open spec fn goes_behind(
    up: BehindDeletedDirView,
    within: BehindDeletedDirView,
    config: &Config,
    disk: &DiskView,
) -> bool {
    found_behind(up, config, disk).contains(within)
}

/// Whether the directory `within` lies `depth` directories behind the
/// directory `first`, each of them found behind the one before it.
pub open spec fn lies_behind_at(
    first: BehindDeletedDirView,
    within: BehindDeletedDirView,
    config: &Config,
    disk: &DiskView,
    depth: nat,
) -> bool
    decreases depth,
{
    if depth == 0 {
        within == first
    } else {
        exists|up: BehindDeletedDirView| #[trigger]
            goes_behind(up, within, config, disk) && lies_behind_at(
                first,
                up,
                config,
                disk,
                (depth - 1) as nat,
            )
    }
}

/// Whether the directory `within` is `first`, or a directory that can be
/// found behind it.
pub open spec fn lies_behind(
    first: BehindDeletedDirView,
    within: BehindDeletedDirView,
    config: &Config,
    disk: &DiskView,
) -> bool {
    exists|depth: nat| lies_behind_at(first, within, config, disk, depth)
}

/// Whether no directory was lost: every directory found behind one of the
/// directories `done` is among them, or still to go behind.
pub open spec fn is_closed_behind(
    done: Seq<BehindDeletedDirView>,
    stack: Seq<BehindDeletedDirView>,
    config: &Config,
    disk: &DiskView,
) -> bool {
    forall|i: int, k: int|
        0 <= i < done.len() && 0 <= k < found_behind(done[i], config, disk).len() ==> {
            ||| done.contains(#[trigger] found_behind(done[i], config, disk)[k])
            ||| stack.contains(found_behind(done[i], config, disk)[k])
        }
}

/// A search that did not fail loses no directory.
proof fn lemma_behind_is_closed(
    stack: Seq<BehindDeletedDirView>,
    done: Seq<BehindDeletedDirView>,
    config: &Config,
    disk: &DiskView,
    steps: nat,
)
    requires
        behind_leaves(stack, config, disk, steps) is Some,
        is_closed_behind(done, stack, config, disk),
    ensures
        is_closed_behind(
            done + behind_visits(stack, config, disk, steps),
            behind_leaves(stack, config, disk, steps)->Some_0,
            config,
            disk,
        ),
    decreases steps,
{
    let visits = behind_visits(stack, config, disk, steps);
    if steps == 0 || stack.len() == 0 {
        assert(done + visits =~= done);
    } else {
        let within = stack.last();
        let step = behind_step(within, config, disk)->Ok_0;
        let stack_now = stack.drop_last() + step.behind;
        let done_now = done.push(within);
        let rest = behind_visits(stack_now, config, disk, (steps - 1) as nat);
        assert(done + visits =~= done_now + rest);
        assert(done_now[done.len() as int] == within);
        assert forall|i: int, k: int|
            0 <= i < done_now.len() && 0 <= k < found_behind(
                done_now[i],
                config,
                disk,
            ).len() implies {
            ||| done_now.contains(#[trigger] found_behind(done_now[i], config, disk)[k])
            ||| stack_now.contains(found_behind(done_now[i], config, disk)[k])
        } by {
            let child = found_behind(done_now[i], config, disk)[k];
            if i == done.len() {
                assert(stack_now[stack.len() - 1 + k] == child);
            } else {
                assert(done_now[i] == done[i]);
                assert(done.contains(found_behind(done[i], config, disk)[k]) || stack.contains(
                    found_behind(done[i], config, disk)[k],
                ));
                if done.contains(child) {
                    let at = choose|at: int| 0 <= at < done.len() && done[at] == child;
                    assert(done_now[at] == child);
                } else {
                    let j = choose|j: int| 0 <= j < stack.len() && stack[j] == child;
                    if j == stack.len() - 1 {
                        assert(done_now[done.len() as int] == child);
                    } else {
                        assert(stack_now[j] == child);
                    }
                }
            }
        }
        lemma_behind_is_closed(stack_now, done_now, config, disk, (steps - 1) as nat);
    }
}

/// What a search sends holds what each of its steps sent.
proof fn lemma_behind_sends_of_visited(
    stack: Seq<BehindDeletedDirView>,
    config: &Config,
    disk: &DiskView,
    steps: nat,
)
    ensures
        forall|i: int, a: int|
            0 <= i < behind_visits(stack, config, disk, steps).len() && 0 <= a < sent_behind(
                behind_visits(stack, config, disk, steps)[i],
                config,
                disk,
            ).len() ==> behind_sends(stack, config, disk, steps).contains(
                #[trigger] sent_behind(behind_visits(stack, config, disk, steps)[i], config, disk)[a],
            ),
    decreases steps,
{
    if steps > 0 && stack.len() > 0 {
        if let Ok(step) = behind_step(stack.last(), config, disk) {
            let stack_now = stack.drop_last() + step.behind;
            let visits = behind_visits(stack, config, disk, steps);
            let sent = behind_sends(stack, config, disk, steps);
            let rest_visits = behind_visits(stack_now, config, disk, (steps - 1) as nat);
            let rest = behind_sends(stack_now, config, disk, (steps - 1) as nat);
            assert(sent == step.entries + rest);
            lemma_behind_sends_of_visited(stack_now, config, disk, (steps - 1) as nat);
            assert forall|i: int, a: int|
                0 <= i < visits.len() && 0 <= a < sent_behind(
                    visits[i],
                    config,
                    disk,
                ).len() implies sent.contains(#[trigger] sent_behind(visits[i], config, disk)[a]) by {
                if i == 0 {
                    assert(sent[a] == step.entries[a]);
                } else {
                    assert(visits[i] == rest_visits[i - 1]);
                    let item = sent_behind(rest_visits[i - 1], config, disk)[a];
                    assert(rest.contains(item));
                    let at = choose|at: int| 0 <= at < rest.len() && rest[at] == item;
                    assert(sent[step.entries.len() + at] == item);
                }
            }
        }
    }
}

/// Where the directories `visits` hold `first` and every directory found
/// behind one of them, they hold every directory that lies behind `first`.
proof fn lemma_all_behind_are_visited(
    visits: Seq<BehindDeletedDirView>,
    first: BehindDeletedDirView,
    within: BehindDeletedDirView,
    config: &Config,
    disk: &DiskView,
    depth: nat,
)
    requires
        visits.contains(first),
        is_closed_behind(visits, Seq::empty(), config, disk),
        lies_behind_at(first, within, config, disk, depth),
    ensures
        visits.contains(within),
    decreases depth,
{
    if depth > 0 {
        let up = choose|up: BehindDeletedDirView| #[trigger]
            goes_behind(up, within, config, disk) && lies_behind_at(
                first,
                up,
                config,
                disk,
                (depth - 1) as nat,
            );
        lemma_all_behind_are_visited(visits, first, up, config, disk, (depth - 1) as nat);
        let i = choose|i: int| 0 <= i < visits.len() && visits[i] == up;
        let found = found_behind(up, config, disk);
        let k = choose|k: int| 0 <= k < found.len() && found[k] == within;
        assert(visits.contains(found_behind(visits[i], config, disk)[k]) || Seq::<
            BehindDeletedDirView,
        >::empty().contains(found_behind(visits[i], config, disk)[k]));
    }
}

/// What one step behind a directory of a snapshot sends: the entries of the
/// directory that are brought back, one for one and in their order, each as
/// a phantom under the name it has, in the place that the directory is
/// shown at.
pub proof fn lemma_step_behind_shows_entries(
    within: BehindDeletedDirView,
    config: &Config,
    disk: &DiskView,
)
    requires
        disk.is_well_listed(),
        behind_step(within, config, disk) is Ok,
    ensures
        sent_behind(within, config, disk).len() == entries_behind(within, config, disk).len(),
        forall|a: int|
            0 <= a < sent_behind(within, config, disk).len() ==> {
                &&& (#[trigger] sent_behind(within, config, disk)[a]).is_phantom
                &&& file_name(entries_behind(within, config, disk)[a].path) matches Some(name)
                    && sent_behind(within, config, disk)[a].path == join(
                    within.pseudo_live_dir(),
                    name,
                ) && entries_behind(within, config, disk)[a].path == join(
                    within.deleted_dir_on_snap(),
                    name,
                )
                &&& sent_behind(within, config, disk)[a].opt_filetype == entries_behind(
                    within,
                    config,
                    disk,
                )[a].opt_filetype
            },
{
    let both = entries_behind(within, config, disk);
    let shown = pseudo_live_versions(both, within.pseudo_live_dir());
    let sent = sent_behind(within, config, disk);
    lemma_entries_behind(within, config, disk);
    lemma_shown_one_for_one(both, within.deleted_dir_on_snap(), within.pseudo_live_dir());
    lemma_shown_kinds(both, within.deleted_dir_on_snap(), within.pseudo_live_dir());
    assert forall|a: int| 0 <= a < sent.len() implies {
        &&& (#[trigger] sent[a]).is_phantom
        &&& file_name(both[a].path) matches Some(name) && sent[a].path == join(
            within.pseudo_live_dir(),
            name,
        ) && both[a].path == join(within.deleted_dir_on_snap(), name)
        &&& sent[a].opt_filetype == both[a].opt_filetype
    } by {
        assert(sent[a].path == shown[a].path);
        assert(sent[a].opt_filetype == shown[a].opt_filetype);
        assert(lies_directly_in(within.deleted_dir_on_snap(), both[a].path));
    }
}

/// Entries that lie directly in one directory keep their kinds where they
/// show below another.
proof fn lemma_shown_kinds(
    entries: Seq<BasicDirEntryInfoView>,
    dir: Seq<u8>,
    pseudo_live_dir: Seq<u8>,
)
    requires
        forall|i: int| 0 <= i < entries.len() ==> lies_directly_in(dir, (#[trigger] entries[i]).path),
    ensures
        pseudo_live_versions(entries, pseudo_live_dir).len() == entries.len(),
        forall|i: int|
            0 <= i < entries.len() ==> (#[trigger] pseudo_live_versions(
                entries,
                pseudo_live_dir,
            )[i]).opt_filetype == entries[i].opt_filetype,
    decreases entries.len(),
{
    if entries.len() > 0 {
        let front = entries.drop_last();
        assert forall|i: int| 0 <= i < front.len() implies lies_directly_in(
            dir,
            (#[trigger] front[i]).path,
        ) by {
            assert(front[i] == entries[i]);
        }
        lemma_shown_kinds(front, dir, pseudo_live_dir);
        let before = pseudo_live_versions(front, pseudo_live_dir);
        let all = pseudo_live_versions(entries, pseudo_live_dir);
        assert(lies_directly_in(dir, entries[entries.len() - 1].path));
        assert forall|i: int| 0 <= i < entries.len() implies (#[trigger] all[i]).opt_filetype
            == entries[i].opt_filetype by {
            if i < front.len() {
                assert(all[i] == before[i]);
                assert(front[i] == entries[i]);
            }
        }
    }
}

/// A search behind a deleted directory that has run until no directory is
/// left, and did not fail, has brought back all that lies behind the
/// directory: what every directory that can be found behind it sends was
/// sent.
pub proof fn lemma_all_behind_deleted_directory_is_brought_back(
    deleted_dir: Seq<u8>,
    requested_dir: Seq<u8>,
    config: &Config,
    disk: &DiskView,
    steps: nat,
)
    ensures
        behind_deleted_dir(deleted_dir, requested_dir) matches Some(first) ==> (behind_leaves(
            seq![first],
            config,
            disk,
            steps,
        ) == Some(Seq::<BehindDeletedDirView>::empty()) ==> forall|
            within: BehindDeletedDirView,
            a: int,
        |
            lies_behind(first, within, config, disk) && 0 <= a < sent_behind(
                within,
                config,
                disk,
            ).len() ==> behind_sends(seq![first], config, disk, steps).contains(
                #[trigger] sent_behind(within, config, disk)[a],
            )),
{
    if let Some(first) = behind_deleted_dir(deleted_dir, requested_dir) {
        let stack = seq![first];
        if behind_leaves(stack, config, disk, steps) == Some(Seq::<BehindDeletedDirView>::empty()) {
            let visits = behind_visits(stack, config, disk, steps);
            let sent = behind_sends(stack, config, disk, steps);
            assert(stack[0] == first);
            assert(stack.last() == first);
            assert(steps > 0);
            assert(behind_step(first, config, disk) is Ok);
            assert(visits[0] == first);
            lemma_behind_is_closed(stack, Seq::empty(), config, disk, steps);
            assert(Seq::<BehindDeletedDirView>::empty() + visits =~= visits);
            lemma_behind_sends_of_visited(stack, config, disk, steps);
            assert forall|within: BehindDeletedDirView, a: int|
                lies_behind(first, within, config, disk) && 0 <= a < sent_behind(
                    within,
                    config,
                    disk,
                ).len() implies sent.contains(#[trigger] sent_behind(within, config, disk)[a]) by {
                let depth = choose|depth: nat| lies_behind_at(first, within, config, disk, depth);
                lemma_all_behind_are_visited(visits, first, within, config, disk, depth);
                let i = choose|i: int| 0 <= i < visits.len() && visits[i] == within;
                assert(sent.contains(sent_behind(visits[i], config, disk)[a]));
            }
        }
    }
}

} // verus!
