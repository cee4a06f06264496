//! Deleted discovery: the entries that the snapshots of a directory still
//! hold and the live directory does not, one for each name: the one that
//! was modified last.

use crate::config::Config;
use crate::data::disk::DiskView;
use crate::data::paths::{BasicDirEntryInfo, BasicDirEntryInfoView, PathData};
use crate::filesystem::mounts::FilesystemTypeView;
use crate::library::results::{HttmError, HttmErrorView, HttmResult, IoErrorKind};
use crate::lookup::versions::{
    bundle_views, bundles_of, get_mirror_dir, mirror_dir, ProximateDatasetAndOptAlts,
    RelativePathAndSnapMounts, RelativePathAndSnapMountsView,
};
use crate::path::path_list;
use vstd::prelude::*;

verus! {

/// `fxhash::FxHasher`, the hasher of the table of names. Nothing is said of
/// what is inside it.
#[verifier::external_type_specification]
#[verifier::external_body]
pub struct ExFxHasher(fxhash::FxHasher);

/// `std::hash::BuildHasherDefault`, which makes the hashers of the table of
/// names. Nothing is said of what is inside it.
#[verifier::external_type_specification]
#[verifier::external_body]
#[verifier::reject_recursive_types(H)]
pub struct ExBuildHasherDefault<H>(std::hash::BuildHasherDefault<H>);

/// A table from names to numbers that hashes the names with `fxhash`.
pub type NameTable = fxhash::FxHashMap<Vec<u8>, usize>;

/// What a table of names holds: each name with its number.
pub uninterp spec fn name_table(table: NameTable) -> Map<Seq<u8>, usize>;

/// `Default::default` of `fxhash::FxHashMap`: a table that holds nothing.
#[verifier::external_body]
pub(crate) fn name_table_new() -> (r: NameTable)
    ensures
        name_table(r).dom() == Set::<Seq<u8>>::empty(),
{
    fxhash::FxHashMap::default()
}

/// `insert` on a `fxhash::FxHashMap`: afterwards the table holds `number`
/// for `name`, and for every other name what it held before.
#[verifier::external_body]
pub(crate) fn name_table_insert(table: &mut NameTable, name: Vec<u8>, number: usize)
    ensures
        name_table(*final(table)) == name_table(*old(table)).insert(name@, number),
{
    table.insert(name, number);
}

/// `get` on a `fxhash::FxHashMap`: the number that the table holds for
/// `name`, if it holds one.
#[verifier::external_body]
pub(crate) fn name_table_get(table: &NameTable, name: &Vec<u8>) -> (r: Option<usize>)
    ensures
        r == if name_table(*table).dom().contains(name@) {
            Some(name_table(*table)[name@])
        } else {
            None
        },
{
    table.get(name).copied()
}

/// An entry found in a snapshot under a name that the live directory does
/// not hold, with the time it was last modified.
#[derive(Debug)]
pub struct DeletedCandidate {
    pub name: Vec<u8>,
    pub entry: BasicDirEntryInfo,
    pub modify_time: i128,
}

/// A candidate as a value.
pub struct DeletedCandidateView {
    pub name: Seq<u8>,
    pub entry: BasicDirEntryInfoView,
    pub modify_time: i128,
}

impl View for DeletedCandidate {
    type V = DeletedCandidateView;

    open spec fn view(&self) -> DeletedCandidateView {
        DeletedCandidateView {
            name: self.name@,
            entry: self.entry@,
            modify_time: self.modify_time,
        }
    }
}

/// The candidates of a list, as values.
pub open spec fn candidate_views(candidates: Seq<DeletedCandidate>) -> Seq<DeletedCandidateView> {
    candidates.map_values(|candidate: DeletedCandidate| candidate@)
}

/// The entries of a list, as values.
pub open spec fn dir_entry_views(entries: Seq<BasicDirEntryInfo>) -> Seq<BasicDirEntryInfoView> {
    entries.map_values(|entry: BasicDirEntryInfo| entry@)
}

/// The names of the entries.
pub open spec fn entry_names(entries: Seq<BasicDirEntryInfo>) -> Set<Seq<u8>>
    decreases entries.len(),
{
    if entries.len() == 0 {
        Set::empty()
    } else {
        entry_names(entries.drop_last()).insert(entries.last()@.filename())
    }
}

/// The candidates among the entries of one mirror directory: each entry whose
/// name is not live and whose modify time a stat gave.
pub open spec fn candidates_in_dir(
    entries: Seq<BasicDirEntryInfo>,
    live: Set<Seq<u8>>,
    disk: &DiskView,
) -> Seq<DeletedCandidateView>
    decreases entries.len(),
{
    if entries.len() == 0 {
        Seq::empty()
    } else {
        let before = candidates_in_dir(entries.drop_last(), live, disk);
        let entry = entries.last()@;
        match disk.spec_modify_time(entry.path) {
            Some(modify_time) => if live.contains(entry.filename()) {
                before
            } else {
                before.push(DeletedCandidateView { name: entry.filename(), entry, modify_time })
            },
            None => before,
        }
    }
}

/// The candidates of one dataset: those of the mirror directory in each of
/// its snapshots, in the order of the snapshot mounts. A mirror directory
/// that could not be listed has none.
pub open spec fn candidates_of_mounts(
    snap_mounts: Seq<Seq<u8>>,
    relative_path: Seq<u8>,
    fs_type: Option<FilesystemTypeView>,
    live: Set<Seq<u8>>,
    disk: &DiskView,
) -> Seq<DeletedCandidateView>
    decreases snap_mounts.len(),
{
    if snap_mounts.len() == 0 {
        Seq::empty()
    } else {
        let before = candidates_of_mounts(
            snap_mounts.drop_last(),
            relative_path,
            fs_type,
            live,
            disk,
        );
        match disk.spec_read_dir(mirror_dir(snap_mounts.last(), relative_path, fs_type)) {
            Some(entries) => before + candidates_in_dir(entries@, live, disk),
            None => before,
        }
    }
}

/// The candidates of one bundle.
pub open spec fn candidates_of_bundle(
    bundle: RelativePathAndSnapMountsView,
    live: Set<Seq<u8>>,
    disk: &DiskView,
) -> Seq<DeletedCandidateView> {
    candidates_of_mounts(bundle.snap_mounts, bundle.relative_path, bundle.fs_type, live, disk)
}

/// The candidates of all bundles, one bundle after the other.
pub open spec fn candidates_of_bundles(
    bundles: Seq<RelativePathAndSnapMountsView>,
    live: Set<Seq<u8>>,
    disk: &DiskView,
) -> Seq<DeletedCandidateView>
    decreases bundles.len(),
{
    if bundles.len() == 0 {
        Seq::empty()
    } else {
        candidates_of_bundles(bundles.drop_last(), live, disk) + candidates_of_bundle(
            bundles.last(),
            live,
            disk,
        )
    }
}

/// Whether candidate `j` is preferred to candidate `i` of the same name: it
/// was modified later, or at the same time and stands later in the list.
pub open spec fn outranks(candidates: Seq<DeletedCandidateView>, j: int, i: int) -> bool {
    candidates[j].name == candidates[i].name && (candidates[j].modify_time
        > candidates[i].modify_time || (candidates[j].modify_time == candidates[i].modify_time
        && j > i))
}

/// Whether none of the first `upto` candidates is preferred to candidate `i`.
pub open spec fn leads_upto(candidates: Seq<DeletedCandidateView>, i: int, upto: int) -> bool {
    forall|j: int| 0 <= j < upto ==> !#[trigger] outranks(candidates, j, i)
}

/// Whether candidate `i` stands for its name: no candidate is preferred to it.
pub open spec fn is_representative(candidates: Seq<DeletedCandidateView>, i: int) -> bool {
    leads_upto(candidates, i, candidates.len() as int)
}

/// The entries of those of the first `upto` candidates that stand for their
/// names, in the order of the candidates.
pub open spec fn representatives(candidates: Seq<DeletedCandidateView>, upto: int) -> Seq<
    BasicDirEntryInfoView,
>
    decreases upto,
{
    if upto <= 0 {
        Seq::empty()
    } else if is_representative(candidates, upto - 1) {
        representatives(candidates, upto - 1).push(candidates[upto - 1].entry)
    } else {
        representatives(candidates, upto - 1)
    }
}

/// The deleted entries of the directory `dir`: for each name that a snapshot
/// mirror of the directory holds and the live directory does not, the entry
/// under that name that was modified last. Where the live directory could
/// not be listed, or lies under no dataset, nothing counts as deleted.
pub open spec fn unique_deleted(dir: Seq<u8>, config: &Config, disk: &DiskView) -> Seq<
    BasicDirEntryInfoView,
> {
    match (disk.spec_read_dir(dir), bundles_of(dir, config)) {
        (Some(live_entries), Some(bundles)) => {
            let candidates = candidates_of_bundles(bundles, entry_names(live_entries@), disk);
            representatives(candidates, candidates.len() as int)
        },
        _ => Seq::empty(),
    }
}

/// A table that holds the names of the entries.
fn names_of(entries: &Vec<BasicDirEntryInfo>) -> (r: NameTable)
    ensures
        name_table(r).dom() == entry_names(entries@),
{
    let mut table = name_table_new();
    let mut i: usize = 0;
    assert(entries@.subrange(0, 0) =~= Seq::<BasicDirEntryInfo>::empty());
    while i < entries.len()
        invariant
            i <= entries.len(),
            name_table(table).dom() == entry_names(entries@.subrange(0, i as int)),
        decreases entries.len() - i,
    {
        proof {
            let upto = entries@.subrange(0, i + 1);
            assert(upto.drop_last() =~= entries@.subrange(0, i as int));
            assert(upto.last() == entries@[i as int]);
        }
        let ghost before = name_table(table).dom();
        let name = entries[i].filename();
        name_table_insert(&mut table, name, i);
        assert(name_table(table).dom() =~= before.insert(entries@[i as int]@.filename()));
        i += 1;
    }
    assert(entries@.subrange(0, entries.len() as int) =~= entries@);
    table
}

/// The candidates among the entries of one mirror directory.
fn get_candidates_in_dir(
    entries: &Vec<BasicDirEntryInfo>,
    live: &NameTable,
    disk: &DiskView,
    candidates: &mut Vec<DeletedCandidate>,
)
    ensures
        candidate_views(final(candidates)@) == candidate_views(old(candidates)@)
            + candidates_in_dir(entries@, name_table(*live).dom(), disk),
{
    let ghost start = candidate_views(candidates@);
    let ghost names = name_table(*live).dom();
    let mut i: usize = 0;
    assert(entries@.subrange(0, 0) =~= Seq::<BasicDirEntryInfo>::empty());
    assert(candidate_views(candidates@) =~= start + Seq::<DeletedCandidateView>::empty());
    while i < entries.len()
        invariant
            i <= entries.len(),
            names == name_table(*live).dom(),
            candidate_views(candidates@) == start + candidates_in_dir(
                entries@.subrange(0, i as int),
                names,
                disk,
            ),
        decreases entries.len() - i,
    {
        let ghost before = candidate_views(candidates@);
        proof {
            let upto = entries@.subrange(0, i + 1);
            assert(upto.drop_last() =~= entries@.subrange(0, i as int));
            assert(upto.last() == entries@[i as int]);
        }
        let entry = &entries[i];
        // an entry whose stat fails is passed by
        if let Some(modify_time) = disk.modify_time(&entry.path) {
            let name = entry.filename();
            if name_table_get(live, &name).is_none() {
                let candidate = DeletedCandidate { name, entry: entry.clone(), modify_time };
                candidates.push(candidate);
                assert(candidate_views(candidates@) =~= before.push(candidate@));
            }
        }
        assert(candidate_views(candidates@) =~= start + candidates_in_dir(
            entries@.subrange(0, i + 1),
            names,
            disk,
        ));
        i += 1;
    }
    assert(entries@.subrange(0, entries.len() as int) =~= entries@);
}

/// The candidates that the snapshots of one dataset hold for the directory
/// `requested_dir`: the entries of its mirror directories whose names the
/// live directory does not hold. Fails where the live directory could not
/// be listed.
pub fn get_deleted_per_dataset(
    config: &Config,
    requested_dir: &Vec<u8>,
    search_dirs: &RelativePathAndSnapMounts,
    disk: &DiskView,
) -> (r: HttmResult<Vec<DeletedCandidate>>)
    ensures
        match r {
            Ok(candidates) => disk.spec_read_dir(requested_dir@) matches Some(live_entries)
                && candidate_views(candidates@) == candidates_of_bundle(
                search_dirs@,
                entry_names(live_entries@),
                disk,
            ),
            Err(e) => disk.spec_read_dir(requested_dir@) is None && e@ == HttmErrorView::IoError(
                IoErrorKind::Other,
                requested_dir@,
            ),
        },
{
    // the names that are live: what is not among them is deleted
    let live_entries = match disk.read_dir(requested_dir) {
        Some(entries) => entries,
        None => {
            return Err(HttmError::IoError(IoErrorKind::Other, requested_dir.clone()));
        },
    };
    let unique_local_filenames = names_of(live_entries);
    let ghost live = entry_names(live_entries@);
    let ghost mounts = path_list(search_dirs.snap_mounts@);
    let mut candidates: Vec<DeletedCandidate> = Vec::new();
    let mut i: usize = 0;
    assert(mounts.subrange(0, 0) =~= Seq::<Seq<u8>>::empty());
    assert(candidate_views(candidates@) =~= Seq::<DeletedCandidateView>::empty());
    while i < search_dirs.snap_mounts.len()
        invariant
            i <= search_dirs.snap_mounts.len(),
            mounts == path_list(search_dirs.snap_mounts@),
            live == name_table(unique_local_filenames).dom(),
            candidate_views(candidates@) == candidates_of_mounts(
                mounts.subrange(0, i as int),
                search_dirs@.relative_path,
                search_dirs@.fs_type,
                live,
                disk,
            ),
        decreases search_dirs.snap_mounts.len() - i,
    {
        proof {
            let upto = mounts.subrange(0, i + 1);
            assert(upto.drop_last() =~= mounts.subrange(0, i as int));
            assert(upto.last() == search_dirs.snap_mounts@[i as int]@);
        }
        let mirror = get_mirror_dir(
            &search_dirs.snap_mounts[i],
            &search_dirs.relative_path,
            &search_dirs.fs_type,
        );
        // a snapshot that never held the directory has nothing to say
        if let Some(entries) = disk.read_dir(&mirror) {
            get_candidates_in_dir(entries, &unique_local_filenames, disk, &mut candidates);
        }
        i += 1;
    }
    assert(mounts.subrange(0, search_dirs.snap_mounts.len() as int) =~= mounts);
    Ok(candidates)
}

/// The entries of the candidates that stand for their names.
pub fn pick_representatives(candidates: &Vec<DeletedCandidate>) -> (r: Vec<BasicDirEntryInfo>)
    ensures
        dir_entry_views(r@) == representatives(
            candidate_views(candidates@),
            candidates@.len() as int,
        ),
{
    let ghost all = candidate_views(candidates@);
    // for each name, the place of the candidate that leads so far
    let mut leaders = name_table_new();
    let mut i: usize = 0;
    while i < candidates.len()
        invariant
            i <= candidates.len(),
            all == candidate_views(candidates@),
            forall|j: int| 0 <= j < i ==> name_table(leaders).dom().contains(#[trigger] all[j].name),
            forall|name: Seq<u8>| #[trigger]
                name_table(leaders).dom().contains(name) ==> {
                    let leader = name_table(leaders)[name];
                    0 <= leader < i && all[leader as int].name == name && leads_upto(
                        all,
                        leader as int,
                        i as int,
                    )
                },
        decreases candidates.len() - i,
    {
        let ghost before = name_table(leaders);
        let candidate = &candidates[i];
        assert(all[i as int] == candidate@);
        let leads = match name_table_get(&leaders, &candidate.name) {
            Some(leader) => {
                assert(all[leader as int] == candidates@[leader as int]@);
                candidates[leader].modify_time <= candidate.modify_time
            },
            None => true,
        };
        if leads {
            name_table_insert(&mut leaders, candidate.name.clone(), i);
        }
        proof {
            let after = name_table(leaders);
            assert forall|name: Seq<u8>| #[trigger] after.dom().contains(name) implies {
                let leader = after[name];
                0 <= leader < i + 1 && all[leader as int].name == name && leads_upto(
                    all,
                    leader as int,
                    i + 1,
                )
            } by {
                let leader = after[name];
                if name == candidate@.name {
                    if leads {
                        assert forall|j: int| 0 <= j < i + 1 implies !#[trigger] outranks(
                            all,
                            j,
                            i as int,
                        ) by {
                            if j < i && all[j].name == name {
                                assert(before.dom().contains(all[j].name));
                                let old_leader = before[name];
                                assert(!outranks(all, j, old_leader as int));
                            }
                        }
                    } else {
                        assert(before.dom().contains(name));
                        assert forall|j: int| 0 <= j < i + 1 implies !#[trigger] outranks(
                            all,
                            j,
                            leader as int,
                        ) by {
                            if j < i {
                                assert(!outranks(all, j, leader as int));
                            }
                        }
                    }
                } else {
                    assert(before.dom().contains(name));
                    assert forall|j: int| 0 <= j < i + 1 implies !#[trigger] outranks(
                        all,
                        j,
                        leader as int,
                    ) by {
                        if j < i {
                            assert(!outranks(all, j, leader as int));
                        }
                    }
                }
            }
            assert forall|j: int| 0 <= j < i + 1 implies after.dom().contains(
                #[trigger] all[j].name,
            ) by {
                if j < i {
                    assert(before.dom().contains(all[j].name));
                }
            }
        }
        i += 1;
    }
    let mut unique: Vec<BasicDirEntryInfo> = Vec::new();
    let mut k: usize = 0;
    assert(dir_entry_views(unique@) =~= Seq::<BasicDirEntryInfoView>::empty());
    while k < candidates.len()
        invariant
            k <= candidates.len(),
            all == candidate_views(candidates@),
            forall|j: int|
                0 <= j < all.len() ==> name_table(leaders).dom().contains(#[trigger] all[j].name),
            forall|name: Seq<u8>| #[trigger]
                name_table(leaders).dom().contains(name) ==> {
                    let leader = name_table(leaders)[name];
                    0 <= leader < all.len() && all[leader as int].name == name
                        && is_representative(all, leader as int)
                },
            dir_entry_views(unique@) == representatives(all, k as int),
        decreases candidates.len() - k,
    {
        let ghost before = dir_entry_views(unique@);
        let candidate = &candidates[k];
        assert(all[k as int] == candidate@);
        assert(name_table(leaders).dom().contains(all[k as int].name));
        let leader = name_table_get(&leaders, &candidate.name);
        proof {
            let l = leader.unwrap();
            assert(is_representative(all, l as int));
            if l != k {
                // one of the two is preferred to the other
                assert(!outranks(all, k as int, l as int));
                assert(outranks(all, l as int, k as int));
                assert(!is_representative(all, k as int));
            }
        }
        if leader == Some(k) {
            let entry = candidate.entry.clone();
            unique.push(entry);
            assert(dir_entry_views(unique@) =~= before.push(entry@));
        }
        k += 1;
    }
    unique
}

/// The deleted entries of the directory `requested_dir`: for each name that
/// a snapshot mirror of the directory holds and the live directory does not,
/// the entry under that name that was modified last.
pub fn get_unique_deleted(config: &Config, requested_dir: &Vec<u8>, disk: &DiskView) -> (r:
    HttmResult<Vec<BasicDirEntryInfo>>)
    ensures
        r matches Ok(deleted) && dir_entry_views(deleted@) == unique_deleted(
            requested_dir@,
            config,
            disk,
        ),
{
    // the directory itself tells where its snapshots are
    let requested_dir_pathdata = PathData::new(requested_dir, None);
    let mut candidates: Vec<DeletedCandidate> = Vec::new();
    assert(candidate_views(candidates@) =~= Seq::<DeletedCandidateView>::empty());
    if let Ok(prox_opt_alts) = ProximateDatasetAndOptAlts::new(&requested_dir_pathdata, config) {
        let bundles = prox_opt_alts.into_search_bundles(&config.dataset_collection);
        assert(bundles_of(requested_dir@, config) == Some(bundle_views(bundles@)));
        let mut i: usize = 0;
        assert(bundle_views(bundles@).subrange(0, 0) =~= Seq::<
            RelativePathAndSnapMountsView,
        >::empty());
        while i < bundles.len()
            invariant
                i <= bundles.len(),
                match disk.spec_read_dir(requested_dir@) {
                    Some(live_entries) => candidate_views(candidates@) == candidates_of_bundles(
                        bundle_views(bundles@).subrange(0, i as int),
                        entry_names(live_entries@),
                        disk,
                    ),
                    None => candidates@.len() == 0,
                },
            decreases bundles.len() - i,
        {
            let ghost before = candidate_views(candidates@);
            proof {
                let upto = bundle_views(bundles@).subrange(0, i + 1);
                assert(upto.drop_last() =~= bundle_views(bundles@).subrange(0, i as int));
                assert(upto.last() == bundles@[i as int]@);
            }
            // a dataset whose search fails has nothing to say
            if let Ok(mut found) = get_deleted_per_dataset(
                config,
                requested_dir,
                &bundles[i],
                disk,
            ) {
                let ghost added = candidate_views(found@);
                candidates.append(&mut found);
                assert(candidate_views(candidates@) =~= before + added);
            }
            i += 1;
        }
        assert(bundle_views(bundles@).subrange(0, bundles.len() as int) =~= bundle_views(
            bundles@,
        ));
    }
    let unique_deleted = pick_representatives(&candidates);
    proof {
        if candidates@.len() == 0 {
            assert(candidate_views(candidates@).len() == 0);
        }
    }
    Ok(unique_deleted)
}

/// The place of the candidate of `name` that leads among the first `upto`
/// candidates, or -1 where none of them has that name.
pub open spec fn leader_upto(candidates: Seq<DeletedCandidateView>, name: Seq<u8>, upto: int) -> int
    decreases upto,
{
    if upto <= 0 {
        -1
    } else {
        let before = leader_upto(candidates, name, upto - 1);
        if candidates[upto - 1].name == name && (before < 0 || candidates[before].modify_time
            <= candidates[upto - 1].modify_time) {
            upto - 1
        } else {
            before
        }
    }
}

proof fn lemma_leader_upto(candidates: Seq<DeletedCandidateView>, name: Seq<u8>, upto: int)
    requires
        0 <= upto <= candidates.len(),
    ensures
        -1 <= leader_upto(candidates, name, upto) < upto,
        leader_upto(candidates, name, upto) < 0 ==> forall|j: int|
            0 <= j < upto ==> (#[trigger] candidates[j]).name != name,
        leader_upto(candidates, name, upto) >= 0 ==> candidates[leader_upto(
            candidates,
            name,
            upto,
        )].name == name && leads_upto(candidates, leader_upto(candidates, name, upto), upto),
    decreases upto,
{
    if upto > 0 {
        lemma_leader_upto(candidates, name, upto - 1);
        let before = leader_upto(candidates, name, upto - 1);
        let leader = leader_upto(candidates, name, upto);
        if leader >= 0 {
            assert forall|j: int| 0 <= j < upto implies !#[trigger] outranks(
                candidates,
                j,
                leader,
            ) by {
                if j < upto - 1 && candidates[j].name == name {
                    if before >= 0 {
                        assert(!outranks(candidates, j, before));
                    }
                }
            }
        }
    }
}

proof fn lemma_representatives(candidates: Seq<DeletedCandidateView>, upto: int)
    requires
        0 <= upto <= candidates.len(),
    ensures
        forall|i: int|
            0 <= i < upto && #[trigger] is_representative(candidates, i) ==> representatives(
                candidates,
                upto,
            ).contains(candidates[i].entry),
        forall|x: BasicDirEntryInfoView| #[trigger]
            representatives(candidates, upto).contains(x) ==> returned_for(candidates, x, upto),
    decreases upto,
{
    if upto > 0 {
        lemma_representatives(candidates, upto - 1);
        let before = representatives(candidates, upto - 1);
        let all = representatives(candidates, upto);
        assert forall|i: int| 0 <= i < upto && #[trigger] is_representative(
            candidates,
            i,
        ) implies all.contains(candidates[i].entry) by {
            if i < upto - 1 {
                assert(before.contains(candidates[i].entry));
                let k = choose|k: int| 0 <= k < before.len() && before[k] == candidates[i].entry;
                assert(all[k] == candidates[i].entry);
            } else {
                assert(all[before.len() as int] == candidates[i].entry);
            }
        }
        assert forall|x: BasicDirEntryInfoView| #[trigger] all.contains(x) implies returned_for(
            candidates,
            x,
            upto,
        ) by {
            let k = choose|k: int| 0 <= k < all.len() && all[k] == x;
            if k < before.len() {
                assert(before[k] == x);
                assert(before.contains(x));
                assert(returned_for(candidates, x, upto - 1));
                let i = choose|i: int|
                    0 <= i < upto - 1 && #[trigger] is_representative(candidates, i)
                        && candidates[i].entry == x;
                assert(is_representative(candidates, i));
            } else {
                assert(is_representative(candidates, upto - 1));
            }
        }
    }
}

/// Whether `entry` is that of one of the first `upto` candidates, one that
/// no candidate of its name is preferred to.
pub open spec fn returned_for(
    candidates: Seq<DeletedCandidateView>,
    entry: BasicDirEntryInfoView,
    upto: int,
) -> bool {
    exists|i: int|
        0 <= i < upto && #[trigger] is_representative(candidates, i) && candidates[i].entry
            == entry
}

/// Whether the entry of a candidate of `name` is returned, one that no
/// candidate of that name is preferred to.
pub open spec fn has_representative(candidates: Seq<DeletedCandidateView>, name: Seq<u8>) -> bool {
    exists|i: int|
        0 <= i < candidates.len() && #[trigger] is_representative(candidates, i)
            && candidates[i].name == name && representatives(
            candidates,
            candidates.len() as int,
        ).contains(candidates[i].entry)
}

/// For each name among the candidates, exactly the candidate of that name
/// that was modified last is returned: every name of a candidate is the name
/// of a candidate whose entry is returned, every entry returned is that of a
/// candidate that no candidate of its name is preferred to, and of the
/// candidates of one name only one is such.
pub proof fn lemma_representatives_by_name(candidates: Seq<DeletedCandidateView>)
    ensures
        forall|j: int|
            0 <= j < candidates.len() ==> has_representative(
                candidates,
                (#[trigger] candidates[j]).name,
            ),
        forall|x: BasicDirEntryInfoView| #[trigger]
            representatives(candidates, candidates.len() as int).contains(x) ==> returned_for(
                candidates,
                x,
                candidates.len() as int,
            ),
        forall|i: int, j: int|
            0 <= i < candidates.len() && 0 <= j < candidates.len() && #[trigger] is_representative(
                candidates,
                i,
            ) && #[trigger] is_representative(candidates, j) && candidates[i].name
                == candidates[j].name ==> i == j,
{
    let n = candidates.len() as int;
    lemma_representatives(candidates, n);
    assert forall|j: int| 0 <= j < candidates.len() implies has_representative(
        candidates,
        (#[trigger] candidates[j]).name,
    ) by {
        lemma_leader_upto(candidates, candidates[j].name, n);
        let leader = leader_upto(candidates, candidates[j].name, n);
        assert(is_representative(candidates, leader));
    }
    assert forall|i: int, j: int|
        0 <= i < candidates.len() && 0 <= j < candidates.len() && #[trigger] is_representative(
            candidates,
            i,
        ) && #[trigger] is_representative(candidates, j) && candidates[i].name
            == candidates[j].name implies i == j by {
        assert(!outranks(candidates, i, j));
        assert(!outranks(candidates, j, i));
    }
}

/// The candidates among the entries of a directory are the entries with a
/// modify time whose names are not live, each under its own name.
pub proof fn lemma_candidates_in_dir(
    entries: Seq<BasicDirEntryInfo>,
    live: Set<Seq<u8>>,
    disk: &DiskView,
)
    ensures
        forall|k: int|
            0 <= k < candidates_in_dir(entries, live, disk).len() ==> {
                let candidate = #[trigger] candidates_in_dir(entries, live, disk)[k];
                &&& !live.contains(candidate.name)
                &&& candidate.name == candidate.entry.filename()
                &&& disk.spec_modify_time(candidate.entry.path) == Some(candidate.modify_time)
                &&& exists|i: int| 0 <= i < entries.len() && (#[trigger] entries[i])@ == candidate.entry
            },
        forall|i: int|
            0 <= i < entries.len() && disk.spec_modify_time((#[trigger] entries[i])@.path)
                is Some && !live.contains(entries[i]@.filename()) ==> exists|k: int|
                0 <= k < candidates_in_dir(entries, live, disk).len() && (
                #[trigger] candidates_in_dir(entries, live, disk)[k]).entry == entries[i]@,
    decreases entries.len(),
{
    if entries.len() > 0 {
        let front = entries.drop_last();
        let before = candidates_in_dir(front, live, disk);
        let all = candidates_in_dir(entries, live, disk);
        lemma_candidates_in_dir(front, live, disk);
        assert forall|k: int| 0 <= k < all.len() implies {
            let candidate = #[trigger] all[k];
            &&& !live.contains(candidate.name)
            &&& candidate.name == candidate.entry.filename()
            &&& disk.spec_modify_time(candidate.entry.path) == Some(candidate.modify_time)
            &&& exists|i: int| 0 <= i < entries.len() && (#[trigger] entries[i])@ == candidate.entry
        } by {
            if k < before.len() {
                assert(all[k] == before[k]);
                let i = choose|i: int| 0 <= i < front.len() && (#[trigger] front[i])@ == before[k].entry;
                assert(entries[i] == front[i]);
            } else {
                assert(entries[entries.len() - 1]@ == all[k].entry);
            }
        }
        assert forall|i: int|
            0 <= i < entries.len() && disk.spec_modify_time((#[trigger] entries[i])@.path)
                is Some && !live.contains(entries[i]@.filename()) implies exists|k: int|
            0 <= k < all.len() && (#[trigger] all[k]).entry == entries[i]@ by {
            if i < front.len() {
                assert(front[i] == entries[i]);
                let k = choose|k: int|
                    0 <= k < before.len() && (#[trigger] before[k]).entry == front[i]@;
                assert(all[k] == before[k]);
            } else {
                assert(all[before.len() as int].entry == entries[i]@);
            }
        }
    }
}

/// Whether `candidate` is an entry under its own name that is not live,
/// with the modify time that a stat gave.
pub open spec fn is_deleted_candidate(
    candidate: DeletedCandidateView,
    live: Set<Seq<u8>>,
    disk: &DiskView,
) -> bool {
    &&& !live.contains(candidate.name)
    &&& candidate.name == candidate.entry.filename()
    &&& disk.spec_modify_time(candidate.entry.path) == Some(candidate.modify_time)
}

/// Every candidate of a search is an entry under its own name that is not
/// live, with the modify time that a stat gave.
pub proof fn lemma_candidates_of_bundles(
    bundles: Seq<RelativePathAndSnapMountsView>,
    live: Set<Seq<u8>>,
    disk: &DiskView,
)
    ensures
        forall|k: int|
            0 <= k < candidates_of_bundles(bundles, live, disk).len() ==> is_deleted_candidate(
                #[trigger] candidates_of_bundles(bundles, live, disk)[k],
                live,
                disk,
            ),
    decreases bundles.len(),
{
    if bundles.len() > 0 {
        let before = candidates_of_bundles(bundles.drop_last(), live, disk);
        let last = bundles.last();
        let added = candidates_of_bundle(last, live, disk);
        let all = candidates_of_bundles(bundles, live, disk);
        lemma_candidates_of_bundles(bundles.drop_last(), live, disk);
        lemma_candidates_of_mounts(last.snap_mounts, last.relative_path, last.fs_type, live, disk);
        assert forall|k: int| 0 <= k < all.len() implies is_deleted_candidate(
            #[trigger] all[k],
            live,
            disk,
        ) by {
            if k < before.len() {
                assert(all[k] == before[k]);
            } else {
                assert(all[k] == added[k - before.len()]);
            }
        }
    }
}

proof fn lemma_candidates_of_mounts(
    snap_mounts: Seq<Seq<u8>>,
    relative_path: Seq<u8>,
    fs_type: Option<FilesystemTypeView>,
    live: Set<Seq<u8>>,
    disk: &DiskView,
)
    ensures
        forall|k: int|
            0 <= k < candidates_of_mounts(snap_mounts, relative_path, fs_type, live, disk).len()
                ==> is_deleted_candidate(
                #[trigger] candidates_of_mounts(snap_mounts, relative_path, fs_type, live, disk)[k],
                live,
                disk,
            ),
    decreases snap_mounts.len(),
{
    if snap_mounts.len() > 0 {
        let before = candidates_of_mounts(
            snap_mounts.drop_last(),
            relative_path,
            fs_type,
            live,
            disk,
        );
        let all = candidates_of_mounts(snap_mounts, relative_path, fs_type, live, disk);
        lemma_candidates_of_mounts(snap_mounts.drop_last(), relative_path, fs_type, live, disk);
        if let Some(entries) = disk.spec_read_dir(
            mirror_dir(snap_mounts.last(), relative_path, fs_type),
        ) {
            let added = candidates_in_dir(entries@, live, disk);
            lemma_candidates_in_dir(entries@, live, disk);
            assert forall|k: int| 0 <= k < all.len() implies is_deleted_candidate(
                #[trigger] all[k],
                live,
                disk,
            ) by {
                if k < before.len() {
                    assert(all[k] == before[k]);
                } else {
                    assert(all[k] == added[k - before.len()]);
                }
            }
        }
    }
}

/// The names of the candidates.
pub open spec fn candidate_names(candidates: Seq<DeletedCandidateView>) -> Set<Seq<u8>> {
    Set::new(
        |name: Seq<u8>|
            exists|j: int| 0 <= j < candidates.len() && (#[trigger] candidates[j]).name == name,
    )
}

/// The names of the entries.
pub open spec fn returned_names(entries: Seq<BasicDirEntryInfoView>) -> Set<Seq<u8>> {
    Set::new(
        |name: Seq<u8>|
            exists|k: int| 0 <= k < entries.len() && (#[trigger] entries[k]).filename() == name,
    )
}

/// The names of the entries that are returned as deleted are the names of
/// the candidates: the names that the snapshot mirrors of the directory
/// hold, without the names that the live directory holds.
pub proof fn lemma_deleted_names(candidates: Seq<DeletedCandidateView>)
    requires
        forall|j: int|
            0 <= j < candidates.len() ==> (#[trigger] candidates[j]).name
                == candidates[j].entry.filename(),
    ensures
        returned_names(representatives(candidates, candidates.len() as int)) == candidate_names(
            candidates,
        ),
{
    let returned = representatives(candidates, candidates.len() as int);
    lemma_representatives_by_name(candidates);
    assert forall|name: Seq<u8>| returned_names(returned).contains(name) implies candidate_names(
        candidates,
    ).contains(name) by {
        let k = choose|k: int| 0 <= k < returned.len() && (#[trigger] returned[k]).filename() == name;
        assert(returned.contains(returned[k]));
        assert(returned_for(candidates, returned[k], candidates.len() as int));
        let i = choose|i: int|
            0 <= i < candidates.len() && #[trigger] is_representative(candidates, i)
                && candidates[i].entry == returned[k];
        assert(candidates[i].name == name);
    }
    assert forall|name: Seq<u8>| candidate_names(candidates).contains(name) implies returned_names(
        returned,
    ).contains(name) by {
        let j = choose|j: int| 0 <= j < candidates.len() && (#[trigger] candidates[j]).name == name;
        assert(has_representative(candidates, candidates[j].name));
        let i = choose|i: int|
            0 <= i < candidates.len() && #[trigger] is_representative(candidates, i)
                && candidates[i].name == name && returned.contains(candidates[i].entry);
        let k = choose|k: int| 0 <= k < returned.len() && returned[k] == candidates[i].entry;
        assert(returned[k].filename() == name);
    }
    assert(returned_names(returned) =~= candidate_names(candidates));
}

/// The names of the deleted entries of a directory are the names that
/// entries with a modify time have in the snapshot mirrors of the
/// directory, without the names that the live directory holds: they are the
/// names of the candidates of the search, and no candidate has a live name.
pub proof fn lemma_unique_deleted_names(dir: Seq<u8>, config: &Config, disk: &DiskView)
    requires
        disk.spec_read_dir(dir) is Some,
        bundles_of(dir, config) is Some,
    ensures
        ({
            let live = entry_names(disk.spec_read_dir(dir)->Some_0@);
            let candidates = candidates_of_bundles(bundles_of(dir, config)->Some_0, live, disk);
            &&& returned_names(unique_deleted(dir, config, disk)) == candidate_names(candidates)
            &&& forall|name: Seq<u8>| #[trigger]
                candidate_names(candidates).contains(name) ==> !live.contains(name)
        }),
{
    let live = entry_names(disk.spec_read_dir(dir)->Some_0@);
    let candidates = candidates_of_bundles(bundles_of(dir, config)->Some_0, live, disk);
    lemma_candidates_of_bundles(bundles_of(dir, config)->Some_0, live, disk);
    lemma_deleted_names(candidates);
    assert forall|name: Seq<u8>| #[trigger]
        candidate_names(candidates).contains(name) implies !live.contains(name) by {
        let j = choose|j: int| 0 <= j < candidates.len() && (#[trigger] candidates[j]).name == name;
        assert(is_deleted_candidate(candidates[j], live, disk));
    }
}

} // verus!
