//! The order of versions: by modify time, oldest first, and without the
//! versions that repeat the one before them.

use crate::config::ListSnapsOfType;
use crate::data::compare::CompareContentsContainer;
use crate::data::disk::DiskView;
use crate::data::paths::{PathData, PathDataView};
use vstd::prelude::*;

verus! {

/// The records of a list, as values.
pub open spec fn path_views(records: Seq<PathData>) -> Seq<PathDataView> {
    records.map_values(|record: PathData| record@)
}

/// The modify time that versions are ordered by.
pub open spec fn mtime_of(record: PathDataView) -> int {
    record.metadata_infallible().modify_time as int
}

/// `sorted` with `record` put behind the last record that is not younger.
pub open spec fn insert_by_mtime(sorted: Seq<PathDataView>, record: PathDataView) -> Seq<
    PathDataView,
>
    decreases sorted.len(),
{
    if sorted.len() == 0 {
        seq![record]
    } else if mtime_of(sorted.last()) <= mtime_of(record) {
        sorted.push(record)
    } else {
        insert_by_mtime(sorted.drop_last(), record).push(sorted.last())
    }
}

/// The records in the order of their modify times, oldest first; records of
/// one modify time keep the order they came in.
pub open spec fn sort_by_mtime(records: Seq<PathDataView>) -> Seq<PathDataView>
    decreases records.len(),
{
    if records.len() == 0 {
        records
    } else {
        insert_by_mtime(sort_by_mtime(records.drop_last()), records.last())
    }
}

/// Whether no record is younger than one that follows it.
pub open spec fn is_sorted_by_mtime(records: Seq<PathDataView>) -> bool {
    forall|i: int, j: int|
        0 <= i <= j < records.len() ==> mtime_of(#[trigger] records[i]) <= mtime_of(
            #[trigger] records[j],
        )
}

/// The records that were modified at `time`, in the order they stand in.
pub open spec fn modified_at(records: Seq<PathDataView>, time: int) -> Seq<PathDataView>
    decreases records.len(),
{
    if records.len() == 0 {
        records
    } else if mtime_of(records.last()) == time {
        modified_at(records.drop_last(), time).push(records.last())
    } else {
        modified_at(records.drop_last(), time)
    }
}

/// Whether two versions count as one under `uniqueness`.
pub open spec fn same_version(
    a: PathDataView,
    b: PathDataView,
    uniqueness: ListSnapsOfType,
    disk: &DiskView,
) -> bool {
    match uniqueness {
        ListSnapsOfType::All => false,
        ListSnapsOfType::UniqueMetadata => a.metadata_infallible() == b.metadata_infallible(),
        ListSnapsOfType::UniqueContents => disk.spec_contents_hash(a.path)
            == disk.spec_contents_hash(b.path),
    }
}

/// The records without those that count as one with the record kept before
/// them.
pub open spec fn dedup_versions(
    records: Seq<PathDataView>,
    uniqueness: ListSnapsOfType,
    disk: &DiskView,
) -> Seq<PathDataView>
    decreases records.len(),
{
    if records.len() == 0 {
        records
    } else {
        let kept = dedup_versions(records.drop_last(), uniqueness, disk);
        if kept.len() > 0 && same_version(records.last(), kept.last(), uniqueness, disk) {
            kept
        } else {
            kept.push(records.last())
        }
    }
}

/// What is listed of the versions found: sorted by modify time, then without
/// repeats.
pub open spec fn sort_dedup(
    records: Seq<PathDataView>,
    uniqueness: ListSnapsOfType,
    disk: &DiskView,
) -> Seq<PathDataView> {
    dedup_versions(sort_by_mtime(records), uniqueness, disk)
}

proof fn lemma_insert_position(sorted: Seq<PathDataView>, record: PathDataView, at: int)
    requires
        0 <= at <= sorted.len(),
        forall|k: int| at <= k < sorted.len() ==> mtime_of(sorted[k]) > mtime_of(record),
        at > 0 ==> mtime_of(sorted[at - 1]) <= mtime_of(record),
    ensures
        insert_by_mtime(sorted, record) == sorted.insert(at, record),
    decreases sorted.len(),
{
    if sorted.len() == 0 {
        assert(sorted.insert(at, record) =~= seq![record]);
    } else if at == sorted.len() {
        assert(sorted.insert(at, record) =~= sorted.push(record));
    } else {
        let front = sorted.drop_last();
        assert(mtime_of(sorted.last()) > mtime_of(record));
        assert forall|k: int| at <= k < front.len() implies mtime_of(front[k]) > mtime_of(
            record,
        ) by {
            assert(front[k] == sorted[k]);
        }
        if at > 0 {
            assert(front[at - 1] == sorted[at - 1]);
        }
        lemma_insert_position(front, record, at);
        assert(front.insert(at, record).push(sorted.last()) =~= sorted.insert(at, record));
    }
}

/// Sorts the records by modify time, oldest first, keeping the order of
/// records with one modify time.
pub fn sort_versions(versions: Vec<PathData>) -> (r: Vec<PathData>)
    ensures
        path_views(r@) == sort_by_mtime(path_views(versions@)),
{
    let mut sorted: Vec<PathData> = Vec::new();
    let mut i: usize = 0;
    assert(path_views(versions@).subrange(0, 0) =~= Seq::<PathDataView>::empty());
    assert(path_views(sorted@) =~= Seq::<PathDataView>::empty());
    while i < versions.len()
        invariant
            i <= versions.len(),
            path_views(sorted@) == sort_by_mtime(path_views(versions@).subrange(0, i as int)),
        decreases versions.len() - i,
    {
        let record = versions[i].clone();
        let time = record.metadata_infallible().modify_time;
        let mut at: usize = sorted.len();
        while at > 0 && sorted[at - 1].metadata_infallible().modify_time > time
            invariant
                at <= sorted.len(),
                time == mtime_of(record@),
                forall|k: int| at <= k < sorted.len() ==> mtime_of(sorted@[k]@) > time,
            decreases at,
        {
            at -= 1;
        }
        proof {
            let before = path_views(sorted@);
            let upto = path_views(versions@).subrange(0, i + 1);
            assert(upto.drop_last() =~= path_views(versions@).subrange(0, i as int));
            assert(upto.last() == record@);
            assert forall|k: int| at <= k < before.len() implies mtime_of(before[k]) > mtime_of(
                record@,
            ) by {
                assert(before[k] == sorted@[k]@);
            }
            if at > 0 {
                assert(before[at - 1] == sorted@[at - 1]@);
            }
            lemma_insert_position(before, record@, at as int);
            assert(path_views(sorted@.insert(at as int, record)) =~= before.insert(
                at as int,
                record@,
            ));
        }
        sorted.insert(at, record);
        i += 1;
    }
    assert(path_views(versions@).subrange(0, versions.len() as int) =~= path_views(versions@));
    sorted
}

/// Tests whether two records have the same size and modify time.
pub fn is_same_metadata(a: &PathData, b: &PathData) -> (r: bool)
    ensures
        r == (a@.metadata_infallible() == b@.metadata_infallible()),
{
    let x = a.metadata_infallible();
    let y = b.metadata_infallible();
    x.size == y.size && x.modify_time == y.modify_time
}

/// Leaves out each version that has the size and modify time of the version
/// kept before it.
fn dedup_by_metadata(sorted: Vec<PathData>, disk: &DiskView) -> (r: Vec<PathData>)
    ensures
        path_views(r@) == dedup_versions(
            path_views(sorted@),
            ListSnapsOfType::UniqueMetadata,
            disk,
        ),
{
    let mut kept: Vec<PathData> = Vec::new();
    let mut i: usize = 0;
    assert(path_views(sorted@).subrange(0, 0) =~= Seq::<PathDataView>::empty());
    assert(path_views(kept@) =~= Seq::<PathDataView>::empty());
    while i < sorted.len()
        invariant
            i <= sorted.len(),
            path_views(kept@) == dedup_versions(
                path_views(sorted@).subrange(0, i as int),
                ListSnapsOfType::UniqueMetadata,
                disk,
            ),
        decreases sorted.len() - i,
    {
        let ghost before = path_views(kept@);
        proof {
            let upto = path_views(sorted@).subrange(0, i + 1);
            assert(upto.drop_last() =~= path_views(sorted@).subrange(0, i as int));
            assert(upto.last() == sorted@[i as int]@);
            if kept.len() > 0 {
                assert(before.last() == kept@[kept.len() - 1]@);
            }
        }
        let repeat = kept.len() > 0 && is_same_metadata(&sorted[i], &kept[kept.len() - 1]);
        if !repeat {
            let record = sorted[i].clone();
            kept.push(record);
            assert(path_views(kept@) =~= before.push(record@));
        }
        i += 1;
    }
    assert(path_views(sorted@).subrange(0, sorted.len() as int) =~= path_views(sorted@));
    kept
}

/// The versions of a list of versions with their hashes, as values.
pub open spec fn container_paths(containers: Seq<CompareContentsContainer>) -> Seq<PathDataView> {
    containers.map_values(|container: CompareContentsContainer| container@.pathdata)
}

/// Leaves out each version that holds the contents of the version kept
/// before it.
fn dedup_by_contents(sorted: Vec<PathData>, disk: &DiskView) -> (r: Vec<PathData>)
    ensures
        path_views(r@) == dedup_versions(
            path_views(sorted@),
            ListSnapsOfType::UniqueContents,
            disk,
        ),
{
    let mut kept: Vec<CompareContentsContainer> = Vec::new();
    let mut i: usize = 0;
    assert(path_views(sorted@).subrange(0, 0) =~= Seq::<PathDataView>::empty());
    assert(container_paths(kept@) =~= Seq::<PathDataView>::empty());
    while i < sorted.len()
        invariant
            i <= sorted.len(),
            forall|k: int|
                0 <= k < kept@.len() ==> (#[trigger] kept@[k])@.hash == disk.spec_contents_hash(
                    kept@[k]@.pathdata.path,
                ),
            container_paths(kept@) == dedup_versions(
                path_views(sorted@).subrange(0, i as int),
                ListSnapsOfType::UniqueContents,
                disk,
            ),
        decreases sorted.len() - i,
    {
        let ghost before = container_paths(kept@);
        proof {
            let upto = path_views(sorted@).subrange(0, i + 1);
            assert(upto.drop_last() =~= path_views(sorted@).subrange(0, i as int));
            assert(upto.last() == sorted@[i as int]@);
            if kept.len() > 0 {
                assert(before.last() == kept@[kept.len() - 1]@.pathdata);
            }
        }
        let container = CompareContentsContainer::new(sorted[i].clone(), disk);
        let repeat = kept.len() > 0 && container.is_same_contents(&kept[kept.len() - 1]);
        if !repeat {
            kept.push(container);
            assert(container_paths(kept@) =~= before.push(container@.pathdata));
        }
        i += 1;
    }
    assert(path_views(sorted@).subrange(0, sorted.len() as int) =~= path_views(sorted@));
    let mut versions: Vec<PathData> = Vec::new();
    assert(path_views(versions@) =~= container_paths(kept@).subrange(0, 0));
    while kept.len() > versions.len()
        invariant
            versions.len() <= kept.len(),
            path_views(versions@) == container_paths(kept@).subrange(0, versions.len() as int),
        decreases kept.len() - versions.len(),
    {
        let ghost before = path_views(versions@);
        let ghost at = versions.len() as int;
        let record = PathData::new(kept[versions.len()].path(), *kept[versions.len()].opt_metadata());
        versions.push(record);
        assert(path_views(versions@) =~= before.push(record@));
        assert(container_paths(kept@).subrange(0, at + 1) =~= before.push(
            container_paths(kept@)[at],
        ));
    }
    assert(container_paths(kept@).subrange(0, kept.len() as int) =~= container_paths(kept@));
    versions
}

/// Sorts the versions found by modify time, then leaves out each that counts
/// as one with the version kept before it.
pub fn sort_dedup_versions(
    versions: Vec<PathData>,
    uniqueness: &ListSnapsOfType,
    disk: &DiskView,
) -> (r: Vec<PathData>)
    ensures
        path_views(r@) == sort_dedup(path_views(versions@), *uniqueness, disk),
{
    let sorted = sort_versions(versions);
    match uniqueness {
        ListSnapsOfType::All => {
            proof {
                lemma_dedup_versions(path_views(sorted@), ListSnapsOfType::All, disk);
            }
            sorted
        },
        ListSnapsOfType::UniqueMetadata => dedup_by_metadata(sorted, disk),
        ListSnapsOfType::UniqueContents => dedup_by_contents(sorted, disk),
    }
}

proof fn lemma_insert_by_mtime(sorted: Seq<PathDataView>, record: PathDataView)
    ensures
        insert_by_mtime(sorted, record).len() == sorted.len() + 1,
        insert_by_mtime(sorted, record).contains(record),
        forall|x: PathDataView| #[trigger]
            sorted.contains(x) ==> insert_by_mtime(sorted, record).contains(x),
        forall|x: PathDataView| #[trigger]
            insert_by_mtime(sorted, record).contains(x) ==> x == record || sorted.contains(x),
        is_sorted_by_mtime(sorted) ==> is_sorted_by_mtime(insert_by_mtime(sorted, record)),
        forall|time: int|
            #[trigger] modified_at(insert_by_mtime(sorted, record), time) == if mtime_of(record)
                == time {
                modified_at(sorted, time).push(record)
            } else {
                modified_at(sorted, time)
            },
    decreases sorted.len(),
{
    let out = insert_by_mtime(sorted, record);
    if sorted.len() == 0 {
        assert(out[0] == record);
        assert forall|time: int| #[trigger]
            modified_at(out, time) == if mtime_of(record) == time {
                modified_at(sorted, time).push(record)
            } else {
                modified_at(sorted, time)
            } by {
            assert(out.drop_last() =~= sorted);
        }
    } else if mtime_of(sorted.last()) <= mtime_of(record) {
        assert(out[sorted.len() as int] == record);
        assert forall|x: PathDataView| sorted.contains(x) implies out.contains(x) by {
            let i = choose|i: int| 0 <= i < sorted.len() && sorted[i] == x;
            assert(out[i] == x);
        }
        assert forall|x: PathDataView| out.contains(x) implies x == record || sorted.contains(
            x,
        ) by {
            let i = choose|i: int| 0 <= i < out.len() && out[i] == x;
            if i < sorted.len() {
                assert(sorted[i] == x);
            }
        }
        assert forall|time: int| #[trigger]
            modified_at(out, time) == if mtime_of(record) == time {
                modified_at(sorted, time).push(record)
            } else {
                modified_at(sorted, time)
            } by {
            assert(out.drop_last() =~= sorted);
        }
    } else {
        let front = sorted.drop_last();
        let last = sorted.last();
        let inner = insert_by_mtime(front, record);
        lemma_insert_by_mtime(front, record);
        assert(out == inner.push(last));
        let at = choose|i: int| 0 <= i < inner.len() && inner[i] == record;
        assert(out[at] == record);
        assert forall|x: PathDataView| sorted.contains(x) implies out.contains(x) by {
            let i = choose|i: int| 0 <= i < sorted.len() && sorted[i] == x;
            if i < front.len() {
                assert(front[i] == x);
                assert(front.contains(x));
                assert(inner.contains(x));
                let k = choose|k: int| 0 <= k < inner.len() && inner[k] == x;
                assert(out[k] == x);
            } else {
                assert(out[inner.len() as int] == x);
            }
        }
        assert forall|x: PathDataView| out.contains(x) implies x == record || sorted.contains(
            x,
        ) by {
            let i = choose|i: int| 0 <= i < out.len() && out[i] == x;
            if i < inner.len() {
                assert(inner[i] == x);
                assert(inner.contains(x));
                if x != record {
                    assert(front.contains(x));
                    let k = choose|k: int| 0 <= k < front.len() && front[k] == x;
                    assert(sorted[k] == x);
                }
            } else {
                assert(sorted[sorted.len() - 1] == x);
            }
        }
        if is_sorted_by_mtime(sorted) {
            assert(is_sorted_by_mtime(front)) by {
                assert forall|i: int, j: int| 0 <= i <= j < front.len() implies mtime_of(
                    #[trigger] front[i],
                ) <= mtime_of(#[trigger] front[j]) by {
                    assert(front[i] == sorted[i] && front[j] == sorted[j]);
                }
            }
            assert forall|i: int, j: int| 0 <= i <= j < out.len() implies mtime_of(
                #[trigger] out[i],
            ) <= mtime_of(#[trigger] out[j]) by {
                if j < inner.len() {
                    assert(out[i] == inner[i] && out[j] == inner[j]);
                } else if i < inner.len() {
                    assert(out[i] == inner[i]);
                    assert(inner.contains(inner[i]));
                    if inner[i] != record {
                        assert(front.contains(inner[i]));
                        let k = choose|k: int| 0 <= k < front.len() && front[k] == inner[i];
                        assert(sorted[k] == inner[i]);
                        assert(mtime_of(sorted[k]) <= mtime_of(sorted[sorted.len() - 1]));
                    }
                }
            }
        }
        assert forall|time: int| #[trigger]
            modified_at(out, time) == if mtime_of(record) == time {
                modified_at(sorted, time).push(record)
            } else {
                modified_at(sorted, time)
            } by {
            assert(out.drop_last() =~= inner);
            assert(out.last() == last);
            assert(modified_at(inner, time) == if mtime_of(record) == time {
                modified_at(front, time).push(record)
            } else {
                modified_at(front, time)
            });
            if mtime_of(record) == time {
                assert(modified_at(sorted, time) == modified_at(front, time));
            }
        }
    }
}

/// Sorting by modify time puts no record before an older one, and leaves the
/// records that were modified at one time as and where they stood among
/// themselves: what comes out is the one such arrangement of what went in.
pub proof fn lemma_sort_by_mtime(records: Seq<PathDataView>)
    ensures
        sort_by_mtime(records).len() == records.len(),
        is_sorted_by_mtime(sort_by_mtime(records)),
        forall|time: int| #[trigger]
            modified_at(sort_by_mtime(records), time) == modified_at(records, time),
        forall|x: PathDataView| #[trigger]
            sort_by_mtime(records).contains(x) ==> records.contains(x),
        forall|x: PathDataView| #[trigger]
            records.contains(x) ==> sort_by_mtime(records).contains(x),
    decreases records.len(),
{
    if records.len() > 0 {
        let front = records.drop_last();
        let sorted_front = sort_by_mtime(front);
        lemma_sort_by_mtime(front);
        lemma_insert_by_mtime(sorted_front, records.last());
        assert(records[records.len() - 1] == records.last());
        assert forall|x: PathDataView| #[trigger]
            sort_by_mtime(records).contains(x) implies records.contains(x) by {
            if x != records.last() {
                assert(sorted_front.contains(x));
                assert(front.contains(x));
                let i = choose|i: int| 0 <= i < front.len() && front[i] == x;
                assert(records[i] == x);
            }
        }
        assert forall|x: PathDataView| #[trigger]
            records.contains(x) implies sort_by_mtime(records).contains(x) by {
            let i = choose|i: int| 0 <= i < records.len() && records[i] == x;
            if i < front.len() {
                assert(front[i] == x);
                assert(front.contains(x));
                assert(sorted_front.contains(x));
            }
        }
    }
}

/// What is kept of a list without repeats is part of the list, and starts
/// where the list starts.
pub proof fn lemma_dedup_versions(
    records: Seq<PathDataView>,
    uniqueness: ListSnapsOfType,
    disk: &DiskView,
)
    ensures
        dedup_versions(records, uniqueness, disk).len() <= records.len(),
        records.len() > 0 ==> dedup_versions(records, uniqueness, disk).len() > 0,
        forall|x: PathDataView| #[trigger]
            dedup_versions(records, uniqueness, disk).contains(x) ==> records.contains(x),
        uniqueness == ListSnapsOfType::All ==> dedup_versions(records, uniqueness, disk)
            == records,
        records.len() > 0 && uniqueness != ListSnapsOfType::All ==> same_version(
            records.last(),
            dedup_versions(records, uniqueness, disk).last(),
            uniqueness,
            disk,
        ),
    decreases records.len(),
{
    if records.len() > 0 {
        let front = records.drop_last();
        let kept = dedup_versions(front, uniqueness, disk);
        let out = dedup_versions(records, uniqueness, disk);
        lemma_dedup_versions(front, uniqueness, disk);
        assert forall|x: PathDataView| out.contains(x) implies records.contains(x) by {
            let i = choose|i: int| 0 <= i < out.len() && out[i] == x;
            if i < kept.len() {
                assert(kept[i] == x);
                assert(kept.contains(x));
                let k = choose|k: int| 0 <= k < front.len() && front[k] == x;
                assert(records[k] == x);
            } else {
                assert(records[records.len() - 1] == x);
            }
        }
        if uniqueness == ListSnapsOfType::All {
            assert(front.push(records.last()) =~= records);
        }
    }
}

/// Listing only versions of distinct metadata lists no more than listing all,
/// and listing only versions of distinct contents lists no more than that,
/// as long as versions of one size and modify time hold the same contents.
pub proof fn lemma_uniqueness_lists_fewer(records: Seq<PathDataView>, disk: &DiskView)
    requires
        forall|i: int, j: int|
            0 <= i < records.len() && 0 <= j < records.len() && (
            #[trigger] records[i]).metadata_infallible() == (
            #[trigger] records[j]).metadata_infallible() ==> disk.spec_contents_hash(
                records[i].path,
            ) == disk.spec_contents_hash(records[j].path),
    ensures
        sort_dedup(records, ListSnapsOfType::All, disk).len() == records.len(),
        sort_dedup(records, ListSnapsOfType::UniqueMetadata, disk).len() <= sort_dedup(
            records,
            ListSnapsOfType::All,
            disk,
        ).len(),
        sort_dedup(records, ListSnapsOfType::UniqueContents, disk).len() <= sort_dedup(
            records,
            ListSnapsOfType::UniqueMetadata,
            disk,
        ).len(),
{
    let sorted = sort_by_mtime(records);
    lemma_sort_by_mtime(records);
    lemma_dedup_versions(sorted, ListSnapsOfType::All, disk);
    lemma_dedup_versions(sorted, ListSnapsOfType::UniqueMetadata, disk);
    assert forall|a: PathDataView, b: PathDataView|
        sorted.contains(a) && sorted.contains(b) && a.metadata_infallible()
            == b.metadata_infallible() implies disk.spec_contents_hash(a.path)
        == disk.spec_contents_hash(b.path) by {
        assert(records.contains(a) && records.contains(b));
        let i = choose|i: int| 0 <= i < records.len() && records[i] == a;
        let j = choose|j: int| 0 <= j < records.len() && records[j] == b;
        assert(records[i].metadata_infallible() == records[j].metadata_infallible());
    }
    lemma_contents_lists_fewer(sorted, disk);
}

proof fn lemma_contents_lists_fewer(records: Seq<PathDataView>, disk: &DiskView)
    requires
        forall|a: PathDataView, b: PathDataView|
            records.contains(a) && records.contains(b) && a.metadata_infallible()
                == b.metadata_infallible() ==> disk.spec_contents_hash(a.path)
                == disk.spec_contents_hash(b.path),
    ensures
        dedup_versions(records, ListSnapsOfType::UniqueContents, disk).len() <= dedup_versions(
            records,
            ListSnapsOfType::UniqueMetadata,
            disk,
        ).len(),
        records.len() > 0 ==> disk.spec_contents_hash(
            dedup_versions(records, ListSnapsOfType::UniqueContents, disk).last().path,
        ) == disk.spec_contents_hash(
            dedup_versions(records, ListSnapsOfType::UniqueMetadata, disk).last().path,
        ),
    decreases records.len(),
{
    if records.len() > 0 {
        let front = records.drop_last();
        let last = records.last();
        assert(records[records.len() - 1] == last);
        assert forall|a: PathDataView| front.contains(a) implies records.contains(a) by {
            let i = choose|i: int| 0 <= i < front.len() && front[i] == a;
            assert(records[i] == a);
        }
        lemma_contents_lists_fewer(front, disk);
        lemma_dedup_versions(front, ListSnapsOfType::UniqueMetadata, disk);
        lemma_dedup_versions(front, ListSnapsOfType::UniqueContents, disk);
        lemma_dedup_versions(records, ListSnapsOfType::UniqueMetadata, disk);
        lemma_dedup_versions(records, ListSnapsOfType::UniqueContents, disk);
        let by_metadata = dedup_versions(front, ListSnapsOfType::UniqueMetadata, disk);
        let by_contents = dedup_versions(front, ListSnapsOfType::UniqueContents, disk);
        if front.len() > 0 {
            assert(by_metadata.contains(by_metadata.last())) by {
                assert(by_metadata[by_metadata.len() - 1] == by_metadata.last());
            }
            assert(records.contains(by_metadata.last()));
            let kept = dedup_versions(records, ListSnapsOfType::UniqueMetadata, disk);
            assert(kept.contains(kept.last())) by {
                assert(kept[kept.len() - 1] == kept.last());
            }
        }
    }
}

/// Of versions listed by distinct metadata, no two neighbours have the same
/// metadata.
pub proof fn lemma_unique_metadata_neighbours_differ(records: Seq<PathDataView>, disk: &DiskView)
    ensures
        forall|i: int|
            0 <= i < dedup_versions(records, ListSnapsOfType::UniqueMetadata, disk).len() - 1
                ==> (#[trigger] dedup_versions(
                records,
                ListSnapsOfType::UniqueMetadata,
                disk,
            )[i]).metadata_infallible() != dedup_versions(
                records,
                ListSnapsOfType::UniqueMetadata,
                disk,
            )[i + 1].metadata_infallible(),
    decreases records.len(),
{
    if records.len() > 0 {
        let front = records.drop_last();
        let kept = dedup_versions(front, ListSnapsOfType::UniqueMetadata, disk);
        let out = dedup_versions(records, ListSnapsOfType::UniqueMetadata, disk);
        lemma_unique_metadata_neighbours_differ(front, disk);
        assert forall|i: int| 0 <= i < out.len() - 1 implies (
        #[trigger] out[i]).metadata_infallible() != out[i + 1].metadata_infallible() by {
            if i < kept.len() - 1 {
                assert(out[i] == kept[i] && out[i + 1] == kept[i + 1]);
            } else {
                assert(out[i] == kept.last());
                assert(out[i + 1] == records.last());
            }
        }
    }
}

/// Whether `part` is what is left of `whole` after some of its records are
/// taken out, the rest staying in order.
pub open spec fn is_left_of(part: Seq<PathDataView>, whole: Seq<PathDataView>) -> bool
    decreases whole.len(),
{
    if part.len() == 0 {
        true
    } else if whole.len() == 0 {
        false
    } else {
        (part.last() == whole.last() && is_left_of(part.drop_last(), whole.drop_last()))
            || is_left_of(part, whole.drop_last())
    }
}

/// Leaving out repeats changes nothing else: what is kept is the sorted
/// list with some records taken out, the rest in the order they stood in.
pub proof fn lemma_dedup_keeps_order(
    records: Seq<PathDataView>,
    uniqueness: ListSnapsOfType,
    disk: &DiskView,
)
    ensures
        is_left_of(dedup_versions(records, uniqueness, disk), records),
    decreases records.len(),
{
    if records.len() > 0 {
        let front = records.drop_last();
        let kept = dedup_versions(front, uniqueness, disk);
        lemma_dedup_keeps_order(front, uniqueness, disk);
        let out = dedup_versions(records, uniqueness, disk);
        if out != kept {
            assert(out.drop_last() =~= kept);
        }
    }
}

} // verus!
