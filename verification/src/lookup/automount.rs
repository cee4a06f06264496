//! Priming of network datasets: some network filesystems show the snapshots
//! of a dataset only after their directories have been opened once. The
//! library remembers which datasets were primed and names the directories
//! to open; the caller opens them.

use crate::filesystem::mounts::{DatasetCollection, LinkType};
use crate::lookup::versions::RelativePathAndSnapMounts;
use crate::path::path_list;
use vstd::prelude::*;

verus! {

/// The dataset mounts whose snapshots were primed already, in a
/// `hashbrown::HashSet`.
#[verifier::external_body]
pub struct AutoMounted {
    inner: hashbrown::HashSet<Vec<u8>>,
}

/// The dataset mounts that the set holds.
pub uninterp spec fn auto_mounted(cache: AutoMounted) -> Set<Seq<u8>>;

/// `hashbrown::HashSet::new`: a set that holds nothing.
#[verifier::external_body]
fn auto_mounted_new() -> (r: AutoMounted)
    ensures
        auto_mounted(r) == Set::<Seq<u8>>::empty(),
{
    AutoMounted { inner: hashbrown::HashSet::new() }
}

/// `hashbrown::HashSet::get`: finds the value of the set that equals
/// `dataset`, which there is exactly where the set holds `dataset`.
#[verifier::external_body]
fn auto_mounted_holds(cache: &AutoMounted, dataset: &Vec<u8>) -> (r: bool)
    ensures
        r == auto_mounted(*cache).contains(dataset@),
{
    cache.inner.get(dataset).is_some()
}

/// `hashbrown::HashSet::insert_unique_unchecked`: puts into the set a value
/// that the set does not hold yet. On a value that the set holds already
/// the outside function promises nothing, so such a call is ruled out.
#[verifier::external_body]
fn auto_mounted_insert_unique(cache: &mut AutoMounted, dataset: Vec<u8>)
    requires
        !auto_mounted(*old(cache)).contains(dataset@),
    ensures
        auto_mounted(*final(cache)) == auto_mounted(*old(cache)).insert(dataset@),
{
    cache.inner.insert_unique_unchecked(dataset);
}

/// Whether the snapshots of `dataset` are still to be primed: the inventory
/// knows the dataset as one reached over a network, and it was not primed
/// before.
pub open spec fn needs_priming(
    dataset: Seq<u8>,
    datasets: &DatasetCollection,
    primed: Set<Seq<u8>>,
) -> bool {
    datasets.map_of_datasets@.dom().contains(dataset)
        && datasets.map_of_datasets@[dataset].link_type == LinkType::Network && !primed.contains(
        dataset,
    )
}

/// The directories to open for `dataset`: the mounts of its snapshots.
pub open spec fn priming_targets(dataset: Seq<u8>, datasets: &DatasetCollection) -> Seq<Seq<u8>> {
    if datasets.map_of_snaps@.dom().contains(dataset) {
        path_list(datasets.map_of_snaps@[dataset]@)
    } else {
        Seq::empty()
    }
}

impl AutoMounted {
    /// A memory of primed datasets that holds none yet.
    pub fn new() -> (r: Self)
        ensures
            auto_mounted(r) == Set::<Seq<u8>>::empty(),
    {
        auto_mounted_new()
    }

    /// Whether the snapshots of `dataset` were primed already.
    pub fn holds(&self, dataset: &Vec<u8>) -> (r: bool)
        ensures
            r == auto_mounted(*self).contains(dataset@),
    {
        auto_mounted_holds(self, dataset)
    }
}

impl<'a> RelativePathAndSnapMounts<'a> {
    /// Names the snapshot mounts that the caller is to open before it looks
    /// for versions, and remembers the dataset as primed. A local dataset, a
    /// dataset that the inventory does not know and a dataset that was primed
    /// before need no priming: nothing is named and nothing remembered.
    pub fn auto_mount_network_volumes(
        &self,
        datasets: &DatasetCollection,
        cache: &mut AutoMounted,
    ) -> (r: Vec<Vec<u8>>)
        ensures
            needs_priming(self@.dataset_of_interest, datasets, auto_mounted(*old(cache))) ==> {
                &&& auto_mounted(*final(cache)) == auto_mounted(*old(cache)).insert(
                    self@.dataset_of_interest,
                )
                &&& path_list(r@) == priming_targets(self@.dataset_of_interest, datasets)
            },
            !needs_priming(self@.dataset_of_interest, datasets, auto_mounted(*old(cache))) ==> {
                &&& auto_mounted(*final(cache)) == auto_mounted(*old(cache))
                &&& r@.len() == 0
            },
    {
        let is_local = match datasets.map_of_datasets.get(&self.dataset_of_interest) {
            Some(md) => match md.link_type {
                LinkType::Local => true,
                LinkType::Network => false,
            },
            None => true,
        };
        let mut targets: Vec<Vec<u8>> = Vec::new();
        if is_local || auto_mounted_holds(cache, &self.dataset_of_interest) {
            return targets;
        }
        auto_mounted_insert_unique(cache, self.dataset_of_interest.clone());
        if let Some(snap_mounts) = datasets.map_of_snaps.get(&self.dataset_of_interest) {
            let mut i: usize = 0;
            assert(path_list(targets@) =~= path_list(snap_mounts@).subrange(0, 0));
            while i < snap_mounts.len()
                invariant
                    i <= snap_mounts.len(),
                    path_list(targets@) == path_list(snap_mounts@).subrange(0, i as int),
                decreases snap_mounts.len() - i,
            {
                let ghost before = path_list(targets@);
                let mount = snap_mounts[i].clone();
                targets.push(mount);
                assert(path_list(targets@) =~= before.push(mount@));
                assert(path_list(snap_mounts@).subrange(0, i + 1) =~= before.push(mount@));
                i += 1;
            }
            assert(path_list(snap_mounts@).subrange(0, snap_mounts.len() as int) =~= path_list(
                snap_mounts@,
            ));
        } else {
            assert(path_list(targets@) =~= Seq::<Seq<u8>>::empty());
        }
        targets
    }
}

} // verus!
