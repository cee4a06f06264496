//! The engine of a file-version explorer for snapshotting filesystems: it
//! takes paths apart against an inventory of dataset mounts, finds the
//! versions of a path that the snapshots of its dataset hold, finds entries
//! that only snapshots still hold, and steers the walk of a live tree.
//!
//! The library reads no disk. Callers stat and list what it names and hand
//! back what they found as plain values.

use vstd::prelude::*;

pub mod path;
pub mod library;
pub mod filesystem;
pub mod config;
pub mod data;
pub mod lookup;
pub mod deleted;
pub mod exec;
pub mod display_other;
pub mod interactive;

verus! {

/// `.zfs`: the hidden directory at the root of a ZFS dataset.
pub open spec fn zfs_hidden_directory() -> Seq<u8> {
    seq![46u8, 122u8, 102u8, 115u8]
}

/// `.zfs/snapshot`: where a ZFS dataset shows its snapshots.
pub open spec fn zfs_snapshot_directory() -> Seq<u8> {
    seq![46u8, 122u8, 102u8, 115u8, 47u8, 115u8, 110u8, 97u8, 112u8, 115u8, 104u8, 111u8, 116u8]
}

/// `/.zfs/snapshot/`: what marks a path as one inside a ZFS snapshot.
pub open spec fn zfs_snapshot_marker() -> Seq<u8> {
    seq![47u8] + zfs_snapshot_directory() + seq![47u8]
}

/// `.snapshots`: the hidden directory of Snapper.
pub open spec fn btrfs_snapper_hidden_directory() -> Seq<u8> {
    seq![46u8, 115u8, 110u8, 97u8, 112u8, 115u8, 104u8, 111u8, 116u8, 115u8]
}

/// `snapshot`: the directory that Snapper puts between a snapshot's mount
/// and the files it holds.
pub open spec fn btrfs_snapper_additional_sub_directory() -> Seq<u8> {
    seq![115u8, 110u8, 97u8, 112u8, 115u8, 104u8, 111u8, 116u8]
}

/// `.zfs` as bytes.
pub fn zfs_hidden_directory_bytes() -> (r: Vec<u8>)
    ensures
        r@ == zfs_hidden_directory(),
{
    let r: Vec<u8> = vec![46u8, 122u8, 102u8, 115u8];
    assert(r@ =~= zfs_hidden_directory());
    r
}

/// `.zfs/snapshot` as bytes.
pub fn zfs_snapshot_directory_bytes() -> (r: Vec<u8>)
    ensures
        r@ == zfs_snapshot_directory(),
{
    let r: Vec<u8> = vec![
        46u8,
        122u8,
        102u8,
        115u8,
        47u8,
        115u8,
        110u8,
        97u8,
        112u8,
        115u8,
        104u8,
        111u8,
        116u8,
    ];
    assert(r@ =~= zfs_snapshot_directory());
    r
}

/// `/.zfs/snapshot/` as bytes.
pub fn zfs_snapshot_marker_bytes() -> (r: Vec<u8>)
    ensures
        r@ == zfs_snapshot_marker(),
{
    let mut r: Vec<u8> = vec![47u8];
    let dir = zfs_snapshot_directory_bytes();
    crate::path::append_bytes(&mut r, &dir);
    r.push(47u8);
    assert(r@ =~= zfs_snapshot_marker());
    r
}

/// `.snapshots` as bytes.
pub fn btrfs_snapper_hidden_directory_bytes() -> (r: Vec<u8>)
    ensures
        r@ == btrfs_snapper_hidden_directory(),
{
    let r: Vec<u8> = vec![46u8, 115u8, 110u8, 97u8, 112u8, 115u8, 104u8, 111u8, 116u8, 115u8];
    assert(r@ =~= btrfs_snapper_hidden_directory());
    r
}

/// `snapshot` as bytes.
pub fn btrfs_snapper_additional_sub_directory_bytes() -> (r: Vec<u8>)
    ensures
        r@ == btrfs_snapper_additional_sub_directory(),
{
    let r: Vec<u8> = vec![115u8, 110u8, 97u8, 112u8, 115u8, 104u8, 111u8, 116u8];
    assert(r@ =~= btrfs_snapper_additional_sub_directory());
    r
}

} // verus!
