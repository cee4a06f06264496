//! Small decisions that the rest of the library and its callers share.

use crate::config::{Config, PrintMode};
use crate::data::disk::{DiskView, Probe};
use crate::data::paths::{BasicDirEntryInfo, FileType};
use crate::filesystem::mounts::{FilesystemType, FilesystemTypeView};
use crate::library::results::{HttmError, HttmErrorView, IoErrorKind};
use crate::path::{
    append_bytes, bytes_eq, is_ancestor, join, join_paths, lemma_is_ancestor,
    lemma_parent_shorter, parent_of,
};
use crate::{
    btrfs_snapper_hidden_directory, btrfs_snapper_hidden_directory_bytes, zfs_snapshot_directory,
    zfs_snapshot_directory_bytes,
};
use vstd::prelude::*;

verus! {

/// What separates the records of raw output: a zero byte where the request
/// asks for it, else a newline.
pub fn get_delimiter(config: &Config) -> (r: char)
    ensures
        r == if config.print_mode == PrintMode::RawZero {
            '\0'
        } else {
            '\n'
        },
{
    match config.print_mode {
        PrintMode::RawZero => '\0',
        _ => '\n',
    }
}

/// `.tmp`: what is appended to a path to name a file in the making.
pub open spec fn tmp_suffix() -> Seq<u8> {
    seq![46u8, 116u8, 109u8, 112u8]
}

/// The path of the file that a copy is first written to.
pub fn make_tmp_path(path: &Vec<u8>) -> (r: Vec<u8>)
    ensures
        r@ == path@ + tmp_suffix(),
{
    let mut res = path.clone();
    let suffix: Vec<u8> = vec![46u8, 116u8, 109u8, 112u8];
    assert(suffix@ =~= tmp_suffix());
    append_bytes(&mut res, &suffix);
    res
}

/// The failure that a copy to `dst` ends with when the operating system
/// fails it: the kind of the failure, and the path that could not be
/// written.
pub fn map_io_err(kind: IoErrorKind, dst: &Vec<u8>) -> (r: HttmError)
    ensures
        r@ == HttmErrorView::IoError(kind, dst@),
{
    match kind {
        IoErrorKind::PermissionDenied => HttmError::IoError(
            IoErrorKind::PermissionDenied,
            dst.clone(),
        ),
        _ => HttmError::IoError(kind, dst.clone()),
    }
}

/// Tests whether `above` is `p` or one of the paths above it.
pub fn is_ancestor_of(above: &Vec<u8>, p: &Vec<u8>) -> (r: bool)
    ensures
        r == is_ancestor(above@, p@),
{
    let mut current: Vec<u8> = p.clone();
    loop
        invariant
            is_ancestor(above@, current@) == is_ancestor(above@, p@),
        decreases current.len(),
    {
        proof {
            lemma_is_ancestor(above@, current@);
            lemma_parent_shorter(current@);
        }
        if bytes_eq(above, &current) {
            return true;
        }
        match parent_of(&current) {
            Some(up) => {
                current = up;
            },
            None => {
                return false;
            },
        }
    }
}

/// What can be asked whether it counts as a directory.
pub trait HttmIsDir {
    /// The kind of the entry, where it is known.
    spec fn filetype_view(&self) -> Option<FileType>;

    /// The path of the entry.
    spec fn path_view(&self) -> Seq<u8>;

    fn get_filetype(&self) -> (r: Option<FileType>)
        ensures
            r == self.filetype_view(),
    ;

    fn get_path(&self) -> (r: Vec<u8>)
        ensures
            r@ == self.path_view(),
    ;
}

impl HttmIsDir for BasicDirEntryInfo {
    open spec fn filetype_view(&self) -> Option<FileType> {
        self@.opt_filetype
    }

    open spec fn path_view(&self) -> Seq<u8> {
        self@.path
    }

    fn get_filetype(&self) -> (r: Option<FileType>) {
        self.opt_filetype
    }

    fn get_path(&self) -> (r: Vec<u8>) {
        self.path.clone()
    }
}

/// Whether an entry of kind `opt_filetype` at `path` counts as a directory: a
/// directory does, and so does a link to a directory, unless the link leads
/// to the entry itself or to a directory above it. Where the target of a
/// link is not known, the link does not count.
pub open spec fn counts_as_dir(
    opt_filetype: Option<FileType>,
    path: Seq<u8>,
    disk: &DiskView,
) -> bool {
    match opt_filetype {
        Some(FileType::Dir) => true,
        Some(FileType::Symlink) => disk.link_targets@.dom().contains(path) && {
            let target = disk.link_targets@[path];
            target.is_dir && !is_ancestor(target.path@, path)
        },
        _ => false,
    }
}

/// Tests whether `entry` counts as a directory when a tree is walked.
pub fn httm_is_dir<T: HttmIsDir>(entry: &T, disk: &DiskView) -> (r: bool)
    ensures
        r == counts_as_dir(entry.filetype_view(), entry.path_view(), disk),
{
    let path = entry.get_path();
    match entry.get_filetype() {
        Some(FileType::Dir) => true,
        Some(FileType::File) => false,
        Some(FileType::Symlink) => {
            // the caller has resolved the link for us
            match disk.link_targets.get(&path) {
                Some(link_target) => {
                    if !link_target.is_dir {
                        false
                    } else {
                        !is_ancestor_of(&link_target.path, &path)
                    }
                },
                None => false,
            }
        },
        // devices and the like are no directories
        _ => false,
    }
}

/// The snapshotting scheme of the dataset at `dataset_mount`, as its hidden
/// directory tells: ZFS where the mount holds `.zfs/snapshot`, Snapper where
/// it holds `.snapshots`.
pub open spec fn fs_type_from_hidden_dir(dataset_mount: Seq<u8>, disk: &DiskView) -> Option<
    FilesystemTypeView,
> {
    if disk.spec_stat(join(dataset_mount, zfs_snapshot_directory())) is Found {
        Some(FilesystemTypeView::Zfs)
    } else if disk.spec_stat(join(dataset_mount, btrfs_snapper_hidden_directory())) is Found {
        Some(FilesystemTypeView::BtrfsSnapper)
    } else {
        None
    }
}

/// Tells the snapshotting scheme of a dataset from its hidden directory.
pub fn get_fs_type_from_hidden_dir(dataset_mount: &Vec<u8>, disk: &DiskView) -> (r: Option<
    FilesystemType,
>)
    ensures
        match r {
            Some(fs_type) => fs_type_from_hidden_dir(dataset_mount@, disk) == Some(fs_type@),
            None => fs_type_from_hidden_dir(dataset_mount@, disk) is None,
        },
{
    let zfs = join_paths(dataset_mount, &zfs_snapshot_directory_bytes());
    if let Probe::Found(_) = disk.stat(&zfs) {
        return Some(FilesystemType::Zfs);
    }
    let snapper = join_paths(dataset_mount, &btrfs_snapper_hidden_directory_bytes());
    if let Probe::Found(_) = disk.stat(&snapper) {
        return Some(FilesystemType::BtrfsSnapper);
    }
    None
}

/// How a date is written: for reading, or as part of a file name.
#[derive(Debug, Clone, Copy, PartialEq, Eq, Structural)]
pub enum DateFormat {
    Display,
    Timestamp,
}

/// The description of the format, in the notation of the `time` crate.
pub fn get_date_format(format: &DateFormat) -> (r: &'static str)
    ensures
        r@ == match format {
            DateFormat::Display => "[weekday repr:short] [month repr:short] [day] [hour]:[minute]:[second] [year]"@,
            DateFormat::Timestamp => "[year]-[month]-[day]-[hour]:[minute]:[second]"@,
        },
{
    match format {
        DateFormat::Display => "[weekday repr:short] [month repr:short] [day] [hour]:[minute]:[second] [year]",
        DateFormat::Timestamp => "[year]-[month]-[day]-[hour]:[minute]:[second]",
    }
}

/// The text that the `time` crate writes for the moment `unix_nanos`
/// nanoseconds after the epoch, seen at `offset_seconds` east of UTC, in the
/// format that `description` describes; nothing where the crate takes the
/// description, the offset or the moment for invalid.
pub uninterp spec fn formatted_date(
    unix_nanos: int,
    offset_seconds: int,
    description: Seq<char>,
) -> Option<Seq<u8>>;

/// `time::OffsetDateTime::format`, on the date and time that
/// `OffsetDateTime::from_unix_timestamp_nanos` and `checked_to_offset` make
/// of the two integers, with the items that `format_description::parse`
/// makes of `description`. The result is the text as bytes; a failure of
/// any of the calls gives nothing.
#[verifier::external_body]
fn format_date(unix_nanos: i128, offset_seconds: i32, description: &str) -> (r: Option<Vec<u8>>)
    ensures
        option_bytes(r) == formatted_date(unix_nanos as int, offset_seconds as int, description@),
{
    let items = time::format_description::parse(description).ok()?;
    let offset = time::UtcOffset::from_whole_seconds(offset_seconds).ok()?;
    let date_time = time::OffsetDateTime::from_unix_timestamp_nanos(unix_nanos).ok()?;
    let text = date_time.checked_to_offset(offset)?.format(&items).ok()?;
    Some(text.into_bytes())
}

/// Bytes that may be missing, as a value.
pub open spec fn option_bytes(bytes: Option<Vec<u8>>) -> Option<Seq<u8>> {
    match bytes {
        Some(b) => Some(b@),
        None => None,
    }
}

/// ` UTC`, and `_UTC` where the date is part of a file name.
pub open spec fn utc_suffix(date_format: DateFormat) -> Seq<u8> {
    match date_format {
        DateFormat::Timestamp => seq![95u8, 85u8, 84u8, 67u8],
        DateFormat::Display => seq![32u8, 85u8, 84u8, 67u8],
    }
}

/// A date as it is shown: the text of the date, marked as UTC where the
/// offset is none.
pub open spec fn date_with_zone(raw: Seq<u8>, utc_offset: i32, date_format: DateFormat) -> Seq<u8> {
    if utc_offset == 0 {
        raw + utc_suffix(date_format)
    } else {
        raw
    }
}

/// Marks the text of a date as UTC where the offset it was written for is
/// none.
pub fn mark_utc(raw: Vec<u8>, utc_offset: i32, date_format: DateFormat) -> (r: Vec<u8>)
    ensures
        r@ == date_with_zone(raw@, utc_offset, date_format),
{
    let mut marked = raw;
    if utc_offset == 0 {
        let suffix: Vec<u8> = match date_format {
            DateFormat::Timestamp => vec![95u8, 85u8, 84u8, 67u8],
            DateFormat::Display => vec![32u8, 85u8, 84u8, 67u8],
        };
        assert(suffix@ =~= utc_suffix(date_format));
        append_bytes(&mut marked, &suffix);
    }
    marked
}

/// The moment `system_time`, in nanoseconds since the epoch, written for the
/// offset `utc_offset`, in seconds east of UTC; nothing where the moment or
/// the offset is out of the range of dates that can be written.
pub fn get_date(utc_offset: i32, system_time: i128, date_format: DateFormat) -> (r: Option<
    Vec<u8>,
>)
    ensures
        option_bytes(r) == match formatted_date(
            system_time as int,
            utc_offset as int,
            match date_format {
                DateFormat::Display => "[weekday repr:short] [month repr:short] [day] [hour]:[minute]:[second] [year]"@,
                DateFormat::Timestamp => "[year]-[month]-[day]-[hour]:[minute]:[second]"@,
            },
        ) {
            Some(raw) => Some(date_with_zone(raw, utc_offset, date_format)),
            None => None,
        },
{
    match format_date(system_time, utc_offset, get_date_format(&date_format)) {
        Some(raw_string) => Some(mark_utc(raw_string, utc_offset, date_format)),
        None => None,
    }
}

} // verus!
