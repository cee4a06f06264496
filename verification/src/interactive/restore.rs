//! Where a version that is restored is put.

use crate::config::{Config, ExecMode, InteractiveMode, RestoreMode};
use crate::data::disk::{DiskView, Probe};
use crate::data::paths::PathData;
use crate::interactive::select::{live_version_of, InteractiveSelect};
use crate::library::results::{HttmError, HttmErrorView, HttmResult, IoErrorKind};
use crate::library::utility::{
    date_with_zone, formatted_date, get_date, option_bytes, DateFormat,
};
use crate::path::{append_bytes, bytes_eq, file_name, file_name_of, join, join_paths, slice_bytes};
use vstd::prelude::*;

verus! {

/// `.httm_restored.`: what stands between the name of a version and the
/// date it was modified in the name of a restored file.
pub open spec fn restored_infix() -> Seq<u8> {
    seq![
        46u8,
        104u8,
        116u8,
        116u8,
        109u8,
        95u8,
        114u8,
        101u8,
        115u8,
        116u8,
        111u8,
        114u8,
        101u8,
        100u8,
        46u8,
    ]
}

/// `name` without the dot it starts with, if it starts with one.
pub open spec fn without_leading_dot(name: Seq<u8>) -> Seq<u8> {
    if name.len() > 0 && name[0] == 46u8 {
        name.subrange(1, name.len() as int)
    } else {
        name
    }
}

/// The path that a version named `snap_filename` is restored to beside the
/// live files: in the directory `pwd`, under its name without a leading dot,
/// marked as restored, with the date `timestamp`.
pub open spec fn restored_path(pwd: Seq<u8>, snap_filename: Seq<u8>, timestamp: Seq<u8>) -> Seq<u8> {
    join(pwd, without_leading_dot(snap_filename) + restored_infix() + timestamp)
}

/// Whether a restore keeps the attributes of the version: it does where the
/// request asks for it, and always where the live file is overwritten.
pub open spec fn preserves_attributes(exec_mode: ExecMode) -> bool {
    exec_mode matches ExecMode::Interactive(InteractiveMode::Restore(mode)) && (mode
        == RestoreMode::CopyAndPreserve || mode is Overwrite)
}

/// Whether a restore overwrites the live file.
pub open spec fn overwrites(exec_mode: ExecMode) -> bool {
    exec_mode matches ExecMode::Interactive(InteractiveMode::Restore(mode)) && mode is Overwrite
}

/// The version that is restored, and what is known of where it came from.
#[derive(Debug)]
pub struct InteractiveRestore {
    pub select_result: InteractiveSelect,
}

/// The name of the file that a version named `snap_filename` is restored
/// to in the directory `pwd`.
pub fn restored_file_path(pwd: &Vec<u8>, snap_filename: &Vec<u8>, timestamp: &Vec<u8>) -> (r: Vec<
    u8,
>)
    ensures
        r@ == restored_path(pwd@, snap_filename@, timestamp@),
{
    // a restored file is not to be hidden
    let mut new_filename = if snap_filename.len() > 0 && snap_filename[0] == 46u8 {
        slice_bytes(snap_filename, 1, snap_filename.len())
    } else {
        snap_filename.clone()
    };
    let infix: Vec<u8> = vec![
        46u8,
        104u8,
        116u8,
        116u8,
        109u8,
        95u8,
        114u8,
        101u8,
        115u8,
        116u8,
        111u8,
        114u8,
        101u8,
        100u8,
        46u8,
    ];
    assert(infix@ =~= restored_infix());
    append_bytes(&mut new_filename, &infix);
    append_bytes(&mut new_filename, timestamp);
    join_paths(pwd, &new_filename)
}

/// Where the version `snap` is restored to beside the live files, given the
/// date `timestamp` that its modify time is written as, if it can be
/// written. Fails where the path of the version has no name, where nothing
/// is on disk at the version, where the date cannot be written, and where
/// something is on disk already at the path that the copy would get.
pub open spec fn new_restore_path(
    snap: crate::data::paths::PathDataView,
    timestamp: Option<Seq<u8>>,
    config: &Config,
    disk: &DiskView,
) -> Result<Seq<u8>, HttmErrorView> {
    match (file_name(snap.path), snap.metadata, timestamp) {
        (Some(snap_filename), Some(_), Some(date)) => {
            let new_path = restored_path(config.pwd@, snap_filename, date);
            if disk.spec_stat(new_path) is Found {
                Err(HttmErrorView::BadInput(new_path))
            } else {
                Ok(new_path)
            }
        },
        (Some(_), None, _) => Err(HttmErrorView::IoError(IoErrorKind::NotFound, snap.path)),
        _ => Err(HttmErrorView::BadInput(snap.path)),
    }
}

/// Decides where the version `snap_pathdata` is restored to beside the live
/// files, given the date that its modify time is written as.
pub fn new_file_path_beside(
    config: &Config,
    snap_pathdata: &PathData,
    timestamp: Option<Vec<u8>>,
    disk: &DiskView,
) -> (r: HttmResult<Vec<u8>>)
    ensures
        match r {
            Ok(path) => new_restore_path(snap_pathdata@, option_bytes(timestamp), config, disk)
                == Ok::<Seq<u8>, HttmErrorView>(path@),
            Err(e) => new_restore_path(snap_pathdata@, option_bytes(timestamp), config, disk)
                == Err::<Seq<u8>, HttmErrorView>(e@),
        },
{
    let snap_filename = match file_name_of(&snap_pathdata.path_buf) {
        Some(name) => name,
        None => {
            return Err(HttmError::BadInput(snap_pathdata.path_buf.clone()));
        },
    };
    if snap_pathdata.metadata.is_none() {
        return Err(HttmError::IoError(IoErrorKind::NotFound, snap_pathdata.path_buf.clone()));
    }
    let date = match timestamp {
        Some(date) => date,
        None => {
            return Err(HttmError::BadInput(snap_pathdata.path_buf.clone()));
        },
    };
    let new_file_path_buf = restored_file_path(&config.pwd, &snap_filename, &date);
    // one restore is not written over another
    if let Probe::Found(_) = disk.stat(&new_file_path_buf) {
        Err(HttmError::BadInput(new_file_path_buf))
    } else {
        Ok(new_file_path_buf)
    }
}

/// A place to restore to, unless it is the very path of the version: a
/// file is not restored onto itself.
pub open spec fn not_onto_itself(
    target: Result<Seq<u8>, HttmErrorView>,
    snap_path: Seq<u8>,
) -> Result<Seq<u8>, HttmErrorView> {
    match target {
        Ok(path) => if path == snap_path {
            Err(HttmErrorView::BadInput(path))
        } else {
            Ok(path)
        },
        Err(e) => Err(e),
    }
}

/// Where the version `snap` is restored to over the live file: the live
/// path it is a version of. Fails where that path cannot be told.
pub open spec fn overwrite_path(
    opt_live_version: Option<Seq<u8>>,
    snap: crate::data::paths::PathDataView,
) -> Result<Seq<u8>, HttmErrorView> {
    match live_version_of(opt_live_version, snap.path) {
        Some(live) => Ok(live),
        None => Err(HttmErrorView::BadInput(snap.path)),
    }
}

/// The date that the modify time of `snap` is written as in the name of a
/// restored file, where it can be written.
pub open spec fn restore_timestamp(
    snap: crate::data::paths::PathDataView,
    config: &Config,
) -> Option<Seq<u8>> {
    match formatted_date(
        snap.metadata_infallible().modify_time as int,
        config.requested_utc_offset as int,
        "[year]-[month]-[day]-[hour]:[minute]:[second]"@,
    ) {
        Some(raw) => Some(date_with_zone(raw, config.requested_utc_offset, DateFormat::Timestamp)),
        None => None,
    }
}

/// Refuses a place to restore to that is the very path of the version.
pub fn refuse_same_file(target: HttmResult<Vec<u8>>, snap_path: &Vec<u8>) -> (r: HttmResult<
    Vec<u8>,
>)
    ensures
        match r {
            Ok(path) => not_onto_itself(result_view(target), snap_path@) == Ok::<
                Seq<u8>,
                HttmErrorView,
            >(path@),
            Err(e) => not_onto_itself(result_view(target), snap_path@) == Err::<
                Seq<u8>,
                HttmErrorView,
            >(e@),
        },
{
    match target {
        Ok(path) => {
            if bytes_eq(&path, snap_path) {
                Err(HttmError::BadInput(path))
            } else {
                Ok(path)
            }
        },
        Err(e) => Err(e),
    }
}

/// A path or a failure, as a value.
pub open spec fn result_view(result: HttmResult<Vec<u8>>) -> Result<Seq<u8>, HttmErrorView> {
    match result {
        Ok(path) => Ok(path@),
        Err(e) => Err(e@),
    }
}

impl InteractiveRestore {
    /// Whether the restore keeps the attributes of the version.
    pub fn should_preserve_attributes(config: &Config) -> (r: bool)
        ensures
            r == preserves_attributes(config.exec_mode),
    {
        match config.exec_mode {
            ExecMode::Interactive(InteractiveMode::Restore(RestoreMode::CopyAndPreserve)) => true,
            ExecMode::Interactive(InteractiveMode::Restore(RestoreMode::Overwrite(_))) => true,
            _ => false,
        }
    }

    /// Decides where the version `snap_pathdata` is restored to: over the
    /// live file where the request asks for that, else beside the live files
    /// in the directory the program was started in, under a name that tells
    /// the version's modify time. No version is restored onto itself.
    pub fn build_new_file_path(
        &self,
        config: &Config,
        snap_pathdata: &PathData,
        disk: &DiskView,
    ) -> (r: HttmResult<Vec<u8>>)
        ensures
            result_view(r) == not_onto_itself(
                if overwrites(config.exec_mode) {
                    overwrite_path(option_bytes(self.select_result.opt_live_version), snap_pathdata@)
                } else {
                    new_restore_path(
                        snap_pathdata@,
                        restore_timestamp(snap_pathdata@, config),
                        config,
                        disk,
                    )
                },
                snap_pathdata@.path,
            ),
    {
        let overwrite = match config.exec_mode {
            ExecMode::Interactive(InteractiveMode::Restore(RestoreMode::Overwrite(_))) => true,
            _ => false,
        };
        let target = if overwrite {
            // the version goes where the live file is, not into the working directory
            self.select_result.opt_live_version(snap_pathdata)
        } else {
            let timestamp = get_date(
                config.requested_utc_offset,
                snap_pathdata.metadata_infallible().modify_time,
                DateFormat::Timestamp,
            );
            new_file_path_beside(config, snap_pathdata, timestamp, disk)
        };
        refuse_same_file(target, &snap_pathdata.path_buf)
    }
}

} // verus!
