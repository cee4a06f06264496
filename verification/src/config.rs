//! What the caller asks for: the switches that the library's functions read.

use crate::filesystem::mounts::DatasetCollection;
use vstd::prelude::*;

verus! {

/// Which versions of a path count as distinct.
#[derive(Clone, Copy, Debug, PartialEq, Eq, Structural)]
pub enum ListSnapsOfType {
    All,
    UniqueMetadata,
    UniqueContents,
}

/// Which single version is asked for in place of the whole list.
#[derive(Clone, Copy, Debug, PartialEq, Eq, Structural)]
pub enum LastSnapMode {
    Any,
    DittoOnly,
    NoDittoExclusive,
    NoDittoInclusive,
    Without,
}

/// How far the search for deleted entries goes.
#[derive(Clone, Copy, Debug, PartialEq, Eq, Structural)]
pub enum DeletedMode {
    Disabled,
    DepthOfOne,
    Enabled,
    Only,
}

/// How results are written out.
#[derive(Clone, Copy, Debug, PartialEq, Eq, Structural)]
pub enum PrintMode {
    FormattedDefault,
    FormattedNotPretty,
    RawNewline,
    RawZero,
}

/// Whether a restore in place is preceded by a snapshot of the target.
#[derive(Clone, Copy, Debug, PartialEq, Eq, Structural)]
pub enum RestoreSnapGuard {
    Guarded,
    NotGuarded,
}

/// Where a restored version is put, and with which attributes.
#[derive(Clone, Copy, Debug, PartialEq, Eq, Structural)]
pub enum RestoreMode {
    CopyOnly,
    CopyAndPreserve,
    Overwrite(RestoreSnapGuard),
}

/// What a selection prints.
#[derive(Clone, Copy, Debug, PartialEq, Eq, Structural)]
pub enum SelectMode {
    Path,
    Contents,
    Preview,
}

/// How far an interactive session goes.
#[derive(Clone, Copy, Debug, PartialEq, Eq, Structural)]
pub enum InteractiveMode {
    Browse,
    Select(SelectMode),
    Restore(RestoreMode),
}

/// What the program was started to do.
#[derive(Clone, Copy, Debug, PartialEq, Eq, Structural)]
pub enum ExecMode {
    Interactive(InteractiveMode),
    NonInteractiveRecursive,
    Display,
}

/// The request and the inventory it is answered from.
pub struct Config {
    pub opt_recursive: bool,
    pub opt_no_filter: bool,
    pub opt_no_traverse: bool,
    pub opt_omit_ditto: bool,
    pub opt_alt_replicated: bool,
    pub opt_no_live_vers: bool,
    pub opt_last_snap: Option<LastSnapMode>,
    pub uniqueness: ListSnapsOfType,
    pub deleted_mode: DeletedMode,
    pub print_mode: PrintMode,
    pub exec_mode: ExecMode,
    pub dataset_collection: DatasetCollection,
    /// The directory the program was started in.
    pub pwd: Vec<u8>,
    /// The directory the user asked to browse, if any.
    pub opt_requested_dir: Option<Vec<u8>>,
    /// The offset from UTC, in seconds, that dates are shown in.
    pub requested_utc_offset: i32,
}

} // verus!
