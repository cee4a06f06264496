use vstd::prelude::*;

verus! {

/// The kinds of failure that a caller reports from the operating system.
#[derive(Clone, Copy, Debug, PartialEq, Eq, Structural)]
pub enum IoErrorKind {
    PermissionDenied,
    NotFound,
    Other,
}

/// What can go wrong in the library.
#[derive(Clone, Debug, PartialEq, Eq)]
pub enum HttmError {
    /// The path lies under no known dataset mount.
    NoProximateDataset(Vec<u8>),
    /// The path does not lie below the mount it was to be taken relative to.
    NoRelativePath(Vec<u8>, Vec<u8>),
    /// No input has a live version or a snapshot version.
    NoVersions,
    /// A snapshot refused the caller when it looked for the path.
    SnapshotPermissionDenied(Vec<u8>),
    /// The operating system failed on the path.
    IoError(IoErrorKind, Vec<u8>),
    /// The request makes no sense for the path.
    BadInput(Vec<u8>),
}

/// A failure as a value.
pub enum HttmErrorView {
    NoProximateDataset(Seq<u8>),
    NoRelativePath(Seq<u8>, Seq<u8>),
    NoVersions,
    SnapshotPermissionDenied(Seq<u8>),
    IoError(IoErrorKind, Seq<u8>),
    BadInput(Seq<u8>),
}

impl View for HttmError {
    type V = HttmErrorView;

    open spec fn view(&self) -> HttmErrorView {
        match self {
            HttmError::NoProximateDataset(path) => HttmErrorView::NoProximateDataset(path@),
            HttmError::NoRelativePath(path, mount) => HttmErrorView::NoRelativePath(
                path@,
                mount@,
            ),
            HttmError::NoVersions => HttmErrorView::NoVersions,
            HttmError::SnapshotPermissionDenied(path) => HttmErrorView::SnapshotPermissionDenied(
                path@,
            ),
            HttmError::IoError(kind, path) => HttmErrorView::IoError(*kind, path@),
            HttmError::BadInput(path) => HttmErrorView::BadInput(path@),
        }
    }
}

/// What a function of the library gives where it can fail.
pub type HttmResult<T> = Result<T, HttmError>;

} // verus!
