//! What the enumerator hands to its consumer: an entry, and whether it is
//! live or was brought back from a snapshot.

use crate::data::paths::{BasicDirEntryInfo, BasicDirEntryInfoView, FileType};
use crate::path::{file_name, file_name_of};
use vstd::prelude::*;

verus! {

/// Where an entry that is shown comes from.
#[derive(Clone, Copy, Debug, PartialEq, Eq, Structural)]
pub enum PathProvenance {
    FromLiveDataset,
    IsPhantom,
}

/// An entry as it is offered for selection.
#[derive(Debug, Clone, PartialEq, Eq)]
pub struct SelectionCandidate {
    pub path: Vec<u8>,
    pub opt_filetype: Option<FileType>,
    pub is_phantom: bool,
}

/// A candidate for selection, as a value.
pub struct SelectionCandidateView {
    pub path: Seq<u8>,
    pub opt_filetype: Option<FileType>,
    pub is_phantom: bool,
}

impl View for SelectionCandidate {
    type V = SelectionCandidateView;

    open spec fn view(&self) -> SelectionCandidateView {
        SelectionCandidateView {
            path: self.path@,
            opt_filetype: self.opt_filetype,
            is_phantom: self.is_phantom,
        }
    }
}

/// The candidates of a list, as values.
pub open spec fn selection_views(candidates: Seq<SelectionCandidate>) -> Seq<
    SelectionCandidateView,
> {
    candidates.map_values(|candidate: SelectionCandidate| candidate@)
}

impl BasicDirEntryInfoView {
    /// The entry as a candidate for selection.
    pub open spec fn selection(self, is_phantom: PathProvenance) -> SelectionCandidateView {
        SelectionCandidateView {
            path: self.path,
            opt_filetype: self.opt_filetype,
            is_phantom: is_phantom == PathProvenance::IsPhantom,
        }
    }
}

impl BasicDirEntryInfo {
    /// The entry as a candidate for selection, marked with where it comes
    /// from.
    pub fn into_selection(self, is_phantom: &PathProvenance) -> (r: SelectionCandidate)
        ensures
            r@ == self@.selection(*is_phantom),
    {
        let mut selection = SelectionCandidate {
            path: self.path,
            opt_filetype: self.opt_filetype,
            is_phantom: false,
        };
        selection.set_phantom(is_phantom);
        selection
    }
}

impl SelectionCandidate {
    /// Marks the candidate with where it comes from.
    pub fn set_phantom(&mut self, is_phantom: &PathProvenance)
        ensures
            final(self)@ == (SelectionCandidateView {
                is_phantom: *is_phantom == PathProvenance::IsPhantom,
                ..old(self)@
            }),
    {
        self.is_phantom = match is_phantom {
            PathProvenance::IsPhantom => true,
            PathProvenance::FromLiveDataset => false,
        };
    }

    /// The text that the candidate is searched by: its file name, or
    /// nothing where its path has none.
    pub fn text(&self) -> (r: Vec<u8>)
        ensures
            r@ == match file_name(self@.path) {
                Some(name) => name,
                None => Seq::empty(),
            },
    {
        match file_name_of(&self.path) {
            Some(name) => name,
            None => Vec::new(),
        }
    }
}

} // verus!
