//! Directory entries and the candidate files made from them.

use vstd::prelude::*;
use crate::timestamp::Timestamp;

verus! {

/// One entry of a directory listing: its file name and, where the metadata
/// could be read, its last modification time.
#[derive(Clone, Debug, PartialEq, Eq)]
pub struct Entry {
    /// The file name, without the directory.
    pub name: String,
    /// When the file was last modified; `None` where that could not be
    /// read.
    pub modified: Option<Timestamp>,
}

/// What an [`Entry`] stands for.
#[verifier::ext_equal]
pub struct EntryView {
    pub name: Seq<char>,
    pub modified: Option<Timestamp>,
}

impl View for Entry {
    type V = EntryView;

    open spec fn view(&self) -> EntryView {
        EntryView { name: self.name@, modified: self.modified }
    }
}

impl DeepView for Entry {
    type V = EntryView;

    open spec fn deep_view(&self) -> EntryView {
        self@
    }
}

/// A file that one run considers: its path and last modification time.
#[derive(Clone, Debug, PartialEq, Eq)]
pub struct Candidate {
    /// When the file was last modified.
    pub modified_time: Timestamp,
    /// The directory and the file name, joined.
    pub path: String,
}

/// What a [`Candidate`] stands for.
#[verifier::ext_equal]
pub struct CandidateView {
    pub modified_time: Timestamp,
    pub path: Seq<char>,
}

impl View for Candidate {
    type V = CandidateView;

    open spec fn view(&self) -> CandidateView {
        CandidateView { modified_time: self.modified_time, path: self.path@ }
    }
}

impl DeepView for Candidate {
    type V = CandidateView;

    open spec fn deep_view(&self) -> CandidateView {
        self@
    }
}

} // verus!
