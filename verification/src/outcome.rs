//! What a comparison hands back.

use crate::model::{ConfirmerResultView, FileFoundView};
use vstd::prelude::*;

verus! {

/// The texts of a sequence of strings.
pub open spec fn texts(strings: Seq<String>) -> Seq<Seq<char>> {
    strings.map_values(|s: String| s@)
}

/// Holds all paths in source and destinations that contain the same file.
#[derive(Debug, PartialEq)]
pub struct FileFound {
    /// Paths of the same file in source.
    pub src_paths: Vec<String>,
    /// Path of the same file in destinations: of the copy that arrived first.
    pub dest_paths: Vec<String>,
}

impl View for FileFound {
    type V = FileFoundView;

    open spec fn view(&self) -> FileFoundView {
        FileFoundView { src_paths: texts(self.src_paths@), dest_paths: texts(self.dest_paths@) }
    }
}

/// The view of one entry of the found files: a checksum and its files.
pub open spec fn entry_view(entry: (String, FileFound)) -> (Seq<char>, FileFoundView) {
    (entry.0@, entry.1@)
}

/// Indicates whether there are files missing in destination dirs.
#[derive(Debug, PartialEq)]
pub enum ConfirmerResult {
    /// All files in source are in at least one destination dir.
    ///
    /// Holds one entry per checksum of the source, in the order in which the
    /// checksums first arrived: the checksum, and the files with that checksum in
    /// source and in destinations.
    AllPresent(Vec<(String, FileFound)>),
    /// The files in source that are missing from all destinations.
    MissingFiles(Vec<String>),
}

impl View for ConfirmerResult {
    type V = ConfirmerResultView;

    open spec fn view(&self) -> ConfirmerResultView {
        match self {
            ConfirmerResult::AllPresent(entries) => ConfirmerResultView::AllPresent(
                entries@.map_values(|e: (String, FileFound)| entry_view(e)),
            ),
            ConfirmerResult::MissingFiles(paths) => ConfirmerResultView::MissingFiles(texts(paths@)),
        }
    }
}

} // verus!
