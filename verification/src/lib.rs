//! Directory comparison library.
//!
//! Confirms that every file of a source tree has a byte-identical copy somewhere
//! under one or more destination trees, so that the source can be deleted after
//! a copy or a backup. Files are told apart by the BLAKE2b-512 checksum of their
//! content, never by their path or metadata.
//!
//! A comparison has two phases. In the source phase the hash results of the
//! source files are taken into an index by checksum ([`PendingIndex::build`]). In
//! the destination phase the index is resolved against the hash results of the
//! destination files ([`PendingIndex::resolve`]): if every bucket of the index
//! finds a destination file, the run ends in [`ConfirmerResult::AllPresent`],
//! and if not, in [`ConfirmerResult::MissingFiles`].
//!
//! The library does no input or output of its own. Whoever walks the directories
//! and reads the files hands it the entries and the chunks it met, runs the
//! hashing tasks on the engine's pool, and asks the engine what to make of them:
//! [`CopyConfirmer::admit_source`], [`Checksum::update`],
//! [`CopyConfirmer::observe`], [`CopyConfirmer::end_source_phase`] and
//! [`CopyConfirmer::end_destination_phase`]. Trees that are at hand as values are
//! compared in one call:
//!
//! ```
//! use copy_confirmer::{ConfirmerResult, CopyConfirmer, WalkItem};
//!
//! let source = vec![
//!     WalkItem::File("dir_A/foo.txt".into(), Ok(b"A".to_vec())),
//!     WalkItem::File("dir_A/bar.txt".into(), Ok(b"B".to_vec())),
//! ];
//! let destination = vec![WalkItem::File("dir_B/foo.txt".into(), Ok(b"A".to_vec()))];
//!
//! let mut cc = CopyConfirmer::new(1);
//! let missing_files = cc.compare(&source, &vec![destination]).unwrap();
//! assert_eq!(missing_files, ConfirmerResult::MissingFiles(vec!["dir_A/bar.txt".into()]));
//! ```
//!
//! What holds of every comparison is stated and proved in [`laws`].

pub mod checksum;
pub mod confirmer;
pub mod error;
pub mod exclusion;
pub mod index;
pub mod laws;
pub mod model;
pub mod order;
pub mod outcome;
pub mod progress;
pub mod walk;

pub use checksum::{checksum_of_chunks, get_blake2_checksum, to_hex, Checksum};
pub use confirmer::CopyConfirmer;
pub use error::ConfirmerError;
pub use exclusion::{is_path_excluded, ExcludePattern};
pub use index::{HashResult, PendingIndex};
pub use outcome::{ConfirmerResult, FileFound};
pub use progress::{track_progress, ProgressReport};
pub use walk::{hash_file, WalkItem};
