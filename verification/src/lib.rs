//! Edge Bookmarks Organizer library: parsing, analysing, organising and
//! rebuilding Microsoft Edge bookmarks, with verified contracts.
//!
//! The bookmark file is read into a tree of [`bookmark::RawBookmarkNode`]s,
//! flattened into [`Bookmark`]s ([`parser`]), checked for duplicates
//! ([`duplicates`]) and dead links ([`deadlinks`]), grouped by domain or
//! topic ([`organizer`], [`embeddings`]) and rebuilt into a new tree
//! ([`rebuilder`]). [`backup`] names and selects backup files.
pub mod bookmark;
pub mod text;
pub mod sorting;
pub mod parser;
pub mod grouping;
pub mod duplicates;
pub mod laws;
pub mod roundtrip;
pub mod identifiers;
pub mod statistics;
pub mod structure;
pub mod organizer;
pub mod rebuilder;
pub mod embeddings;
pub mod deadlinks;
pub mod backup;

pub use bookmark::{Bookmark, BookmarksFile, CheckedBookmark, LinkStatus};
