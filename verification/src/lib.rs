//! A verified clipboard-history core: a bounded, most-recent-first log of
//! text snapshots with head-only deduplication, fuzzy search over the log,
//! a persistence codec for the history file, single-line presentation of
//! entries, and the decision step of the clipboard-polling daemon.
pub mod codec;
pub mod daemon;
pub mod format;
pub mod fuzzy;
pub mod history;
pub mod text;

