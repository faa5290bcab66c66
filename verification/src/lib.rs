//! Reordering of paired database-migration files.
//!
//! A migration is stored as two files, an "up" script and a "down" script,
//! whose names embed a numeric identifier and, optionally, a descriptive
//! name. The identifier fixes the order in which migrations run. This crate
//! compiles filename templates, matches and renders filenames, pairs the
//! files of a directory listing, and swaps adjacent migrations while keeping
//! the identifiers in place.

pub mod decimal;
pub mod entries;
mod grouping;
pub mod listing;
pub mod migration;
pub mod pattern;
pub mod reorder;
pub mod text;

pub use entries::{Entries, Entry, ReadError, Rename};
pub use migration::Migration;
pub use pattern::Pattern;
