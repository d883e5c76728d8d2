//! Set operations over the line-sets of text files.
//!
//! A line-set is the set of trimmed, non-empty lines of a text file.
//! The library builds such sets and computes either their intersection
//! (newline-joined, in ascending order) or a subset test (`"true"` /
//! `"false"`).

pub mod lineset;
pub mod options;
pub mod setops;
pub mod text;
