//! Matching of file paths against Unix shell style patterns, with capture
//! groups that record which part of a path each parenthesised group matched.

pub mod options;
pub mod strings;
pub mod specifier;

pub mod pattern;
pub mod matching;
pub mod entry;
pub mod substitute;
pub mod escape;
pub mod capture;
pub mod semantics;
pub mod paths;
pub mod walk;
pub mod glob;
pub mod messages;
pub mod reverse;

pub use entry::Entry;
pub use glob::{glob, glob_with};
pub use options::MatchOptions;
pub use pattern::{Pattern, PatternError};
pub use substitute::SubstitutionError;
pub use walk::{Entries, GlobError, GlobResult};
