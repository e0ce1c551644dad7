//! Finding files by a substring of their name, with the match highlighted.
//!
//! The matcher splits a string around the first occurrence of a pattern and
//! wraps that occurrence in terminal colour markers. The walker applies it to
//! the base name of every file of a directory tree, and the printer applies it
//! once more to every line before it is shown.

pub mod matcher;
pub mod offsets;
pub mod printer;
pub mod text;
pub mod walker;

pub use matcher::{find_match, highlight_match, MatchResult, HIGHLIGHT_END, HIGHLIGHT_START};
pub use printer::{display_line, display_lines};
pub use walker::{find_files, highlight_file, Entry};
