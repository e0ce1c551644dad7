//! Preparing the found paths for output.
//!
//! Every line is searched once more, this time as a whole, and the first
//! occurrence of the pattern in it is highlighted. A line that came out of the
//! walk already carries markers round the match in its base name; this second
//! pass leaves them where they are and adds its own round the first
//! occurrence in the full line.

use crate::matcher::{highlight_match, highlighted};
use vstd::prelude::*;
use vstd::string::StringExecFns;

verus! {

/// What is shown for `file`: the line with the first occurrence of `pattern`
/// highlighted, or the line as it is where `pattern` does not occur in it.
pub open spec fn shown(file: Seq<char>, pattern: Seq<char>) -> Seq<char> {
    match highlighted(file, pattern) {
        Some(h) => h,
        None => file,
    }
}

/// The text to print for `file`.
pub fn display_line(file: &str, pattern: &str) -> (line: String)
    ensures
        line@ == shown(file@, pattern@),
{
    match highlight_match(file, pattern) {
        Some(h) => h,
        None => String::from_str(file),
    }
}

/// The texts to print for `files`, one for each and in the same order.
pub fn display_lines(files: &Vec<String>, pattern: &str) -> (lines: Vec<String>)
    ensures
        lines@.len() == files@.len(),
        forall|i: int| 0 <= i < files@.len() ==> (#[trigger] lines@[i])@ == shown(files@[i]@, pattern@),
{
    let mut lines: Vec<String> = Vec::new();
    let mut i: usize = 0;
    while i < files.len()
        invariant
            i <= files.len(),
            lines@.len() == i,
            forall|j: int| 0 <= j < i ==> (#[trigger] lines@[j])@ == shown(files@[j]@, pattern@),
        decreases files.len() - i,
    {
        let line = display_line(files[i].as_str(), pattern);
        lines.push(line);
        i += 1;
    }
    lines
}

} // verus!
