//! Walking a directory tree and collecting the files whose name matches.
//!
//! The tree is given as plain data: whoever lists the directories builds an
//! [`Entry`] for each thing found, in the order in which it was enumerated.
//! The walk itself reads nothing from disk.

use crate::matcher::{
    first_occurrence, highlight_end, highlight_match, highlight_start, highlighted,
    lemma_highlight_marks_first_only, occurs_in,
};
use crate::text::{ends_with, is_suffix};
use vstd::prelude::*;
use vstd::string::StrSliceExecFns;
use vstd::string::StringExecFns;

verus! {

/// One thing found while listing a directory.
#[derive(Debug)]
pub enum Entry {
    /// Anything that is not a directory, with its full path and its base
    /// name, the final component of that path.
    File { path: String, name: String },
    /// A directory that could be listed, with what it holds in enumeration
    /// order.
    Directory { path: String, entries: Vec<Entry> },
    /// A directory that could not be listed.
    Unreadable { path: String },
}

/// The part of `path` before its base name `name`.
pub open spec fn parent_prefix(path: Seq<char>, name: Seq<char>) -> Seq<char> {
    path.subrange(0, path.len() - name.len())
}

/// The line that a file contributes: its parent prefix followed by its base
/// name with the match highlighted, or nothing where the base name does not
/// hold the pattern. Only the base name is searched.
pub open spec fn file_line(path: Seq<char>, name: Seq<char>, pattern: Seq<char>) -> Option<
    Seq<char>,
> {
    match highlighted(name, pattern) {
        Some(h) => Some(parent_prefix(path, name) + h),
        None => None,
    }
}

/// The lines that one entry of a listing contributes: a file its own line if
/// it matches, a directory the lines of its listing, an unreadable directory
/// nothing.
pub open spec fn entry_lines(entry: Entry, pattern: Seq<char>) -> Seq<Seq<char>>
    decreases entry,
{
    match entry {
        Entry::File { path, name } => match file_line(path@, name@, pattern) {
            Some(line) => seq![line],
            None => Seq::empty(),
        },
        Entry::Directory { path, entries } => listing_lines(entries@, pattern),
        Entry::Unreadable { path } => Seq::empty(),
    }
}

/// The lines of a listing: those of its entries one after the other, each
/// subdirectory's lines together at the place of the subdirectory.
pub open spec fn listing_lines(entries: Seq<Entry>, pattern: Seq<char>) -> Seq<Seq<char>>
    decreases entries,
{
    if entries.len() == 0 {
        Seq::empty()
    } else {
        listing_lines(entries.drop_last(), pattern) + entry_lines(entries.last(), pattern)
    }
}

/// The lines found under `root`. A root that is not a listed directory has
/// nothing under it.
pub open spec fn found_files(root: Entry, pattern: Seq<char>) -> Seq<Seq<char>> {
    match root {
        Entry::Directory { path, entries } => listing_lines(entries@, pattern),
        _ => Seq::empty(),
    }
}

impl Entry {
    /// Every file's base name is what its path ends with.
    pub open spec fn well_formed(self) -> bool
        decreases self,
    {
        match self {
            Entry::File { path, name } => is_suffix(name@, path@),
            Entry::Directory { path, entries } => forall|i: int|
                0 <= i < entries@.len() ==> (#[trigger] entries@[i]).well_formed(),
            Entry::Unreadable { path } => true,
        }
    }

    /// Whether every file's base name is what its path ends with.
    pub fn is_well_formed(&self) -> (ok: bool)
        ensures
            ok == self.well_formed(),
        decreases self,
    {
        match self {
            Entry::File { path, name } => ends_with(path.as_str(), name.as_str()),
            Entry::Directory { path, entries } => {
                let mut i: usize = 0;
                while i < entries.len()
                    invariant
                        i <= entries.len(),
                        self is Directory,
                        self->entries == *entries,
                        forall|j: int| 0 <= j < i ==> (#[trigger] entries@[j]).well_formed(),
                    decreases entries.len() - i,
                {
                    assert(decreases_to!(*self => *entries));
                    assert(decreases_to!(*entries => entries[i as int]));
                    if !entries[i].is_well_formed() {
                        return false;
                    }
                    i += 1;
                }
                true
            },
            Entry::Unreadable { path } => true,
        }
    }
}

/// The line of a matching file is its full path with the two markers put in
/// round the first occurrence of the pattern in the base name: with both
/// markers taken out, the line is the path.
pub proof fn lemma_file_line_strips_to_path(path: Seq<char>, name: Seq<char>, pattern: Seq<char>)
    requires
        is_suffix(name, path),
        occurs_in(name, pattern),
    ensures
        file_line(path, name, pattern) is Some,
        ({
            let line = file_line(path, name, pattern)->0;
            let i = parent_prefix(path, name).len() + first_occurrence(name, pattern);
            let a = i + highlight_start().len();
            let b = a + pattern.len();
            let c = b + highlight_end().len();
            &&& line.len() == path.len() + highlight_start().len() + highlight_end().len()
            &&& line.subrange(i, a) == highlight_start()
            &&& line.subrange(a, b) == pattern
            &&& line.subrange(b, c) == highlight_end()
            &&& line.subrange(0, i) + line.subrange(a, b) + line.subrange(c, line.len() as int)
                == path
        }),
{
    lemma_highlight_marks_first_only(name, pattern);
    let dir = parent_prefix(path, name);
    let h = highlighted(name, pattern)->0;
    let line = file_line(path, name, pattern)->0;
    let d = dir.len() as int;
    let k = first_occurrence(name, pattern);
    let i = d + k;
    let a = i + highlight_start().len();
    let b = a + pattern.len();
    let c = b + highlight_end().len();
    assert(line == dir + h);
    assert(dir + name =~= path);
    assert(line.subrange(i, a) =~= h.subrange(k, a - d));
    assert(line.subrange(a, b) =~= h.subrange(a - d, b - d));
    assert(line.subrange(b, c) =~= h.subrange(b - d, c - d));
    assert(line.subrange(0, i) =~= dir + h.subrange(0, k));
    assert(line.subrange(c, line.len() as int) =~= h.subrange(c - d, h.len() as int));
    assert(line.subrange(0, i) + line.subrange(a, b) + line.subrange(c, line.len() as int) =~= dir
        + (h.subrange(0, k) + h.subrange(a - d, b - d) + h.subrange(c - d, h.len() as int)));
}

/// What an entry contributes does not depend on its siblings, and the lines
/// come in enumeration order: the lines of two listings put one after the
/// other are the lines of the first followed by the lines of the second.
pub proof fn lemma_listing_lines_concat(first: Seq<Entry>, second: Seq<Entry>, pattern: Seq<char>)
    ensures
        listing_lines(first + second, pattern) == listing_lines(first, pattern) + listing_lines(
            second,
            pattern,
        ),
    decreases second.len(),
{
    if second.len() == 0 {
        assert(first + second =~= first);
        assert(listing_lines(first, pattern) + Seq::<Seq<char>>::empty() =~= listing_lines(
            first,
            pattern,
        ));
    } else {
        lemma_listing_lines_concat(first, second.drop_last(), pattern);
        assert((first + second).drop_last() =~= first + second.drop_last());
        assert((first + second).last() == second.last());
        assert((listing_lines(first, pattern) + listing_lines(second.drop_last(), pattern))
            + entry_lines(second.last(), pattern) =~= listing_lines(first, pattern) + (
        listing_lines(second.drop_last(), pattern) + entry_lines(second.last(), pattern)));
    }
}

/// The files that an entry holds, each as its full path and its base name:
/// a file itself, a directory the files of its listing, an unreadable
/// directory none.
pub open spec fn entry_files(entry: Entry) -> Seq<(Seq<char>, Seq<char>)>
    decreases entry,
{
    match entry {
        Entry::File { path, name } => seq![(path@, name@)],
        Entry::Directory { path, entries } => listing_files(entries@),
        Entry::Unreadable { path } => Seq::empty(),
    }
}

/// The files of a listing in enumeration order, each subdirectory's files
/// together at the place of the subdirectory.
pub open spec fn listing_files(entries: Seq<Entry>) -> Seq<(Seq<char>, Seq<char>)>
    decreases entries,
{
    if entries.len() == 0 {
        Seq::empty()
    } else {
        listing_files(entries.drop_last()) + entry_files(entries.last())
    }
}

/// The lines of the files among `files` whose base name holds `pattern`, in
/// the order of `files`.
pub open spec fn matching_lines(files: Seq<(Seq<char>, Seq<char>)>, pattern: Seq<char>) -> Seq<
    Seq<char>,
>
    decreases files.len(),
{
    if files.len() == 0 {
        Seq::empty()
    } else {
        let (path, name) = files.last();
        matching_lines(files.drop_last(), pattern) + match file_line(path, name, pattern) {
            Some(line) => seq![line],
            None => Seq::empty(),
        }
    }
}

/// The matching lines of two runs of files put one after the other are those
/// of the first followed by those of the second.
proof fn lemma_matching_lines_concat(
    first: Seq<(Seq<char>, Seq<char>)>,
    second: Seq<(Seq<char>, Seq<char>)>,
    pattern: Seq<char>,
)
    ensures
        matching_lines(first + second, pattern) == matching_lines(first, pattern) + matching_lines(
            second,
            pattern,
        ),
    decreases second.len(),
{
    if second.len() == 0 {
        assert(first + second =~= first);
        assert(matching_lines(first, pattern) + Seq::<Seq<char>>::empty() =~= matching_lines(
            first,
            pattern,
        ));
    } else {
        lemma_matching_lines_concat(first, second.drop_last(), pattern);
        assert((first + second).drop_last() =~= first + second.drop_last());
        assert((first + second).last() == second.last());
        let (path, name) = second.last();
        let tail = match file_line(path, name, pattern) {
            Some(line) => seq![line],
            None => Seq::<Seq<char>>::empty(),
        };
        assert((matching_lines(first, pattern) + matching_lines(second.drop_last(), pattern)) + tail
            =~= matching_lines(first, pattern) + (matching_lines(second.drop_last(), pattern)
            + tail));
    }
}

/// Only files are listed, and of them exactly those whose base name holds
/// the pattern, each once and in enumeration order: directories, readable or
/// not, add no line of their own, whatever they are called.
pub proof fn lemma_only_matching_files_listed(entries: Seq<Entry>, pattern: Seq<char>)
    ensures
        listing_lines(entries, pattern) == matching_lines(listing_files(entries), pattern),
    decreases entries,
{
    if entries.len() > 0 {
        let last = entries.last();
        lemma_only_matching_files_listed(entries.drop_last(), pattern);
        lemma_matching_lines_concat(listing_files(entries.drop_last()), entry_files(last), pattern);
        assert(entry_lines(last, pattern) == matching_lines(entry_files(last), pattern)) by {
            match last {
                Entry::File { path, name } => {
                    let one = seq![(path@, name@)];
                    assert(one.last() == (path@, name@));
                    assert(matching_lines(one.drop_last(), pattern) =~= Seq::empty());
                    assert(matching_lines(one, pattern) =~= entry_lines(last, pattern));
                },
                Entry::Directory { path, entries: below } => {
                    lemma_only_matching_files_listed(below@, pattern);
                },
                Entry::Unreadable { path } => {
                    assert(matching_lines(Seq::empty(), pattern) =~= Seq::empty());
                },
            }
        }
        assert(listing_files(entries) == listing_files(entries.drop_last()) + entry_files(last));
        assert(listing_lines(entries, pattern) == listing_lines(entries.drop_last(), pattern)
            + entry_lines(last, pattern));
    } else {
        assert(listing_files(entries) =~= Seq::empty());
        assert(matching_lines(Seq::empty(), pattern) =~= Seq::empty());
    }
}

/// The line for the file at `path` with base name `name`: the path with the
/// first occurrence of `pattern` in the base name highlighted, or nothing
/// where the base name does not hold `pattern`.
pub fn highlight_file(path: &str, name: &str, pattern: &str) -> (line: Option<String>)
    requires
        is_suffix(name@, path@),
    ensures
        line is Some <==> occurs_in(name@, pattern@),
        line matches Some(s) ==> file_line(path@, name@, pattern@) == Some(s@),
{
    match highlight_match(name, pattern) {
        None => None,
        Some(coloured) => {
            let cut: usize = path.unicode_len() - name.unicode_len();
            let mut line = String::from_str(path.substring_char(0, cut));
            line.append(coloured.as_str());
            Some(line)
        },
    }
}

/// The highlighted paths of all files under `root` whose base name holds
/// `pattern`, in enumeration order, each subdirectory's files together at the
/// place of the subdirectory. Directories themselves are never listed.
pub fn find_files(root: &Entry, pattern: &str) -> (files: Vec<String>)
    requires
        root.well_formed(),
    ensures
        files.deep_view() == found_files(*root, pattern@),
    decreases root,
{
    let mut files: Vec<String> = Vec::new();
    if let Entry::Directory { path, entries } = root {
        let mut i: usize = 0;
        assert(entries@.take(0) =~= Seq::empty());
        while i < entries.len()
            invariant
                i <= entries.len(),
                root.well_formed(),
                root is Directory,
                root->entries == *entries,
                files.deep_view() == listing_lines(entries@.take(i as int), pattern@),
            decreases entries.len() - i,
        {
            let ghost before = files.deep_view();
            let entry = &entries[i];
            assert(entries@[i as int].well_formed());
            proof {
                let upto = entries@.take(i + 1);
                assert(upto.drop_last() =~= entries@.take(i as int));
                assert(upto.last() == *entry);
                assert(decreases_to!(*root => *entries));
                assert(decreases_to!(*entries => entries[i as int]));
            }
            match entry {
                Entry::File { path: file_path, name } => {
                    if let Some(line) = highlight_file(
                        file_path.as_str(),
                        name.as_str(),
                        pattern,
                    ) {
                        files.push(line);
                        assert(files.deep_view() =~= before + seq![line@]);
                    }
                },
                Entry::Directory { .. } => {
                    let mut below = find_files(entry, pattern);
                    let ghost lines = below.deep_view();
                    files.append(&mut below);
                    assert(files.deep_view() =~= before + lines);
                },
                Entry::Unreadable { .. } => {},
            }
            assert(files.deep_view() =~= before + entry_lines(*entry, pattern@));
            i += 1;
        }
        assert(entries@.take(i as int) =~= entries@);
    }
    files
}

} // verus!
