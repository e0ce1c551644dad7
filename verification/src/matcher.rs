//! Exact substring search and highlighting of the first occurrence.
//!
//! Strings are modelled by their sequence of characters, and positions are
//! counted in characters. The first occurrence of a pattern counted this way
//! is also its first occurrence by byte offset in the UTF-8 encoding: the
//! module `offsets` proves it.

use crate::text::chars_of;
use vstd::prelude::*;
use vstd::string::StrSliceExecFns;
use vstd::string::StringExecFns;

verus! {

/// `pattern` stands in `text` at position `i`.
pub open spec fn occurs_at(text: Seq<char>, pattern: Seq<char>, i: int) -> bool {
    &&& 0 <= i
    &&& i + pattern.len() <= text.len()
    &&& text.subrange(i, i + pattern.len()) == pattern
}

/// `pattern` is a substring of `text`.
pub open spec fn occurs_in(text: Seq<char>, pattern: Seq<char>) -> bool {
    exists|i: int| occurs_at(text, pattern, i)
}

/// `pattern` stands in `text` at position `i` and at no earlier position.
pub open spec fn is_first_occurrence(text: Seq<char>, pattern: Seq<char>, i: int) -> bool {
    &&& occurs_at(text, pattern, i)
    &&& forall|j: int| 0 <= j < i ==> !occurs_at(text, pattern, j)
}

/// The position of the first occurrence of `pattern` in `text`, where there is one.
pub open spec fn first_occurrence(text: Seq<char>, pattern: Seq<char>) -> int {
    choose|i: int| is_first_occurrence(text, pattern, i)
}

/// At most one position is the first occurrence, and `first_occurrence` names it.
pub proof fn lemma_first_occurrence_unique(text: Seq<char>, pattern: Seq<char>, i: int)
    requires
        is_first_occurrence(text, pattern, i),
    ensures
        occurs_in(text, pattern),
        first_occurrence(text, pattern) == i,
{
    let k = first_occurrence(text, pattern);
    assert(is_first_occurrence(text, pattern, k));
    if k < i {
        assert(!occurs_at(text, pattern, k));
    } else if i < k {
        assert(!occurs_at(text, pattern, i));
    }
}

/// A pattern that occurs at all has a first occurrence.
pub proof fn lemma_first_occurrence_exists(text: Seq<char>, pattern: Seq<char>)
    requires
        occurs_in(text, pattern),
    ensures
        is_first_occurrence(text, pattern, first_occurrence(text, pattern)),
{
    let w = choose|i: int| occurs_at(text, pattern, i);
    lemma_earliest_below(text, pattern, w);
}

/// Below any occurrence there is a first one: by induction on the position.
proof fn lemma_earliest_below(text: Seq<char>, pattern: Seq<char>, w: int)
    requires
        occurs_at(text, pattern, w),
    ensures
        exists|i: int| is_first_occurrence(text, pattern, i),
    decreases w,
{
    if exists|j: int| 0 <= j < w && occurs_at(text, pattern, j) {
        let j = choose|j: int| 0 <= j < w && occurs_at(text, pattern, j);
        lemma_earliest_below(text, pattern, j);
    } else {
        assert(is_first_occurrence(text, pattern, w));
    }
}

/// Whether `pattern` stands in `text` at position `i`.
fn matches_at(text: &Vec<char>, pattern: &Vec<char>, i: usize) -> (found: bool)
    requires
        i + pattern.len() <= text.len(),
    ensures
        found == occurs_at(text@, pattern@, i as int),
{
    let m: usize = pattern.len();
    let mut k: usize = 0;
    while k < m
        invariant
            m == pattern.len(),
            k <= m,
            i + m <= text.len(),
            forall|j: int| 0 <= j < k ==> text@[i + j] == pattern@[j],
        decreases m - k,
    {
        if text[i + k] != pattern[k] {
            assert(text@.subrange(i as int, i + m)[k as int] != pattern@[k as int]);
            return false;
        }
        k += 1;
    }
    assert(text@.subrange(i as int, i + m) =~= pattern@);
    true
}

/// The position of the first occurrence of `pattern` in `text`, if there is one.
pub fn find_first(text: &Vec<char>, pattern: &Vec<char>) -> (found: Option<usize>)
    ensures
        match found {
            Some(i) => is_first_occurrence(text@, pattern@, i as int),
            None => !occurs_in(text@, pattern@),
        },
{
    let n: usize = text.len();
    let m: usize = pattern.len();
    if m > n {
        return None;
    }
    let last: usize = n - m;
    let mut i: usize = 0;
    loop
        invariant
            n == text.len(),
            m == pattern.len(),
            last == n - m,
            i <= last,
            forall|j: int| 0 <= j < i ==> !occurs_at(text@, pattern@, j),
        decreases last - i,
    {
        if matches_at(text, pattern, i) {
            return Some(i);
        }
        if i == last {
            return None;
        }
        i += 1;
    }
}

/// The marker written immediately before a match: the escape sequence that
/// switches the terminal to green.
pub const HIGHLIGHT_START: &'static str = "\x1b[32m";

/// The marker written immediately after a match: the escape sequence that
/// resets the terminal's colours.
pub const HIGHLIGHT_END: &'static str = "\x1b[0m";

/// The characters of [`HIGHLIGHT_START`].
pub open spec fn highlight_start() -> Seq<char> {
    seq!['\x1b', '[', '3', '2', 'm']
}

/// The characters of [`HIGHLIGHT_END`].
pub open spec fn highlight_end() -> Seq<char> {
    seq!['\x1b', '[', '0', 'm']
}

/// The mathematical value of a [`MatchResult`].
pub enum MatchView {
    NoMatch,
    Match { prefix: Seq<char>, matched: Seq<char>, suffix: Seq<char> },
}

impl MatchView {
    /// The segments put together again, without markers.
    pub open spec fn plain(self) -> Option<Seq<char>> {
        match self {
            MatchView::NoMatch => None,
            MatchView::Match { prefix, matched, suffix } => Some(prefix + matched + suffix),
        }
    }

    /// The segments put together with the matched one between the two markers.
    pub open spec fn rendered(self) -> Option<Seq<char>> {
        match self {
            MatchView::NoMatch => None,
            MatchView::Match { prefix, matched, suffix } => Some(
                prefix + highlight_start() + matched + highlight_end() + suffix,
            ),
        }
    }
}

/// The split of `text` around the first occurrence of `pattern`.
pub open spec fn split_at_first(text: Seq<char>, pattern: Seq<char>) -> MatchView {
    if occurs_in(text, pattern) {
        let i = first_occurrence(text, pattern);
        MatchView::Match {
            prefix: text.subrange(0, i),
            matched: pattern,
            suffix: text.subrange(i + pattern.len(), text.len() as int),
        }
    } else {
        MatchView::NoMatch
    }
}

/// `text` with the first occurrence of `pattern` between the two markers, or
/// nothing where `pattern` does not occur.
pub open spec fn highlighted(text: Seq<char>, pattern: Seq<char>) -> Option<Seq<char>> {
    split_at_first(text, pattern).rendered()
}

/// A pattern that occurs in a text is found, and nothing of the text is lost:
/// the matched segment is the pattern, and the three segments put together
/// without the markers are the text again.
pub proof fn lemma_match_reassembles(text: Seq<char>, pattern: Seq<char>)
    requires
        occurs_in(text, pattern),
    ensures
        split_at_first(text, pattern) is Match,
        split_at_first(text, pattern)->matched == pattern,
        split_at_first(text, pattern).plain() == Some(text),
        highlighted(text, pattern) is Some,
{
    lemma_first_occurrence_exists(text, pattern);
    let i = first_occurrence(text, pattern);
    let n = text.len() as int;
    let m = pattern.len() as int;
    assert(text.subrange(0, i) + text.subrange(i, i + m) + text.subrange(i + m, n) =~= text);
}

/// A pattern that does not occur in a text is not found, and no string is
/// made up for it.
pub proof fn lemma_no_match_absent(text: Seq<char>, pattern: Seq<char>)
    requires
        !occurs_in(text, pattern),
    ensures
        split_at_first(text, pattern) is NoMatch,
        highlighted(text, pattern) is None,
{
}

/// The highlighted text is the text with the two markers put in and nothing
/// else changed: the opening marker stands where the first occurrence of the
/// pattern began, the closing marker right after that occurrence, and with
/// both taken out the text is back.
pub proof fn lemma_highlight_marks_first_only(text: Seq<char>, pattern: Seq<char>)
    requires
        occurs_in(text, pattern),
    ensures
        ({
            let h = highlighted(text, pattern)->0;
            let i = first_occurrence(text, pattern);
            let a = i + highlight_start().len();
            let b = a + pattern.len();
            let c = b + highlight_end().len();
            &&& is_first_occurrence(text, pattern, i)
            &&& h.len() == text.len() + highlight_start().len() + highlight_end().len()
            &&& h.subrange(0, i) == text.subrange(0, i)
            &&& h.subrange(i, a) == highlight_start()
            &&& h.subrange(a, b) == pattern
            &&& h.subrange(b, c) == highlight_end()
            &&& h.subrange(c, h.len() as int) == text.subrange(i + pattern.len(), text.len() as int)
            &&& h.subrange(0, i) + h.subrange(a, b) + h.subrange(c, h.len() as int) == text
        }),
{
    lemma_first_occurrence_exists(text, pattern);
    let h = highlighted(text, pattern)->0;
    let i = first_occurrence(text, pattern);
    let a = i + highlight_start().len();
    let b = a + pattern.len();
    let c = b + highlight_end().len();
    let n = text.len() as int;
    assert(h.subrange(0, i) =~= text.subrange(0, i));
    assert(h.subrange(i, a) =~= highlight_start());
    assert(h.subrange(a, b) =~= pattern);
    assert(h.subrange(b, c) =~= highlight_end());
    assert(h.subrange(c, h.len() as int) =~= text.subrange(i + pattern.len(), n));
    assert(h.subrange(0, i) + h.subrange(a, b) + h.subrange(c, h.len() as int) =~= text);
}

/// The three-way split of a string around the first occurrence of a pattern.
#[derive(Debug)]
pub enum MatchResult {
    NoMatch,
    Match { prefix: String, matched: String, suffix: String },
}

impl View for MatchResult {
    type V = MatchView;

    open spec fn view(&self) -> MatchView {
        match self {
            MatchResult::NoMatch => MatchView::NoMatch,
            MatchResult::Match { prefix, matched, suffix } => MatchView::Match {
                prefix: prefix@,
                matched: matched@,
                suffix: suffix@,
            },
        }
    }
}

impl MatchResult {
    /// The split string with its matched segment between the two markers.
    pub fn render(&self) -> (out: Option<String>)
        ensures
            out is Some <==> self@ is Match,
            out matches Some(s) ==> self@.rendered() == Some(s@),
    {
        match self {
            MatchResult::NoMatch => None,
            MatchResult::Match { prefix, matched, suffix } => {
                proof {
                    reveal_strlit("\x1b[32m");
                    reveal_strlit("\x1b[0m");
                }
                assert(HIGHLIGHT_START@ =~= highlight_start());
                assert(HIGHLIGHT_END@ =~= highlight_end());
                let mut s = String::from_str(prefix.as_str());
                s.append(HIGHLIGHT_START);
                s.append(matched.as_str());
                s.append(HIGHLIGHT_END);
                s.append(suffix.as_str());
                Some(s)
            },
        }
    }
}

/// Splits `text` around the first occurrence of `pattern`.
pub fn find_match(text: &str, pattern: &str) -> (found: MatchResult)
    ensures
        found@ == split_at_first(text@, pattern@),
{
    let t = chars_of(text);
    let p = chars_of(pattern);
    match find_first(&t, &p) {
        None => MatchResult::NoMatch,
        Some(i) => {
            proof {
                lemma_first_occurrence_unique(text@, pattern@, i as int);
            }
            let n: usize = t.len();
            let m: usize = p.len();
            assert(i + m <= n);
            let end: usize = i + m;
            let prefix = String::from_str(text.substring_char(0, i));
            let matched = String::from_str(text.substring_char(i, end));
            let suffix = String::from_str(text.substring_char(end, n));
            MatchResult::Match { prefix, matched, suffix }
        },
    }
}

/// `file` with the first occurrence of `pattern` highlighted, or nothing where
/// `pattern` does not occur in `file`. Later occurrences are left unmarked.
pub fn highlight_match(file: &str, pattern: &str) -> (out: Option<String>)
    ensures
        out is Some <==> occurs_in(file@, pattern@),
        out matches Some(s) ==> highlighted(file@, pattern@) == Some(s@),
{
    find_match(file, pattern).render()
}

} // verus!
