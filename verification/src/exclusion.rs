//! The exclusion filter: which source paths are left out of a comparison.

use vstd::prelude::*;

verus! {

/// Exclude pattern.
///
/// The paths in the source directory are matched with the pattern, as text. A
/// path that matches is left out of the comparison entirely.
#[derive(Debug)]
pub enum ExcludePattern {
    /// Matches only paths that start with the string.
    ///
    /// The string is anchored to the root of the source directory by whoever
    /// builds the pattern: it has the form `<source_dir>/path/to/sth`.
    MatchPathStart(String),
    /// Matches all paths that contain the string.
    MatchEverywhere(String),
}

/// Whether `part` stands in `text` at position `at`.
pub open spec fn occurs_at(part: Seq<char>, text: Seq<char>, at: int) -> bool {
    0 <= at && at + part.len() <= text.len() && text.subrange(at, at + part.len()) == part
}

/// Whether `part` stands somewhere in `text`.
pub open spec fn occurs_in(part: Seq<char>, text: Seq<char>) -> bool {
    exists|at: int| occurs_at(part, text, at)
}

impl ExcludePattern {
    /// Whether the pattern matches `path`.
    pub open spec fn matches(self, path: Seq<char>) -> bool {
        match self {
            ExcludePattern::MatchPathStart(part) => occurs_at(part@, path, 0),
            ExcludePattern::MatchEverywhere(part) => occurs_in(part@, path),
        }
    }
}

/// Whether any of `patterns` matches `path`.
pub open spec fn excluded(path: Seq<char>, patterns: Seq<ExcludePattern>) -> bool {
    exists|i: int| 0 <= i < patterns.len() && (#[trigger] patterns[i]).matches(path)
}

/// The characters of a string.
fn chars_of(text: &str) -> (chars: Vec<char>)
    ensures
        chars@ == text@,
{
    broadcast use vstd::string::group_string_axioms;

    let mut chars: Vec<char> = Vec::new();
    for c in it: text.chars()
        invariant
            it.seq() == text@,
            chars@ == it.seq().take(it.index()),
    {
        chars.push(c);
    }
    chars
}

/// Whether `part` stands in `text` at `at`, where it fits there.
fn stands_at(part: &Vec<char>, text: &Vec<char>, at: usize) -> (found: bool)
    requires
        at + part.len() <= text.len(),
    ensures
        found == occurs_at(part@, text@, at as int),
{
    let mut n: usize = 0;
    while n < part.len()
        invariant
            n <= part.len(),
            at + part.len() <= text.len(),
            text@.subrange(at as int, at + n) == part@.take(n as int),
        decreases part.len() - n,
    {
        if text[at + n] != part[n] {
            proof {
                assert(text@.subrange(at as int, at + part.len())[n as int] != part@[n as int]);
            }
            return false;
        }
        proof {
            assert(text@.subrange(at as int, at + n + 1) =~= text@.subrange(
                at as int,
                at + n,
            ).push(text@[at + n]));
            assert(part@.take(n + 1) =~= part@.take(n as int).push(part@[n as int]));
        }
        n += 1;
    }
    proof {
        assert(part@.take(n as int) =~= part@);
    }
    true
}

/// Whether `part` stands somewhere in `text`: the leftmost place is found first.
fn stands_in(part: &Vec<char>, text: &Vec<char>) -> (found: bool)
    ensures
        found == occurs_in(part@, text@),
{
    if part.len() == 0 {
        proof {
            assert(text@.subrange(0, 0) =~= part@);
            assert(occurs_at(part@, text@, 0));
        }
        return true;
    }
    if part.len() > text.len() {
        return false;
    }
    let last: usize = text.len() - part.len();
    let mut at: usize = 0;
    while at <= last
        invariant
            last == text.len() - part.len(),
            last < text.len(),
            at <= last + 1,
            forall|before: int| 0 <= before < at ==> !occurs_at(part@, text@, before),
        decreases last + 1 - at,
    {
        if stands_at(part, text, at) {
            return true;
        }
        at += 1;
    }
    false
}

impl ExcludePattern {
    /// Whether the pattern matches a path with these characters.
    fn matches_chars(&self, path: &Vec<char>) -> (matched: bool)
        ensures
            matched == self.matches(path@),
    {
        match self {
            ExcludePattern::MatchPathStart(part) => {
                let part = chars_of(part.as_str());
                part.len() <= path.len() && stands_at(&part, path, 0)
            },
            ExcludePattern::MatchEverywhere(part) => {
                let part = chars_of(part.as_str());
                stands_in(&part, path)
            },
        }
    }

    /// Whether the pattern matches `path`: for `MatchPathStart`, whether the path
    /// starts with the string; for `MatchEverywhere`, whether it contains it.
    pub fn is_match(&self, path: &str) -> (matched: bool)
        ensures
            matched == self.matches(path@),
    {
        let path = chars_of(path);
        self.matches_chars(&path)
    }
}

/// Returns true if one of the patterns matches the path.
///
/// The patterns are tried in their order, and the first match settles it.
pub fn is_path_excluded(path: &str, excluded_patterns: &Vec<ExcludePattern>) -> (is_excluded: bool)
    ensures
        is_excluded == excluded(path@, excluded_patterns@),
{
    if excluded_patterns.len() == 0 {
        return false;
    }
    let chars = chars_of(path);
    let mut i: usize = 0;
    while i < excluded_patterns.len()
        invariant
            i <= excluded_patterns.len(),
            chars@ == path@,
            forall|j: int| 0 <= j < i ==> !(#[trigger] excluded_patterns[j]).matches(path@),
        decreases excluded_patterns.len() - i,
    {
        if excluded_patterns[i].matches_chars(&chars) {
            return true;
        }
        i += 1;
    }
    false
}

} // verus!
