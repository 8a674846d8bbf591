//! A ripgrep match and a searched word, as the definition search reads them.

use crate::text::{str_starts_with, str_trim_start, trimmed_start};
use vstd::prelude::*;
use vstd::std_specs::cmp::PartialEqSpecImpl;

verus! {

/// One line that ripgrep matched.
#[derive(Debug, Eq, Hash)]
pub struct Match {
    /// Path of the file.
    pub path: String,
    /// 1-based line number.
    pub line_number: u64,
    /// Column of the first submatch.
    pub column: u64,
    /// Text of the matched line.
    pub line: String,
}

/// The plain content of a [`Match`].
pub struct MatchView {
    pub path: Seq<char>,
    pub line_number: u64,
    pub column: u64,
    pub line: Seq<char>,
}

impl View for Match {
    type V = MatchView;

    open spec fn view(&self) -> MatchView {
        MatchView {
            path: self.path@,
            line_number: self.line_number,
            column: self.column,
            line: self.line@,
        }
    }
}

impl Clone for Match {
    fn clone(&self) -> (r: Self)
        ensures
            r == *self,
    {
        Match {
            path: self.path.clone(),
            line_number: self.line_number,
            column: self.column,
            line: self.line.clone(),
        }
    }
}

impl PartialEq for Match {
    fn eq(&self, other: &Self) -> (r: bool) {
        self.path == other.path && self.line_number == other.line_number && self.column
            == other.column && self.line == other.line
    }
}

impl PartialEqSpecImpl for Match {
    open spec fn obeys_eq_spec() -> bool {
        true
    }

    open spec fn eq_spec(&self, other: &Match) -> bool {
        self@ == other@
    }
}

impl Match {
    /// Whether the matched line, without its leading white space, starts
    /// with `s`.
    pub fn line_starts_with(&self, s: &str) -> (r: bool)
        ensures
            r == s@.is_prefix_of(trimmed_start(self.line@)),
    {
        str_starts_with(str_trim_start(self.line.as_str()), s)
    }
}

/// The word whose definitions and references are searched.
pub struct Word {
    /// The word as typed.
    pub raw: String,
}

} // verus!
