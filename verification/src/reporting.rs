//! Source locations, and the source text that they point into.
use vstd::prelude::*;

use crate::text::chars_of;

verus! {

/// A span of the source text: its first character and its width.
#[derive(Eq, PartialEq, Debug, Clone, Copy)]
pub struct Location {
    pub start: usize,
    pub width: usize,
}

/// The location of each instruction, by instruction index.
pub type Locations = Vec<Location>;

/// A named source text.
pub struct SourceView {
    pub name: String,
    pub text: String,
}

/// How many new lines come before index `end` of `text`.
pub open spec fn newlines_before(text: Seq<char>, end: int) -> nat
    decreases end,
{
    if end <= 0 || text.len() == 0 {
        0
    } else if end > text.len() {
        newlines_before(text, text.len() as int)
    } else {
        newlines_before(text, end - 1) + if text[end - 1] == '\n' { 1nat } else { 0nat }
    }
}

impl SourceView {
    pub fn new(name: String, text: String) -> (r: SourceView)
        ensures
            r.name == name,
            r.text == text,
    {
        SourceView { name, text }
    }

    /// The line (counted from zero) on which a location starts.
    pub fn lineno(&self, loc: Location) -> (r: usize)
        ensures
            r == newlines_before(self.text@, loc.start as int),
            r <= self.text@.len(),
    {
        let cs = chars_of(self.text.as_str());
        let end = if loc.start < cs.len() { loc.start } else { cs.len() };
        let mut count: usize = 0;
        let mut k: usize = 0;
        while k < end
            invariant
                k <= end <= cs.len(),
                cs@ == self.text@,
                end == (if loc.start < cs.len() { loc.start as int } else { cs.len() as int }),
                count == newlines_before(cs@, k as int),
                count <= k,
            decreases end - k,
        {
            if cs[k] == '\n' {
                count = count + 1;
            }
            k = k + 1;
        }
        count
    }
}

} // verus!
