//! Formatting parameters of the token-stream transformer.
use vstd::prelude::*;

verus! {

/// Width settings used when reflowing a token stream.
#[derive(Debug, Clone, PartialEq, Eq, Structural)]
pub struct Options {
    /// Maximum line width to wrap at.
    pub line_width: usize,
    /// How much a tab indent contributes to line width.
    pub tab_width: usize,
}

impl Default for Options {
    fn default() -> (r: Self)
        ensures
            r.line_width == 80usize && r.tab_width == 4usize,
    {
        Self { line_width: 80, tab_width: 4 }
    }
}

} // verus!
