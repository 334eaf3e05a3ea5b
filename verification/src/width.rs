//! Display width of strings, in the East Asian Width CJK-wide variant:
//! full-width characters count 2, combining marks 0, everything else its
//! display width.
use vstd::prelude::*;

verus! {

/// The CJK-variant display width of a string: a function of its characters
/// alone.
pub uninterp spec fn width_of(s: Seq<char>) -> nat;

/// Relies on unicode_width's `UnicodeWidthStr::width_cjk`: the width depends
/// on the characters alone. It is a sum of per-character widths of at most 2
/// over at most `isize::MAX` characters, so it stays below `usize::MAX`.
#[verifier::external_body]
pub(crate) fn str_width_cjk(s: &str) -> (r: usize)
    ensures
        r == width_of(s@),
        r < usize::MAX,
{
    unicode_width::UnicodeWidthStr::width_cjk(s)
}

} // verus!
