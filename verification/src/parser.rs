//! Paragraph-level view of a token stream. The decomposition itself lives in
//! [crate::parse]; this module keeps the paragraph record and its parser
//! entry point, which recognizes no paragraphs yet.
use vstd::prelude::*;

verus! {

/// A paragraph of text with its structural decoration.
pub struct Paragraph {
    /// The actual contents of the paragraph, without whitespace.
    pub words: Vec<String>,
    /// The paragraph's leading whitespace, i.e., indent, if any.
    pub indent: Option<Indent>,
    /// The paragraph's comment token (following the indent), if any.
    pub comment: Option<String>,
    /// The paragraph's bullet point / list token, if any.
    pub bullet: Option<String>,
    /// The newline token for this paragraph.
    pub newline: String,
    /// If this paragraph should print with a final newline.
    pub final_newline: bool,
}

/// A whitespace character.
pub enum Whitespace {
    /// ' '
    Space,
    /// '\t'
    Tab,
}

/// A run of one whitespace character.
pub struct Indent {
    /// The whitespace token for this indent.
    pub whitespace: Whitespace,
    /// Size of the indent, i.e., how many times whitespace repeats.
    pub size: usize,
}

/// Errors of the paragraph parser. There are none: the parser is total, and
/// no value of this type is ever produced.
pub enum Error {
    /// Present only because the type must be inhabited.
    Never,
}

/// Groups a token stream into paragraphs; recognizes none yet.
pub fn parse(tokens: &Vec<crate::lexer::Token>) -> (r: Result<Vec<Paragraph>, Error>)
    ensures
        r matches Ok(v) && v@.len() == 0,
{
    Ok(Vec::new())
}

} // verus!
