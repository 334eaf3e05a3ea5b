//! A flat variant of the tokenizer that yields the whole token list at once,
//! with the newline kind folded into the variant name.
use vstd::prelude::*;

verus! {

use crate::Newline;
use crate::TokShape;
use crate::lex::lex_of;
use crate::lex::tokenize;
use crate::toks_shape;
use crate::toks_text;

/// A single lexical unit of the input text, with one variant per newline kind.
#[derive(Debug, Clone, PartialEq)]
pub enum Token {
    /// ' '
    Space,
    /// '\t'
    Tab,
    /// '\n'
    NewlineLF,
    /// '\r\n'
    NewlineCRLF,
    /// A chain of characters without any whitespace.
    Word(String),
}

impl View for Token {
    type V = TokShape;

    open spec fn view(&self) -> TokShape {
        match self {
            Token::Space => TokShape::Space,
            Token::Tab => TokShape::Tab,
            Token::NewlineLF => TokShape::Newline(Newline::LF),
            Token::NewlineCRLF => TokShape::Newline(Newline::CRLF),
            Token::Word(s) => TokShape::Word(s@),
        }
    }
}

/// The shapes of a sequence of flat tokens.
pub open spec fn flat_toks_shape(ts: Seq<Token>) -> Seq<TokShape> {
    ts.map_values(|t: Token| t@)
}

/// Tokenizes the input. The tokens are exactly those of [crate::lex::lex_of],
/// and their textual forms concatenated equal the input.
pub fn lex(input: &str) -> (r: Vec<Token>)
    ensures
        flat_toks_shape(r@) == lex_of(input@),
        toks_text(flat_toks_shape(r@)) == input@,
{
    let toks = tokenize(input);
    let mut out: Vec<Token> = Vec::new();
    let mut i: usize = 0;
    while i < toks.len()
        invariant
            i <= toks.len(),
            flat_toks_shape(out@) == toks_shape(toks@).take(i as int),
        decreases toks.len() - i,
    {
        let t = match &toks[i] {
            crate::Token::Space => Token::Space,
            crate::Token::Tab => Token::Tab,
            crate::Token::Newline(Newline::LF) => Token::NewlineLF,
            crate::Token::Newline(Newline::CRLF) => Token::NewlineCRLF,
            crate::Token::Word(s) => Token::Word(s.clone()),
        };
        assert(t@ == toks@[i as int]@);
        out.push(t);
        proof {
            assert(flat_toks_shape(out@) =~= toks_shape(toks@).take(i as int + 1));
        }
        i = i + 1;
    }
    proof {
        assert(toks_shape(toks@).take(toks@.len() as int) =~= toks_shape(toks@));
    }
    out
}

} // verus!
