//! Unicode-aware grapheme tokenizer: segments the input into spaces, tabs,
//! newlines and words, honoring grapheme cluster boundaries for word content.
use vstd::prelude::*;

verus! {

use crate::Newline;
use crate::TokShape;
use crate::Token;
use crate::tok_text;
use crate::toks_shape;
use crate::toks_text;

/// The extended grapheme clusters of a string, in order.
pub uninterp spec fn graphemes_of(s: Seq<char>) -> Seq<Seq<char>>;

/// Relies on unicode_segmentation's `UnicodeSegmentation::graphemes` (extended
/// grapheme clusters): the segmentation depends on the characters alone, the
/// clusters are non-empty, and concatenated they equal the original string.
#[verifier::external_body]
fn graphemes(s: &str) -> (r: Vec<String>)
    ensures
        r.deep_view() == graphemes_of(s@),
        r.deep_view().flatten() == s@,
        forall|i: int| 0 <= i < r.deep_view().len() ==> r.deep_view()[i].len() > 0,
{
    unicode_segmentation::UnicodeSegmentation::graphemes(s, true).map(|g| g.to_string()).collect()
}

/// The separator token a grapheme cluster stands for, if any: a space, tab,
/// line feed or carriage return + line feed cluster breaks words apart.
pub open spec fn sep_token(g: Seq<char>) -> Option<TokShape> {
    if g.len() == 1 && g[0] == ' ' {
        Some(TokShape::Space)
    } else if g.len() == 1 && g[0] == '\t' {
        Some(TokShape::Tab)
    } else if g.len() == 1 && g[0] == '\n' {
        Some(TokShape::Newline(Newline::LF))
    } else if g.len() == 2 && g[0] == '\r' && g[1] == '\n' {
        Some(TokShape::Newline(Newline::CRLF))
    } else {
        None
    }
}

/// The shape of an optional token.
pub open spec fn opt_shape(t: Option<Token>) -> Option<TokShape> {
    match t {
        Some(t) => Some(t@),
        None => None,
    }
}

/// Decides whether a grapheme cluster is a word-breaking separator, and which
/// token it becomes. A lone carriage return is no separator: it stays inside
/// whatever word contains it.
fn word_break(grapheme: &str) -> (r: Option<Token>)
    ensures
        opt_shape(r) == sep_token(grapheme@),
{
    let len = grapheme.unicode_len();
    if len == 1 {
        let c = grapheme.get_char(0);
        if c == ' ' {
            Some(Token::Space)
        } else if c == '\t' {
            Some(Token::Tab)
        } else if c == '\n' {
            Some(Token::Newline(Newline::LF))
        } else {
            None
        }
    } else if len == 2 {
        let c0 = grapheme.get_char(0);
        let c1 = grapheme.get_char(1);
        if c0 == '\r' && c1 == '\n' {
            Some(Token::Newline(Newline::CRLF))
        } else {
            None
        }
    } else {
        None
    }
}

/// The tokens of a grapheme cluster sequence, with `cur` the contents of the
/// word in progress: separators are emitted as their own tokens, maximal runs
/// of other clusters merge into words.
pub open spec fn lex_spec(gs: Seq<Seq<char>>, cur: Seq<char>) -> Seq<TokShape>
    decreases gs.len(),
{
    if gs.len() == 0 {
        if cur.len() == 0 {
            Seq::empty()
        } else {
            seq![TokShape::Word(cur)]
        }
    } else {
        match sep_token(gs[0]) {
            Some(t) => if cur.len() == 0 {
                seq![t] + lex_spec(gs.drop_first(), Seq::empty())
            } else {
                seq![TokShape::Word(cur), t] + lex_spec(gs.drop_first(), Seq::empty())
            },
            None => lex_spec(gs.drop_first(), cur + gs[0]),
        }
    }
}

/// The tokens of a whole input: no word is in progress at the start.
pub open spec fn lex_of(s: Seq<char>) -> Seq<TokShape> {
    lex_spec(graphemes_of(s), Seq::empty())
}

/// Concatenating the text of the tokens of a grapheme sequence restores the
/// word in progress followed by every cluster: tokenization loses nothing.
proof fn lemma_lex_spec_text(gs: Seq<Seq<char>>, cur: Seq<char>)
    ensures
        toks_text(lex_spec(gs, cur)) == cur + gs.flatten(),
    decreases gs.len(),
{
    if gs.len() == 0 {
        if cur.len() == 0 {
            assert(toks_text(lex_spec(gs, cur)) =~= cur + gs.flatten());
        } else {
            let out = seq![TokShape::Word(cur)];
            assert(out.drop_first() =~= Seq::<TokShape>::empty());
            assert(out[0] == TokShape::Word(cur));
            assert(toks_text(out.drop_first()) == Seq::<char>::empty());
            assert(toks_text(out) == cur + toks_text(out.drop_first()));
            assert(toks_text(out) =~= cur + gs.flatten());
        }
    } else {
        let rest = gs.drop_first();
        assert(gs.flatten() == gs[0] + rest.flatten());
        match sep_token(gs[0]) {
            Some(t) => {
                lemma_lex_spec_text(rest, Seq::empty());
                let tail = lex_spec(rest, Seq::empty());
                assert(toks_text(tail) == Seq::<char>::empty() + rest.flatten());
                assert(toks_text(tail) =~= rest.flatten());
                assert(tok_text(t) =~= gs[0]);
                if cur.len() == 0 {
                    let out = seq![t] + tail;
                    assert(out.drop_first() =~= tail);
                    assert(out[0] == t);
                    assert(toks_text(out) == tok_text(t) + toks_text(tail));
                    assert(toks_text(out) =~= cur + gs.flatten());
                } else {
                    let mid = seq![t] + tail;
                    assert(mid.drop_first() =~= tail);
                    assert(mid[0] == t);
                    assert(toks_text(mid) == tok_text(t) + toks_text(tail));
                    let out = seq![TokShape::Word(cur), t] + tail;
                    assert(out.drop_first() =~= mid);
                    assert(out[0] == TokShape::Word(cur));
                    assert(toks_text(out) == cur + toks_text(mid));
                    assert(toks_text(out) =~= cur + gs.flatten());
                }
            },
            None => {
                lemma_lex_spec_text(rest, cur + gs[0]);
                assert((cur + gs[0]) + rest.flatten() =~= cur + gs.flatten());
            },
        }
    }
}

/// Segments the input into the token alphabet, walking its grapheme clusters
/// with a two-state machine: between words, a separator cluster is emitted
/// directly; inside a word, other clusters accumulate until the next
/// separator or the end of input.
///
/// Tokenizer round-trip: concatenating the textual form of every emitted
/// token equals the input exactly, for every input.
pub fn tokenize(input: &str) -> (r: Vec<Token>)
    ensures
        toks_shape(r@) == lex_of(input@),
        toks_text(toks_shape(r@)) == input@,
{
    let gs = graphemes(input);
    let ghost all = graphemes_of(input@);
    let mut toks: Vec<Token> = Vec::new();
    let mut cur: String = String::new();
    let mut in_word: bool = false;
    let mut i: usize = 0;
    proof {
        assert(all.skip(0) =~= all);
    }
    while i < gs.len()
        invariant
            i <= gs.len(),
            in_word <==> cur@.len() != 0,
            toks_shape(toks@) + lex_spec(all.skip(i as int), cur@) == lex_spec(all, Seq::empty()),
        decreases gs.len() - i,
    {
        let ghost pre = all.skip(i as int);
        proof {
            assert(pre[0] == all[i as int]);
            assert(pre.drop_first() =~= all.skip(i as int + 1));
        }
        let g = &gs[i];
        assert(g@ == all[i as int]);
        match word_break(g.as_str()) {
            Some(t) => {
                if in_word {
                    let ghost word = cur@;
                    let done = cur;
                    cur = String::new();
                    in_word = false;
                    toks.push(Token::Word(done));
                    proof {
                        assert(toks_shape(toks@) =~= toks_shape(toks@.drop_last()).push(
                            TokShape::Word(word),
                        ));
                    }
                    toks.push(t);
                    proof {
                        assert(toks_shape(toks@) =~= toks_shape(toks@.drop_last()).push(
                            sep_token(all[i as int])->Some_0,
                        ));
                        assert(toks_shape(toks@) + lex_spec(pre.drop_first(), Seq::empty())
                            =~= (toks_shape(toks@.drop_last().drop_last()) + (seq![
                            TokShape::Word(word),
                            sep_token(all[i as int])->Some_0,
                        ] + lex_spec(pre.drop_first(), Seq::empty()))));
                    }
                } else {
                    toks.push(t);
                    proof {
                        assert(toks_shape(toks@) =~= toks_shape(toks@.drop_last()).push(
                            sep_token(all[i as int])->Some_0,
                        ));
                        assert(toks_shape(toks@) + lex_spec(pre.drop_first(), Seq::empty())
                            =~= (toks_shape(toks@.drop_last()) + (seq![
                            sep_token(all[i as int])->Some_0,
                        ] + lex_spec(pre.drop_first(), Seq::empty()))));
                    }
                }
            },
            None => {
                cur.append(g.as_str());
                in_word = true;
            },
        }
        i = i + 1;
    }
    proof {
        assert(all.skip(gs.len() as int) =~= Seq::<Seq<char>>::empty());
    }
    if in_word {
        let ghost word = cur@;
        toks.push(Token::Word(cur));
        proof {
            assert(toks_shape(toks@) =~= toks_shape(toks@.drop_last()).push(TokShape::Word(word)));
            assert(toks_shape(toks@) =~= toks_shape(toks@.drop_last()) + seq![
                TokShape::Word(word),
            ]);
        }
    } else {
        proof {
            assert(toks_shape(toks@) + lex_spec(Seq::empty(), Seq::<char>::empty()) =~= toks_shape(
                toks@,
            ));
        }
    }
    proof {
        lemma_lex_spec_text(all, Seq::empty());
        assert(Seq::<char>::empty() + all.flatten() =~= all.flatten());
    }
    toks
}

} // verus!
