//! Token-stream reflow: an early wrapping pass that works directly on a
//! token stream, collapsing single newlines inside a paragraph and breaking
//! lines at the configured width.
use vstd::prelude::*;

verus! {

use crate::formatter::Options;
use crate::width::str_width_cjk;
use crate::width::width_of;
use crate::wrap::sat;

/// A lexical unit of the reflow pass; the newline kind is immaterial here.
#[derive(Debug, Clone, PartialEq)]
pub enum Token {
    /// ' '
    Space,
    /// '\t'
    Tab,
    /// A line break.
    Newline,
    /// A chain of characters without any whitespace.
    Word(String),
}

/// The mathematical shape of a reflow token.
#[verifier::ext_equal]
pub enum ReflowShape {
    Space,
    Tab,
    Newline,
    Word(Seq<char>),
}

impl View for Token {
    type V = ReflowShape;

    open spec fn view(&self) -> ReflowShape {
        match self {
            Token::Space => ReflowShape::Space,
            Token::Tab => ReflowShape::Tab,
            Token::Newline => ReflowShape::Newline,
            Token::Word(s) => ReflowShape::Word(s@),
        }
    }
}

/// The shapes of a sequence of reflow tokens.
pub open spec fn reflow_shape(ts: Seq<Token>) -> Seq<ReflowShape> {
    ts.map_values(|t: Token| t@)
}

/// The reflowed output of a token stream, given the width of the line built
/// so far and the number of newlines just seen. Spaces and tabs are dropped;
/// a single newline inside a paragraph is swallowed; two newlines pass
/// through and end the paragraph; words are appended with a space when they
/// fit the width and open a new line otherwise.
pub open spec fn reflow_spec(ts: Seq<ReflowShape>, lw: int, nc: int, budget: int) -> Seq<
    ReflowShape,
>
    decreases ts.len(),
{
    if ts.len() == 0 {
        if nc == 1 && lw != 0 {
            seq![ReflowShape::Newline]
        } else {
            Seq::empty()
        }
    } else {
        let rest = ts.drop_first();
        match ts[0] {
            ReflowShape::Newline => {
                let nc2 = nc + 1;
                if nc2 == 1 && lw != 0 {
                    reflow_spec(rest, lw, 1, budget)
                } else if nc2 == 2 {
                    seq![ReflowShape::Newline, ReflowShape::Newline] + reflow_spec(
                        rest,
                        0,
                        2,
                        budget,
                    )
                } else {
                    seq![ReflowShape::Newline] + reflow_spec(rest, 0, nc2, budget)
                }
            },
            ReflowShape::Word(s) => {
                let w = width_of(s) as int;
                if lw == 0 {
                    seq![ReflowShape::Word(s)] + reflow_spec(rest, w, 0, budget)
                } else {
                    let nw = sat(lw + 1 + w);
                    if nw <= budget {
                        seq![ReflowShape::Space, ReflowShape::Word(s)] + reflow_spec(
                            rest,
                            nw,
                            0,
                            budget,
                        )
                    } else {
                        seq![ReflowShape::Newline, ReflowShape::Word(s)] + reflow_spec(
                            rest,
                            w,
                            0,
                            budget,
                        )
                    }
                }
            },
            _ => reflow_spec(rest, lw, 0, budget),
        }
    }
}

/// The reflowed token stream, served one token at a time.
pub struct Transformer {
    out: Vec<Token>,
    pos: usize,
}

impl Transformer {
    /// The tokens not yet served.
    pub closed spec fn remaining(&self) -> Seq<ReflowShape> {
        reflow_shape(self.out@).skip(self.pos as int)
    }

    /// The serving position has not run past the output.
    pub closed spec fn wf(&self) -> bool {
        self.pos <= self.out@.len()
    }

    /// Serves the next reflowed token, if one is left.
    pub fn next_token(&mut self) -> (r: Option<Token>)
        requires
            old(self).wf(),
        ensures
            final(self).wf(),
            match r {
                Some(t) => old(self).remaining() == seq![t@] + final(self).remaining(),
                None => {
                    &&& old(self).remaining() == Seq::<ReflowShape>::empty()
                    &&& final(self).remaining() == Seq::<ReflowShape>::empty()
                },
            },
    {
        if self.pos < self.out.len() {
            let t = match &self.out[self.pos] {
                Token::Space => Token::Space,
                Token::Tab => Token::Tab,
                Token::Newline => Token::Newline,
                Token::Word(s) => Token::Word(s.clone()),
            };
            let ghost tv = t@;
            self.pos = self.pos + 1;
            proof {
                assert(old(self).remaining() =~= seq![tv] + self.remaining());
            }
            Some(t)
        } else {
            proof {
                assert(old(self).remaining() =~= Seq::<ReflowShape>::empty());
            }
            None
        }
    }
}

/// Reflows a token stream: the served tokens are exactly [reflow_spec] of
/// the source, starting on a fresh line.
pub fn transform(source: Vec<Token>, options: Options) -> (t: Transformer)
    ensures
        t.wf(),
        t.remaining() == reflow_spec(reflow_shape(source@), 0, 0, options.line_width as int),
{
    let ghost ts = reflow_shape(source@);
    let budget = options.line_width;
    let mut out: Vec<Token> = Vec::new();
    let mut line_width: usize = 0;
    let mut newline_count: usize = 0;
    let mut i: usize = 0;
    proof {
        assert(ts.skip(0) =~= ts);
    }
    while i < source.len()
        invariant
            i <= source@.len(),
            newline_count <= i,
            reflow_shape(out@) + reflow_spec(
                ts.skip(i as int),
                line_width as int,
                newline_count as int,
                budget as int,
            ) == reflow_spec(ts, 0, 0, budget as int),
        decreases source@.len() - i,
    {
        let ghost pre = ts.skip(i as int);
        proof {
            assert(pre[0] == ts[i as int]);
            assert(pre.drop_first() =~= ts.skip(i as int + 1));
        }
        match &source[i] {
            Token::Space => {
                newline_count = 0;
            },
            Token::Tab => {
                newline_count = 0;
            },
            Token::Newline => {
                let nc2 = newline_count + 1;
                if nc2 == 1 && line_width != 0 {
                    newline_count = 1;
                } else if nc2 == 2 {
                    out.push(Token::Newline);
                    out.push(Token::Newline);
                    proof {
                        assert(reflow_shape(out@) =~= reflow_shape(
                            out@.drop_last().drop_last(),
                        ) + seq![ReflowShape::Newline, ReflowShape::Newline]);
                        assert(reflow_shape(out@.drop_last().drop_last()) + (seq![
                            ReflowShape::Newline,
                            ReflowShape::Newline,
                        ] + reflow_spec(pre.drop_first(), 0, 2, budget as int)) =~= reflow_shape(
                            out@,
                        ) + reflow_spec(pre.drop_first(), 0, 2, budget as int));
                    }
                    line_width = 0;
                    newline_count = 2;
                } else {
                    out.push(Token::Newline);
                    proof {
                        assert(reflow_shape(out@) =~= reflow_shape(out@.drop_last()).push(
                            ReflowShape::Newline,
                        ));
                        assert(reflow_shape(out@.drop_last()) + (seq![ReflowShape::Newline]
                            + reflow_spec(
                            pre.drop_first(),
                            0,
                            nc2 as int,
                            budget as int,
                        )) =~= reflow_shape(out@) + reflow_spec(
                            pre.drop_first(),
                            0,
                            nc2 as int,
                            budget as int,
                        ));
                    }
                    line_width = 0;
                    newline_count = nc2;
                }
            },
            Token::Word(s) => {
                newline_count = 0;
                let w = str_width_cjk(s.as_str());
                if line_width == 0 {
                    let ghost sv = s@;
                    out.push(Token::Word(s.clone()));
                    proof {
                        assert(reflow_shape(out@) =~= reflow_shape(out@.drop_last()).push(
                            ReflowShape::Word(sv),
                        ));
                        assert(reflow_shape(out@.drop_last()) + (seq![ReflowShape::Word(sv)]
                            + reflow_spec(pre.drop_first(), w as int, 0, budget as int))
                            =~= reflow_shape(out@) + reflow_spec(
                            pre.drop_first(),
                            w as int,
                            0,
                            budget as int,
                        ));
                    }
                    line_width = w;
                } else {
                    let nw = line_width.saturating_add(1).saturating_add(w);
                    proof {
                        assert(nw == sat(line_width as int + 1 + w as int));
                    }
                    if nw <= budget {
                        let ghost sv = s@;
                        out.push(Token::Space);
                        out.push(Token::Word(s.clone()));
                        proof {
                            assert(reflow_shape(out@) =~= reflow_shape(
                                out@.drop_last().drop_last(),
                            ) + seq![ReflowShape::Space, ReflowShape::Word(sv)]);
                            assert(reflow_shape(out@.drop_last().drop_last()) + (seq![
                                ReflowShape::Space,
                                ReflowShape::Word(sv),
                            ] + reflow_spec(pre.drop_first(), nw as int, 0, budget as int))
                                =~= reflow_shape(out@) + reflow_spec(
                                pre.drop_first(),
                                nw as int,
                                0,
                                budget as int,
                            ));
                        }
                        line_width = nw;
                    } else {
                        let ghost sv = s@;
                        out.push(Token::Newline);
                        out.push(Token::Word(s.clone()));
                        proof {
                            assert(reflow_shape(out@) =~= reflow_shape(
                                out@.drop_last().drop_last(),
                            ) + seq![ReflowShape::Newline, ReflowShape::Word(sv)]);
                            assert(reflow_shape(out@.drop_last().drop_last()) + (seq![
                                ReflowShape::Newline,
                                ReflowShape::Word(sv),
                            ] + reflow_spec(pre.drop_first(), w as int, 0, budget as int))
                                =~= reflow_shape(out@) + reflow_spec(
                                pre.drop_first(),
                                w as int,
                                0,
                                budget as int,
                            ));
                        }
                        line_width = w;
                    }
                }
            },
        }
        i = i + 1;
    }
    proof {
        assert(ts.skip(source@.len() as int) =~= Seq::<ReflowShape>::empty());
    }
    if newline_count == 1 && line_width != 0 {
        out.push(Token::Newline);
        proof {
            assert(reflow_shape(out@) =~= reflow_shape(out@.drop_last()) + seq![
                ReflowShape::Newline,
            ]);
        }
    } else {
        proof {
            assert(reflow_shape(out@) + Seq::<ReflowShape>::empty() =~= reflow_shape(out@));
        }
    }
    let t = Transformer { out, pos: 0 };
    proof {
        assert(t.remaining() =~= reflow_spec(ts, 0, 0, budget as int));
    }
    t
}

} // verus!
