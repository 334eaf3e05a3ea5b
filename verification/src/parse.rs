//! Line parser: decomposes the token stream into [Line] records, one per
//! physical line, each split into indent, comment, padding, bullet and words.
use vstd::prelude::*;

verus! {

use crate::Line;
use crate::LineShape;
use crate::TokShape;
use crate::Token;
use crate::Whitespace;
use crate::toks_shape;

/// End of the run of tokens equal to `t` that starts at `from`.
pub open spec fn run_end(ts: Seq<TokShape>, from: int, t: TokShape) -> int
    decreases ts.len() - from,
{
    if from < ts.len() && ts[from] == t {
        run_end(ts, from + 1, t)
    } else {
        from
    }
}

proof fn lemma_run_end_bounds(ts: Seq<TokShape>, from: int, t: TokShape)
    requires
        0 <= from <= ts.len(),
    ensures
        from <= run_end(ts, from, t) <= ts.len(),
    decreases ts.len() - from,
{
    if from < ts.len() && ts[from] == t {
        lemma_run_end_bounds(ts, from + 1, t);
    }
}

/// The whitespace slot at `from`: if the next token is a space or tab, the
/// maximal run of tokens equal to it, counted; otherwise the empty run
/// `Space(0)`. Returns the run and the position after it.
pub open spec fn ws_slot(ts: Seq<TokShape>, from: int) -> (Whitespace, int) {
    if from < ts.len() && ts[from] == TokShape::Space {
        let end = run_end(ts, from, TokShape::Space);
        (Whitespace::Space((end - from) as usize), end)
    } else if from < ts.len() && ts[from] == TokShape::Tab {
        let end = run_end(ts, from, TokShape::Tab);
        (Whitespace::Tab((end - from) as usize), end)
    } else {
        (Whitespace::Space(0), from)
    }
}

/// The exact set of recognized comment tokens.
pub open spec fn is_comment_word(w: Seq<char>) -> bool {
    ||| w == seq!['#']
    ||| w == seq!['>']
    ||| w == seq![';']
    ||| w == seq!['/', '/']
    ||| w == seq!['-', '-']
    ||| w == seq![';', ';']
    ||| w == seq!['/', '/', '/']
    ||| w == seq!['/', '/', '!']
}

/// The comment slot at `from`: a word equal to a recognized comment token.
pub open spec fn comment_slot(ts: Seq<TokShape>, from: int) -> (Option<Seq<char>>, int) {
    if from < ts.len() && ts[from] is Word && is_comment_word(ts[from]->Word_0) {
        (Some(ts[from]->Word_0), from + 1)
    } else {
        (None, from)
    }
}

/// An ASCII decimal digit.
pub open spec fn is_digit(c: char) -> bool {
    48 <= (c as u32) && (c as u32) <= 57
}

/// The bullet pattern: one of the bullet literals, or at least two characters
/// ending in `.` or `)` whose other characters are all ASCII digits.
pub open spec fn is_bullet_word(w: Seq<char>) -> bool {
    ||| w == seq!['-']
    ||| w == seq!['*']
    ||| w == seq!['\u{2022}']
    ||| (w.len() > 1 && (w.last() == '.' || w.last() == ')') && (forall|i: int|
        0 <= i < w.len() - 1 ==> is_digit(#[trigger] w[i])))
}

/// The bullet slot at `from`: a word matching the bullet pattern.
pub open spec fn bullet_slot(ts: Seq<TokShape>, from: int) -> (Option<Seq<char>>, int) {
    if from < ts.len() && ts[from] is Word && is_bullet_word(ts[from]->Word_0) {
        (Some(ts[from]->Word_0), from + 1)
    } else {
        (None, from)
    }
}

/// The words slot at `from`: word contents until the next newline token or
/// the end of the stream, interior spaces and tabs dropped. The boolean says
/// whether a newline terminated the line; the newline is consumed.
pub open spec fn words_slot(ts: Seq<TokShape>, from: int) -> (Seq<Seq<char>>, bool, int)
    decreases ts.len() - from,
{
    if from >= ts.len() {
        (Seq::empty(), false, from)
    } else {
        match ts[from] {
            TokShape::Newline(_) => (Seq::empty(), true, from + 1),
            TokShape::Word(w) => {
                let (rest, nl, end) = words_slot(ts, from + 1);
                (seq![w] + rest, nl, end)
            },
            _ => words_slot(ts, from + 1),
        }
    }
}

proof fn lemma_words_slot_bounds(ts: Seq<TokShape>, from: int)
    requires
        0 <= from <= ts.len(),
    ensures
        from <= words_slot(ts, from).2 <= ts.len(),
        from < ts.len() ==> from < words_slot(ts, from).2,
    decreases ts.len() - from,
{
    if from < ts.len() {
        lemma_words_slot_bounds(ts, from + 1);
    }
}

/// One line of the grammar, parsed at `from`: indent, comment, padding,
/// bullet and words, in that fixed order. Returns the line and the position
/// after it.
pub open spec fn line_at(ts: Seq<TokShape>, from: int) -> (LineShape, int) {
    let (indent, p1) = ws_slot(ts, from);
    let (comment, p2) = comment_slot(ts, p1);
    let (padding, p3) = ws_slot(ts, p2);
    let (bullet, p4) = bullet_slot(ts, p3);
    let (words, newline, p5) = words_slot(ts, p4);
    (LineShape { indent, comment, padding, bullet, words, newline }, p5)
}

/// Every slot makes progress within bounds; a line consumes at least one
/// token whenever one is left.
pub proof fn lemma_line_at_bounds(ts: Seq<TokShape>, from: int)
    requires
        0 <= from <= ts.len(),
    ensures
        from <= line_at(ts, from).1 <= ts.len(),
        from < ts.len() ==> from < line_at(ts, from).1,
{
    lemma_run_end_bounds(ts, from, TokShape::Space);
    lemma_run_end_bounds(ts, from, TokShape::Tab);
    let p1 = ws_slot(ts, from).1;
    let p2 = comment_slot(ts, p1).1;
    lemma_run_end_bounds(ts, p2, TokShape::Space);
    lemma_run_end_bounds(ts, p2, TokShape::Tab);
    let p3 = ws_slot(ts, p2).1;
    let p4 = bullet_slot(ts, p3).1;
    lemma_words_slot_bounds(ts, p4);
}

/// The lines of a token stream: a new line record is produced whenever at
/// least one token is left, so an empty stream yields no lines.
pub open spec fn parse_spec(ts: Seq<TokShape>, from: int) -> Seq<LineShape>
    decreases ts.len() - from,
{
    if from < 0 || from >= ts.len() {
        Seq::empty()
    } else {
        let (line, end) = line_at(ts, from);
        let next = if end <= from || end > ts.len() {
            from + 1
        } else {
            end
        };
        seq![line] + parse_spec(ts, next)
    }
}

/// The lines of a whole token stream.
pub open spec fn parse_of(ts: Seq<TokShape>) -> Seq<LineShape> {
    parse_spec(ts, 0)
}

/// The shapes of a sequence of lines.
pub open spec fn lines_shape(ls: Seq<Line>) -> Seq<LineShape> {
    ls.map_values(|l: Line| l@)
}

/// The token a whitespace run repeats.
pub open spec fn ws_tok(w: Whitespace) -> TokShape {
    match w {
        Whitespace::Space(_) => TokShape::Space,
        Whitespace::Tab(_) => TokShape::Tab,
    }
}

/// The tokens of a whitespace run.
pub open spec fn ws_toks(w: Whitespace) -> Seq<TokShape> {
    Seq::new(w.spec_count() as nat, |i: int| ws_tok(w))
}

/// The token of an optional word slot.
pub open spec fn opt_word_tok(o: Option<Seq<char>>) -> Seq<TokShape> {
    match o {
        Some(w) => seq![TokShape::Word(w)],
        None => Seq::empty(),
    }
}

/// Words each preceded by a single space.
pub open spec fn spaced_words(ws: Seq<Seq<char>>) -> Seq<TokShape>
    decreases ws.len(),
{
    if ws.len() == 0 {
        Seq::empty()
    } else {
        seq![TokShape::Space, TokShape::Word(ws[0])] + spaced_words(ws.drop_first())
    }
}

/// The canonical tokens of a line's words slot: after a bullet every word
/// is preceded by one space; otherwise the first word follows the prefix
/// directly.
pub open spec fn words_toks(l: LineShape) -> Seq<TokShape> {
    match l.bullet {
        Some(_) => spaced_words(l.words),
        None => if l.words.len() == 0 {
            Seq::empty()
        } else {
            seq![TokShape::Word(l.words[0])] + spaced_words(l.words.drop_first())
        },
    }
}

/// The canonical token sequence of a line: every slot in grammar order,
/// single spaces between words, and a line feed when the line had one.
pub open spec fn line_tokens(l: LineShape) -> Seq<TokShape> {
    ws_toks(l.indent) + opt_word_tok(l.comment) + ws_toks(l.padding) + opt_word_tok(l.bullet)
        + words_toks(l) + (if l.newline {
        seq![TokShape::Newline(crate::Newline::LF)]
    } else {
        Seq::empty()
    })
}

/// A line the parser can reproduce exactly from its canonical tokens: empty
/// runs are canonical spaces, slot contents match their patterns, adjacent
/// whitespace runs cannot merge, the first word cannot be mistaken for a
/// comment or bullet, and the line is not entirely empty.
pub open spec fn line_wf(l: LineShape) -> bool {
    &&& (l.indent.spec_count() == 0 ==> l.indent == Whitespace::Space(0))
    &&& (l.padding.spec_count() == 0 ==> l.padding == Whitespace::Space(0))
    &&& (match l.comment {
        Some(c) => is_comment_word(c),
        None => true,
    })
    &&& (match l.bullet {
        Some(b) => is_bullet_word(b),
        None => true,
    })
    &&& (l.comment is None && l.indent.spec_count() == 0 ==> l.padding.spec_count() == 0)
    &&& (l.comment is None && l.indent.spec_count() > 0 && l.padding.spec_count() > 0
        ==> crate::ws_char(l.indent) != crate::ws_char(l.padding))
    &&& (l.bullet is None && l.words.len() > 0 ==> !is_bullet_word(l.words[0]))
    &&& (l.comment is None && l.padding.spec_count() == 0 && l.bullet is None && l.words.len()
        > 0 ==> !is_comment_word(l.words[0]))
    &&& (l.newline || l.words.len() > 0 || l.bullet is Some || l.comment is Some
        || l.indent.spec_count() > 0 || l.padding.spec_count() > 0)
}

/// A bullet word is never a comment token.
proof fn lemma_bullet_not_comment(w: Seq<char>)
    requires
        is_bullet_word(w),
    ensures
        !is_comment_word(w),
{
    if w == seq!['-'] || w == seq!['*'] || w == seq!['\u{2022}'] {
        assert(w.len() == 1);
        assert(w[0] == '-' || w[0] == '*' || w[0] == '\u{2022}');
    } else {
        assert(w.len() > 1 && (w.last() == '.' || w.last() == ')'));
    }
}

/// A maximal run of one whitespace token is consumed exactly.
proof fn lemma_run_end_exact(ts: Seq<TokShape>, from: int, t: TokShape, count: int)
    requires
        0 <= from,
        0 <= count,
        from + count <= ts.len(),
        forall|k: int| from <= k < from + count ==> ts[k] == t,
        from + count == ts.len() || ts[from + count] != t,
    ensures
        run_end(ts, from, t) == from + count,
    decreases count,
{
    if count > 0 {
        lemma_run_end_exact(ts, from + 1, t, count - 1);
    }
}

/// The words slot consumes exactly the canonical words pattern: single
/// spaces, then the line feed when one follows.
proof fn lemma_words_pattern(
    pre: Seq<TokShape>,
    words: Seq<Seq<char>>,
    lead: bool,
    nl: bool,
    rest: Seq<TokShape>,
)
    requires
        !nl ==> rest.len() == 0,
    ensures
        ({
            let pat = if lead {
                spaced_words(words)
            } else if words.len() == 0 {
                Seq::<TokShape>::empty()
            } else {
                seq![TokShape::Word(words[0])] + spaced_words(words.drop_first())
            };
            let nlt = if nl {
                seq![TokShape::Newline(crate::Newline::LF)]
            } else {
                Seq::<TokShape>::empty()
            };
            words_slot(pre + pat + nlt + rest, pre.len() as int) == (
                words,
                nl,
                (pre.len() + pat.len() + nlt.len()) as int,
            )
        }),
    decreases words.len(), (if lead {
        1int
    } else {
        0int
    }),
{
    let pat = if lead {
        spaced_words(words)
    } else if words.len() == 0 {
        Seq::<TokShape>::empty()
    } else {
        seq![TokShape::Word(words[0])] + spaced_words(words.drop_first())
    };
    let nlt = if nl {
        seq![TokShape::Newline(crate::Newline::LF)]
    } else {
        Seq::<TokShape>::empty()
    };
    let ts = pre + pat + nlt + rest;
    let from = pre.len() as int;
    if words.len() == 0 {
        if nl {
            assert(ts[from] == TokShape::Newline(crate::Newline::LF));
            assert(words_slot(ts, from) == (Seq::<Seq<char>>::empty(), true, from + 1));
            assert(words_slot(ts, from).0 =~= words);
        } else {
            assert(ts.len() == from);
            assert(words_slot(ts, from).0 =~= words);
        }
    } else {
        if lead {
            assert(spaced_words(words) == seq![TokShape::Space, TokShape::Word(words[0])]
                + spaced_words(words.drop_first()));
            let pat2 = seq![TokShape::Word(words[0])] + spaced_words(words.drop_first());
            assert(pat =~= seq![TokShape::Space] + pat2);
            lemma_words_pattern(pre + seq![TokShape::Space], words, false, nl, rest);
            assert((pre + seq![TokShape::Space]) + pat2 + nlt + rest =~= ts);
            assert(ts[from] == TokShape::Space);
            assert(words_slot(ts, from) == words_slot(ts, from + 1));
        } else {
            let tail = words.drop_first();
            let pat2 = spaced_words(tail);
            assert(pat =~= seq![TokShape::Word(words[0])] + pat2);
            lemma_words_pattern(pre + seq![TokShape::Word(words[0])], tail, true, nl, rest);
            assert((pre + seq![TokShape::Word(words[0])]) + pat2 + nlt + rest =~= ts);
            assert(ts[from] == TokShape::Word(words[0]));
            let (rw, rnl, rend) = words_slot(ts, from + 1);
            assert(words_slot(ts, from) == (seq![words[0]] + rw, rnl, rend));
            assert(seq![words[0]] + tail =~= words);
        }
    }
}

/// The grammar reads back a well-formed line from its canonical tokens
/// exactly, wherever it stands in the stream: every token lands in the slot
/// it came from.
proof fn lemma_line_tokens_exact(pre: Seq<TokShape>, l: LineShape, rest: Seq<TokShape>)
    requires
        line_wf(l),
        l.newline || rest.len() == 0,
    ensures
        line_at(pre + line_tokens(l) + rest, pre.len() as int) == (
            l,
            (pre.len() + line_tokens(l).len()) as int,
        ),
{
    let ts = pre + line_tokens(l) + rest;
    let a = ws_toks(l.indent);
    let b = opt_word_tok(l.comment);
    let c = ws_toks(l.padding);
    let d = opt_word_tok(l.bullet);
    let e = words_toks(l);
    let f: Seq<TokShape> = if l.newline {
        seq![TokShape::Newline(crate::Newline::LF)]
    } else {
        Seq::empty()
    };
    assert(ts =~= pre + a + b + c + d + e + f + rest);
    let p0 = pre.len() as int;
    let p1 = p0 + a.len() as int;
    let p2 = p1 + b.len() as int;
    let p3 = p2 + c.len() as int;
    let p4 = p3 + d.len() as int;
    let p5 = p4 + e.len() as int;

    // the token right after the indent run, when one exists, differs from
    // the indent token
    assert forall|k: int| p0 <= k < p1 implies ts[k] == ws_tok(l.indent) by {}
    if p1 < ts.len() {
        match l.comment {
            Some(cw) => {
                assert(ts[p1] == TokShape::Word(cw));
            },
            None => {
                if c.len() > 0 {
                    assert(ts[p1] == ws_tok(l.padding));
                    assert(a.len() > 0 ==> ws_tok(l.padding) != ws_tok(l.indent));
                } else {
                    match l.bullet {
                        Some(bw) => {
                            assert(ts[p1] == TokShape::Word(bw));
                        },
                        None => {
                            if l.words.len() > 0 {
                                assert(ts[p1] == TokShape::Word(l.words[0]));
                            } else {
                                assert(l.newline);
                                assert(ts[p1] == TokShape::Newline(crate::Newline::LF));
                            }
                        },
                    }
                }
            },
        }
    }
    if a.len() == 0 {
        assert(l.indent == Whitespace::Space(0));
        if p0 < ts.len() {
            assert(ts[p0] != TokShape::Space && ts[p0] != TokShape::Tab) by {
                assert(p0 == p1);
            }
        }
        assert(ws_slot(ts, p0) == (l.indent, p0));
    } else {
        lemma_run_end_exact(ts, p0, ws_tok(l.indent), a.len() as int);
        assert(ts[p0] == ws_tok(l.indent));
        match l.indent {
            Whitespace::Space(n) => {
                assert(ws_slot(ts, p0) == (Whitespace::Space((p1 - p0) as usize), p1));
            },
            Whitespace::Tab(n) => {
                assert(ws_slot(ts, p0) == (Whitespace::Tab((p1 - p0) as usize), p1));
            },
        }
        assert(ws_slot(ts, p0) == (l.indent, p1));
    }

    // the comment slot
    if p2 < ts.len() && l.comment is None {
        if c.len() > 0 {
        } else {
            match l.bullet {
                Some(bw) => {
                    assert(ts[p2] == TokShape::Word(bw));
                    lemma_bullet_not_comment(bw);
                },
                None => {
                    if l.words.len() > 0 {
                        assert(ts[p2] == TokShape::Word(l.words[0]));
                    } else {
                        assert(ts[p2] == TokShape::Newline(crate::Newline::LF));
                    }
                },
            }
        }
    }
    match l.comment {
        Some(cw) => {
            assert(ts[p1] == TokShape::Word(cw));
            assert(comment_slot(ts, p1) == (Some(cw), p2));
        },
        None => {
            if p1 < ts.len() {
                if c.len() > 0 {
                    assert(ts[p1] == ws_tok(l.padding));
                    assert(!(ts[p1] is Word));
                }
            }
            assert(comment_slot(ts, p1) == (None::<Seq<char>>, p1));
        },
    }

    // the padding run, like the indent run
    assert forall|k: int| p2 <= k < p3 implies ts[k] == ws_tok(l.padding) by {}
    if p3 < ts.len() {
        match l.bullet {
            Some(bw) => {
                assert(ts[p3] == TokShape::Word(bw));
            },
            None => {
                if l.words.len() > 0 {
                    assert(ts[p3] == TokShape::Word(l.words[0]));
                } else if l.newline {
                    assert(ts[p3] == TokShape::Newline(crate::Newline::LF));
                }
            },
        }
    }
    if c.len() == 0 {
        assert(l.padding == Whitespace::Space(0));
        if p2 < ts.len() {
            assert(ts[p2] != TokShape::Space && ts[p2] != TokShape::Tab) by {
                assert(p2 == p3);
                if l.bullet is None && l.words.len() == 0 && !l.newline {
                    assert(p3 == p5 && f.len() == 0 && rest.len() == 0);
                    assert(p2 >= ts.len());
                }
            }
        }
        assert(ws_slot(ts, p2) == (l.padding, p2));
    } else {
        if p3 < ts.len() {
            if l.bullet is None && l.words.len() == 0 && !l.newline {
                assert(p3 >= ts.len());
            }
        }
        lemma_run_end_exact(ts, p2, ws_tok(l.padding), c.len() as int);
        assert(ts[p2] == ws_tok(l.padding));
        match l.padding {
            Whitespace::Space(n) => {
                assert(ws_slot(ts, p2) == (Whitespace::Space((p3 - p2) as usize), p3));
            },
            Whitespace::Tab(n) => {
                assert(ws_slot(ts, p2) == (Whitespace::Tab((p3 - p2) as usize), p3));
            },
        }
        assert(ws_slot(ts, p2) == (l.padding, p3));
    }

    // the bullet slot
    match l.bullet {
        Some(bw) => {
            assert(ts[p3] == TokShape::Word(bw));
            assert(bullet_slot(ts, p3) == (Some(bw), p4));
        },
        None => {
            if p3 < ts.len() {
                if l.words.len() > 0 {
                    assert(ts[p3] == TokShape::Word(l.words[0]));
                    assert(!is_bullet_word(l.words[0]));
                } else if l.newline {
                    assert(!(ts[p3] is Word));
                } else {
                    assert(p3 >= ts.len());
                }
            }
            assert(bullet_slot(ts, p3) == (None::<Seq<char>>, p3));
        },
    }

    // the words slot
    let lead = l.bullet is Some;
    lemma_words_pattern(pre + a + b + c + d, l.words, lead, l.newline, rest);
    assert((pre + a + b + c + d) + e + f + rest =~= ts);
    assert((pre + a + b + c + d).len() == p4);
    assert(words_slot(ts, p4) == (l.words, l.newline, p5 + f.len()));

    assert(line_at(ts, p0).0 =~= l);
    assert(pre.len() + line_tokens(l).len() == p5 + f.len());
}

/// The canonical tokens of a line sequence.
pub open spec fn lines_tokens(ls: Seq<LineShape>) -> Seq<TokShape>
    decreases ls.len(),
{
    if ls.len() == 0 {
        Seq::empty()
    } else {
        line_tokens(ls[0]) + lines_tokens(ls.drop_first())
    }
}

/// A canonical line is never empty of tokens.
proof fn lemma_line_tokens_nonempty(l: LineShape)
    requires
        line_wf(l),
    ensures
        line_tokens(l).len() > 0,
{
    if l.words.len() > 0 {
        match l.bullet {
            Some(_) => {
                assert(spaced_words(l.words).len() > 0);
            },
            None => {},
        }
    }
}

proof fn lemma_parse_lines(pre: Seq<TokShape>, ls: Seq<LineShape>)
    requires
        forall|i: int| 0 <= i < ls.len() ==> line_wf(#[trigger] ls[i]),
        forall|i: int| 0 <= i < ls.len() - 1 ==> (#[trigger] ls[i]).newline,
    ensures
        parse_spec(pre + lines_tokens(ls), pre.len() as int) == ls,
    decreases ls.len(),
{
    let ts = pre + lines_tokens(ls);
    if ls.len() == 0 {
        assert(parse_spec(ts, pre.len() as int) =~= ls);
    } else {
        let l0 = ls[0];
        let tail = ls.drop_first();
        let rest_ts = lines_tokens(tail);
        assert(line_wf(l0));
        if ls.len() == 1 {
            assert(rest_ts =~= Seq::<TokShape>::empty());
        } else {
            assert(l0.newline);
        }
        lemma_line_tokens_exact(pre, l0, rest_ts);
        lemma_line_tokens_nonempty(l0);
        assert(ts =~= pre + line_tokens(l0) + rest_ts);
        let from = pre.len() as int;
        let next = from + line_tokens(l0).len();
        assert(line_at(ts, from) == (l0, next));
        assert(from < ts.len());
        assert(next <= ts.len());
        assert forall|i: int| 0 <= i < tail.len() implies line_wf(#[trigger] tail[i]) by {
            assert(tail[i] == ls[i + 1]);
        }
        assert forall|i: int| 0 <= i < tail.len() - 1 implies (#[trigger] tail[i]).newline by {
            assert(tail[i] == ls[i + 1]);
        }
        lemma_parse_lines(pre + line_tokens(l0), tail);
        assert((pre + line_tokens(l0)) + rest_ts =~= ts);
        assert(parse_spec(ts, next) == tail);
        assert(parse_spec(ts, from) =~= seq![l0] + tail);
        assert(seq![l0] + tail =~= ls);
    }
}

/// Parser faithfulness: a sequence of well-formed lines, rendered to its
/// canonical tokens (every slot in grammar order, single spaces between
/// words), parses back to exactly those lines; so concatenating every slot
/// of every emitted line in grammar order reconstructs such an input
/// exactly. Inputs whose interior word separators are not single spaces are
/// outside this statement: the parser deliberately drops them.
pub proof fn lemma_parser_faithful(ls: Seq<LineShape>)
    requires
        forall|i: int| 0 <= i < ls.len() ==> line_wf(#[trigger] ls[i]),
        forall|i: int| 0 <= i < ls.len() - 1 ==> (#[trigger] ls[i]).newline,
    ensures
        parse_of(lines_tokens(ls)) == ls,
{
    lemma_parse_lines(Seq::empty(), ls);
    assert(Seq::<TokShape>::empty() + lines_tokens(ls) =~= lines_tokens(ls));
}

/// A pull parser over a token list.
pub struct Parse {
    /// The tokens being parsed.
    pub tokens: Vec<Token>,
    /// The position of the next token to consume.
    pub pos: usize,
}

impl Parse {
    /// The shapes of the tokens being parsed.
    pub open spec fn shape(&self) -> Seq<TokShape> {
        toks_shape(self.tokens@)
    }

    /// A parser that has consumed nothing yet.
    pub fn new(tokens: Vec<Token>) -> (s: Self)
        ensures
            s.shape() == toks_shape(tokens@),
            s.pos == 0,
    {
        Self { tokens, pos: 0 }
    }

    /// Consumes the whitespace slot at the current position.
    fn whitespace(&mut self) -> (r: Whitespace)
        requires
            old(self).pos <= old(self).tokens@.len(),
        ensures
            final(self).shape() == old(self).shape(),
            final(self).tokens@ == old(self).tokens@,
            final(self).pos <= old(self).tokens@.len(),
            (r, final(self).pos as int) == ws_slot(old(self).shape(), old(self).pos as int),
    {
        let ghost ts = self.shape();
        let ghost from = self.pos as int;
        if self.pos >= self.tokens.len() {
            return Whitespace::Space(0);
        }
        let is_space = matches!(self.tokens[self.pos], Token::Space);
        let is_tab = matches!(self.tokens[self.pos], Token::Tab);
        if !is_space && !is_tab {
            return Whitespace::Space(0);
        }
        let ghost t = if is_space {
            TokShape::Space
        } else {
            TokShape::Tab
        };
        proof {
            lemma_run_end_bounds(ts, from, t);
        }
        let ghost target = run_end(ts, from, t);
        let start = self.pos;
        while self.pos < self.tokens.len() && same_ws(&self.tokens[self.pos], is_space)
            invariant
                from <= self.pos <= self.tokens@.len(),
                self.tokens@ == old(self).tokens@,
                run_end(ts, self.pos as int, t) == target,
            decreases self.tokens@.len() - self.pos,
        {
            assert(ts[self.pos as int] == self.tokens@[self.pos as int]@);
            self.pos = self.pos + 1;
        }
        proof {
            if self.pos < self.tokens@.len() {
                assert(ts[self.pos as int] == self.tokens@[self.pos as int]@);
            }
            assert(run_end(ts, self.pos as int, t) == self.pos as int);
        }
        let count = self.pos - start;
        if is_space {
            Whitespace::Space(count)
        } else {
            Whitespace::Tab(count)
        }
    }

    /// Consumes the comment slot at the current position.
    fn comment(&mut self) -> (r: Option<String>)
        requires
            old(self).pos <= old(self).tokens@.len(),
        ensures
            final(self).shape() == old(self).shape(),
            final(self).tokens@ == old(self).tokens@,
            final(self).pos <= old(self).tokens@.len(),
            (shape_of_opt(r), final(self).pos as int) == comment_slot(
                old(self).shape(),
                old(self).pos as int,
            ),
    {
        let ghost ts = self.shape();
        if self.pos >= self.tokens.len() {
            return None;
        }
        assert(ts[self.pos as int] == self.tokens@[self.pos as int]@);
        match &self.tokens[self.pos] {
            Token::Word(w) => {
                if is_comment_token(w) {
                    let r = Some(w.clone());
                    self.pos = self.pos + 1;
                    r
                } else {
                    None
                }
            },
            _ => None,
        }
    }

    /// Consumes the bullet slot at the current position.
    fn bullet(&mut self) -> (r: Option<String>)
        requires
            old(self).pos <= old(self).tokens@.len(),
        ensures
            final(self).shape() == old(self).shape(),
            final(self).tokens@ == old(self).tokens@,
            final(self).pos <= old(self).tokens@.len(),
            (shape_of_opt(r), final(self).pos as int) == bullet_slot(
                old(self).shape(),
                old(self).pos as int,
            ),
    {
        let ghost ts = self.shape();
        if self.pos >= self.tokens.len() {
            return None;
        }
        assert(ts[self.pos as int] == self.tokens@[self.pos as int]@);
        match &self.tokens[self.pos] {
            Token::Word(w) => {
                if is_bullet_token(w) {
                    let r = Some(w.clone());
                    self.pos = self.pos + 1;
                    r
                } else {
                    None
                }
            },
            _ => None,
        }
    }

    /// Consumes the words slot at the current position: word slices until a
    /// newline or the end of the stream, interior spaces and tabs dropped.
    fn words(&mut self) -> (r: (Vec<String>, bool))
        requires
            old(self).pos <= old(self).tokens@.len(),
        ensures
            final(self).shape() == old(self).shape(),
            final(self).tokens@ == old(self).tokens@,
            final(self).pos <= old(self).tokens@.len(),
            ({
                let (words, nl, end) = words_slot(old(self).shape(), old(self).pos as int);
                r.0.deep_view() == words && r.1 == nl && final(self).pos as int == end
            }),
    {
        let ghost ts = self.shape();
        let ghost from = self.pos as int;
        let mut words: Vec<String> = Vec::new();
        loop
            invariant
                from <= self.pos <= self.tokens@.len(),
                self.tokens@ == old(self).tokens@,
                words_slot(ts, from) == {
                    let (rest, nl, end) = words_slot(ts, self.pos as int);
                    (words.deep_view() + rest, nl, end)
                },
            decreases self.tokens@.len() - self.pos,
        {
            if self.pos >= self.tokens.len() {
                proof {
                    assert(words.deep_view() + Seq::<Seq<char>>::empty() =~= words.deep_view());
                }
                return (words, false);
            }
            assert(ts[self.pos as int] == self.tokens@[self.pos as int]@);
            let ghost p = self.pos as int;
            match &self.tokens[self.pos] {
                Token::Newline(_) => {
                    self.pos = self.pos + 1;
                    proof {
                        assert(words.deep_view() + Seq::<Seq<char>>::empty() =~= words.deep_view());
                    }
                    return (words, true);
                },
                Token::Word(w) => {
                    let ghost wv = w@;
                    words.push(w.clone());
                    self.pos = self.pos + 1;
                    proof {
                        let (rest2, nl2, end2) = words_slot(ts, p + 1);
                        assert(words.deep_view() =~= words.deep_view().drop_last().push(wv));
                        assert(words.deep_view().drop_last() + (seq![wv] + rest2)
                            =~= words.deep_view() + rest2);
                    }
                },
                _ => {
                    self.pos = self.pos + 1;
                },
            }
        }
    }

    /// Parses the next physical line, if at least one token is left. The
    /// emitted record is exactly the line of the grammar at the current
    /// position, and the position moves past it.
    pub fn next_line(&mut self) -> (r: Option<Line>)
        requires
            old(self).pos <= old(self).tokens@.len(),
        ensures
            final(self).shape() == old(self).shape(),
            final(self).tokens@ == old(self).tokens@,
            old(self).pos == old(self).tokens@.len() ==> r is None && *final(self) == *old(self),
            old(self).pos < old(self).tokens@.len() ==> {
                let (line, end) = line_at(old(self).shape(), old(self).pos as int);
                r matches Some(l) && l@ == line && final(self).pos as int == end
            },
    {
        if self.pos >= self.tokens.len() {
            return None;
        }
        let indent = self.whitespace();
        let comment = self.comment();
        let padding = self.whitespace();
        let bullet = self.bullet();
        let (words, newline) = self.words();
        proof {
            lemma_line_at_bounds(self.shape(), old(self).pos as int);
        }
        Some(Line { indent, comment, padding, bullet, words, newline })
    }
}

/// The shape of an optional word.
pub open spec fn shape_of_opt(w: Option<String>) -> Option<Seq<char>> {
    match w {
        Some(w) => Some(w@),
        None => None,
    }
}

/// Whether a token is the same whitespace character we are collecting.
fn same_ws(t: &Token, is_space: bool) -> (r: bool)
    ensures
        r == if is_space {
            t@ == TokShape::Space
        } else {
            t@ == TokShape::Tab
        },
{
    if is_space {
        matches!(t, Token::Space)
    } else {
        matches!(t, Token::Tab)
    }
}

/// Whether a word is one of the recognized comment tokens.
fn is_comment_token(w: &String) -> (r: bool)
    ensures
        r == is_comment_word(w@),
{
    proof {
        reveal_strlit("#");
        reveal_strlit(">");
        reveal_strlit(";");
        reveal_strlit("//");
        reveal_strlit("--");
        reveal_strlit(";;");
        reveal_strlit("///");
        reveal_strlit("//!");
    }
    let r = *w == String::from_str("#") || *w == String::from_str(">") || *w == String::from_str(
        ";",
    ) || *w == String::from_str("//") || *w == String::from_str("--") || *w == String::from_str(
        ";;",
    ) || *w == String::from_str("///") || *w == String::from_str("//!");
    proof {
        assert(seq!['#'] =~= "#"@);
        assert(seq!['>'] =~= ">"@);
        assert(seq![';'] =~= ";"@);
        assert(seq!['/', '/'] =~= "//"@);
        assert(seq!['-', '-'] =~= "--"@);
        assert(seq![';', ';'] =~= ";;"@);
        assert(seq!['/', '/', '/'] =~= "///"@);
        assert(seq!['/', '/', '!'] =~= "//!"@);
    }
    r
}

/// Whether a word matches the bullet pattern.
fn is_bullet_token(w: &String) -> (r: bool)
    ensures
        r == is_bullet_word(w@),
{
    proof {
        reveal_strlit("-");
        reveal_strlit("*");
        reveal_strlit("\u{2022}");
        assert(seq!['-'] =~= "-"@);
        assert(seq!['*'] =~= "*"@);
        assert(seq!['\u{2022}'] =~= "\u{2022}"@);
    }
    if *w == String::from_str("-") || *w == String::from_str("*") || *w == String::from_str(
        "\u{2022}",
    ) {
        return true;
    }
    let s = w.as_str();
    let n = s.unicode_len();
    if n <= 1 {
        return false;
    }
    let last = s.get_char(n - 1);
    if !(last == '.' || last == ')') {
        return false;
    }
    let mut i: usize = 0;
    while i < n - 1
        invariant
            0 <= i <= n - 1,
            n == w@.len(),
            forall|j: int| 0 <= j < i ==> is_digit(#[trigger] w@[j]),
        decreases n - i,
    {
        let c = s.get_char(i);
        if !((c as u32) >= 48 && (c as u32) <= 57) {
            return false;
        }
        i = i + 1;
    }
    true
}

/// Parses a whole token list into its lines.
pub fn parse_tokens(tokens: Vec<Token>) -> (r: Vec<Line>)
    ensures
        lines_shape(r@) == parse_of(toks_shape(tokens@)),
{
    let ghost ts = toks_shape(tokens@);
    let mut parser = Parse::new(tokens);
    let mut lines: Vec<Line> = Vec::new();
    loop
        invariant
            parser.pos <= parser.tokens@.len(),
            parser.shape() == ts,
            lines_shape(lines@) + parse_spec(ts, parser.pos as int) == parse_of(ts),
        decreases parser.tokens@.len() - parser.pos,
    {
        let ghost p = parser.pos as int;
        match parser.next_line() {
            Some(line) => {
                let ghost lv = line@;
                lines.push(line);
                proof {
                    lemma_line_at_bounds(ts, p);
                    assert(lines_shape(lines@) =~= lines_shape(lines@.drop_last()).push(lv));
                    assert(lines_shape(lines@.drop_last()) + (seq![lv] + parse_spec(
                        ts,
                        parser.pos as int,
                    )) =~= lines_shape(lines@) + parse_spec(ts, parser.pos as int));
                }
            },
            None => {
                proof {
                    assert(lines_shape(lines@) + Seq::<LineShape>::empty() =~= lines_shape(
                        lines@,
                    ));
                }
                return lines;
            },
        }
    }
}

} // verus!
