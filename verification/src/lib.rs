//! Structure-preserving text wrapper: rewraps free-form text so each line
//! respects a target display width, while reconstructing leading indentation,
//! line-comment prefixes and list-bullet markers on every continuation line.
#![verifier::loop_isolation(false)]

use vstd::prelude::*;

pub mod formatter;
pub mod lex;
pub mod lexer;
pub mod parser;
pub mod testing;
pub mod transform;
pub mod merge;
pub mod parse;
pub mod width;
pub mod wrap;

verus! {

/// Newline characters.
#[derive(Debug, PartialEq, Eq, Clone, Copy, Structural)]
pub enum Newline {
    /// A line feed (`\n`).
    LF,
    /// A carriage return + line feed (`\r\n`).
    CRLF,
}

/// The characters of a newline token.
pub open spec fn nl_text(n: Newline) -> Seq<char> {
    match n {
        Newline::LF => seq!['\n'],
        Newline::CRLF => seq!['\r', '\n'],
    }
}

impl Default for Newline {
    /// The default newline character (`\n`).
    fn default() -> (r: Self)
        ensures
            r == Newline::LF,
    {
        Self::LF
    }
}

impl Newline {
    /// String representation of the newline character.
    pub fn as_str(&self) -> (r: &'static str)
        ensures
            r@ == nl_text(*self),
    {
        proof {
            reveal_strlit("\n");
            reveal_strlit("\r\n");
        }
        match self {
            Self::LF => "\n",
            Self::CRLF => "\r\n",
        }
    }
}

/// A single lexical unit of the input text.
#[derive(Debug, Clone, PartialEq)]
pub enum Token {
    /// A space character (' ').
    Space,
    /// A tab character (`\t`).
    Tab,
    /// A newline character, see [Newline].
    Newline(Newline),
    /// One or more graphemes devoid of any of the above characters.
    Word(String),
}

/// The mathematical shape of a [Token]: word contents are character sequences.
#[verifier::ext_equal]
pub enum TokShape {
    Space,
    Tab,
    Newline(Newline),
    Word(Seq<char>),
}

impl View for Token {
    type V = TokShape;

    open spec fn view(&self) -> TokShape {
        match self {
            Token::Space => TokShape::Space,
            Token::Tab => TokShape::Tab,
            Token::Newline(n) => TokShape::Newline(*n),
            Token::Word(s) => TokShape::Word(s@),
        }
    }
}

/// The characters a token stands for in the input text.
pub open spec fn tok_text(t: TokShape) -> Seq<char> {
    match t {
        TokShape::Space => seq![' '],
        TokShape::Tab => seq!['\t'],
        TokShape::Newline(n) => nl_text(n),
        TokShape::Word(s) => s,
    }
}

/// The shapes of a sequence of tokens.
pub open spec fn toks_shape(ts: Seq<Token>) -> Seq<TokShape> {
    ts.map_values(|t: Token| t@)
}

/// The characters a token sequence stands for.
pub open spec fn toks_text(ts: Seq<TokShape>) -> Seq<char>
    decreases ts.len(),
{
    if ts.len() == 0 {
        Seq::empty()
    } else {
        tok_text(ts[0]) + toks_text(ts.drop_first())
    }
}

/// A run of `n` identical whitespace characters.
#[derive(Debug, Clone, Copy, PartialEq, Eq, Structural)]
pub enum Whitespace {
    /// A space character (' ') repeated n times.
    Space(usize),
    /// A tab character (`\t`) repeated n times.
    Tab(usize),
}

/// The whitespace character a run repeats.
pub open spec fn ws_char(w: Whitespace) -> char {
    match w {
        Whitespace::Space(_) => ' ',
        Whitespace::Tab(_) => '\t',
    }
}

/// The characters of a whitespace run.
pub open spec fn ws_text(w: Whitespace) -> Seq<char> {
    Seq::new(w.spec_count() as nat, |i: int| ws_char(w))
}

impl Whitespace {
    /// Repetition count of the whitespace.
    pub open spec fn spec_count(&self) -> usize {
        match self {
            Whitespace::Space(c) => *c,
            Whitespace::Tab(c) => *c,
        }
    }

    /// Repetition count of the whitespace.
    #[verifier::when_used_as_spec(spec_count)]
    pub fn count(&self) -> (r: usize)
        ensures
            r == self.spec_count(),
    {
        match self {
            Self::Space(c) => *c,
            Self::Tab(c) => *c,
        }
    }

    /// String representation of the whitespace character, repeated only once.
    pub fn as_str(&self) -> (r: &'static str)
        ensures
            r@ == seq![ws_char(*self)],
    {
        proof {
            reveal_strlit(" ");
            reveal_strlit("\t");
        }
        match self {
            Self::Space(_) => " ",
            Self::Tab(_) => "\t",
        }
    }
}

/// A physical line decomposed into its structural slots.
#[derive(Debug, Clone, PartialEq)]
pub struct Line {
    /// Leading run of identical whitespace.
    pub indent: Whitespace,
    /// The first word after the indent, if it is a recognized comment token.
    pub comment: Option<String>,
    /// Whitespace between the comment and the bullet.
    pub padding: Whitespace,
    /// The next word, if it matches the bullet pattern.
    pub bullet: Option<String>,
    /// The remaining words until end of line.
    pub words: Vec<String>,
    /// Whether the physical line was terminated by a newline token.
    pub newline: bool,
}

/// The mathematical shape of a [Line].
#[verifier::ext_equal]
pub struct LineShape {
    pub indent: Whitespace,
    pub comment: Option<Seq<char>>,
    pub padding: Whitespace,
    pub bullet: Option<Seq<char>>,
    pub words: Seq<Seq<char>>,
    pub newline: bool,
}

impl View for Line {
    type V = LineShape;

    open spec fn view(&self) -> LineShape {
        LineShape {
            indent: self.indent,
            comment: match self.comment {
                Some(ref c) => Some(c@),
                None => None,
            },
            padding: self.padding,
            bullet: match self.bullet {
                Some(ref b) => Some(b@),
                None => None,
            },
            words: self.words.deep_view(),
            newline: self.newline,
        }
    }
}

/// Parameters for line breaking algorithms & formatting.
#[derive(Debug, Clone, PartialEq, Eq, Structural)]
pub struct Toppings {
    pub tabs: usize,
    pub width: usize,
    pub newline: Newline,
}

impl Default for Toppings {
    /// Default configuration with maximum width 80, tab width 4 and LF (`\n`)
    /// newlines.
    fn default() -> (r: Self)
        ensures
            r.tabs == 4usize && r.width == 80usize && r.newline == Newline::LF,
    {
        Self { tabs: 4, width: 80, newline: Newline::LF }
    }
}

impl Toppings {
    /// The targeted maximum line width (Unicode width). The default value is
    /// 80, some other common choices are 72, 100 and 120.
    ///
    /// This setting is not respected when the combination of indentation,
    /// comment token, bullet token and padding already exceeds it on its own,
    /// nor by words that exceed it by themselves: those are never broken apart
    /// and get placed on their own line.
    pub fn width(self, width: usize) -> (r: Self)
        ensures
            r == (Toppings { width, ..self }),
    {
        Self { width, ..self }
    }

    /// How much a tab character (`\t`) contributes to line width calculation.
    /// The default value is 4.
    ///
    /// While a tab character has a width of 1 as per the Unicode standard,
    /// code editors commonly display tabs wider than a space character,
    /// typically as 2, 4 or 8 spaces.
    pub fn tabs(self, tabs: usize) -> (r: Self)
        ensures
            r == (Toppings { tabs, ..self }),
    {
        Self { tabs, ..self }
    }

    /// The newline character to use, see [Newline]. This is a line feed
    /// character (`\n`, [Newline::LF]) by default. No heuristical newline
    /// detection is performed; output linebreaks are uniform.
    pub fn newline(self, newline: Newline) -> (r: Self)
        ensures
            r == (Toppings { newline, ..self }),
    {
        Self { newline, ..self }
    }
}

/// The wrapped fragments of one merged line under strategy `S`.
pub open spec fn line_frags_for<S: wrap::Sauce>(l: LineShape, t: Toppings) -> Seq<Seq<char>> {
    wrap::wrap_frags(l, t, S::break_seq(l.words, wrap::breakable_width(l, t)))
}

/// The wrapped fragments of a merged line sequence under strategy `S`.
pub open spec fn all_frags<S: wrap::Sauce>(ls: Seq<LineShape>, t: Toppings) -> Seq<Seq<char>>
    decreases ls.len(),
{
    if ls.len() == 0 {
        Seq::empty()
    } else {
        line_frags_for::<S>(ls[0], t) + all_frags::<S>(ls.drop_first(), t)
    }
}

/// The output of the whole pipeline on an input text: tokenize, parse,
/// merge, then wrap each paragraph.
pub open spec fn pipeline_frags<S: wrap::Sauce>(input: Seq<char>, t: Toppings) -> Seq<Seq<char>> {
    all_frags::<S>(merge::merged_of(parse::parse_of(lex::lex_of(input))), t)
}

/// A pull stream of chunks of wrapped output.
pub struct Wrap<S> {
    toppings: Toppings,
    lines: Vec<Line>,
    next_line: usize,
    current: Option<wrap::LineWrap<S>>,
}

impl<S: wrap::Sauce> Wrap<S> {
    /// The stream's bookkeeping is in bounds.
    pub closed spec fn wf(&self) -> bool {
        &&& self.next_line <= self.lines@.len()
        &&& match self.current {
            Some(lw) => lw.wf(),
            None => true,
        }
    }

    /// The fragments not yet emitted.
    pub closed spec fn remaining(&self) -> Seq<Seq<char>> {
        (match self.current {
            Some(lw) => lw.remaining(),
            None => Seq::empty(),
        }) + all_frags::<S>(
            parse::lines_shape(self.lines@).skip(self.next_line as int),
            self.toppings,
        )
    }

    /// Yields the next chunk of wrapped output, pulling in the next merged
    /// line whenever the current one is exhausted.
    pub fn next_chunk(&mut self) -> (r: Option<String>)
        requires
            old(self).wf(),
        ensures
            final(self).wf(),
            match r {
                Some(s) => old(self).remaining() == seq![s@] + final(self).remaining(),
                None => {
                    &&& old(self).remaining() == Seq::<Seq<char>>::empty()
                    &&& final(self).remaining() == Seq::<Seq<char>>::empty()
                },
            },
    {
        loop
            invariant
                self.wf(),
                self.remaining() == old(self).remaining(),
            decreases 2 * (self.lines@.len() - self.next_line) + (match self.current {
                Some(_) => 1int,
                None => 0int,
            }),
        {
            let ghost ls = parse::lines_shape(self.lines@);
            let cur = self.current.take();
            match cur {
                Some(mut lw) => {
                    match lw.next_chunk() {
                        Some(s) => {
                            self.current = Some(lw);
                            return Some(s);
                        },
                        None => {
                            // this line is exhausted; move on
                            proof {
                                assert(self.remaining() =~= old(self).remaining());
                            }
                        },
                    }
                },
                None => {
                    if self.next_line < self.lines.len() {
                        let ghost p = self.next_line as int;
                        let l = merge::copy_line(&self.lines[self.next_line]);
                        let lw = wrap::LineWrap::<S>::new(l, &self.toppings);
                        self.current = Some(lw);
                        self.next_line = self.next_line + 1;
                        proof {
                            assert(ls.skip(p)[0] == ls[p]);
                            assert(ls.skip(p).drop_first() =~= ls.skip(p + 1));
                            assert(all_frags::<S>(ls.skip(p), self.toppings) == line_frags_for::<
                                S,
                            >(ls[p], self.toppings) + all_frags::<S>(
                                ls.skip(p + 1),
                                self.toppings,
                            ));
                            assert(self.remaining() =~= old(self).remaining());
                        }
                    } else {
                        proof {
                            assert(ls.skip(self.next_line as int)
                                =~= Seq::<LineShape>::empty());
                            assert(self.remaining() =~= Seq::<Seq<char>>::empty());
                        }
                        return None;
                    }
                },
            }
        }
    }

    /// Drains the stream, concatenating every remaining chunk.
    pub fn collect_string(&mut self) -> (r: String)
        requires
            old(self).wf(),
        ensures
            final(self).wf(),
            r@ == old(self).remaining().flatten(),
            final(self).remaining() == Seq::<Seq<char>>::empty(),
    {
        let mut out = String::new();
        loop
            invariant
                self.wf(),
                out@ + self.remaining().flatten() == old(self).remaining().flatten(),
            decreases self.remaining().len(),
        {
            let ghost pre = self.remaining();
            match self.next_chunk() {
                Some(s) => {
                    proof {
                        assert(pre.flatten() == pre[0] + pre.drop_first().flatten());
                        assert(pre.drop_first() =~= self.remaining());
                        assert((out@ + s@) + self.remaining().flatten() =~= out@
                            + pre.flatten());
                    }
                    out.append(s.as_str());
                },
                None => {
                    proof {
                        assert(out@ + Seq::<Seq<char>>::empty().flatten() =~= out@);
                    }
                    return out;
                },
            }
        }
    }
}

/// Wraps text: the output chunks, concatenated, are exactly the pipeline's
/// output on this input under strategy `S`.
///
/// To choose the line breaking algorithm, see [wrap::Guacamole] and
/// [wrap::Salsa]. For other options, see [Toppings].
pub fn wrap<S: wrap::Sauce>(input: &str, toppings: Toppings) -> (w: Wrap<S>)
    ensures
        w.wf(),
        w.remaining() == pipeline_frags::<S>(input@, toppings),
{
    let toks = lex::tokenize(input);
    let lines = parse::parse_tokens(toks);
    let merged = merge::merge_lines(lines);
    let w = Wrap { toppings, lines: merged, next_line: 0, current: None };
    proof {
        assert(parse::lines_shape(w.lines@).skip(0) =~= parse::lines_shape(w.lines@));
        assert(w.remaining() =~= pipeline_frags::<S>(input@, toppings));
    }
    w
}

} // verus!
