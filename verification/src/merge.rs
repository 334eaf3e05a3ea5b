//! Continuation merger: folds adjacent physical lines that continue the same
//! logical paragraph, so that wrapping may redistribute their words.
use vstd::prelude::*;

verus! {

use crate::Line;
use crate::LineShape;
use crate::Whitespace;
use crate::parse::lines_shape;
use crate::width::str_width_cjk;
use crate::width::width_of;

/// Whether `lower` visually continues `upper`'s paragraph below its bullet.
///
/// Without a bullet on `upper`, indent and padding must match exactly. With
/// one, the compared slots (padding when the indents match, indent otherwise)
/// must both be spaces, and `lower`'s must be wider by exactly the bullet's
/// width plus the space that follows it.
pub open spec fn spec_bullet_continuation(upper: LineShape, lower: LineShape) -> bool {
    match upper.bullet {
        None => upper.padding == lower.padding && upper.indent == lower.indent,
        Some(bullet) => {
            let (uw, lw) = if upper.indent == lower.indent {
                (upper.padding, lower.padding)
            } else {
                (upper.indent, lower.indent)
            };
            &&& uw is Space
            &&& lw is Space
            &&& uw.spec_count() + width_of(bullet) + 1 == lw.spec_count()
        },
    }
}

/// Whether two adjacent lines belong to one logical paragraph: both have
/// words, `lower` starts no bullet of its own, the comment tokens match, and
/// `lower` continues `upper`'s bullet alignment.
pub open spec fn spec_should_merge(upper: LineShape, lower: LineShape) -> bool {
    &&& upper.words.len() > 0
    &&& lower.words.len() > 0
    &&& lower.bullet is None
    &&& upper.comment == lower.comment
    &&& spec_bullet_continuation(upper, lower)
}

/// The merge of a continuation into its paragraph: words are appended, and
/// the paragraph keeps a final newline only if the continuation had one.
pub open spec fn join_lines(upper: LineShape, lower: LineShape) -> LineShape {
    LineShape { words: upper.words + lower.words, newline: upper.newline && lower.newline, ..upper }
}

/// Folds continuations of `acc` from the front of `rest` while the merge
/// predicate holds; returns the merged paragraph and the lines left over.
pub open spec fn merge_run(acc: LineShape, rest: Seq<LineShape>) -> (LineShape, Seq<LineShape>)
    decreases rest.len(),
{
    if rest.len() > 0 && spec_should_merge(acc, rest[0]) {
        merge_run(join_lines(acc, rest[0]), rest.drop_first())
    } else {
        (acc, rest)
    }
}

pub proof fn lemma_merge_run_len(acc: LineShape, rest: Seq<LineShape>)
    ensures
        merge_run(acc, rest).1.len() <= rest.len(),
        rest.len() > 0 && spec_should_merge(acc, rest[0]) ==> merge_run(acc, rest).1.len()
            < rest.len(),
    decreases rest.len(),
{
    if rest.len() > 0 && spec_should_merge(acc, rest[0]) {
        lemma_merge_run_len(join_lines(acc, rest[0]), rest.drop_first());
    }
}

/// The merger over a whole line sequence: each line draws in the
/// continuations that follow it.
pub open spec fn merged_of(ls: Seq<LineShape>) -> Seq<LineShape>
    decreases ls.len(),
    via merged_of_dec
{
    if ls.len() == 0 {
        Seq::empty()
    } else {
        let (m, rest) = merge_run(ls[0], ls.drop_first());
        seq![m] + merged_of(rest)
    }
}

#[via_fn]
proof fn merged_of_dec(ls: Seq<LineShape>) {
    if ls.len() > 0 {
        lemma_merge_run_len(ls[0], ls.drop_first());
    }
}

/// Merging preserves a paragraph's structural slots, keeps its words
/// non-empty exactly when they started non-empty, and stops only where the
/// merge predicate fails.
proof fn lemma_merge_run_fields(acc: LineShape, rest: Seq<LineShape>)
    ensures
        ({
            let (m, left) = merge_run(acc, rest);
            &&& m.indent == acc.indent
            &&& m.comment == acc.comment
            &&& m.padding == acc.padding
            &&& m.bullet == acc.bullet
            &&& (m.words.len() > 0 <==> acc.words.len() > 0)
            &&& (left.len() > 0 ==> !spec_should_merge(m, left[0]))
        }),
    decreases rest.len(),
{
    if rest.len() > 0 && spec_should_merge(acc, rest[0]) {
        lemma_merge_run_fields(join_lines(acc, rest[0]), rest.drop_first());
    }
}

/// Merger idempotence: running the merger over its own output yields the
/// same sequence, for every line sequence.
pub proof fn lemma_merge_idempotent(ls: Seq<LineShape>)
    ensures
        merged_of(merged_of(ls)) == merged_of(ls),
    decreases ls.len(),
{
    if ls.len() == 0 {
        assert(merged_of(merged_of(ls)) =~= merged_of(ls));
    } else {
        let (m, rest) = merge_run(ls[0], ls.drop_first());
        lemma_merge_run_len(ls[0], ls.drop_first());
        lemma_merge_idempotent(rest);
        let out = seq![m] + merged_of(rest);
        assert(merged_of(ls) == out);
        assert(out[0] == m);
        assert(out.drop_first() =~= merged_of(rest));
        if merged_of(rest).len() > 0 {
            assert(rest.len() > 0);
            let (m2, rest2) = merge_run(rest[0], rest.drop_first());
            assert(merged_of(rest)[0] == m2);
            lemma_merge_run_fields(ls[0], ls.drop_first());
            lemma_merge_run_fields(rest[0], rest.drop_first());
            assert(!spec_should_merge(m, rest[0]));
            assert(spec_should_merge(m, m2) == spec_should_merge(m, rest[0]));
            assert(merge_run(m, merged_of(rest)) == (m, merged_of(rest)));
        } else {
            assert(merge_run(m, merged_of(rest)) == (m, merged_of(rest)));
        }
        assert(merged_of(out) == seq![m] + merged_of(merged_of(rest)));
        assert(merged_of(out) =~= out);
    }
}

/// Decides whether `lower` continues the paragraph opened by `upper`.
pub fn should_merge(upper: &Line, lower: &Line) -> (r: bool)
    ensures
        r == spec_should_merge(upper@, lower@),
{
    if upper.words.len() == 0 || lower.words.len() == 0 {
        return false;
    }
    if lower.bullet.is_some() {
        return false;
    }
    let comments_match = match (&upper.comment, &lower.comment) {
        (None, None) => true,
        (Some(a), Some(b)) => *a == *b,
        _ => false,
    };
    if !comments_match {
        return false;
    }
    bullet_continuation(upper, lower)
}

/// Decides whether `lower` aligns under `upper`'s bullet (or matches its
/// prefix exactly when there is no bullet).
pub fn bullet_continuation(upper: &Line, lower: &Line) -> (r: bool)
    ensures
        r == spec_bullet_continuation(upper@, lower@),
{
    let bullet = match &upper.bullet {
        None => {
            return ws_eq(&upper.padding, &lower.padding) && ws_eq(&upper.indent, &lower.indent);
        },
        Some(bullet) => bullet,
    };
    let indents_match = ws_eq(&upper.indent, &lower.indent);
    let (upper_ws, lower_ws) = if indents_match {
        (&upper.padding, &lower.padding)
    } else {
        (&upper.indent, &lower.indent)
    };
    let both_space = matches!(upper_ws, Whitespace::Space(_)) && matches!(
        lower_ws,
        Whitespace::Space(_),
    );
    // +1 for the space between bullet and word; compared by subtraction so
    // that nothing overflows.
    let bullet_width = str_width_cjk(bullet.as_str());
    both_space && lower_ws.count() > bullet_width && upper_ws.count() == lower_ws.count()
        - bullet_width - 1
}

/// Whitespace equality: `Space(0)` and `Tab(0)` are distinct.
fn ws_eq(a: &Whitespace, b: &Whitespace) -> (r: bool)
    ensures
        r == (*a == *b),
{
    match (a, b) {
        (Whitespace::Space(x), Whitespace::Space(y)) => *x == *y,
        (Whitespace::Tab(x), Whitespace::Tab(y)) => *x == *y,
        _ => false,
    }
}

/// Appends the continuation's words to the paragraph and keeps a final
/// newline only if both had one.
pub fn merge(upper: &mut Line, lower: Line)
    ensures
        final(upper)@ == join_lines(old(upper)@, lower@),
{
    let ghost ushape = upper@;
    let ghost lshape = lower@;
    let mut low = lower;
    upper.words.append(&mut low.words);
    upper.newline = upper.newline && low.newline;
    proof {
        assert(upper.words.deep_view() =~= ushape.words + lshape.words);
        assert(upper@ =~= join_lines(ushape, lshape));
    }
}

/// A deep copy of a line; the copy has the same shape.
pub(crate) fn copy_line(l: &Line) -> (r: Line)
    ensures
        r@ == l@,
{
    let mut words: Vec<String> = Vec::new();
    let mut i: usize = 0;
    while i < l.words.len()
        invariant
            i <= l.words@.len(),
            words.deep_view() == l.words.deep_view().take(i as int),
        decreases l.words@.len() - i,
    {
        words.push(l.words[i].clone());
        proof {
            assert(words.deep_view() =~= l.words.deep_view().take(i as int + 1));
        }
        i = i + 1;
    }
    proof {
        assert(l.words.deep_view().take(l.words@.len() as int) =~= l.words.deep_view());
    }
    let r = Line {
        indent: l.indent,
        comment: match &l.comment {
            Some(c) => Some(c.clone()),
            None => None,
        },
        padding: l.padding,
        bullet: match &l.bullet {
            Some(b) => Some(b.clone()),
            None => None,
        },
        words,
        newline: l.newline,
    };
    r
}

/// A pull merger over a parsed line list.
pub struct Merge {
    /// The parsed physical lines.
    pub lines: Vec<Line>,
    /// The position of the next line to consume.
    pub pos: usize,
}

impl Merge {
    /// The shapes of the lines being merged.
    pub open spec fn shape(&self) -> Seq<LineShape> {
        lines_shape(self.lines@)
    }

    /// A merger that has consumed nothing yet.
    pub fn new(lines: Vec<Line>) -> (s: Self)
        ensures
            s.shape() == lines_shape(lines@),
            s.pos == 0,
    {
        Self { lines, pos: 0 }
    }

    /// Yields the next merged paragraph: the next line with every
    /// continuation that follows it folded in.
    pub fn next_merged(&mut self) -> (r: Option<Line>)
        requires
            old(self).pos <= old(self).lines@.len(),
        ensures
            final(self).shape() == old(self).shape(),
            final(self).lines@ == old(self).lines@,
            final(self).pos <= old(self).lines@.len(),
            old(self).pos == old(self).lines@.len() ==> r is None && *final(self) == *old(self),
            old(self).pos < old(self).lines@.len() ==> {
                let (m, rest) = merge_run(
                    old(self).shape()[old(self).pos as int],
                    old(self).shape().skip(old(self).pos as int + 1),
                );
                &&& r matches Some(l) && l@ == m
                &&& final(self).pos > old(self).pos
                &&& old(self).shape().skip(final(self).pos as int) == rest
            },
    {
        let ghost ls = self.shape();
        if self.pos >= self.lines.len() {
            return None;
        }
        let ghost start = self.pos as int;
        let mut upper = copy_line(&self.lines[self.pos]);
        self.pos = self.pos + 1;
        loop
            invariant
                start < self.pos <= self.lines@.len(),
                self.lines@ == old(self).lines@,
                merge_run(upper@, ls.skip(self.pos as int)) == merge_run(
                    ls[start],
                    ls.skip(start + 1),
                ),
            decreases self.lines@.len() - self.pos,
        {
            proof {
                if self.pos < self.lines@.len() {
                    assert(ls.skip(self.pos as int)[0] == ls[self.pos as int]);
                    assert(ls.skip(self.pos as int).drop_first() =~= ls.skip(self.pos as int + 1));
                }
            }
            if self.pos < self.lines.len() && should_merge(&upper, &self.lines[self.pos]) {
                let lower = copy_line(&self.lines[self.pos]);
                self.pos = self.pos + 1;
                merge(&mut upper, lower);
            } else {
                proof {
                    if self.pos < self.lines@.len() {
                        assert(merge_run(upper@, ls.skip(self.pos as int)) == (
                        upper@,
                        ls.skip(self.pos as int),
                        ));
                    } else {
                        assert(ls.skip(self.pos as int) =~= Seq::<LineShape>::empty());
                    }
                }
                return Some(upper);
            }
        }
    }
}

/// Merges a whole line list into its paragraphs.
pub fn merge_lines(lines: Vec<Line>) -> (r: Vec<Line>)
    ensures
        lines_shape(r@) == merged_of(lines_shape(lines@)),
{
    let ghost ls = lines_shape(lines@);
    let mut merger = Merge::new(lines);
    let mut out: Vec<Line> = Vec::new();
    proof {
        assert(ls.skip(0) =~= ls);
    }
    loop
        invariant
            merger.pos <= merger.lines@.len(),
            merger.shape() == ls,
            lines_shape(out@) + merged_of(ls.skip(merger.pos as int)) == merged_of(ls),
        decreases merger.lines@.len() - merger.pos,
    {
        let ghost p = merger.pos as int;
        proof {
            if p < ls.len() {
                assert(ls.skip(p)[0] == ls[p]);
                assert(ls.skip(p).drop_first() =~= ls.skip(p + 1));
            }
        }
        match merger.next_merged() {
            Some(m) => {
                let ghost mv = m@;
                out.push(m);
                proof {
                    assert(lines_shape(out@) =~= lines_shape(out@.drop_last()).push(mv));
                    assert(lines_shape(out@.drop_last()) + (seq![mv] + merged_of(
                        ls.skip(merger.pos as int),
                    )) =~= lines_shape(out@) + merged_of(ls.skip(merger.pos as int)));
                }
            },
            None => {
                proof {
                    assert(ls.skip(p) =~= Seq::<LineShape>::empty());
                    assert(lines_shape(out@) + Seq::<LineShape>::empty() =~= lines_shape(out@));
                }
                return out;
            },
        }
    }
}

} // verus!
