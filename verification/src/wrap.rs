//! Line wrapper: re-emits a merged line as a fragment stream that wraps at
//! the configured width and replicates the structural prefix on every
//! continuation line, with a pluggable line-breaking strategy.
use vstd::prelude::*;

verus! {

use crate::Line;
use crate::LineShape;
use crate::Toppings;
use crate::Whitespace;
use crate::nl_text;
use crate::ws_char;
use crate::width::str_width_cjk;
use crate::width::width_of;

/// Sum of the widths of the words with indices in `[i, j)`.
pub open spec fn sum_widths(ws: Seq<Seq<char>>, i: int, j: int) -> int
    decreases j - i,
{
    if i >= j {
        0
    } else {
        sum_widths(ws, i, j - 1) + width_of(ws[j - 1])
    }
}

/// Width of the words `[i, j)` laid out on one line: their widths plus one
/// space between every pair.
pub open spec fn seg_width(ws: Seq<Seq<char>>, i: int, j: int) -> int {
    sum_widths(ws, i, j) + (j - i - 1)
}

/// No break falls strictly between `i` and `j`.
pub open spec fn no_break_between(b: Seq<bool>, i: int, j: int) -> bool {
    forall|k: int| i < k < j ==> !(#[trigger] b[k])
}

/// Whether a line's numbers stay clear of the machine's limits: the total
/// laid-out width of all words fits a `usize`, and so does the worst-case
/// total penalty a strategy can accumulate. Internal width computation
/// saturates instead of overflowing, so the width bound below is promised
/// only within these limits; any text that fits in memory at a realistic
/// width is far inside them.
pub open spec fn wrap_feasible(ws: Seq<Seq<char>>, max: int) -> bool {
    &&& sum_widths(ws, 0, ws.len() as int) + ws.len() <= usize::MAX
    &&& (ws.len() + 1) * (max * max) < usize::MAX
}

/// A sound break assignment: one flag per word, the first word opens its
/// line, and (within machine limits) every line that carries two or more
/// words fits the budget.
pub open spec fn valid_breaks(ws: Seq<Seq<char>>, max: int, b: Seq<bool>) -> bool {
    &&& b.len() == ws.len()
    &&& ws.len() > 0 ==> b[0]
    &&& wrap_feasible(ws, max) ==> forall|i: int, j: int|
        0 <= i < j <= ws.len() && (i == 0 || b[i]) && no_break_between(b, i, j) && j - i >= 2
            ==> #[trigger] seg_width(ws, i, j) <= max
}

/// A line breaking algorithm: `prepare` precomputes any state for one line's
/// words and budget, and `should_break` then answers, for each word index in
/// turn, whether that word must begin a new line.
pub trait Sauce: Sized {
    /// The break flags this strategy chooses for the given words and budget.
    spec fn break_seq(words: Seq<Seq<char>>, max: int) -> Seq<bool>;

    /// The chosen break flags are a sound break assignment.
    proof fn lemma_break_seq_valid(words: Seq<Seq<char>>, max: int)
        ensures
            valid_breaks(words, max, Self::break_seq(words, max)),
    ;

    /// The state invariant that holds between successive calls, with `next`
    /// the index of the next word to be asked about.
    spec fn inv(&self, words: Seq<Seq<char>>, max: int, next: int) -> bool;

    /// Precomputes the strategy's state for one line.
    fn prepare(words: &Vec<String>, max: usize) -> (s: Self)
        ensures
            s.inv(words.deep_view(), max as int, 0),
    ;

    /// Whether the word at `idx` must begin a new line rather than be
    /// appended, after a single space, to the current one.
    fn should_break(&mut self, words: &Vec<String>, idx: usize, Ghost(max): Ghost<int>) -> (r:
        bool)
        requires
            old(self).inv(words.deep_view(), max, idx as int),
            idx < words.len(),
        ensures
            final(self).inv(words.deep_view(), max, idx as int + 1),
            r == Self::break_seq(words.deep_view(), max)[idx as int],
    ;
}

/// The running line width of the first-fit strategy after placing word `i`.
pub open spec fn guac_width(ws: Seq<Seq<char>>, max: int, i: int) -> int
    decreases i,
{
    if i <= 0 {
        width_of(ws[0]) as int
    } else {
        let p = guac_width(ws, max, i - 1);
        if p == 0 {
            width_of(ws[i]) as int
        } else if p + width_of(ws[i]) < max {
            p + width_of(ws[i]) + 1
        } else {
            width_of(ws[i]) as int
        }
    }
}

/// The break flags of the first-fit strategy: a word breaks unless it fits
/// on the running line with a leading space.
pub open spec fn guac_breaks(ws: Seq<Seq<char>>, max: int) -> Seq<bool> {
    Seq::new(
        ws.len(),
        |i: int|
            if i == 0 {
                true
            } else {
                let p = guac_width(ws, max, i - 1);
                !(p != 0 && p + width_of(ws[i]) < max)
            },
    )
}

/// Naive "first-fit" line breaking algorithm.
///
/// Doesn't produce optimal results, but runs in constant space and a single
/// pass: it keeps only the running width of the current line.
pub struct Guacamole {
    max: usize,
    width: usize,
}

/// Within one first-fit line, the running width equals the laid-out width of
/// the words placed so far, and stays within the budget once two or more
/// words share the line.
proof fn lemma_guac_group(ws: Seq<Seq<char>>, max: int, i: int, k: int)
    requires
        0 <= i <= k < ws.len(),
        i == 0 || guac_breaks(ws, max)[i],
        forall|m: int| i < m <= k ==> !(#[trigger] guac_breaks(ws, max)[m]),
    ensures
        guac_width(ws, max, k) == seg_width(ws, i, k + 1),
        k > i ==> guac_width(ws, max, k) <= max,
    decreases k - i,
{
    if k == i {
        if i == 0 {
            assert(guac_width(ws, max, 0) == width_of(ws[0]));
        } else {
            let p = guac_width(ws, max, i - 1);
            assert(guac_breaks(ws, max)[i]);
            assert(!(p != 0 && p + width_of(ws[i]) < max));
            assert(guac_width(ws, max, i) == width_of(ws[i]));
        }
        assert(sum_widths(ws, i, i + 1) == sum_widths(ws, i, i) + width_of(ws[i]));
        assert(seg_width(ws, i, i + 1) == width_of(ws[i]));
    } else {
        lemma_guac_group(ws, max, i, k - 1);
        let p = guac_width(ws, max, k - 1);
        assert(!guac_breaks(ws, max)[k]);
        assert(p != 0 && p + width_of(ws[k]) < max);
        assert(guac_width(ws, max, k) == p + width_of(ws[k]) + 1);
        assert(sum_widths(ws, i, k + 1) == sum_widths(ws, i, k) + width_of(ws[k]));
    }
}

impl Sauce for Guacamole {
    open spec fn break_seq(words: Seq<Seq<char>>, max: int) -> Seq<bool> {
        guac_breaks(words, max)
    }

    proof fn lemma_break_seq_valid(words: Seq<Seq<char>>, max: int) {
        let b = guac_breaks(words, max);
        assert forall|i: int, j: int|
            0 <= i < j <= words.len() && (i == 0 || b[i]) && no_break_between(b, i, j) && j - i
                >= 2 implies #[trigger] seg_width(words, i, j) <= max by {
            lemma_guac_group(words, max, i, j - 1);
        }
    }

    closed spec fn inv(&self, words: Seq<Seq<char>>, max: int, next: int) -> bool {
        &&& self.max == max
        &&& if next == 0 {
            self.width == 0
        } else {
            self.width == guac_width(words, max, next - 1)
        }
    }

    fn prepare(words: &Vec<String>, max: usize) -> (s: Self) {
        Self { max, width: 0 }
    }

    fn should_break(&mut self, words: &Vec<String>, idx: usize, Ghost(max): Ghost<int>) -> (r:
        bool) {
        let w = str_width_cjk(words[idx].as_str());
        // First word on a line never carries a space in front; a zero running
        // width therefore always answers "break".
        if self.width == 0 {
            self.width = w;
            return true;
        }
        if self.width < self.max && w < self.max - self.width {
            // Add to the current line, plus a space in front.
            self.width = self.width + w + 1;
            false
        } else {
            // Start a new line; again no space needed.
            self.width = w;
            true
        }
    }
}

/// Sums of word widths are non-negative.
proof fn lemma_sum_nonneg(ws: Seq<Seq<char>>, i: int, j: int)
    ensures
        0 <= sum_widths(ws, i, j),
    decreases j - i,
{
    if i < j {
        lemma_sum_nonneg(ws, i, j - 1);
    }
}

/// Sums of word widths split at any midpoint.
proof fn lemma_sum_split(ws: Seq<Seq<char>>, i: int, k: int, j: int)
    requires
        i <= k <= j,
    ensures
        sum_widths(ws, i, j) == sum_widths(ws, i, k) + sum_widths(ws, k, j),
    decreases j - k,
{
    if k < j {
        lemma_sum_split(ws, i, k, j - 1);
    } else {
        assert(sum_widths(ws, k, j) == 0);
    }
}

/// A laid-out line only grows as words are added to it.
proof fn lemma_seg_monotone(ws: Seq<Seq<char>>, i: int, j: int, j2: int)
    requires
        i < j <= j2,
    ensures
        seg_width(ws, i, j) <= seg_width(ws, i, j2),
{
    lemma_sum_split(ws, i, j, j2);
    lemma_sum_nonneg(ws, j, j2);
}

/// Clamps to the largest representable width.
pub open spec fn sat(v: int) -> int {
    if v > usize::MAX {
        usize::MAX as int
    } else {
        v
    }
}

/// The saturating prefix sum of word widths, as the optimal-fit pass stores
/// it.
pub open spec fn off_spec(ws: Seq<Seq<char>>, i: int) -> int {
    sat(sum_widths(ws, 0, i))
}

/// The laid-out width of words `[i, j)` as the optimal-fit pass computes it:
/// a difference of saturating prefix sums plus the inner spaces, saturated.
pub open spec fn ll_spec(ws: Seq<Seq<char>>, i: int, j: int) -> int {
    sat(off_spec(ws, j) - off_spec(ws, i) + (j - i - 1))
}

/// The squared-slack penalty of a non-final line, saturated.
pub open spec fn penalty_spec(max: int, ll: int) -> int {
    let d = if max >= ll {
        max - ll
    } else {
        0
    };
    sat(d * d)
}

/// One relaxation step of the shortest-path table: line `[start, end)` is
/// offered as a cheaper way to reach `end`.
pub open spec fn relax_spec(
    ws: Seq<Seq<char>>,
    max: int,
    n: int,
    tab: Seq<(int, int)>,
    start: int,
    end: int,
) -> Seq<(int, int)> {
    let ll = ll_spec(ws, start, end);
    let pen = if end != n {
        penalty_spec(max, ll)
    } else {
        0
    };
    let cost = sat(tab[start].1 + pen);
    if cost < tab[end].1 {
        tab.update(end, (start, cost))
    } else {
        tab
    }
}

/// The inner relaxation sweep from one start node: it stops early once the
/// line is overfull and holds more than one word.
pub open spec fn inner_spec(
    ws: Seq<Seq<char>>,
    max: int,
    n: int,
    tab: Seq<(int, int)>,
    start: int,
    end: int,
) -> Seq<(int, int)>
    decreases n + 1 - end,
{
    if end > n {
        tab
    } else if ll_spec(ws, start, end) > max && end != start + 1 {
        tab
    } else {
        inner_spec(ws, max, n, relax_spec(ws, max, n, tab, start, end), start, end + 1)
    }
}

/// The outer sweep over all start nodes.
pub open spec fn outer_spec(
    ws: Seq<Seq<char>>,
    max: int,
    n: int,
    tab: Seq<(int, int)>,
    start: int,
) -> Seq<(int, int)>
    decreases n - start,
{
    if start >= n {
        tab
    } else {
        outer_spec(ws, max, n, inner_spec(ws, max, n, tab, start, start + 1), start + 1)
    }
}

/// The table before any relaxation: every node but the source is
/// unreachable.
pub open spec fn init_tab(n: int) -> Seq<(int, int)> {
    Seq::new(
        (n + 1) as nat,
        |k: int|
            if k == 0 {
                (0int, 0int)
            } else {
                (0int, usize::MAX as int)
            },
    )
}

/// The finished shortest-path table of the optimal-fit strategy.
pub open spec fn salsa_tab(ws: Seq<Seq<char>>, max: int) -> Seq<(int, int)> {
    outer_spec(ws, max, ws.len() as int, init_tab(ws.len() as int), 0)
}

/// Whether `i` lies on the predecessor chain backtracked from `from`.
pub open spec fn in_chain(tab: Seq<(int, int)>, from: int, i: int) -> bool
    decreases from,
{
    if from <= 0 {
        false
    } else {
        let p0 = tab[from].0;
        let p = if 0 <= p0 < from {
            p0
        } else {
            0
        };
        p == i || in_chain(tab, p, i)
    }
}

/// The break flags of the optimal-fit strategy: a word breaks exactly when
/// its index lies on the backtracked shortest path.
pub open spec fn salsa_breaks(ws: Seq<Seq<char>>, max: int) -> Seq<bool> {
    Seq::new(ws.len(), |i: int| in_chain(salsa_tab(ws, max), ws.len() as int, i))
}

/// Structural soundness of a shortest-path table: predecessors point
/// strictly backwards and costs are machine numbers; a reachable node's
/// recorded line was either within budget or a single word, and its
/// predecessor is reachable at no greater cost.
pub open spec fn tab_inv(ws: Seq<Seq<char>>, max: int, n: int, tab: Seq<(int, int)>) -> bool {
    &&& tab.len() == n + 1
    &&& tab[0] == (0int, 0int)
    &&& forall|k: int|
        1 <= k <= n ==> 0 <= (#[trigger] tab[k]).0 < k && 0 <= tab[k].1 <= usize::MAX
    &&& forall|k: int|
        1 <= k <= n && (#[trigger] tab[k]).1 < usize::MAX ==> (ll_spec(ws, tab[k].0, k) <= max
            || k == tab[k].0 + 1) && tab[tab[k].0].1 <= tab[k].1
}

/// Relaxation preserves table soundness, never raises a cost, and touches
/// only its end node.
proof fn lemma_relax(
    ws: Seq<Seq<char>>,
    max: int,
    n: int,
    tab: Seq<(int, int)>,
    start: int,
    end: int,
)
    requires
        tab_inv(ws, max, n, tab),
        0 <= start < end <= n,
        ll_spec(ws, start, end) <= max || end == start + 1,
    ensures
        ({
            let r = relax_spec(ws, max, n, tab, start, end);
            &&& tab_inv(ws, max, n, r)
            &&& forall|k: int| 0 <= k <= n ==> (#[trigger] r[k]).1 <= tab[k].1
            &&& forall|k: int| 0 <= k <= n && k != end ==> #[trigger] r[k] == tab[k]
            &&& r[end].1 <= sat(tab[start].1 + (if end != n {
                penalty_spec(max, ll_spec(ws, start, end))
            } else {
                0
            }))
        }),
{
    let ll = ll_spec(ws, start, end);
    let pen = if end != n {
        penalty_spec(max, ll)
    } else {
        0
    };
    assert(pen >= 0) by {
        let d = if max >= ll {
            max - ll
        } else {
            0
        };
        assert(d * d >= 0) by (nonlinear_arith);
    }
    let cost = sat(tab[start].1 + pen);
    if cost < tab[end].1 {
        let r = tab.update(end, (start, cost));
        assert(cost < usize::MAX);
        assert(tab[start].1 + pen == cost);
        assert(r[r[end].0].1 <= r[end].1);
    }
}

/// The inner sweep preserves soundness, never raises a cost, leaves nodes up
/// to its start untouched, and leaves the direct successor no costlier than
/// one full penalty above its start.
#[verifier::rlimit(50)]
proof fn lemma_inner(
    ws: Seq<Seq<char>>,
    max: int,
    n: int,
    tab: Seq<(int, int)>,
    start: int,
    end: int,
)
    requires
        tab_inv(ws, max, n, tab),
        0 <= start < end <= n + 1,
    ensures
        ({
            let r = inner_spec(ws, max, n, tab, start, end);
            &&& tab_inv(ws, max, n, r)
            &&& forall|k: int| 0 <= k <= n ==> (#[trigger] r[k]).1 <= tab[k].1
            &&& forall|k: int| 0 <= k <= start ==> #[trigger] r[k] == tab[k]
        }),
    decreases n + 1 - end,
{
    if end > n {
    } else if ll_spec(ws, start, end) > max && end != start + 1 {
    } else {
        lemma_relax(ws, max, n, tab, start, end);
        lemma_inner(ws, max, n, relax_spec(ws, max, n, tab, start, end), start, end + 1);
    }
}

/// Bound on the cost of the node directly after `start` once the inner
/// sweep has run: at most the start's cost plus one squared budget.
proof fn lemma_inner_first_edge(
    ws: Seq<Seq<char>>,
    max: int,
    n: int,
    tab: Seq<(int, int)>,
    start: int,
)
    requires
        tab_inv(ws, max, n, tab),
        0 <= start < n,
    ensures
        inner_spec(ws, max, n, tab, start, start + 1)[start + 1].1 <= sat(
            tab[start].1 + max * max,
        ),
    decreases n - start,
{
    let end = start + 1;
    let ll = ll_spec(ws, start, end);
    let pen = if end != n {
        penalty_spec(max, ll)
    } else {
        0
    };
    assert(max * max >= 0) by (nonlinear_arith);
    assert(pen <= max * max) by {
        let d = if max >= ll {
            max - ll
        } else {
            0
        };
        assert(ll >= 0);
        if d == 0 {
            assert(0int * 0int == 0) by (nonlinear_arith);
            assert(penalty_spec(max, ll) == sat(0int * 0int));
        } else {
            assert(0 <= d <= max);
            assert(d * d <= max * max) by (nonlinear_arith)
                requires
                    0 <= d <= max,
            ;
        }
    }
    lemma_relax(ws, max, n, tab, start, end);
    let r1 = relax_spec(ws, max, n, tab, start, end);
    lemma_inner(ws, max, n, r1, start, end + 1);
    assert(r1[end].1 <= sat(tab[start].1 + pen));
}

/// Costs established so far: node `k` is reachable at cost at most
/// `k * max * max`.
pub open spec fn costs_ok(tab: Seq<(int, int)>, max: int, upto: int, n: int) -> bool {
    forall|k: int| 0 <= k <= upto && k <= n ==> (#[trigger] tab[k]).1 <= k * (max * max)
}

/// The outer sweep preserves soundness and, within the feasibility bound,
/// leaves every node reachable at a bounded cost.
#[verifier::rlimit(60)]
proof fn lemma_outer(ws: Seq<Seq<char>>, max: int, n: int, tab: Seq<(int, int)>, start: int)
    requires
        tab_inv(ws, max, n, tab),
        0 <= start <= n,
        (n + 1) * (max * max) < usize::MAX,
        costs_ok(tab, max, start, n),
    ensures
        ({
            let r = outer_spec(ws, max, n, tab, start);
            &&& tab_inv(ws, max, n, r)
            &&& costs_ok(r, max, n, n)
        }),
    decreases n - start,
{
    if start >= n {
        assert forall|k: int| 0 <= k <= n && k <= n implies (#[trigger] tab[k]).1 <= k * (max
            * max) by {
            assert(0 <= k <= start);
        }
    } else {
        let r1 = inner_spec(ws, max, n, tab, start, start + 1);
        lemma_inner(ws, max, n, tab, start, start + 1);
        lemma_inner_first_edge(ws, max, n, tab, start);
        assert(tab[start].1 <= start * (max * max));
        assert(max * max >= 0) by (nonlinear_arith);
        assert((start + 1) * (max * max) <= (n + 1) * (max * max)) by (nonlinear_arith)
            requires
                start + 1 <= n + 1,
                max * max >= 0,
        ;
        assert(start * (max * max) + max * max == (start + 1) * (max * max)) by (nonlinear_arith);
        assert(r1[start + 1].1 <= (start + 1) * (max * max));
        assert(costs_ok(r1, max, start + 1, n));
        lemma_outer(ws, max, n, r1, start + 1);
    }
}

/// The finished table is sound, and within the feasibility bound its final
/// node is reachable.
proof fn lemma_salsa_tab(ws: Seq<Seq<char>>, max: int)
    ensures
        tab_inv(ws, max, ws.len() as int, salsa_tab(ws, max)),
        (ws.len() + 1) * (max * max) < usize::MAX ==> salsa_tab(ws, max)[ws.len() as int].1
            < usize::MAX,
{
    let n = ws.len() as int;
    let t0 = init_tab(n);
    assert(tab_inv(ws, max, n, t0));
    if (n + 1) * (max * max) < usize::MAX {
        lemma_outer(ws, max, n, t0, 0);
        let tf = salsa_tab(ws, max);
        assert(tf[n].1 <= n * (max * max));
        assert(n * (max * max) <= (n + 1) * (max * max) - max * max) by (nonlinear_arith);
        assert(max * max >= 0) by (nonlinear_arith);
    } else {
        // soundness alone needs no cost bound
        lemma_outer_sound(ws, max, n, t0, 0);
    }
}

/// Soundness of the outer sweep without any cost accounting.
proof fn lemma_outer_sound(ws: Seq<Seq<char>>, max: int, n: int, tab: Seq<(int, int)>, start: int)
    requires
        tab_inv(ws, max, n, tab),
        0 <= start <= n,
    ensures
        tab_inv(ws, max, n, outer_spec(ws, max, n, tab, start)),
    decreases n - start,
{
    if start < n {
        lemma_inner(ws, max, n, tab, start, start + 1);
        lemma_outer_sound(ws, max, n, inner_spec(ws, max, n, tab, start, start + 1), start + 1);
    }
}

/// The backtracked chain always reaches the source.
proof fn lemma_chain_zero(tab: Seq<(int, int)>, from: int, n: int)
    requires
        tab.len() == n + 1,
        forall|k: int| 1 <= k <= n ==> 0 <= (#[trigger] tab[k]).0 < k,
        1 <= from <= n,
    ensures
        in_chain(tab, from, 0),
    decreases from,
{
    let p = tab[from].0;
    if p != 0 {
        lemma_chain_zero(tab, p, n);
    }
}

/// Chain members below a node never exceed its predecessor.
proof fn lemma_chain_below(tab: Seq<(int, int)>, from: int, n: int, k: int)
    requires
        tab.len() == n + 1,
        forall|m: int| 1 <= m <= n ==> 0 <= (#[trigger] tab[m]).0 < m,
        1 <= from <= n,
        in_chain(tab, from, k),
    ensures
        0 <= k <= tab[from].0,
    decreases from,
{
    let p = tab[from].0;
    assert(0 <= p < from);
    assert(in_chain(tab, from, k) == (p == k || in_chain(tab, p, k)));
    if k != p {
        if p == 0 {
            assert(!in_chain(tab, 0, k));
            assert(false);
        } else {
            lemma_chain_below(tab, p, n, k);
        }
    }
}

/// Any run of words that crosses no chain member lies within one recorded
/// line of the table, so within the budget (via the recorded edge).
proof fn lemma_chain_segment(
    ws: Seq<Seq<char>>,
    max: int,
    n: int,
    tab: Seq<(int, int)>,
    from: int,
    i: int,
    j: int,
)
    requires
        tab_inv(ws, max, n, tab),
        n == ws.len(),
        sum_widths(ws, 0, n) + n <= usize::MAX,
        1 <= from <= n,
        tab[from].1 < usize::MAX,
        0 <= i < j <= from,
        j - i >= 2,
        i == 0 || in_chain(tab, from, i),
        forall|k: int| i < k < j ==> !in_chain(tab, from, k),
    ensures
        seg_width(ws, i, j) <= max,
    decreases from,
{
    let p = tab[from].0;
    assert(0 <= p < from);
    assert(forall|k: int|
        in_chain(tab, from, k) == (p == k || #[trigger] in_chain(tab, p, k)));
    assert(tab[from].1 < usize::MAX);
    assert(ll_spec(ws, tab[from].0, from) <= max || from == tab[from].0 + 1);
    assert(tab[tab[from].0].1 <= tab[from].1);
    if i >= p {
        // i is the predecessor itself: the run lies inside the recorded
        // line [p, from).
        if i > p {
            assert(i != 0);
            assert(in_chain(tab, from, i));
            lemma_chain_below(tab, from, n, i);
            assert(false);
        }
        assert(i == p);
        assert(j <= from);
        assert(!(from == p + 1));
        assert(ll_spec(ws, p, from) <= max);
        lemma_ll_exact(ws, p, from, n);
        lemma_seg_monotone(ws, i, j, from);
    } else {
        // the run lies strictly below the predecessor: recurse.
        if j > p {
            assert(i < p < j);
            assert(in_chain(tab, from, p));
            assert(false);
        }
        assert(j <= p);
        assert(1 <= p);
        assert(tab[p].1 <= tab[from].1);
        assert(i == 0 || in_chain(tab, p, i));
        assert(forall|k: int| i < k < j ==> !in_chain(tab, p, k));
        lemma_chain_segment(ws, max, n, tab, p, i, j);
    }
}

/// Within machine limits the saturating line width is the exact one.
proof fn lemma_ll_exact(ws: Seq<Seq<char>>, i: int, j: int, n: int)
    requires
        n == ws.len(),
        sum_widths(ws, 0, n) + n <= usize::MAX,
        0 <= i < j <= n,
    ensures
        ll_spec(ws, i, j) == seg_width(ws, i, j),
{
    lemma_sum_nonneg(ws, 0, i);
    lemma_sum_nonneg(ws, i, j);
    lemma_sum_nonneg(ws, j, n);
    lemma_sum_split(ws, 0, i, n);
    lemma_sum_split(ws, i, j, n);
    lemma_sum_split(ws, 0, i, j);
    lemma_sum_split(ws, 0, j, n);
}

/// More sophisticated "optimal-fit" line breaking algorithm: minimum
/// raggedness via a shortest path over break positions.
///
/// Quadratic time and linear space in the number of words of one paragraph,
/// which is fast enough for paragraphs of common size.
pub struct Salsa {
    breaks: Vec<bool>,
}

impl Sauce for Salsa {
    open spec fn break_seq(words: Seq<Seq<char>>, max: int) -> Seq<bool> {
        salsa_breaks(words, max)
    }

    proof fn lemma_break_seq_valid(words: Seq<Seq<char>>, max: int) {
        let n = words.len() as int;
        let b = salsa_breaks(words, max);
        lemma_salsa_tab(words, max);
        let tab = salsa_tab(words, max);
        if n > 0 {
            lemma_chain_zero(tab, n, n);
        }
        if wrap_feasible(words, max) {
            assert forall|i: int, j: int|
                0 <= i < j <= words.len() && (i == 0 || b[i]) && no_break_between(b, i, j) && j - i
                    >= 2 implies #[trigger] seg_width(words, i, j) <= max by {
                assert(tab[n].1 < usize::MAX);
                assert forall|k: int| i < k < j implies !in_chain(tab, n, k) by {
                    assert(!b[k]);
                    assert(b[k] == in_chain(tab, n, k));
                }
                lemma_chain_segment(words, max, n, tab, n, i, j);
            }
        }
    }

    closed spec fn inv(&self, words: Seq<Seq<char>>, max: int, next: int) -> bool {
        self.breaks@ == salsa_breaks(words, max)
    }

    #[verifier::rlimit(100)]
    fn prepare(words: &Vec<String>, max: usize) -> (s: Self) {
        let ghost ws = words.deep_view();
        let n = words.len();
        let ghost ni = n as int;

        // saturating prefix sums of the word widths
        let mut offsets: Vec<usize> = Vec::new();
        offsets.push(0);
        let mut idx: usize = 0;
        while idx < n
            invariant
                idx <= n,
                offsets@.len() == idx + 1,
                forall|k: int| 0 <= k <= idx ==> offsets@[k] == off_spec(ws, k),
            decreases n - idx,
        {
            let w = str_width_cjk(words[idx].as_str());
            assert(words[idx as int]@ == ws[idx as int]);
            let next = offsets[idx].saturating_add(w);
            proof {
                lemma_sum_nonneg(ws, 0, idx as int);
                let s_old = sum_widths(ws, 0, idx as int);
                assert(sum_widths(ws, 0, idx as int + 1) == s_old + width_of(ws[idx as int]));
                assert(w == width_of(ws[idx as int]));
                assert(offsets@[idx as int] == off_spec(ws, idx as int));
                assert(offsets@[idx as int] == sat(s_old));
                if s_old > usize::MAX {
                    assert(sat(s_old) == usize::MAX);
                    assert(s_old + w > usize::MAX);
                    assert(next == usize::MAX);
                } else {
                    assert(sat(s_old) == s_old);
                }
                assert(next == off_spec(ws, idx as int + 1));
            }
            offsets.push(next);
            proof {
                assert(forall|k: int|
                    0 <= k <= idx + 1 ==> offsets@[k] == off_spec(ws, k));
            }
            idx = idx + 1;
        }

        // shortest-path table: (predecessor, cost)
        let mut tab: Vec<(usize, usize)> = Vec::new();
        tab.push((0, 0));
        let mut k: usize = 0;
        while k < n
            invariant
                k <= n,
                tab@.len() == k + 1,
                tabv(tab@) =~= init_tab(ni).take(k as int + 1),
            decreases n - k,
        {
            tab.push((0, usize::MAX));
            proof {
                assert(tabv(tab@) =~= init_tab(ni).take(k as int + 2));
            }
            k = k + 1;
        }
        proof {
            assert(init_tab(ni).take(ni + 1) =~= init_tab(ni));
        }
        // the table holds n + 1 entries, so n + 1 itself fits a usize
        let table_len = tab.len();
        assert(table_len == n + 1);
        assert(n < usize::MAX);

        let mut start: usize = 0;
        while start < n
            invariant
                start <= n,
                offsets@.len() == n + 1,
                forall|k: int| 0 <= k <= n ==> offsets@[k] == off_spec(ws, k),
                tab@.len() == n + 1,
                outer_spec(ws, max as int, ni, tabv(tab@), start as int) == salsa_tab(
                    ws,
                    max as int,
                ),
                tab_inv(ws, max as int, ni, tabv(tab@)),
            decreases n - start,
        {
            let ghost tab_entry = tabv(tab@);
            let mut end: usize = start + 1;
            let mut done: bool = false;
            while !done && end <= n
                invariant
                    n < usize::MAX,
                    start < end <= n + 1,
                    offsets@.len() == n + 1,
                    forall|k: int| 0 <= k <= n ==> offsets@[k] == off_spec(ws, k),
                    tab@.len() == n + 1,
                    inner_spec(ws, max as int, ni, tabv(tab@), start as int, end as int)
                        == inner_spec(ws, max as int, ni, tab_entry, start as int, start as int
                        + 1),
                    tab_inv(ws, max as int, ni, tabv(tab@)),
                    done ==> (end > n || (ll_spec(ws, start as int, end as int) > max as int && end
                        != start + 1)),
                decreases n + 1 - end, (if done {
                    0int
                } else {
                    1int
                }),
            {
                proof {
                    lemma_sum_nonneg(ws, 0, start as int);
                    lemma_sum_nonneg(ws, start as int, end as int);
                    lemma_sum_split(ws, 0, start as int, end as int);
                }
                let diff = offsets[end] - offsets[start];
                let ll = diff.saturating_add(end - start - 1);
                assert(ll == ll_spec(ws, start as int, end as int));
                if ll > max && end != start + 1 {
                    done = true;
                } else {
                    // relax the edge (start, end)
                    let pen: usize = if end != n {
                        let d = max.saturating_sub(ll);
                        match d.checked_mul(d) {
                            Some(v) => v,
                            None => usize::MAX,
                        }
                    } else {
                        0
                    };
                    let cost = tab[start].1.saturating_add(pen);
                    let ghost pre = tabv(tab@);
                    if cost < tab[end].1 {
                        tab.set(end, (start, cost));
                        proof {
                            assert(tabv(tab@) =~= relax_spec(
                                ws,
                                max as int,
                                ni,
                                pre,
                                start as int,
                                end as int,
                            ));
                        }
                    } else {
                        proof {
                            assert(tabv(tab@) =~= relax_spec(
                                ws,
                                max as int,
                                ni,
                                pre,
                                start as int,
                                end as int,
                            ));
                        }
                    }
                    proof {
                        lemma_relax(ws, max as int, ni, pre, start as int, end as int);
                    }
                    end = end + 1;
                }
            }
            proof {
                assert(inner_spec(ws, max as int, ni, tabv(tab@), start as int, end as int)
                    == tabv(tab@));
            }
            start = start + 1;
        }

        // backtrack the shortest path into break marks
        let ghost tf = salsa_tab(ws, max as int);
        proof {
            assert(outer_spec(ws, max as int, ni, tabv(tab@), ni) == tabv(tab@));
        }
        let mut marks: Vec<bool> = Vec::new();
        let mut m: usize = 0;
        while m < n
            invariant
                m <= n,
                marks@.len() == m,
                forall|i: int| 0 <= i < m ==> marks@[i] == false,
            decreases n - m,
        {
            marks.push(false);
            m = m + 1;
        }
        let mut idx: usize = n;
        while idx != 0
            invariant
                idx <= n,
                marks@.len() == n,
                tab@.len() == n + 1,
                tabv(tab@) == tf,
                tab_inv(ws, max as int, ni, tf),
                forall|i: int|
                    0 <= i < n ==> in_chain(tf, ni, i) == (marks@[i] || in_chain(
                        tf,
                        idx as int,
                        i,
                    )),
            decreases idx,
        {
            let p = tab[idx].0;
            assert(tf[idx as int].0 == p as int);
            assert(0 <= p < idx);
            let ghost pre_marks = marks@;
            marks.set(p, true);
            proof {
                assert(in_chain(tf, ni, p as int)) by {
                    assert(in_chain(tf, idx as int, p as int));
                }
                assert forall|i: int| 0 <= i < n implies in_chain(tf, ni, i) == (marks@[i]
                    || in_chain(tf, p as int, i)) by {
                    assert(in_chain(tf, idx as int, i) == (p as int == i || in_chain(
                        tf,
                        p as int,
                        i,
                    )));
                    assert(marks@ == pre_marks.update(p as int, true));
                }
            }
            idx = p;
        }
        proof {
            assert forall|i: int| 0 <= i < n implies marks@[i] == salsa_breaks(ws, max as int)[i]
                by {
                assert(!in_chain(tf, 0, i));
                assert(salsa_breaks(ws, max as int)[i] == in_chain(tf, ni, i));
            }
            assert(marks@ =~= salsa_breaks(ws, max as int));
        }
        Salsa { breaks: marks }
    }

    fn should_break(&mut self, words: &Vec<String>, idx: usize, Ghost(max): Ghost<int>) -> (r:
        bool) {
        self.breaks[idx]
    }
}

/// The table entries as mathematical pairs.
pub open spec fn tabv(s: Seq<(usize, usize)>) -> Seq<(int, int)> {
    s.map_values(|p: (usize, usize)| (p.0 as int, p.1 as int))
}

/// When the whole paragraph fits the budget, first-fit appends every word:
/// the running width equals the laid-out width and stays positive.
proof fn lemma_guac_fits(ws: Seq<Seq<char>>, max: int, i: int)
    requires
        0 <= i < ws.len(),
        width_of(ws[0]) > 0,
        seg_width(ws, 0, ws.len() as int) <= max,
    ensures
        guac_width(ws, max, i) == seg_width(ws, 0, i + 1),
        guac_width(ws, max, i) > 0,
        i >= 1 ==> !guac_breaks(ws, max)[i],
    decreases i,
{
    lemma_sum_nonneg(ws, 0, 1);
    assert(sum_widths(ws, 0, 0) == 0);
    assert(sum_widths(ws, 0, 1) == width_of(ws[0]));
    if i == 0 {
    } else {
        lemma_guac_fits(ws, max, i - 1);
        let p = guac_width(ws, max, i - 1);
        lemma_seg_monotone(ws, 0, i + 1, ws.len() as int);
        assert(sum_widths(ws, 0, i + 1) == sum_widths(ws, 0, i) + width_of(ws[i]));
        assert(p + width_of(ws[i]) == seg_width(ws, 0, i + 1) - 1);
        assert(p + width_of(ws[i]) < max);
    }
}

/// Relaxation never disturbs a node already reachable at zero cost.
proof fn lemma_relax_keeps_zero(
    ws: Seq<Seq<char>>,
    max: int,
    n: int,
    tab: Seq<(int, int)>,
    start: int,
    end: int,
)
    requires
        tab_inv(ws, max, n, tab),
        0 <= start < end <= n,
    ensures
        relax_spec(ws, max, n, tab, start, end).len() == tab.len(),
        tab[n].1 == 0 ==> relax_spec(ws, max, n, tab, start, end)[n] == tab[n],
        forall|k: int| 0 <= k <= n && k != end ==> relax_spec(ws, max, n, tab, start, end)[k]
            == tab[k],
{
    let ll = ll_spec(ws, start, end);
    let pen = if end != n {
        penalty_spec(max, ll)
    } else {
        0
    };
    assert(pen >= 0) by {
        let d = if max >= ll {
            max - ll
        } else {
            0
        };
        assert(d * d >= 0) by (nonlinear_arith);
    }
    assert(tab[start].1 >= 0);
}

/// The inner sweep preserves a zero-cost final node.
proof fn lemma_inner_keeps_zero(
    ws: Seq<Seq<char>>,
    max: int,
    n: int,
    tab: Seq<(int, int)>,
    start: int,
    end: int,
)
    requires
        tab_inv(ws, max, n, tab),
        0 <= start < end <= n + 1,
        tab[n] == (0int, 0int),
    ensures
        tab_inv(ws, max, n, inner_spec(ws, max, n, tab, start, end)),
        inner_spec(ws, max, n, tab, start, end)[n] == (0int, 0int),
    decreases n + 1 - end,
{
    if end > n {
    } else if ll_spec(ws, start, end) > max && end != start + 1 {
    } else {
        lemma_relax(ws, max, n, tab, start, end);
        lemma_relax_keeps_zero(ws, max, n, tab, start, end);
        let r = relax_spec(ws, max, n, tab, start, end);
        assert(r[n] == (0int, 0int));
        lemma_inner_keeps_zero(ws, max, n, r, start, end + 1);
    }
}

/// The outer sweep preserves a zero-cost final node.
proof fn lemma_outer_keeps_zero(
    ws: Seq<Seq<char>>,
    max: int,
    n: int,
    tab: Seq<(int, int)>,
    start: int,
)
    requires
        tab_inv(ws, max, n, tab),
        0 <= start <= n,
        tab[n] == (0int, 0int),
    ensures
        outer_spec(ws, max, n, tab, start)[n] == (0int, 0int),
    decreases n - start,
{
    if start < n {
        lemma_inner_keeps_zero(ws, max, n, tab, start, start + 1);
        lemma_outer_keeps_zero(ws, max, n, inner_spec(ws, max, n, tab, start, start + 1), start
            + 1);
    }
}

/// When nothing prunes the sweep from the source, the full line's edge is
/// relaxed and reaches the final node at zero cost.
proof fn lemma_inner_reaches(ws: Seq<Seq<char>>, max: int, n: int, tab: Seq<(int, int)>, end: int)
    requires
        tab.len() == n + 1,
        tab[0] == (0int, 0int),
        tab[n].1 > 0,
        1 <= end <= n,
        forall|e: int| end <= e <= n ==> ll_spec(ws, 0, e) <= max || e == 1,
    ensures
        inner_spec(ws, max, n, tab, 0, end)[n] == (0int, 0int),
        inner_spec(ws, max, n, tab, 0, end).len() == tab.len(),
    decreases n + 1 - end,
{
    assert(!(ll_spec(ws, 0, end) > max && end != 0 + 1));
    let r = relax_spec(ws, max, n, tab, 0, end);
    if end == n {
        assert(sat(tab[0].1 + 0) == 0);
        assert(r[n] == (0int, 0int));
        assert(inner_spec(ws, max, n, r, 0, end + 1) == r);
    } else {
        assert(r[0] == tab[0]);
        assert(r[n] == tab[n]);
        lemma_inner_reaches(ws, max, n, r, end + 1);
    }
}

/// When the whole paragraph fits the budget, the optimal fit takes the full
/// line: its only break flag is the first word's.
proof fn lemma_salsa_fits(ws: Seq<Seq<char>>, max: int)
    requires
        ws.len() >= 1,
        sum_widths(ws, 0, ws.len() as int) + ws.len() <= usize::MAX,
        seg_width(ws, 0, ws.len() as int) <= max,
    ensures
        salsa_tab(ws, max)[ws.len() as int] == (0int, 0int),
        forall|i: int| 0 <= i < ws.len() ==> salsa_breaks(ws, max)[i] == (i == 0),
{
    let n = ws.len() as int;
    let t0 = init_tab(n);
    assert(tab_inv(ws, max, n, t0));
    assert forall|e: int| 1 <= e <= n implies ll_spec(ws, 0, e) <= max || e == 1 by {
        if e >= 2 {
            lemma_ll_exact(ws, 0, e, n);
            lemma_seg_monotone(ws, 0, e, n);
        } else {
            lemma_ll_exact(ws, 0, 1, n);
            lemma_seg_monotone(ws, 0, 1, n);
        }
    }
    lemma_inner_reaches(ws, max, n, t0, 1);
    lemma_inner(ws, max, n, t0, 0, 1);
    let t1 = inner_spec(ws, max, n, t0, 0, 1);
    assert(t1[n] == (0int, 0int));
    lemma_outer_keeps_zero(ws, max, n, t1, 1);
    let tf = salsa_tab(ws, max);
    assert(outer_spec(ws, max, n, t0, 0) == outer_spec(ws, max, n, t1, 1));
    assert(tf[n] == (0int, 0int));
    assert forall|i: int| 0 <= i < ws.len() implies salsa_breaks(ws, max)[i] == (i == 0) by {
        assert(in_chain(tf, n, i) == (0 == i || in_chain(tf, 0, i)));
        assert(!in_chain(tf, 0, i));
    }
}

/// The words of one line joined by single spaces, as output fragments.
pub open spec fn words_spaced(ws: Seq<Seq<char>>, i: int) -> Seq<Seq<char>>
    decreases i,
{
    if i <= 0 {
        seq![ws[0]]
    } else {
        words_spaced(ws, i - 1) + seq![seq![' '], ws[i]]
    }
}

/// The fragment stream of a paragraph emitted as one single output line.
pub open spec fn single_line_frags(l: LineShape, t: Toppings) -> Seq<Seq<char>> {
    prefix_frags(l) + (match l.bullet {
        Some(bt) => seq![bt, seq![' ']],
        None => Seq::empty(),
    }) + words_spaced(l.words, l.words.len() - 1) + (if l.newline {
        nl_frags(t)
    } else {
        Seq::empty()
    })
}

/// With no break flag set after the first word, the emission is one single
/// output line.
proof fn lemma_no_breaks_single(l: LineShape, t: Toppings, b: Seq<bool>, i: int)
    requires
        0 <= i < l.words.len(),
        forall|k: int| 1 <= k < l.words.len() ==> !(#[trigger] b[k]),
    ensures
        head_frags(l, t, b, i) == prefix_frags(l) + (match l.bullet {
            Some(bt) => seq![bt, seq![' ']],
            None => Seq::<Seq<char>>::empty(),
        }) + words_spaced(l.words, i),
    decreases i,
{
    if i > 0 {
        lemma_no_breaks_single(l, t, b, i - 1);
        assert(head_frags(l, t, b, i) =~= prefix_frags(l) + (match l.bullet {
            Some(bt) => seq![bt, seq![' ']],
            None => Seq::<Seq<char>>::empty(),
        }) + words_spaced(l.words, i));
    }
}

/// Wrapping at a width the whole paragraph fits emits a single output line
/// under the first-fit strategy; re-wrapping that line at the same width is
/// then a fixed point of the emission.
pub proof fn lemma_single_line_guacamole(l: LineShape, t: Toppings)
    requires
        l.words.len() >= 1,
        width_of(l.words[0]) > 0,
        seg_width(l.words, 0, l.words.len() as int) <= breakable_width(l, t),
        sum_widths(l.words, 0, l.words.len() as int) + l.words.len() <= usize::MAX,
    ensures
        wrap_frags(l, t, guac_breaks(l.words, breakable_width(l, t))) == single_line_frags(l, t),
{
    let max = breakable_width(l, t);
    let b = guac_breaks(l.words, max);
    let n = l.words.len() as int;
    assert forall|k: int| 1 <= k < l.words.len() implies !(#[trigger] b[k]) by {
        lemma_guac_fits(l.words, max, k);
    }
    lemma_no_breaks_single(l, t, b, n - 1);
    assert(wrap_frags(l, t, b) =~= single_line_frags(l, t));
}

/// Wrapping at a width the whole paragraph fits emits a single output line
/// under the optimal-fit strategy.
pub proof fn lemma_single_line_salsa(l: LineShape, t: Toppings)
    requires
        l.words.len() >= 1,
        seg_width(l.words, 0, l.words.len() as int) <= breakable_width(l, t),
        sum_widths(l.words, 0, l.words.len() as int) + l.words.len() <= usize::MAX,
    ensures
        wrap_frags(l, t, salsa_breaks(l.words, breakable_width(l, t))) == single_line_frags(l, t),
{
    let max = breakable_width(l, t);
    let b = salsa_breaks(l.words, max);
    let n = l.words.len() as int;
    lemma_salsa_fits(l.words, max);
    lemma_no_breaks_single(l, t, b, n - 1);
    assert(wrap_frags(l, t, b) =~= single_line_frags(l, t));
}

/// Width bound: under any sound break assignment, every output sub-line
/// that carries two or more words fits the configured width, prefix
/// included. (A sub-line holding a single overflowing word may exceed it.)
pub proof fn lemma_width_bound(l: LineShape, t: Toppings, b: Seq<bool>, i: int, j: int)
    requires
        valid_breaks(l.words, breakable_width(l, t), b),
        wrap_feasible(l.words, breakable_width(l, t)),
        0 <= i < j <= l.words.len(),
        i == 0 || b[i],
        no_break_between(b, i, j),
        j - i >= 2,
    ensures
        unbreakable_width(l, t) + seg_width(l.words, i, j) <= t.width,
{
    let max = breakable_width(l, t);
    assert(seg_width(l.words, i, j) <= max);
    lemma_sum_nonneg(l.words, i, j);
    assert(seg_width(l.words, i, j) >= 1);
}

/// Prefix replication: the first word of a line is preceded by exactly the
/// indent, comment and padding prefix with the bullet and one space; every
/// word that opens a continuation sub-line is preceded by a newline, the
/// same prefix, and the bullet's visible width in spaces.
pub proof fn lemma_prefix_replication(l: LineShape, t: Toppings, b: Seq<bool>, i: int)
    requires
        0 <= i < l.words.len(),
    ensures
        head_frags(l, t, b, 0) == prefix_frags(l) + (match l.bullet {
            Some(bt) => seq![bt, seq![' ']],
            None => Seq::<Seq<char>>::empty(),
        }) + seq![l.words[0]],
        i >= 1 && b[i] ==> head_frags(l, t, b, i) == head_frags(l, t, b, i - 1) + seq![
            nl_text(t.newline),
        ] + prefix_frags(l) + space_frags(bullet_vis_width(l)) + seq![l.words[i]],
        i >= 1 && !b[i] ==> head_frags(l, t, b, i) == head_frags(l, t, b, i - 1) + seq![
            seq![' '],
            l.words[i],
        ],
{
    if i >= 1 {
        if b[i] {
            assert(head_frags(l, t, b, i) =~= head_frags(l, t, b, i - 1) + seq![
                nl_text(t.newline),
            ] + prefix_frags(l) + space_frags(bullet_vis_width(l)) + seq![l.words[i]]);
        } else {
            assert(head_frags(l, t, b, i) =~= head_frags(l, t, b, i - 1) + seq![
                seq![' '],
                l.words[i],
            ]);
        }
    }
}

/// Strategy agreement on trivial cases: when a paragraph's total width fits
/// on one line, first-fit and optimal-fit produce identical output. (A first
/// word of display width zero is left out: first-fit restarts the line after
/// such a word.)
pub proof fn lemma_strategy_agreement(l: LineShape, t: Toppings)
    requires
        l.words.len() >= 1 ==> width_of(l.words[0]) > 0,
        seg_width(l.words, 0, l.words.len() as int) <= breakable_width(l, t),
        sum_widths(l.words, 0, l.words.len() as int) + l.words.len() <= usize::MAX,
    ensures
        wrap_frags(l, t, guac_breaks(l.words, breakable_width(l, t))) == wrap_frags(
            l,
            t,
            salsa_breaks(l.words, breakable_width(l, t)),
        ),
{
    if l.words.len() >= 1 {
        lemma_single_line_guacamole(l, t);
        lemma_single_line_salsa(l, t);
    }
}

/// The fragments of a whitespace run: one single-character fragment per
/// repetition.
pub open spec fn ws_frags(w: Whitespace) -> Seq<Seq<char>> {
    Seq::new(w.spec_count() as nat, |i: int| seq![ws_char(w)])
}

/// The fragment of an optional word: one fragment when present.
pub open spec fn opt_frag(o: Option<Seq<char>>) -> Seq<Seq<char>> {
    match o {
        Some(s) => seq![s],
        None => Seq::empty(),
    }
}

/// The structural prefix replicated onto every output sub-line: indent,
/// comment token and padding.
pub open spec fn prefix_frags(l: LineShape) -> Seq<Seq<char>> {
    ws_frags(l.indent) + opt_frag(l.comment) + ws_frags(l.padding)
}

/// `k` single-space fragments.
pub open spec fn space_frags(k: int) -> Seq<Seq<char>> {
    Seq::new(
        if k >= 0 {
            k as nat
        } else {
            0
        },
        |i: int| seq![' '],
    )
}

/// The visible width a bullet occupies on its line: its display width plus
/// the single space that separates it from the first word.
pub open spec fn bullet_vis_width(l: LineShape) -> int {
    match l.bullet {
        Some(b) => width_of(b) + 1int,
        None => 0,
    }
}

/// One newline fragment of the configured kind.
pub open spec fn nl_frags(t: Toppings) -> Seq<Seq<char>> {
    seq![nl_text(t.newline)]
}

/// The display width of a whitespace run: spaces count 1, tabs count the
/// configured tab width.
pub open spec fn ws_display_width(w: Whitespace, tabs: int) -> int {
    match w {
        Whitespace::Space(c) => c as int,
        Whitespace::Tab(c) => tabs * c,
    }
}

/// The width of everything on a line that wrapping may not break: indent,
/// comment, padding and bullet.
pub open spec fn unbreakable_width(l: LineShape, t: Toppings) -> int {
    ws_display_width(l.indent, t.tabs as int) + (match l.comment {
        Some(c) => width_of(c) as int,
        None => 0,
    }) + ws_display_width(l.padding, t.tabs as int) + bullet_vis_width(l)
}

/// The budget a line-breaking strategy receives: the configured width minus
/// the unbreakable prefix, saturating at zero.
pub open spec fn breakable_width(l: LineShape, t: Toppings) -> int {
    if t.width > unbreakable_width(l, t) {
        t.width - unbreakable_width(l, t)
    } else {
        0
    }
}

/// The fragments emitted for words `0..=i` of a line: the first word is
/// preceded by the full prefix (and the bullet with one space), every later
/// word either follows a single space or opens a continuation sub-line with
/// the prefix and the bullet's width in spaces.
pub open spec fn head_frags(l: LineShape, t: Toppings, b: Seq<bool>, i: int) -> Seq<Seq<char>>
    decreases i,
{
    if i <= 0 {
        prefix_frags(l) + (match l.bullet {
            Some(bt) => seq![bt, seq![' ']],
            None => Seq::empty(),
        }) + seq![l.words[0]]
    } else {
        head_frags(l, t, b, i - 1) + (if b[i] {
            nl_frags(t) + prefix_frags(l) + space_frags(bullet_vis_width(l))
        } else {
            seq![seq![' ']]
        }) + seq![l.words[i]]
    }
}

/// The full fragment stream of one wrapped line: a wordless line still emits
/// its prefix and bullet, and the final newline is emitted exactly when the
/// source line was newline-terminated.
pub open spec fn wrap_frags(l: LineShape, t: Toppings, b: Seq<bool>) -> Seq<Seq<char>> {
    if l.words.len() == 0 {
        prefix_frags(l) + opt_frag(l.bullet) + (if l.newline {
            nl_frags(t)
        } else {
            Seq::empty()
        })
    } else {
        head_frags(l, t, b, l.words.len() - 1) + (if l.newline {
            nl_frags(t)
        } else {
            Seq::empty()
        })
    }
}

/// The display width of a whitespace run, saturating at `usize::MAX`.
fn ws_exec_width(w: &Whitespace, tabs: usize) -> (r: usize)
    ensures
        r == if ws_display_width(*w, tabs as int) > usize::MAX {
            usize::MAX as int
        } else {
            ws_display_width(*w, tabs as int)
        },
{
    match w {
        Whitespace::Space(c) => *c,
        Whitespace::Tab(c) => match tabs.checked_mul(*c) {
            Some(v) => v,
            None => usize::MAX,
        },
    }
}

/// Computes the strategy budget and the bullet's visible width for one line.
fn compute_breakable(line: &Line, toppings: &Toppings) -> (r: (usize, usize))
    ensures
        r.0 == breakable_width(line@, *toppings),
        r.1 == bullet_vis_width(line@),
{
    let bullet_width: usize = match &line.bullet {
        Some(b) => str_width_cjk(b.as_str()) + 1,
        None => 0,
    };
    let indent_width = ws_exec_width(&line.indent, toppings.tabs);
    let comment_width: usize = match &line.comment {
        Some(c) => str_width_cjk(c.as_str()),
        None => 0,
    };
    let padding_width = ws_exec_width(&line.padding, toppings.tabs);
    let unbreakable = indent_width.saturating_add(comment_width).saturating_add(
        padding_width,
    ).saturating_add(bullet_width);
    let breakable = toppings.width.saturating_sub(unbreakable);
    (breakable, bullet_width)
}

/// Appends one fragment holding the given characters.
fn push_str_frag(frags: &mut Vec<String>, s: &str)
    ensures
        final(frags).deep_view() == old(frags).deep_view().push(s@),
{
    let ghost base = frags.deep_view();
    frags.push(String::from_str(s));
    proof {
        assert(frags.deep_view() =~= base.push(s@));
    }
}

/// Appends one owned fragment.
fn push_string_frag(frags: &mut Vec<String>, s: String)
    ensures
        final(frags).deep_view() == old(frags).deep_view().push(s@),
{
    let ghost base = frags.deep_view();
    let ghost sv = s@;
    frags.push(s);
    proof {
        assert(frags.deep_view() =~= base.push(sv));
    }
}

/// Appends one single-space fragment.
fn push_space(frags: &mut Vec<String>)
    ensures
        final(frags).deep_view() == old(frags).deep_view().push(seq![' ']),
{
    proof {
        reveal_strlit(" ");
        assert(" "@ =~= seq![' ']);
    }
    push_str_frag(frags, " ");
}

/// Appends a whitespace run, one fragment per repetition.
fn push_ws_frags(frags: &mut Vec<String>, w: &Whitespace)
    ensures
        final(frags).deep_view() == old(frags).deep_view() + ws_frags(*w),
{
    let ghost base = frags.deep_view();
    let n = w.count();
    let mut k: usize = 0;
    while k < n
        invariant
            k <= n,
            frags.deep_view() == base + ws_frags(*w).take(k as int),
        decreases n - k,
    {
        push_str_frag(frags, w.as_str());
        proof {
            assert(base + ws_frags(*w).take(k as int + 1) =~= (base + ws_frags(*w).take(
                k as int,
            )).push(seq![ws_char(*w)]));
        }
        k = k + 1;
    }
    proof {
        assert(ws_frags(*w).take(n as int) =~= ws_frags(*w));
    }
}

/// Appends `k` single-space fragments.
fn push_spaces(frags: &mut Vec<String>, k: usize)
    ensures
        final(frags).deep_view() == old(frags).deep_view() + space_frags(k as int),
{
    let ghost base = frags.deep_view();
    let mut i: usize = 0;
    while i < k
        invariant
            i <= k,
            frags.deep_view() == base + space_frags(k as int).take(i as int),
        decreases k - i,
    {
        push_space(frags);
        proof {
            assert(base + space_frags(k as int).take(i as int + 1) =~= (base + space_frags(
                k as int,
            ).take(i as int)).push(seq![' ']));
        }
        i = i + 1;
    }
    proof {
        assert(space_frags(k as int).take(k as int) =~= space_frags(k as int));
    }
}

/// Appends the structural prefix: indent, comment token, padding.
fn push_prefix(frags: &mut Vec<String>, line: &Line)
    ensures
        final(frags).deep_view() == old(frags).deep_view() + prefix_frags(line@),
{
    let ghost base = frags.deep_view();
    push_ws_frags(frags, &line.indent);
    if let Some(c) = &line.comment {
        push_string_frag(frags, c.clone());
    }
    push_ws_frags(frags, &line.padding);
    proof {
        assert(frags.deep_view() =~= base + prefix_frags(line@));
    }
}

/// One logical line being emitted as wrapped output fragments.
pub struct LineWrap<S> {
    /// The line being emitted.
    pub line: Line,
    sauce: S,
    frags: Vec<String>,
    pos: usize,
}

impl<S: Sauce> LineWrap<S> {
    /// The fragments not yet emitted.
    pub closed spec fn remaining(&self) -> Seq<Seq<char>> {
        self.frags.deep_view().skip(self.pos as int)
    }

    /// The emission position has not run past the fragment list.
    pub closed spec fn wf(&self) -> bool {
        self.pos <= self.frags@.len()
    }

    /// Prepares the wrapped emission of one line: the strategy chooses the
    /// break positions within the budget left by the unbreakable prefix, and
    /// the emitted fragments are exactly [wrap_frags] of those breaks.
    pub fn new(line: Line, toppings: &Toppings) -> (w: Self)
        ensures
            w.wf(),
            w.remaining() == wrap_frags(
                line@,
                *toppings,
                S::break_seq(line@.words, breakable_width(line@, *toppings)),
            ),
    {
        let ghost lv = line@;
        let ghost t = *toppings;
        let (max, bullet_width) = compute_breakable(&line, toppings);
        let ghost bs = S::break_seq(lv.words, max as int);
        proof {
            S::lemma_break_seq_valid(lv.words, max as int);
        }
        let mut sauce = S::prepare(&line.words, max);
        let n = line.words.len();
        let mut flags: Vec<bool> = Vec::new();
        let mut i: usize = 0;
        while i < n
            invariant
                i <= n,
                n == lv.words.len(),
                flags@ == bs.take(i as int),
                sauce.inv(lv.words, max as int, i as int),
            decreases n - i,
        {
            let f = sauce.should_break(&line.words, i, Ghost(max as int));
            flags.push(f);
            proof {
                assert(flags@ =~= bs.take(i as int + 1));
            }
            i = i + 1;
        }
        proof {
            assert(bs.take(n as int) =~= bs);
        }
        let mut frags: Vec<String> = Vec::new();
        if n == 0 {
            push_prefix(&mut frags, &line);
            if let Some(b) = &line.bullet {
                push_string_frag(&mut frags, b.clone());
            }
            if line.newline {
                push_str_frag(&mut frags, toppings.newline.as_str());
            }
            proof {
                assert(frags.deep_view() =~= wrap_frags(lv, t, bs));
            }
            let w = LineWrap { line, sauce, frags, pos: 0 };
            proof {
                assert(w.remaining() =~= wrap_frags(lv, t, bs));
            }
            w
        } else {
            push_prefix(&mut frags, &line);
            if let Some(b) = &line.bullet {
                push_string_frag(&mut frags, b.clone());
                push_space(&mut frags);
            }
            push_string_frag(&mut frags, line.words[0].clone());
            proof {
                assert(frags.deep_view() =~= head_frags(lv, t, bs, 0));
            }
            let mut i: usize = 1;
            while i < n
                invariant
                    1 <= i <= n,
                    frags.deep_view() == head_frags(lv, t, bs, i as int - 1),
                decreases n - i,
            {
                if flags[i] {
                    push_str_frag(&mut frags, toppings.newline.as_str());
                    push_prefix(&mut frags, &line);
                    push_spaces(&mut frags, bullet_width);
                } else {
                    push_space(&mut frags);
                }
                push_string_frag(&mut frags, line.words[i].clone());
                proof {
                    assert(frags.deep_view() =~= head_frags(lv, t, bs, i as int));
                }
                i = i + 1;
            }
            if line.newline {
                push_str_frag(&mut frags, toppings.newline.as_str());
            }
            proof {
                assert(frags.deep_view() =~= wrap_frags(lv, t, bs));
            }
            let w = LineWrap { line, sauce, frags, pos: 0 };
            proof {
                assert(w.remaining() =~= wrap_frags(lv, t, bs));
            }
            w
        }
    }

    /// Yields the next output fragment, if one is left.
    pub fn next_chunk(&mut self) -> (r: Option<String>)
        requires
            old(self).wf(),
        ensures
            final(self).wf(),
            match r {
                Some(s) => old(self).remaining() == seq![s@] + final(self).remaining(),
                None => old(self).remaining() == Seq::<Seq<char>>::empty() && *final(self) == *old(
                    self,
                ),
            },
    {
        if self.pos < self.frags.len() {
            let s = self.frags[self.pos].clone();
            let ghost sv = s@;
            self.pos = self.pos + 1;
            proof {
                assert(old(self).remaining() =~= seq![sv] + self.remaining());
            }
            Some(s)
        } else {
            proof {
                assert(old(self).remaining() =~= Seq::<Seq<char>>::empty());
            }
            None
        }
    }
}

} // verus!
