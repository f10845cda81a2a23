//! Rectangles on the grid and the ways to divide one among weights.
//!
//! Every tiling method takes the weights of the children of a node, in
//! order, and a rectangle, and gives each child a cell. Boundaries between
//! cells are placed in proportion to the running weight and rounded down, so
//! that cells never overlap and never leave a gap.

use vstd::prelude::*;
use crate::order::{
    arranged, index_in, is_permutation, lemma_arranged_total, lemma_index_in, lemma_slot_found, lemma_stable_order,
    stable_order,
};
use crate::series::{lemma_prefix_sum_concat, lemma_prefix_sum_monotone, prefix_sum, total};
use crate::share::{cut, cut_at, lemma_cut_bounds, lemma_cut_share};

verus! {


/// A rectangle on the grid, as a mathematical value: it spans from `x0` to
/// `x1` and from `y0` to `y1`.
pub struct Area {
    /// The left edge.
    pub x0: nat,
    /// The top edge.
    pub y0: nat,
    /// The right edge.
    pub x1: nat,
    /// The bottom edge.
    pub y1: nat,
}

impl Area {
    /// The edges are in order.
    pub open spec fn wf(self) -> bool {
        self.x0 <= self.x1 && self.y0 <= self.y1
    }

    /// The distance from the left edge to the right edge.
    pub open spec fn width(self) -> nat {
        (self.x1 - self.x0) as nat
    }

    /// The distance from the top edge to the bottom edge.
    pub open spec fn height(self) -> nat {
        (self.y1 - self.y0) as nat
    }

    /// The number of grid cells that the rectangle covers.
    pub open spec fn size(self) -> nat {
        self.width() * self.height()
    }

    /// Whether `other` lies within this rectangle.
    pub open spec fn holds(self, other: Area) -> bool {
        self.x0 <= other.x0 && other.x1 <= self.x1 && self.y0 <= other.y0 && other.y1 <= self.y1
    }

    /// Whether the two rectangles share no grid cell.
    pub open spec fn apart(self, other: Area) -> bool {
        self.x1 <= other.x0 || other.x1 <= self.x0 || self.y1 <= other.y0 || other.y1 <= self.y0
            || self.size() == 0 || other.size() == 0
    }

    /// The part of the rectangle that is left for the children of a node:
    /// `padding` is set aside on every side and `padding_top` more at the
    /// top. Where the rectangle is too small for that, nothing is left, and
    /// never less than nothing.
    #[verifier::opaque]
    pub open spec fn inset(self, padding: nat, padding_top: nat) -> Area {
        let left = if padding <= self.width() { padding } else { self.width() };
        let right = if padding <= self.width() - left { padding } else { (self.width() - left) as nat };
        let top = if padding + padding_top <= self.height() { padding + padding_top } else { self.height() };
        let bottom = if padding <= self.height() - top { padding } else { (self.height() - top) as nat };
        Area {
            x0: self.x0 + left,
            y0: self.y0 + top,
            x1: (self.x1 - right) as nat,
            y1: (self.y1 - bottom) as nat,
        }
    }
}

/// A rectangle on the grid.
#[derive(Clone, Copy, Debug)]
pub struct Rect {
    /// The left edge.
    pub x0: u64,
    /// The top edge.
    pub y0: u64,
    /// The right edge.
    pub x1: u64,
    /// The bottom edge.
    pub y1: u64,
}

impl View for Rect {
    type V = Area;

    open spec fn view(&self) -> Area {
        Area { x0: self.x0 as nat, y0: self.y0 as nat, x1: self.x1 as nat, y1: self.y1 as nat }
    }
}

impl Rect {
    /// The part of the rectangle that is left for the children of a node.
    pub fn inset(self, padding: u64, padding_top: u64) -> (inner: Rect)
        requires
            self@.wf(),
        ensures
            inner@ == self@.inset(padding as nat, padding_top as nat),
            inner@.wf(),
            self@.holds(inner@),
    {
        reveal(Area::inset);
        let width = self.x1 - self.x0;
        let height = self.y1 - self.y0;
        let left = if padding <= width { padding } else { width };
        let right = if padding <= width - left { padding } else { width - left };
        let above = if padding_top <= u64::MAX - padding { padding + padding_top } else { u64::MAX };
        let top = if above <= height { above } else { height };
        let bottom = if padding <= height - top { padding } else { height - top };
        Rect { x0: self.x0 + left, y0: self.y0 + top, x1: self.x1 - right, y1: self.y1 - bottom }
    }
}

/// The ways to divide a rectangle among the children of a node.
#[derive(Clone, Copy, Debug, PartialEq, Eq, Structural)]
pub enum TilingMethod {
    /// Horizontal bands, one below the other, each as wide as the rectangle
    /// and as high as the weight of the child asks.
    Slice,
    /// Vertical bands, side by side, each as high as the rectangle and as
    /// wide as the weight of the child asks.
    Dice,
    /// Halving: the children are split into a first and a second group of
    /// weights as equal as can be, the rectangle is cut across its longer
    /// side in proportion, and each group divides its part in the same way.
    Binary,
    /// Rows of cells that are as square as can be: the children join a row
    /// along the shorter side of what is left of the rectangle, heaviest
    /// first, for as long as the least square cell of the row gets no worse.
    Squarify,
}

/// The weight of the children from `lo` up to, not including, `hi`.
pub open spec fn range_sum(weights: Seq<nat>, lo: int, hi: int) -> nat {
    (prefix_sum(weights, hi) - prefix_sum(weights, lo)) as nat
}

/// **Bands are proportional.** The extent of every band, along the side
/// that the bands divide, differs from the exact share of its child by less
/// than one grid step.
pub proof fn lemma_band_share(weights: Seq<nat>, lo: int, hi: int, i: int, inner: Area, upright: bool)
    requires
        inner.wf(),
        0 <= lo <= hi <= weights.len(),
        0 <= i < hi - lo,
        range_sum(weights, lo, hi) > 0,
    ensures
        ({
            let cell = band(weights, lo, hi, i, inner, upright);
            let whole = range_sum(weights, lo, hi);
            let extent = if upright { cell.width() } else { cell.height() };
            let side = if upright { inner.width() } else { inner.height() };
            &&& weights[lo + i] * side - whole < extent * whole
            &&& extent * whole < weights[lo + i] * side + whole
        }),
{
    let whole = range_sum(weights, lo, hi);
    let side = if upright { inner.width() } else { inner.height() };
    lemma_prefix_sum_monotone(weights, lo, lo + i);
    lemma_prefix_sum_monotone(weights, lo + i, lo + i + 1);
    lemma_prefix_sum_monotone(weights, lo + i + 1, hi);
    lemma_cut_share(range_sum(weights, lo, lo + i), range_sum(weights, lo, lo + i + 1), whole, side);
    assert(range_sum(weights, lo, lo + i + 1) - range_sum(weights, lo, lo + i) == weights[lo + i]);
}

/// The cell of child `lo + i` where the children `lo..hi` divide `inner`
/// into bands: side by side where `upright`, and one below the other where
/// not. The band lies between the boundaries in front of and behind the
/// weight of the child, counted among the children `lo..hi`.
pub open spec fn band(weights: Seq<nat>, lo: int, hi: int, i: int, inner: Area, upright: bool) -> Area {
    let whole = range_sum(weights, lo, hi);
    let before = range_sum(weights, lo, lo + i);
    let behind = range_sum(weights, lo, lo + i + 1);
    if upright {
        Area {
            x0: inner.x0 + cut(before, whole, inner.width()),
            x1: inner.x0 + cut(behind, whole, inner.width()),
            y0: inner.y0,
            y1: inner.y1,
        }
    } else {
        Area {
            x0: inner.x0,
            x1: inner.x1,
            y0: inner.y0 + cut(before, whole, inner.height()),
            y1: inner.y0 + cut(behind, whole, inner.height()),
        }
    }
}

/// The bands of the children `lo..hi` within `inner`, in order.
pub open spec fn bands(weights: Seq<nat>, lo: int, hi: int, inner: Area, upright: bool) -> Seq<Area> {
    Seq::new((hi - lo) as nat, |i: int| band(weights, lo, hi, i, inner, upright))
}

/// The sizes of the first `n` of `cells` together.
pub open spec fn covered(cells: Seq<Area>, n: int) -> nat {
    prefix_sum(Seq::new(cells.len(), |i: int| cells[i].size()), n)
}

/// Whether every one of `cells` is a rectangle within `inner`.
pub open spec fn contained(cells: Seq<Area>, inner: Area) -> bool {
    forall|i: int| 0 <= i < cells.len() ==> (#[trigger] cells[i]).wf() && inner.holds(cells[i])
}

/// Whether `cells` tile `inner`: every cell lies within it, no two cells
/// share a grid cell, and together they cover as much as `inner` does.
pub open spec fn tiles(cells: Seq<Area>, inner: Area) -> bool {
    &&& contained(cells, inner)
    &&& forall|i: int, j: int| 0 <= i < j < cells.len() ==> (#[trigger] cells[i]).apart(#[trigger] cells[j])
    &&& covered(cells, cells.len() as int) == inner.size()
}

/// The bands up to child `lo + n` cover the rectangle up to the boundary
/// behind the last of them.
proof fn lemma_bands_covered(weights: Seq<nat>, lo: int, hi: int, inner: Area, upright: bool, n: int)
    requires
        inner.wf(),
        0 <= lo <= hi <= weights.len(),
        0 <= n <= hi - lo,
    ensures
        upright ==> covered(bands(weights, lo, hi, inner, upright), n) == cut(
            range_sum(weights, lo, lo + n),
            range_sum(weights, lo, hi),
            inner.width(),
        ) * inner.height(),
        !upright ==> covered(bands(weights, lo, hi, inner, upright), n) == inner.width() * cut(
            range_sum(weights, lo, lo + n),
            range_sum(weights, lo, hi),
            inner.height(),
        ),
    decreases n,
{
    let cells = bands(weights, lo, hi, inner, upright);
    let sizes = Seq::new(cells.len(), |i: int| cells[i].size());
    let whole = range_sum(weights, lo, hi);
    let extent = if upright { inner.width() } else { inner.height() };
    lemma_prefix_sum_monotone(weights, lo, lo + n);
    lemma_prefix_sum_monotone(weights, lo + n, hi);
    if n > 0 {
        lemma_bands_covered(weights, lo, hi, inner, upright, n - 1);
        lemma_prefix_sum_monotone(weights, lo, lo + n - 1);
        lemma_prefix_sum_monotone(weights, lo + n - 1, lo + n);
        let a = cut(range_sum(weights, lo, lo + n - 1), whole, extent) as int;
        let b = cut(range_sum(weights, lo, lo + n), whole, extent) as int;
        lemma_cut_bounds(range_sum(weights, lo, lo + n - 1), range_sum(weights, lo, lo + n), whole, extent);
        let w = inner.width() as int;
        let h = inner.height() as int;
        if upright {
            assert(sizes[n - 1] == (b - a) * h);
            assert((b - a) * h == b * h - a * h) by (nonlinear_arith);
        } else {
            assert(sizes[n - 1] == w * (b - a));
            assert(w * (b - a) == w * b - w * a) by (nonlinear_arith);
        }
    } else {
        lemma_cut_bounds(0, 0, whole, extent);
        assert(inner.width() * 0 == 0);
        assert(0 * inner.height() == 0);
    }
}

/// **Bands tile.** The bands of a range of children lie within the
/// rectangle and apart from each other, and they tile it where the range has
/// weight or the rectangle is empty. Where the range has no weight, every
/// band is empty.
pub proof fn lemma_bands_tile(weights: Seq<nat>, lo: int, hi: int, inner: Area, upright: bool)
    requires
        inner.wf(),
        0 <= lo <= hi <= weights.len(),
    ensures
        bands(weights, lo, hi, inner, upright).len() == hi - lo,
        contained(bands(weights, lo, hi, inner, upright), inner),
        range_sum(weights, lo, hi) > 0 || inner.size() == 0 ==> tiles(bands(weights, lo, hi, inner, upright), inner),
        range_sum(weights, lo, hi) == 0 ==> forall|i: int|
            0 <= i < hi - lo ==> (#[trigger] bands(weights, lo, hi, inner, upright)[i]).size() == 0,
{
    let n = hi - lo;
    let cells = bands(weights, lo, hi, inner, upright);
    let whole = range_sum(weights, lo, hi);
    let extent = if upright { inner.width() } else { inner.height() };
    let w = inner.width() as int;
    let h = inner.height() as int;
    assert forall|i: int| 0 <= i < n implies (#[trigger] cells[i]).wf() && inner.holds(cells[i]) && (whole == 0
        ==> cells[i].size() == 0) by {
        lemma_prefix_sum_monotone(weights, lo, lo + i);
        lemma_prefix_sum_monotone(weights, lo + i, lo + i + 1);
        lemma_prefix_sum_monotone(weights, lo + i + 1, hi);
        lemma_cut_bounds(range_sum(weights, lo, lo + i), range_sum(weights, lo, lo + i + 1), whole, extent);
        if whole == 0 {
            assert(w * 0 == 0);
            assert(0 * h == 0);
        }
    }
    assert forall|i: int, j: int| 0 <= i < j < n implies (#[trigger] cells[i]).apart(#[trigger] cells[j]) by {
        lemma_prefix_sum_monotone(weights, lo, lo + i + 1);
        lemma_prefix_sum_monotone(weights, lo + i + 1, lo + j);
        lemma_prefix_sum_monotone(weights, lo + j, hi);
        lemma_cut_bounds(range_sum(weights, lo, lo + i + 1), range_sum(weights, lo, lo + j), whole, extent);
    }
    lemma_bands_covered(weights, lo, hi, inner, upright, n);
    if whole > 0 {
        lemma_cut_bounds(whole, whole, whole, extent);
    } else {
        lemma_cut_bounds(0, 0, whole, extent);
        assert(w * 0 == 0);
        assert(0 * h == 0);
    }
}

/// How far a split of the children `lo..hi` in front of child `k` is from
/// two equal halves: the difference between the weights of the two groups.
pub open spec fn imbalance(weights: Seq<nat>, lo: int, hi: int, k: int) -> nat {
    let first = range_sum(weights, lo, k);
    let second = range_sum(weights, k, hi);
    if first >= second {
        (first - second) as nat
    } else {
        (second - first) as nat
    }
}

/// The best place, not behind `upto`, to split the children `lo..hi`: the
/// first place of least imbalance that leaves a child on either side.
pub open spec fn best_split(weights: Seq<nat>, lo: int, hi: int, upto: int) -> int
    decreases upto - lo,
{
    if upto <= lo + 1 {
        lo + 1
    } else {
        let before = best_split(weights, lo, hi, upto - 1);
        if imbalance(weights, lo, hi, upto) < imbalance(weights, lo, hi, before) {
            upto
        } else {
            before
        }
    }
}

/// The best split lies strictly inside the range.
pub proof fn lemma_best_split_bounds(weights: Seq<nat>, lo: int, hi: int, upto: int)
    requires
        lo + 1 <= upto,
    ensures
        lo + 1 <= best_split(weights, lo, hi, upto) <= upto,
    decreases upto - lo,
{
    if upto > lo + 1 {
        lemma_best_split_bounds(weights, lo, hi, upto - 1);
    }
}

/// The two parts into which `area` is cut for a first group of weight
/// `first` out of `whole`: across the longer side, and across the width
/// where both sides are equal.
pub open spec fn halves(area: Area, first: nat, whole: nat) -> (Area, Area) {
    if area.width() >= area.height() {
        let x = area.x0 + cut(first, whole, area.width());
        (Area { x1: x, ..area }, Area { x0: x, ..area })
    } else {
        let y = area.y0 + cut(first, whole, area.height());
        (Area { y1: y, ..area }, Area { y0: y, ..area })
    }
}

/// The cells of `Binary` for the children `lo..hi` within `area`, in order.
pub open spec fn binary_cells(weights: Seq<nat>, lo: int, hi: int, area: Area) -> Seq<Area>
    decreases hi - lo,
{
    if hi - lo <= 0 {
        Seq::empty()
    } else if hi - lo == 1 {
        seq![area]
    } else {
        let k = best_split(weights, lo, hi, hi - 1);
        let parts = halves(area, range_sum(weights, lo, k), range_sum(weights, lo, hi));
        if lo < k < hi {
            binary_cells(weights, lo, k, parts.0) + binary_cells(weights, k, hi, parts.1)
        } else {
            Seq::empty()
        }
    }
}

/// The two halves of a rectangle tile it.
pub proof fn lemma_halves(area: Area, first: nat, whole: nat)
    requires
        area.wf(),
        first <= whole,
    ensures
        halves(area, first, whole).0.wf(),
        halves(area, first, whole).1.wf(),
        area.holds(halves(area, first, whole).0),
        area.holds(halves(area, first, whole).1),
        halves(area, first, whole).0.apart(halves(area, first, whole).1),
        halves(area, first, whole).0.size() + halves(area, first, whole).1.size() == area.size(),
{
    lemma_cut_bounds(first, first, whole, area.width());
    lemma_cut_bounds(first, first, whole, area.height());
    let w = area.width() as int;
    let h = area.height() as int;
    if area.width() >= area.height() {
        let c = cut(first, whole, area.width()) as int;
        assert(c * h + (w - c) * h == w * h) by (nonlinear_arith);
    } else {
        let c = cut(first, whole, area.height()) as int;
        assert(w * c + w * (h - c) == w * h) by (nonlinear_arith);
    }
}

/// Cells within two rectangles that are apart are apart.
proof fn lemma_apart_within(a: Area, b: Area, inside_a: Area, inside_b: Area)
    requires
        a.apart(b),
        a.wf(),
        b.wf(),
        inside_a.wf(),
        inside_b.wf(),
        a.holds(inside_a),
        b.holds(inside_b),
    ensures
        inside_a.apart(inside_b),
{
    if a.size() == 0 {
        assert(inside_a.size() == 0) by (nonlinear_arith)
            requires
                a.width() * a.height() == 0,
                inside_a.width() <= a.width(),
                inside_a.height() <= a.height(),
                inside_a.size() == inside_a.width() * inside_a.height(),
        ;
    } else if b.size() == 0 {
        assert(inside_b.size() == 0) by (nonlinear_arith)
            requires
                b.width() * b.height() == 0,
                inside_b.width() <= b.width(),
                inside_b.height() <= b.height(),
                inside_b.size() == inside_b.width() * inside_b.height(),
        ;
    }
}

/// **Halving tiles.** Whatever the weights, the cells of `Binary` for a
/// range of children tile the rectangle that the range was given.
pub proof fn lemma_binary_tiles(weights: Seq<nat>, lo: int, hi: int, area: Area)
    requires
        area.wf(),
        0 <= lo < hi <= weights.len(),
    ensures
        binary_cells(weights, lo, hi, area).len() == hi - lo,
        tiles(binary_cells(weights, lo, hi, area), area),
    decreases hi - lo,
{
    let cells = binary_cells(weights, lo, hi, area);
    if hi - lo == 1 {
        reveal_with_fuel(prefix_sum, 2);
        assert(Seq::new(cells.len(), |i: int| cells[i].size())[0] == area.size());
    } else {
        let k = best_split(weights, lo, hi, hi - 1);
        lemma_best_split_bounds(weights, lo, hi, hi - 1);
        lemma_prefix_sum_monotone(weights, lo, k);
        lemma_prefix_sum_monotone(weights, k, hi);
        let parts = halves(area, range_sum(weights, lo, k), range_sum(weights, lo, hi));
        lemma_halves(area, range_sum(weights, lo, k), range_sum(weights, lo, hi));
        let first = binary_cells(weights, lo, k, parts.0);
        let second = binary_cells(weights, k, hi, parts.1);
        lemma_binary_tiles(weights, lo, k, parts.0);
        lemma_binary_tiles(weights, k, hi, parts.1);
        assert(cells == first + second);
        assert forall|i: int| 0 <= i < cells.len() implies (#[trigger] cells[i]).wf() && area.holds(cells[i]) by {
            if i < first.len() {
                assert(cells[i] == first[i]);
            } else {
                assert(cells[i] == second[i - first.len()]);
            }
        }
        assert forall|i: int, j: int| 0 <= i < j < cells.len() implies (#[trigger] cells[i]).apart(
            #[trigger] cells[j],
        ) by {
            if j < first.len() {
                assert(cells[i] == first[i] && cells[j] == first[j]);
            } else if i >= first.len() {
                assert(cells[i] == second[i - first.len()] && cells[j] == second[j - first.len()]);
            } else {
                assert(cells[i] == first[i] && cells[j] == second[j - first.len()]);
                lemma_apart_within(parts.0, parts.1, cells[i], cells[j]);
            }
        }
        let sizes = Seq::new(cells.len(), |i: int| cells[i].size());
        let first_sizes = Seq::new(first.len(), |i: int| first[i].size());
        let second_sizes = Seq::new(second.len(), |i: int| second[i].size());
        assert(sizes =~= first_sizes + second_sizes);
        lemma_prefix_sum_concat(first_sizes, second_sizes, second_sizes.len() as int);
    }
}

/// Whether the ratio of `a` to `b` is greater than the ratio of `c` to `d`,
/// where a ratio to nothing is greater than every ratio to something.
pub open spec fn exceeds(a: nat, b: nat, c: nat, d: nat) -> bool {
    if b == 0 {
        d != 0
    } else if d == 0 {
        false
    } else {
        a * d > c * b
    }
}

/// The aspect of a cell with sides `l` and `t`: the longer side and the
/// shorter side, whose ratio says how far the cell is from a square.
pub open spec fn aspect(l: nat, t: nat) -> (nat, nat) {
    if l >= t {
        (l, t)
    } else {
        (t, l)
    }
}

/// The greater of two ratios, and the first where they are equal.
pub open spec fn greater(p: (nat, nat), q: (nat, nat)) -> (nat, nat) {
    if exceeds(q.0, q.1, p.0, p.1) {
        q
    } else {
        p
    }
}

/// The shorter side of a rectangle.
pub open spec fn short_side(area: Area) -> nat {
    if area.width() >= area.height() {
        area.height()
    } else {
        area.width()
    }
}

/// The longer side of a rectangle.
pub open spec fn long_side(area: Area) -> nat {
    if area.width() >= area.height() {
        area.width()
    } else {
        area.height()
    }
}

/// The aspect of the least square cell in a row of the children `lo..hi`
/// laid along the shorter side of `rest`, of which `remaining` weight has
/// yet to be placed. The row is as thick as its weight asks; its first
/// child, the heaviest, gets the longest cell and its last the shortest.
pub open spec fn worst(weights: Seq<nat>, lo: int, hi: int, rest: Area, remaining: nat) -> (nat, nat) {
    let row = range_sum(weights, lo, hi);
    let thick = cut(row, remaining, long_side(rest));
    let longest = cut(weights[lo], row, short_side(rest));
    let shortest = cut(weights[hi - 1], row, short_side(rest));
    greater(aspect(longest, thick), aspect(shortest, thick))
}

/// Where the row that starts at child `lo` and has grown to child `hi` ends:
/// the row takes in the next child for as long as that does not make its
/// worst cell worse.
pub open spec fn row_end(weights: Seq<nat>, lo: int, hi: int, n: int, rest: Area, remaining: nat) -> int
    decreases n - hi,
{
    if hi >= n {
        hi
    } else {
        let now = worst(weights, lo, hi, rest, remaining);
        let then = worst(weights, lo, hi + 1, rest, remaining);
        if exceeds(then.0, then.1, now.0, now.1) {
            hi
        } else {
            row_end(weights, lo, hi + 1, n, rest, remaining)
        }
    }
}

/// A row ends behind the child it has grown to, and not behind the last.
pub proof fn lemma_row_end_bounds(weights: Seq<nat>, lo: int, hi: int, n: int, rest: Area, remaining: nat)
    requires
        hi <= n,
    ensures
        hi <= row_end(weights, lo, hi, n, rest, remaining) <= n,
    decreases n - hi,
{
    if hi < n {
        lemma_row_end_bounds(weights, lo, hi + 1, n, rest, remaining);
    }
}

/// The cells of `Squarify` for the children `lo..n` within `rest`, of which
/// `remaining` weight has yet to be placed: the first row, cut off across
/// the longer side of `rest` and divided along the shorter, and behind it
/// the cells of the children that follow, in what is left.
pub open spec fn squarify_cells(weights: Seq<nat>, lo: int, n: int, rest: Area, remaining: nat) -> Seq<Area>
    decreases n - lo,
{
    if lo >= n {
        Seq::empty()
    } else {
        let hi = row_end(weights, lo, lo + 1, n, rest, remaining);
        let row = range_sum(weights, lo, hi);
        let parts = halves(rest, row, remaining);
        if lo < hi <= n {
            bands(weights, lo, hi, parts.0, rest.width() < rest.height()) + squarify_cells(
                weights,
                hi,
                n,
                parts.1,
                (remaining - row) as nat,
            )
        } else {
            Seq::empty()
        }
    }
}

/// `Squarify` makes one cell for every child.
pub proof fn lemma_squarify_len(weights: Seq<nat>, lo: int, n: int, rest: Area, remaining: nat)
    requires
        0 <= lo <= n <= weights.len(),
    ensures
        squarify_cells(weights, lo, n, rest, remaining).len() == n - lo,
    decreases n - lo,
{
    if lo < n {
        let hi = row_end(weights, lo, lo + 1, n, rest, remaining);
        lemma_row_end_bounds(weights, lo, lo + 1, n, rest, remaining);
        let row = range_sum(weights, lo, hi);
        let parts = halves(rest, row, remaining);
        lemma_squarify_len(weights, hi, n, parts.1, (remaining - row) as nat);
    }
}

/// A rectangle without size has no room for a cell with size.
proof fn lemma_empty_holds_empty(outer: Area, inside: Area)
    requires
        outer.wf(),
        inside.wf(),
        outer.holds(inside),
        outer.size() == 0,
    ensures
        inside.size() == 0,
{
    assert(inside.size() == 0) by (nonlinear_arith)
        requires
            outer.width() * outer.height() == 0,
            inside.width() <= outer.width(),
            inside.height() <= outer.height(),
            inside.size() == inside.width() * inside.height(),
    ;
}

/// **Rows tile.** Where the weight that has yet to be placed is that of the
/// children `lo..n`, and there is such weight or the rectangle is empty, the
/// cells of `Squarify` tile the rectangle.
pub proof fn lemma_squarify_tiles(weights: Seq<nat>, lo: int, n: int, rest: Area, remaining: nat)
    requires
        rest.wf(),
        0 <= lo <= n <= weights.len(),
        range_sum(weights, lo, n) == remaining,
        remaining > 0 || rest.size() == 0,
    ensures
        squarify_cells(weights, lo, n, rest, remaining).len() == n - lo,
        contained(squarify_cells(weights, lo, n, rest, remaining), rest),
        lo < n ==> tiles(squarify_cells(weights, lo, n, rest, remaining), rest),
    decreases n - lo,
{
    let cells = squarify_cells(weights, lo, n, rest, remaining);
    if lo < n {
        let hi = row_end(weights, lo, lo + 1, n, rest, remaining);
        lemma_row_end_bounds(weights, lo, lo + 1, n, rest, remaining);
        lemma_prefix_sum_monotone(weights, lo, hi);
        lemma_prefix_sum_monotone(weights, hi, n);
        let row = range_sum(weights, lo, hi);
        let parts = halves(rest, row, remaining);
        lemma_halves(rest, row, remaining);
        let upright = rest.width() < rest.height();
        let first = bands(weights, lo, hi, parts.0, upright);
        let left = (remaining - row) as nat;
        let second = squarify_cells(weights, hi, n, parts.1, left);
        lemma_bands_tile(weights, lo, hi, parts.0, upright);
        if row == 0 {
            // a row without weight is given no room
            lemma_cut_bounds(0, 0, remaining, rest.width());
            lemma_cut_bounds(0, 0, remaining, rest.height());
            assert(rest.width() * 0 == 0);
            assert(0 * rest.height() == 0);
            assert(parts.0.size() == 0);
        }
        if left == 0 && remaining > 0 {
            // the last row with weight takes all the room that is left
            lemma_cut_bounds(remaining, remaining, remaining, rest.width());
            lemma_cut_bounds(remaining, remaining, remaining, rest.height());
            assert(rest.width() * 0 == 0);
            assert(0 * rest.height() == 0);
            assert(parts.1.size() == 0);
        }
        if remaining == 0 {
            lemma_empty_holds_empty(rest, parts.1);
        }
        lemma_squarify_tiles(weights, hi, n, parts.1, left);
        assert(cells == first + second);
        assert forall|i: int| 0 <= i < cells.len() implies (#[trigger] cells[i]).wf() && rest.holds(cells[i]) by {
            if i < first.len() {
                assert(cells[i] == first[i]);
            } else {
                assert(cells[i] == second[i - first.len()]);
            }
        }
        assert forall|i: int, j: int| 0 <= i < j < cells.len() implies (#[trigger] cells[i]).apart(
            #[trigger] cells[j],
        ) by {
            if j < first.len() {
                assert(cells[i] == first[i] && cells[j] == first[j]);
            } else if i >= first.len() {
                assert(cells[i] == second[i - first.len()] && cells[j] == second[j - first.len()]);
            } else {
                assert(cells[i] == first[i] && cells[j] == second[j - first.len()]);
                lemma_apart_within(parts.0, parts.1, cells[i], cells[j]);
            }
        }
        let sizes = Seq::new(cells.len(), |i: int| cells[i].size());
        let first_sizes = Seq::new(first.len(), |i: int| first[i].size());
        let second_sizes = Seq::new(second.len(), |i: int| second[i].size());
        assert(sizes =~= first_sizes + second_sizes);
        lemma_prefix_sum_concat(first_sizes, second_sizes, second_sizes.len() as int);
        if hi == n {
            assert(second_sizes.len() == 0);
            assert(covered(second, 0) == 0);
        }
    }
}

/// The cells of `Squarify` for children of the given weights: the children
/// join the rows in stable descending order of weight, and every child gets
/// the cell that was made for it.
pub open spec fn squarify_by_weight(weights: Seq<nat>, inner: Area) -> Seq<Area> {
    let order = stable_order(weights);
    let rows = squarify_cells(arranged(weights, order), 0, weights.len() as int, inner, total(weights));
    Seq::new(weights.len(), |i: int| rows[index_in(order, i)])
}

/// **Rows by weight tile.** Where the children have weight, the cells that
/// `Squarify` gives them tile the rectangle.
pub proof fn lemma_squarify_by_weight_tiles(weights: Seq<nat>, inner: Area)
    requires
        inner.wf(),
        total(weights) > 0,
    ensures
        squarify_by_weight(weights, inner).len() == weights.len(),
        tiles(squarify_by_weight(weights, inner), inner),
{
    let n = weights.len() as int;
    let order = stable_order(weights);
    let sorted = arranged(weights, order);
    let rows = squarify_cells(sorted, 0, n, inner, total(weights));
    let cells = squarify_by_weight(weights, inner);
    lemma_stable_order(weights);
    lemma_index_in(order, n);
    lemma_arranged_total(weights, weights);
    lemma_squarify_tiles(sorted, 0, n, inner, total(weights));
    assert forall|i: int, j: int| 0 <= i < j < n implies (#[trigger] cells[i]).apart(#[trigger] cells[j]) by {
        let a = index_in(order, i);
        let b = index_in(order, j);
        if a < b {
            assert(rows[a].apart(rows[b]));
        } else {
            assert(rows[b].apart(rows[a]));
        }
    }
    let sizes = Seq::new(cells.len(), |i: int| cells[i].size());
    let row_sizes = Seq::new(rows.len(), |k: int| rows[k].size());
    assert(row_sizes =~= arranged(sizes, order));
    lemma_arranged_total(sizes, weights);
}

/// The cells that a tiling method gives children of the given weights within
/// `inner`. Where the children have no weight at all, every cell is the
/// empty rectangle at the corner of `inner`.
#[verifier::opaque]
pub open spec fn cells_of(method: TilingMethod, weights: Seq<nat>, inner: Area) -> Seq<Area> {
    let n = weights.len() as int;
    if total(weights) == 0 {
        Seq::new(weights.len(), |i: int| Area { x0: inner.x0, y0: inner.y0, x1: inner.x0, y1: inner.y0 })
    } else {
        match method {
            TilingMethod::Slice => bands(weights, 0, n, inner, false),
            TilingMethod::Dice => bands(weights, 0, n, inner, true),
            TilingMethod::Binary => binary_cells(weights, 0, n, inner),
            TilingMethod::Squarify => squarify_by_weight(weights, inner),
        }
    }
}

/// **Area conservation.** Whatever the method: every child gets a cell
/// within the rectangle; where the children have weight, their cells tile
/// the rectangle, so that their sizes add up to its size; and where they
/// have none, every cell is empty.
pub proof fn lemma_cells_tile(method: TilingMethod, weights: Seq<nat>, inner: Area)
    requires
        inner.wf(),
    ensures
        cells_of(method, weights, inner).len() == weights.len(),
        contained(cells_of(method, weights, inner), inner),
        total(weights) > 0 ==> tiles(cells_of(method, weights, inner), inner),
        total(weights) == 0 ==> forall|i: int|
            0 <= i < weights.len() ==> (#[trigger] cells_of(method, weights, inner)[i]).size() == 0,
{
    let n = weights.len() as int;
    reveal(cells_of);
    if total(weights) == 0 {
        assert(0 * 0 == 0);
    } else {
        assert(n > 0);
        match method {
            TilingMethod::Slice => lemma_bands_tile(weights, 0, n, inner, false),
            TilingMethod::Dice => lemma_bands_tile(weights, 0, n, inner, true),
            TilingMethod::Binary => lemma_binary_tiles(weights, 0, n, inner),
            TilingMethod::Squarify => lemma_squarify_by_weight_tiles(weights, inner),
        }
    }
}

/// The mathematical rectangles that a sequence of rectangles stands for.
pub open spec fn areas(cells: Seq<Rect>) -> Seq<Area> {
    Seq::new(cells.len(), |i: int| cells[i]@)
}

/// Whether `sums` holds the running totals of `weights`: entry `i` is the
/// weight of the first `i` children.
pub open spec fn running(sums: Seq<u64>, weights: Seq<nat>) -> bool {
    &&& sums.len() == weights.len() + 1
    &&& forall|i: int| 0 <= i <= weights.len() ==> #[trigger] sums[i] == prefix_sum(weights, i)
}

/// Running totals never shrink.
proof fn lemma_running_monotone(sums: Seq<u64>, weights: Seq<nat>, i: int, j: int)
    requires
        running(sums, weights),
        0 <= i <= j <= weights.len(),
    ensures
        sums[i] <= sums[j],
        sums[j] - sums[i] == range_sum(weights, i, j),
        j == i + 1 ==> sums[j] - sums[i] == weights[i],
{
    lemma_prefix_sum_monotone(weights, i, j);
}

/// Appends the bands of the children `lo..hi` within `inner`.
fn fill_bands(
    sums: &Vec<u64>,
    lo: usize,
    hi: usize,
    inner: Rect,
    upright: bool,
    cells: &mut Vec<Rect>,
    Ghost(weights): Ghost<Seq<nat>>,
)
    requires
        running(sums@, weights),
        lo <= hi <= weights.len(),
        inner@.wf(),
    ensures
        areas(final(cells)@) == areas(old(cells)@) + bands(weights, lo as int, hi as int, inner@, upright),
{
    proof {
        lemma_running_monotone(sums@, weights, lo as int, hi as int);
    }
    let whole = sums[hi] - sums[lo];
    let extent = if upright { inner.x1 - inner.x0 } else { inner.y1 - inner.y0 };
    let mut i: usize = lo;
    let mut before: u64 = 0;
    proof {
        lemma_cut_bounds(0, 0, whole as nat, extent as nat);
        assert(areas(cells@) =~= areas(old(cells)@) + bands(weights, lo as int, hi as int, inner@, upright).take(0));
    }
    while i < hi
        invariant
            lo <= i <= hi <= weights.len(),
            running(sums@, weights),
            inner@.wf(),
            whole == range_sum(weights, lo as int, hi as int),
            extent == if upright { inner@.width() } else { inner@.height() },
            before == cut(range_sum(weights, lo as int, i as int), whole as nat, extent as nat),
            before <= extent,
            areas(cells@) == areas(old(cells)@) + bands(weights, lo as int, hi as int, inner@, upright).take(
                i - lo,
            ),
        decreases hi - i,
    {
        proof {
            lemma_running_monotone(sums@, weights, lo as int, i as int);
            lemma_running_monotone(sums@, weights, lo as int, i + 1);
            lemma_running_monotone(sums@, weights, i as int, i + 1);
            lemma_running_monotone(sums@, weights, i + 1, hi as int);
            lemma_running_monotone(sums@, weights, lo as int, hi as int);
            lemma_cut_bounds(
                range_sum(weights, lo as int, i as int),
                range_sum(weights, lo as int, i + 1),
                whole as nat,
                extent as nat,
            );
        }
        let behind = cut_at(sums[i + 1] - sums[lo], whole, extent);
        let cell = if upright {
            Rect { x0: inner.x0 + before, x1: inner.x0 + behind, y0: inner.y0, y1: inner.y1 }
        } else {
            Rect { x0: inner.x0, x1: inner.x1, y0: inner.y0 + before, y1: inner.y0 + behind }
        };
        let ghost shorter = cells@;
        cells.push(cell);
        proof {
            let all = bands(weights, lo as int, hi as int, inner@, upright);
            assert(cell@ == all[i - lo]);
            assert(all.take(i - lo + 1) =~= all.take(i - lo).push(all[i - lo]));
            assert(areas(cells@) =~= areas(shorter).push(cell@));
            assert(areas(cells@) =~= areas(old(cells)@) + all.take(i - lo + 1));
        }
        before = behind;
        i += 1;
    }
    proof {
        let all = bands(weights, lo as int, hi as int, inner@, upright);
        assert(all.take(hi - lo) =~= all);
    }
}

/// Cuts `area` in two for a first group of weight `first` out of `whole`.
fn halve(area: Rect, first: u64, whole: u64) -> (parts: (Rect, Rect))
    requires
        area@.wf(),
        first <= whole,
    ensures
        parts.0@ == halves(area@, first as nat, whole as nat).0,
        parts.1@ == halves(area@, first as nat, whole as nat).1,
        parts.0@.wf(),
        parts.1@.wf(),
{
    let width = area.x1 - area.x0;
    let height = area.y1 - area.y0;
    if width >= height {
        let x = area.x0 + cut_at(first, whole, width);
        (Rect { x0: area.x0, y0: area.y0, x1: x, y1: area.y1 }, Rect { x0: x, y0: area.y0, x1: area.x1, y1: area.y1 })
    } else {
        let y = area.y0 + cut_at(first, whole, height);
        (Rect { x0: area.x0, y0: area.y0, x1: area.x1, y1: y }, Rect { x0: area.x0, y0: y, x1: area.x1, y1: area.y1 })
    }
}

/// How far a split of the children `lo..hi` in front of child `k` is from
/// two equal halves.
fn imbalance_at(sums: &Vec<u64>, lo: usize, hi: usize, k: usize, Ghost(weights): Ghost<Seq<nat>>) -> (gap: u64)
    requires
        running(sums@, weights),
        lo <= k <= hi <= weights.len(),
    ensures
        gap == imbalance(weights, lo as int, hi as int, k as int),
{
    proof {
        lemma_running_monotone(sums@, weights, lo as int, k as int);
        lemma_running_monotone(sums@, weights, k as int, hi as int);
    }
    let first = sums[k] - sums[lo];
    let second = sums[hi] - sums[k];
    if first >= second {
        first - second
    } else {
        second - first
    }
}

/// A range of children that has yet to be given its cells, and the
/// rectangle that the range is to divide.
struct Part {
    lo: usize,
    hi: usize,
    area: Rect,
}

/// The cells of `Binary` for the first `n` parts on a work list, the part on
/// top first.
spec fn pending_cells(weights: Seq<nat>, parts: Seq<Part>, n: int) -> Seq<Area>
    decreases n,
{
    if n <= 0 || n > parts.len() {
        Seq::empty()
    } else {
        binary_cells(weights, parts[n - 1].lo as int, parts[n - 1].hi as int, parts[n - 1].area@) + pending_cells(
            weights,
            parts,
            n - 1,
        )
    }
}

/// The number of steps that the first `n` parts on a work list ask for: one
/// for every cell and one for every cut.
spec fn pending_work(parts: Seq<Part>, n: int) -> nat
    decreases n,
{
    if n <= 0 || n > parts.len() {
        0
    } else {
        (if parts[n - 1].hi > parts[n - 1].lo {
            (2 * (parts[n - 1].hi - parts[n - 1].lo) - 1) as nat
        } else {
            1nat
        }) + pending_work(parts, n - 1)
    }
}

/// What a work list has yet to yield depends only on its entries.
proof fn lemma_pending_agrees(weights: Seq<nat>, a: Seq<Part>, b: Seq<Part>, n: int)
    requires
        0 <= n <= a.len(),
        n <= b.len(),
        forall|k: int| 0 <= k < n ==> a[k] == b[k],
    ensures
        pending_cells(weights, a, n) == pending_cells(weights, b, n),
        pending_work(a, n) == pending_work(b, n),
    decreases n,
{
    if n > 0 {
        lemma_pending_agrees(weights, a, b, n - 1);
    }
}

/// Appends the cells of `Binary` for the children `lo..hi` within `area`.
/// The ranges that have yet to be cut wait on a work list, so a long run of
/// uneven cuts costs no call stack.
fn fill_binary(
    sums: &Vec<u64>,
    lo: usize,
    hi: usize,
    area: Rect,
    cells: &mut Vec<Rect>,
    Ghost(weights): Ghost<Seq<nat>>,
)
    requires
        running(sums@, weights),
        lo <= hi <= weights.len(),
        area@.wf(),
    ensures
        areas(final(cells)@) == areas(old(cells)@) + binary_cells(weights, lo as int, hi as int, area@),
{
    let ghost all = binary_cells(weights, lo as int, hi as int, area@);
    let mut stack: Vec<Part> = Vec::new();
    stack.push(Part { lo, hi, area });
    proof {
        reveal_with_fuel(pending_cells, 2);
        assert(areas(cells@) + pending_cells(weights, stack@, 1) =~= areas(old(cells)@) + all);
    }
    while stack.len() > 0
        invariant
            running(sums@, weights),
            all == binary_cells(weights, lo as int, hi as int, area@),
            forall|j: int|
                0 <= j < stack@.len() ==> (#[trigger] stack@[j]).lo <= stack@[j].hi <= weights.len()
                    && stack@[j].area@.wf(),
            areas(cells@) + pending_cells(weights, stack@, stack@.len() as int) == areas(old(cells)@) + all,
        decreases pending_work(stack@, stack@.len() as int),
    {
        let ghost before = stack@;
        let ghost built = cells@;
        let part = stack.pop().unwrap();
        let ghost below = pending_cells(weights, stack@, stack@.len() as int);
        proof {
            lemma_pending_agrees(weights, before, stack@, stack@.len() as int);
        }
        if part.hi <= part.lo {
            proof {
                assert(areas(cells@) + below =~= areas(built) + (Seq::<Area>::empty() + below));
            }
        } else if part.hi - part.lo == 1 {
            cells.push(part.area);
            proof {
                assert(areas(cells@) + below =~= areas(built) + (seq![part.area@] + below));
            }
        } else {
            let mut best: usize = part.lo + 1;
            let mut least = imbalance_at(sums, part.lo, part.hi, best, Ghost(weights));
            let mut upto: usize = part.lo + 1;
            while upto + 1 < part.hi
                invariant
                    part.lo + 1 <= upto < part.hi <= weights.len(),
                    running(sums@, weights),
                    best == best_split(weights, part.lo as int, part.hi as int, upto as int),
                    least == imbalance(weights, part.lo as int, part.hi as int, best as int),
                    part.lo + 1 <= best <= upto,
                decreases part.hi - upto,
            {
                upto += 1;
                let gap = imbalance_at(sums, part.lo, part.hi, upto, Ghost(weights));
                if gap < least {
                    best = upto;
                    least = gap;
                }
            }
            proof {
                lemma_running_monotone(sums@, weights, part.lo as int, best as int);
                lemma_running_monotone(sums@, weights, best as int, part.hi as int);
                lemma_running_monotone(sums@, weights, part.lo as int, part.hi as int);
            }
            let halves = halve(part.area, sums[best] - sums[part.lo], sums[part.hi] - sums[part.lo]);
            let ghost base = stack@;
            stack.push(Part { lo: best, hi: part.hi, area: halves.1 });
            let ghost middle = stack@;
            stack.push(Part { lo: part.lo, hi: best, area: halves.0 });
            proof {
                let first = binary_cells(weights, part.lo as int, best as int, halves.0@);
                let second = binary_cells(weights, best as int, part.hi as int, halves.1@);
                lemma_pending_agrees(weights, middle, base, base.len() as int);
                lemma_pending_agrees(weights, stack@, middle, middle.len() as int);
                reveal_with_fuel(pending_work, 3);
                assert(pending_cells(weights, stack@, stack@.len() as int) =~= first + (second + below));
                assert(areas(cells@) + (first + (second + below)) =~= areas(built) + ((first + second) + below));
            }
        }
    }
    proof {
        assert(areas(cells@) + Seq::<Area>::empty() =~= areas(cells@));
    }
}

/// Whether the ratio of `a` to `b` is greater than the ratio of `c` to `d`.
fn exceeds_at(a: u64, b: u64, c: u64, d: u64) -> (more: bool)
    ensures
        more == exceeds(a as nat, b as nat, c as nat, d as nat),
{
    if b == 0 {
        d != 0
    } else if d == 0 {
        false
    } else {
        assert(a * d <= 0xffff_ffff_ffff_ffff * 0xffff_ffff_ffff_ffff) by (nonlinear_arith)
            requires
                a <= 0xffff_ffff_ffff_ffff,
                d <= 0xffff_ffff_ffff_ffff,
        ;
        assert(c * b <= 0xffff_ffff_ffff_ffff * 0xffff_ffff_ffff_ffff) by (nonlinear_arith)
            requires
                c <= 0xffff_ffff_ffff_ffff,
                b <= 0xffff_ffff_ffff_ffff,
        ;
        (a as u128) * (d as u128) > (c as u128) * (b as u128)
    }
}

/// The aspect of the least square cell in a row of the children `lo..hi`
/// laid along the shorter side of `rest`.
fn worst_at(sums: &Vec<u64>, lo: usize, hi: usize, rest: Rect, Ghost(weights): Ghost<Seq<nat>>) -> (found: (u64, u64))
    requires
        running(sums@, weights),
        lo < hi <= weights.len(),
        rest@.wf(),
    ensures
        (found.0 as nat, found.1 as nat) == worst(
            weights,
            lo as int,
            hi as int,
            rest@,
            range_sum(weights, lo as int, weights.len() as int),
        ),
{
    let n = sums.len() - 1;
    proof {
        lemma_running_monotone(sums@, weights, lo as int, hi as int);
        lemma_running_monotone(sums@, weights, hi as int, n as int);
        lemma_running_monotone(sums@, weights, lo as int, n as int);
        lemma_running_monotone(sums@, weights, lo as int, lo + 1);
        lemma_running_monotone(sums@, weights, lo + 1, hi as int);
        lemma_running_monotone(sums@, weights, hi - 1, hi as int);
        lemma_running_monotone(sums@, weights, lo as int, hi - 1);
    }
    let width = rest.x1 - rest.x0;
    let height = rest.y1 - rest.y0;
    let (short, long) = if width >= height { (height, width) } else { (width, height) };
    let row = sums[hi] - sums[lo];
    let remaining = sums[n] - sums[lo];
    let thick = cut_at(row, remaining, long);
    let longest = cut_at(sums[lo + 1] - sums[lo], row, short);
    let shortest = cut_at(sums[hi] - sums[hi - 1], row, short);
    let first = if longest >= thick { (longest, thick) } else { (thick, longest) };
    let second = if shortest >= thick { (shortest, thick) } else { (thick, shortest) };
    if exceeds_at(second.0, second.1, first.0, first.1) {
        second
    } else {
        first
    }
}

/// Appends the cells of `Squarify` for all children within `inner`.
fn fill_squarify(sums: &Vec<u64>, inner: Rect, cells: &mut Vec<Rect>, Ghost(weights): Ghost<Seq<nat>>)
    requires
        running(sums@, weights),
        inner@.wf(),
    ensures
        areas(final(cells)@) == areas(old(cells)@) + squarify_cells(
            weights,
            0,
            weights.len() as int,
            inner@,
            total(weights),
        ),
{
    let n = sums.len() - 1;
    let ghost all = squarify_cells(weights, 0, n as int, inner@, total(weights));
    let mut lo: usize = 0;
    let mut rest = inner;
    proof {
        assert(areas(cells@) + all =~= areas(old(cells)@) + all);
    }
    while lo < n
        invariant
            0 <= lo <= n,
            n == weights.len(),
            running(sums@, weights),
            rest@.wf(),
            all == squarify_cells(weights, 0, n as int, inner@, total(weights)),
            areas(cells@) + squarify_cells(
                weights,
                lo as int,
                n as int,
                rest@,
                range_sum(weights, lo as int, n as int),
            ) == areas(old(cells)@) + all,
        decreases n - lo,
    {
        let ghost remaining = range_sum(weights, lo as int, n as int);
        let ghost target = row_end(weights, lo as int, lo + 1, n as int, rest@, remaining);
        let mut hi: usize = lo + 1;
        let mut now = worst_at(sums, lo, hi, rest, Ghost(weights));
        let mut growing = true;
        while growing && hi < n
            invariant
                lo < hi <= n,
                n == weights.len(),
                running(sums@, weights),
                rest@.wf(),
                remaining == range_sum(weights, lo as int, n as int),
                growing ==> target == row_end(weights, lo as int, hi as int, n as int, rest@, remaining),
                growing ==> (now.0 as nat, now.1 as nat) == worst(weights, lo as int, hi as int, rest@, remaining),
                !growing ==> target == hi,
            decreases n - hi + if growing { 1int } else { 0int },
        {
            let then = worst_at(sums, lo, hi + 1, rest, Ghost(weights));
            if exceeds_at(then.0, then.1, now.0, now.1) {
                growing = false;
            } else {
                hi += 1;
                now = then;
            }
        }
        proof {
            lemma_running_monotone(sums@, weights, lo as int, hi as int);
            lemma_running_monotone(sums@, weights, hi as int, n as int);
            lemma_running_monotone(sums@, weights, lo as int, n as int);
        }
        let row = sums[hi] - sums[lo];
        let parts = halve(rest, row, sums[n] - sums[lo]);
        let ghost before = cells@;
        let ghost old_rest = rest@;
        fill_bands(sums, lo, hi, parts.0, rest.x1 - rest.x0 < rest.y1 - rest.y0, cells, Ghost(weights));
        proof {
            let first = bands(weights, lo as int, hi as int, parts.0@, old_rest.width() < old_rest.height());
            let second = squarify_cells(weights, hi as int, n as int, parts.1@, (remaining - row) as nat);
            assert(squarify_cells(weights, lo as int, n as int, old_rest, remaining) == first + second);
            assert(areas(cells@) + second =~= areas(before) + (first + second));
        }
        rest = parts.1;
        lo = hi;
    }
    proof {
        assert(areas(cells@) + Seq::<Area>::empty() =~= areas(cells@));
    }
}

/// The cells that `method` gives the children within `inner`.
pub(crate) fn tile(method: TilingMethod, sums: &Vec<u64>, inner: Rect, Ghost(weights): Ghost<Seq<nat>>) -> (cells: Vec<Rect>)
    requires
        running(sums@, weights),
        inner@.wf(),
    ensures
        areas(cells@) == cells_of(method, weights, inner@),
        cells@.len() == weights.len(),
{
    let n = sums.len() - 1;
    let mut cells: Vec<Rect> = Vec::new();
    proof {
        reveal(cells_of);
        lemma_cells_tile(method, weights, inner@);
    }
    if sums[n] == 0 {
        let corner = Rect { x0: inner.x0, y0: inner.y0, x1: inner.x0, y1: inner.y0 };
        let mut i: usize = 0;
        while i < n
            invariant
                0 <= i <= n,
                cells@.len() == i,
                forall|k: int| 0 <= k < i ==> #[trigger] cells@[k] == corner,
            decreases n - i,
        {
            cells.push(corner);
            i += 1;
        }
        proof {
            assert(areas(cells@) =~= cells_of(method, weights, inner@));
        }
    } else {
        proof {
            assert(areas(cells@) =~= Seq::<Area>::empty());
        }
        match method {
            TilingMethod::Slice => fill_bands(sums, 0, n, inner, false, &mut cells, Ghost(weights)),
            TilingMethod::Dice => fill_bands(sums, 0, n, inner, true, &mut cells, Ghost(weights)),
            TilingMethod::Binary => fill_binary(sums, 0, n, inner, &mut cells, Ghost(weights)),
            TilingMethod::Squarify => {
                cells = squarify_in_order(sums, inner, Ghost(weights));
            },
        }
        proof {
            assert(areas(cells@) =~= cells_of(method, weights, inner@));
        }
    }
    cells
}

/// The places of the children in stable descending order of weight.
fn order_of(sums: &Vec<u64>, Ghost(weights): Ghost<Seq<nat>>) -> (order: Vec<usize>)
    requires
        running(sums@, weights),
    ensures
        order@.len() == weights.len(),
        forall|k: int| 0 <= k < weights.len() ==> #[trigger] order@[k] == stable_order(weights)[k],
{
    let n = sums.len() - 1;
    let mut order: Vec<usize> = Vec::new();
    let mut i: usize = 0;
    proof {
        assert(weights.take(0) =~= Seq::<nat>::empty());
    }
    while i < n
        invariant
            0 <= i <= n,
            n == weights.len(),
            running(sums@, weights),
            order@.len() == i,
            forall|k: int| 0 <= k < i ==> #[trigger] order@[k] == stable_order(weights.take(i as int))[k],
        decreases n - i,
    {
        let ghost head = weights.take(i as int);
        let ghost before = stable_order(head);
        let ghost run = arranged(head, before);
        proof {
            lemma_stable_order(head);
            lemma_running_monotone(sums@, weights, i as int, i + 1);
            assert forall|k: int| 0 <= k < i implies 0 <= #[trigger] order@[k] < i by {
                assert(order@[k] == before[k]);
            }
            assert forall|a: int, b: int| 0 <= a < b < i implies run[a] >= run[b] by {
                assert(head[before[a]] >= head[before[b]]);
            }
        }
        let key = sums[i + 1] - sums[i];
        let mut j: usize = 0;
        let mut end: usize = i;
        while j < end
            invariant
                0 <= j <= end <= i < n,
                n == weights.len(),
                running(sums@, weights),
                order@.len() == i,
                run.len() == i,
                forall|k: int| 0 <= k < i ==> 0 <= #[trigger] order@[k] < i,
                forall|k: int| 0 <= k < i ==> #[trigger] run[k] == weights[order@[k] as int],
                forall|a: int, b: int| 0 <= a < b < i ==> run[a] >= run[b],
                forall|k: int| 0 <= k < j ==> run[k] >= key,
                forall|k: int| end <= k < i ==> run[k] < key,
            decreases end - j,
        {
            let middle = j + (end - j) / 2;
            let at = order[middle];
            proof {
                lemma_running_monotone(sums@, weights, at as int, at + 1);
                assert(run[middle as int] == weights[at as int]);
                assert forall|k: int| 0 <= k < middle implies run[k] >= run[middle as int] by {}
                assert forall|k: int| middle < k < i implies run[middle as int] >= run[k] by {}
            }
            if sums[at + 1] - sums[at] >= key {
                j = middle + 1;
            } else {
                end = middle;
            }
        }
        let ghost shorter = order@;
        order.insert(j, i);
        proof {
            lemma_slot_found(run, key as nat, j as int);
            assert(weights.take(i + 1).drop_last() =~= head);
            assert(weights.take(i + 1).last() == key);
            let next = stable_order(weights.take(i + 1));
            assert(next == before.insert(j as int, i as int));
            assert forall|k: int| 0 <= k < i + 1 implies #[trigger] order@[k] == next[k] by {
                if k < j {
                    assert(order@[k] == shorter[k]);
                } else if k > j {
                    assert(order@[k] == shorter[k - 1]);
                }
            }
        }
        i += 1;
    }
    proof {
        assert(weights.take(n as int) =~= weights);
    }
    order
}

/// The cells of `Squarify` for all children within `inner`: the children
/// are visited in stable descending order of weight, and every child gets
/// the cell that was made for it.
fn squarify_in_order(sums: &Vec<u64>, inner: Rect, Ghost(weights): Ghost<Seq<nat>>) -> (cells: Vec<Rect>)
    requires
        running(sums@, weights),
        inner@.wf(),
    ensures
        areas(cells@) == squarify_by_weight(weights, inner@),
{
    let n = sums.len() - 1;
    let order = order_of(sums, Ghost(weights));
    let ghost visit = stable_order(weights);
    let ghost sorted = arranged(weights, visit);
    proof {
        lemma_stable_order(weights);
        lemma_index_in(visit, n as int);
        lemma_arranged_total(weights, weights);
        lemma_prefix_sum_monotone(sorted, 0, n as int);
    }
    let mut sorted_sums: Vec<u64> = Vec::new();
    sorted_sums.push(0);
    let mut k: usize = 0;
    while k < n
        invariant
            0 <= k <= n,
            n == weights.len(),
            running(sums@, weights),
            order@.len() == n,
            visit == stable_order(weights),
            sorted == arranged(weights, visit),
            is_permutation(visit, n as int),
            total(sorted) == total(weights),
            forall|q: int| 0 <= q < n ==> #[trigger] order@[q] == visit[q],
            sorted_sums@.len() == k + 1,
            forall|q: int| 0 <= q <= k ==> #[trigger] sorted_sums@[q] == prefix_sum(sorted, q),
        decreases n - k,
    {
        let at = order[k];
        proof {
            assert(visit[k as int] == at);
            lemma_running_monotone(sums@, weights, at as int, at + 1);
            lemma_running_monotone(sums@, weights, 0, n as int);
            lemma_prefix_sum_monotone(sorted, k + 1, n as int);
            assert(sorted[k as int] == weights[at as int]);
        }
        let next = sorted_sums[k] + (sums[at + 1] - sums[at]);
        sorted_sums.push(next);
        k += 1;
    }
    let mut rows: Vec<Rect> = Vec::new();
    proof {
        assert(areas(rows@) =~= Seq::<Area>::empty());
    }
    fill_squarify(&sorted_sums, inner, &mut rows, Ghost(sorted));
    let ghost planned = squarify_cells(sorted, 0, n as int, inner@, total(weights));
    proof {
        assert(areas(rows@) =~= planned);
        lemma_prefix_sum_monotone(sorted, 0, n as int);
        if n > 0 {
            lemma_squarify_len(sorted, 0, n as int, inner@, total(sorted));
        }
    }
    let mut cells: Vec<Rect> = Vec::new();
    let mut i: usize = 0;
    while i < n
        invariant
            0 <= i <= n,
            cells@.len() == i,
        decreases n - i,
    {
        cells.push(inner);
        i += 1;
    }
    let mut k: usize = 0;
    while k < n
        invariant
            0 <= k <= n,
            n == weights.len(),
            cells@.len() == n,
            rows@.len() == n,
            order@.len() == n,
            visit == stable_order(weights),
            is_permutation(visit, n as int),
            forall|q: int| 0 <= q < n ==> #[trigger] order@[q] == visit[q],
            forall|q: int| 0 <= q < k ==> cells@[#[trigger] visit[q]] == rows@[q],
        decreases n - k,
    {
        let at = order[k];
        let ghost filled = cells@;
        cells.set(at, rows[k]);
        proof {
            assert(visit[k as int] == at);
            assert forall|q: int| 0 <= q < k + 1 implies cells@[#[trigger] visit[q]] == rows@[q] by {
                if q < k {
                    assert(visit[q] != visit[k as int]);
                    assert(filled[visit[q]] == rows@[q]);
                }
            }
        }
        k += 1;
    }
    proof {
        let wanted = squarify_by_weight(weights, inner@);
        assert forall|i: int| 0 <= i < n implies areas(cells@)[i] == wanted[i] by {
            let q = index_in(visit, i);
            assert(cells@[visit[q]] == rows@[q]);
            assert(areas(rows@)[q] == rows@[q]@);
        }
        assert(areas(cells@) =~= wanted);
    }
    cells
}

} // verus!
