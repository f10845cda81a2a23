//! What holds of every partition layout.
//!
//! The predicates in this module speak of all nodes of a positioned tree at
//! once. The lemmas show that every placement meets them, and that they carry
//! over from a plan to a result that differs only in cloned payloads.

use vstd::prelude::*;
use vstd::arithmetic::div_mod::{lemma_fundamental_div_mod, lemma_mod_bound};
use crate::label::Label;
use crate::partition::{branch_color, edge, place, placed_as, PartitionLayout, Placed};
use crate::series::{lemma_prefix_sum_monotone, prefix_sum, total};
use crate::share::{lemma_cut_bounds, lemma_cut_share};
use crate::model::Tree;

verus! {

impl<T> Placed<T> {
    /// The widths of the children, in order.
    pub open spec fn widths(self) -> Seq<nat> {
        Seq::new(self.children.len(), |i: int| (self.children[i].x1 - self.children[i].x0) as nat)
    }

    /// The children of every node tile its span: where the node has weight,
    /// the first child starts where the node starts, each child starts where
    /// the one before it ends, the last child ends where the node ends, and
    /// the widths add up to the width of the node. Where the node has no
    /// weight, every child is an empty span at the start of the node.
    pub open spec fn covered(self) -> bool
        decreases self,
    {
        &&& forall|i: int| 0 <= i < self.children.len() ==> (#[trigger] self.children[i]).x0 <= self.children[i].x1
        &&& forall|i: int|
            0 <= i < self.children.len() - 1 ==> (#[trigger] self.children[i]).x1 == self.children[i + 1].x0
        &&& self.children.len() > 0 && self.value > 0 ==> {
            &&& self.children.first().x0 == self.x0
            &&& self.children.last().x1 == self.x1
            &&& total(self.widths()) == self.x1 - self.x0
        }
        &&& self.value == 0 ==> forall|i: int|
            0 <= i < self.children.len() ==> (#[trigger] self.children[i]).x0 == self.x0 && self.children[i].x1
                == self.x0
        &&& forall|i: int| 0 <= i < self.children.len() ==> (#[trigger] self.children[i]).covered()
    }

    /// Every node has a band of `band` steps that starts at its depth times
    /// `band`, and every child lies one level below its parent, its band
    /// starting where the band of the parent ends.
    pub open spec fn banded(self, band: nat) -> bool
        decreases self,
    {
        &&& self.y0 == self.depth * band
        &&& self.y1 == self.y0 + band
        &&& forall|i: int|
            0 <= i < self.children.len() ==> {
                &&& (#[trigger] self.children[i]).depth == self.depth + 1
                &&& self.children[i].y0 == self.y1
                &&& self.children[i].banded(band)
            }
    }

    /// The width of every child differs from its exact share of the width of
    /// its parent, by weight, by less than one grid step.
    pub open spec fn proportional(self) -> bool
        decreases self,
    {
        &&& self.value > 0 ==> forall|i: int|
            0 <= i < self.children.len() ==> {
                let child = #[trigger] self.children[i];
                let width = child.x1 - child.x0;
                let span = self.x1 - self.x0;
                &&& child.value * span - self.value < width * self.value
                &&& width * self.value < child.value * span + self.value
            }
        &&& forall|i: int| 0 <= i < self.children.len() ==> (#[trigger] self.children[i]).proportional()
    }

    /// The children of a node at depth zero carry their position as colour,
    /// and every node below carries the colour of its parent.
    pub open spec fn branch_colored(self) -> bool
        decreases self,
    {
        forall|i: int|
            0 <= i < self.children.len() ==> {
                &&& (#[trigger] self.children[i]).color_index == branch_color(self.depth, i, self.color_index)
                &&& self.children[i].branch_colored()
            }
    }

    /// No child weighs more than a sibling before it, at any node.
    pub open spec fn heaviest_first(self) -> bool
        decreases self,
    {
        &&& forall|a: int, b: int|
            0 <= a < b < self.children.len() ==> (#[trigger] self.children[a]).value >= (
            #[trigger] self.children[b]).value
        &&& forall|i: int| 0 <= i < self.children.len() ==> (#[trigger] self.children[i]).heaviest_first()
    }

    /// Every name is the label of the payload beside it.
    pub open spec fn labelled(self) -> bool
        where T: Label
        decreases self,
    {
        &&& self.name == self.data.label_spec()
        &&& forall|i: int| 0 <= i < self.children.len() ==> (#[trigger] self.children[i]).labelled()
    }

    /// The positioned tree without its payloads and names: what is left is
    /// the geometry.
    pub open spec fn outline(self) -> Placed<()>
        decreases self,
    {
        Placed {
            data: (),
            value: self.value,
            x0: self.x0,
            x1: self.x1,
            y0: self.y0,
            y1: self.y1,
            depth: self.depth,
            height: self.height,
            color_index: self.color_index,
            name: Seq::empty(),
            children: Seq::new(
                self.children.len(),
                |i: int|
                    if 0 <= i < self.children.len() {
                        self.children[i].outline()
                    } else {
                        arbitrary()
                    },
            ),
        }
    }
}

/// The widths of the first children of a placed node add up to the offset of
/// the boundary behind them.
proof fn lemma_widths_prefix<T: Label>(t: Tree<T>, x0: nat, x1: nat, depth: nat, band: nat, color: nat, i: int)
    requires
        t.conserved(),
        x0 <= x1,
        0 <= i <= t.children.len(),
    ensures
        prefix_sum(place(t, x0, x1, depth, band, color).widths(), i) == edge(t, i, (x1 - x0) as nat),
        edge(t, i, (x1 - x0) as nat) <= x1 - x0,
    decreases i,
{
    let span = (x1 - x0) as nat;
    lemma_prefix_sum_monotone(t.weights(), 0, i);
    lemma_prefix_sum_monotone(t.weights(), i, t.children.len() as int);
    lemma_cut_bounds(0, prefix_sum(t.weights(), i), t.value, span);
    if i > 0 {
        let p = place(t, x0, x1, depth, band, color);
        reveal_with_fuel(place, 2);
        lemma_widths_prefix(t, x0, x1, depth, band, color, i - 1);
        lemma_prefix_sum_monotone(t.weights(), i - 1, i);
        lemma_cut_bounds(prefix_sum(t.weights(), i - 1), prefix_sum(t.weights(), i), t.value, span);
        assert(p.children[i - 1].x0 == x0 + edge(t, i - 1, span));
        assert(p.children[i - 1].x1 == x0 + edge(t, i, span));
        assert(p.widths()[i - 1] == edge(t, i, span) - edge(t, i - 1, span));
    }
}

/// **Coverage, banding, proportion and colour.** Whatever tree that
/// conserves weight is placed into whatever span: the children of every node
/// tile the span of the node without gap or overlap, every level takes one
/// band, every width is within one step of its proportional share, colours
/// follow the branches below the root, and names are the labels of the
/// payloads.
pub proof fn lemma_place_laws<T: Label>(t: Tree<T>, x0: nat, x1: nat, depth: nat, band: nat, color: nat)
    requires
        t.conserved(),
        x0 <= x1,
    ensures
        place(t, x0, x1, depth, band, color).covered(),
        place(t, x0, x1, depth, band, color).banded(band),
        place(t, x0, x1, depth, band, color).proportional(),
        place(t, x0, x1, depth, band, color).labelled(),
        depth > 0 || color == 0 ==> place(t, x0, x1, depth, band, color).branch_colored(),
    decreases t,
{
    let span = (x1 - x0) as nat;
    let n = t.children.len() as int;
    let w = t.weights();
    let p = place(t, x0, x1, depth, band, color);
    assert forall|i: int| 0 <= i < n implies {
        &&& (#[trigger] p.children[i]).x0 == x0 + edge(t, i, span)
        &&& p.children[i].x1 == x0 + edge(t, i + 1, span)
        &&& p.children[i].x0 <= p.children[i].x1 <= x1
        &&& p.children[i].value == w[i]
        &&& p.children[i].covered()
        &&& p.children[i].banded(band)
        &&& p.children[i].proportional()
        &&& p.children[i].labelled()
        &&& p.children[i].branch_colored()
        &&& p.children[i].depth == depth + 1
        &&& p.children[i].y0 == (depth + 1) * band
        &&& p.children[i].color_index == branch_color(depth, i, color)
    } by {
        lemma_widths_prefix(t, x0, x1, depth, band, color, i);
        lemma_widths_prefix(t, x0, x1, depth, band, color, i + 1);
        lemma_prefix_sum_monotone(w, i, i + 1);
        lemma_prefix_sum_monotone(w, i + 1, n);
        lemma_cut_bounds(prefix_sum(w, i), prefix_sum(w, i + 1), t.value, span);
        assert(t.children[i].conserved());
        lemma_place_laws(
            t.children[i],
            x0 + edge(t, i, span),
            x0 + edge(t, i + 1, span),
            depth + 1,
            band,
            branch_color(depth, i, color),
        );
    }
    assert((depth + 1) * band == depth * band + band) by (nonlinear_arith);
    if n > 0 {
        lemma_widths_prefix(t, x0, x1, depth, band, color, n);
        lemma_cut_bounds(0, 0, t.value, span);
        assert(p.children.first() == p.children[0]);
        assert(p.children.last() == p.children[n - 1]);
        if t.value > 0 {
            lemma_cut_bounds(t.value, t.value, t.value, span);
            assert forall|i: int| 0 <= i < n implies {
                let child = #[trigger] p.children[i];
                let width = child.x1 - child.x0;
                &&& child.value * (p.x1 - p.x0) - p.value < width * p.value
                &&& width * p.value < child.value * (p.x1 - p.x0) + p.value
            } by {
                lemma_prefix_sum_monotone(w, i, i + 1);
                lemma_prefix_sum_monotone(w, i + 1, n);
                lemma_cut_share(prefix_sum(w, i), prefix_sum(w, i + 1), t.value, span);
                assert(prefix_sum(w, i + 1) - prefix_sum(w, i) == w[i]);
            }
        }
    }
}

/// **Order.** Placement keeps the order of the children: where every node of
/// the tree lists its heavier children first, so does every positioned node.
pub proof fn lemma_place_heaviest_first<T: Label>(t: Tree<T>, x0: nat, x1: nat, depth: nat, band: nat, color: nat)
    requires
        t.descending(),
    ensures
        place(t, x0, x1, depth, band, color).heaviest_first(),
    decreases t,
{
    let span = (x1 - x0) as nat;
    let p = place(t, x0, x1, depth, band, color);
    reveal_with_fuel(place, 2);
    assert forall|i: int| 0 <= i < p.children.len() implies (#[trigger] p.children[i]).heaviest_first()
        && p.children[i].value == t.children[i].value by {
        assert(t.children[i].descending());
        lemma_place_heaviest_first(
            t.children[i],
            x0 + edge(t, i, span),
            x0 + edge(t, i + 1, span),
            depth + 1,
            band,
            branch_color(depth, i, color),
        );
    }
    assert forall|a: int, b: int| 0 <= a < b < p.children.len() implies (#[trigger] p.children[a]).value >= (
    #[trigger] p.children[b]).value by {
        assert(t.children[a].value >= t.children[b].value);
    }
}

/// **The plan of a layout.** For every hierarchy and every setting, the plan
/// gives the root the whole width and the first band, divides the height
/// evenly among the levels down to the deepest leaf, carries the aggregated
/// weights, and meets all laws of placement, with the children of every node
/// heaviest first.
pub proof fn lemma_plan_laws<T: Label>(layout: PartitionLayout, t: Tree<T>)
    ensures
        layout.plan(t).x0 == 0,
        layout.plan(t).x1 == layout.x_size,
        layout.plan(t).depth == 0,
        layout.plan(t).color_index == 0,
        layout.plan(t).value == t.aggregate(),
        layout.plan(t).children.len() == t.children.len(),
        (t.reach() + 1) * layout.band(t.reach()) <= layout.y_size,
        layout.plan(t).banded(layout.band(t.reach())),
        layout.plan(t).covered(),
        layout.plan(t).proportional(),
        layout.plan(t).branch_colored(),
        layout.plan(t).labelled(),
        layout.plan(t).heaviest_first(),
{
    let ready = t.prepared();
    let levels = (t.reach() + 1) as int;
    t.lemma_prepared();
    t.summed().stamped(0).lemma_sorted_root();
    lemma_place_laws(ready, 0, layout.x_size as nat, 0, layout.band(ready.deepest()), 0);
    lemma_place_heaviest_first(ready, 0, layout.x_size as nat, 0, layout.band(ready.deepest()), 0);
    lemma_fundamental_div_mod(layout.y_size as int, levels);
    lemma_mod_bound(layout.y_size as int, levels);
}

/// **Determinism.** A result that realises a plan has the geometry of the
/// plan. Two layouts of one hierarchy under one setting therefore agree in
/// every coordinate, weight, depth, height and colour.
pub proof fn lemma_placed_as_outline<T: Clone + Label>(actual: Placed<T>, plan: Placed<T>)
    requires
        placed_as(actual, plan),
    ensures
        actual.outline() == plan.outline(),
    decreases plan,
{
    assert forall|i: int| 0 <= i < plan.children.len() implies actual.outline().children[i]
        == plan.outline().children[i] by {
        lemma_placed_as_outline(actual.children[i], plan.children[i]);
    }
    assert(actual.outline().children =~= plan.outline().children);
}

/// The laws of a plan hold of every result that realises it.
pub proof fn lemma_placed_as_laws<T: Clone + Label>(actual: Placed<T>, plan: Placed<T>, band: nat)
    requires
        placed_as(actual, plan),
    ensures
        actual.labelled(),
        plan.covered() ==> actual.covered(),
        plan.banded(band) ==> actual.banded(band),
        plan.proportional() ==> actual.proportional(),
        plan.branch_colored() ==> actual.branch_colored(),
        plan.heaviest_first() ==> actual.heaviest_first(),
    decreases plan,
{
    assert forall|i: int| 0 <= i < plan.children.len() implies {
        &&& (#[trigger] actual.children[i]).labelled()
        &&& plan.children[i].heaviest_first() ==> actual.children[i].heaviest_first()
        &&& plan.children[i].covered() ==> actual.children[i].covered()
        &&& plan.children[i].banded(band) ==> actual.children[i].banded(band)
        &&& plan.children[i].proportional() ==> actual.children[i].proportional()
        &&& plan.children[i].branch_colored() ==> actual.children[i].branch_colored()
        &&& actual.children[i].x0 == plan.children[i].x0
        &&& actual.children[i].x1 == plan.children[i].x1
        &&& actual.children[i].y0 == plan.children[i].y0
        &&& actual.children[i].depth == plan.children[i].depth
        &&& actual.children[i].value == plan.children[i].value
        &&& actual.children[i].color_index == plan.children[i].color_index
    } by {
        lemma_placed_as_laws(actual.children[i], plan.children[i], band);
    }
    assert(actual.widths() =~= plan.widths());
    if plan.children.len() > 0 {
        assert(actual.children.first() == actual.children[0]);
        assert(plan.children.first() == plan.children[0]);
        assert(actual.children.last() == actual.children[plan.children.len() - 1]);
        assert(plan.children.last() == plan.children[plan.children.len() - 1]);
    }
    if plan.heaviest_first() {
        assert forall|a: int, b: int| 0 <= a < b < actual.children.len() implies (#[trigger] actual.children[a]).value
            >= (#[trigger] actual.children[b]).value by {
            assert(plan.children[a].value >= plan.children[b].value);
        }
    }
    if plan.covered() {
        assert forall|i: int| 0 <= i < actual.children.len() - 1 implies (#[trigger] actual.children[i]).x1
            == actual.children[i + 1].x0 by {
            assert(plan.children[i].x1 == plan.children[i + 1].x0);
        }
    }
}

/// **Determinism of the layout.** Whatever two results the layout returns
/// for one hierarchy under one setting, they have the same geometry.
pub proof fn lemma_layout_deterministic<T: Clone + Label>(
    layout: PartitionLayout,
    t: Tree<T>,
    first: Placed<T>,
    second: Placed<T>,
)
    requires
        placed_as(first, layout.plan(t)),
        placed_as(second, layout.plan(t)),
    ensures
        first.outline() == second.outline(),
{
    lemma_placed_as_outline(first, layout.plan(t));
    lemma_placed_as_outline(second, layout.plan(t));
}

/// Where cloning a payload gives back an equal payload, a result that
/// realises a labelled plan is the plan itself.
pub proof fn lemma_placed_as_exact<T: Clone + Label>(actual: Placed<T>, plan: Placed<T>)
    requires
        placed_as(actual, plan),
        plan.labelled(),
        forall|a: T, b: T| cloned(a, b) ==> a == b,
    ensures
        actual == plan,
    decreases plan,
{
    assert forall|i: int| 0 <= i < plan.children.len() implies actual.children[i] == plan.children[i] by {
        lemma_placed_as_exact(actual.children[i], plan.children[i]);
    }
    assert(actual.children =~= plan.children);
}

} // verus!
