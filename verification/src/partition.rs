//! Partition layout: nested bands for sunburst and icicle diagrams.
//!
//! Every node gets a horizontal span `[x0, x1)` and a vertical band
//! `[y0, y1)`. The root spans the whole width; the children of a node divide
//! its span among themselves in proportion to their weights, heaviest first.
//! The band of a node is given by its depth alone.

use vstd::prelude::*;
use vstd::arithmetic::div_mod::{lemma_fundamental_div_mod, lemma_mod_bound};
use crate::label::Label;
use crate::partition_laws::{lemma_placed_as_laws, lemma_plan_laws};
use crate::node::HierarchyNode;
use crate::series::{
    lemma_peak_concat, lemma_prefix_max, lemma_prefix_sum_monotone, lemma_rest_split, lemma_total_push, peak,
    prefix_max, prefix_sum, rest_sum, total,
};
use crate::share::{cut, cut_at, lemma_cut_bounds, FULL_TURN, RESOLUTION};
use crate::model::Tree;

verus! {

/// The mathematical model of a positioned node.
pub struct Placed<T> {
    /// The payload of the node.
    pub data: T,
    /// The aggregated weight of the node.
    pub value: nat,
    /// Where the span of the node starts.
    pub x0: nat,
    /// Where the span of the node ends.
    pub x1: nat,
    /// Where the band of the node starts.
    pub y0: nat,
    /// Where the band of the node ends.
    pub y1: nat,
    /// The distance from the root.
    pub depth: nat,
    /// The recorded distance to the deepest leaf below.
    pub height: nat,
    /// The position, among the children of the root, of the branch that the
    /// node belongs to.
    pub color_index: nat,
    /// The label of the payload.
    pub name: Seq<char>,
    /// The positioned subtrees, in order.
    pub children: Seq<Placed<T>>,
}

/// The offset, within a span of `span` steps, of the boundary in front of
/// child `i` of `t`. Boundary `i + 1` is where child `i` ends.
pub open spec fn edge<T>(t: Tree<T>, i: int, span: nat) -> nat {
    cut(prefix_sum(t.weights(), i), t.value, span)
}

/// The colour of child `i` of a node at `depth` that has colour `color`:
/// the children of the root are numbered, and everything below inherits.
pub open spec fn branch_color(depth: nat, i: int, color: nat) -> nat {
    if depth == 0 {
        i as nat
    } else {
        color
    }
}

/// The placement of `t` into the span from `x0` to `x1`, at `depth`, with
/// bands of `band` steps and colour `color`.
pub open spec fn place<T: Label>(t: Tree<T>, x0: nat, x1: nat, depth: nat, band: nat, color: nat) -> Placed<T>
    decreases t,
{
    let span = (x1 - x0) as nat;
    Placed {
        data: t.data,
        value: t.value,
        x0,
        x1,
        y0: depth * band,
        y1: depth * band + band,
        depth,
        height: t.height,
        color_index: color,
        name: t.data.label_spec(),
        children: Seq::new(
            t.children.len(),
            |i: int|
                if 0 <= i < t.children.len() {
                    place(
                        t.children[i],
                        x0 + edge(t, i, span),
                        x0 + edge(t, i + 1, span),
                        depth + 1,
                        band,
                        branch_color(depth, i, color),
                    )
                } else {
                    arbitrary()
                },
        ),
    }
}

/// A node with the geometry that the partition layout gave it.
#[derive(Debug)]
pub struct PartitionNode<T> {
    /// The payload of the node.
    pub data: T,
    /// The aggregated weight of the node.
    pub value: u64,
    /// Where the span of the node starts: an angle for a sunburst, a
    /// horizontal position for an icicle.
    pub x0: u64,
    /// Where the span of the node ends.
    pub x1: u64,
    /// Where the band of the node starts: a radius for a sunburst, a
    /// vertical position for an icicle.
    pub y0: u64,
    /// Where the band of the node ends.
    pub y1: u64,
    /// The distance from the root.
    pub depth: usize,
    /// The recorded distance to the deepest leaf below.
    pub height: usize,
    /// The positioned subtrees, heaviest first.
    pub children: Vec<PartitionNode<T>>,
    /// The position, among the children of the root, of the branch that the
    /// node belongs to; zero for the root.
    pub color_index: usize,
    /// The label of the payload.
    pub name: String,
}

impl<T> View for PartitionNode<T> {
    type V = Placed<T>;

    open spec fn view(&self) -> Placed<T> {
        self.model()
    }
}

impl<T> PartitionNode<T> {
    /// The positioned tree that this node stands for.
    pub open spec fn model(self) -> Placed<T>
        decreases self,
    {
        Placed {
            data: self.data,
            value: self.value as nat,
            x0: self.x0 as nat,
            x1: self.x1 as nat,
            y0: self.y0 as nat,
            y1: self.y1 as nat,
            depth: self.depth as nat,
            height: self.height as nat,
            color_index: self.color_index as nat,
            name: self.name@,
            children: Seq::new(
                self.children@.len(),
                |i: int|
                    if 0 <= i < self.children@.len() {
                        self.children@[i].model()
                    } else {
                        arbitrary()
                    },
            ),
        }
    }
}

impl<T> PartitionNode<T> {
    /// What the model of a node consists of.
    pub proof fn lemma_view(self)
        ensures
            self@.data == self.data,
            self@.value == self.value,
            self@.x0 == self.x0,
            self@.x1 == self.x1,
            self@.y0 == self.y0,
            self@.y1 == self.y1,
            self@.depth == self.depth,
            self@.height == self.height,
            self@.color_index == self.color_index,
            self@.name == self.name@,
            self@.children.len() == self.children@.len(),
            forall|i: int| 0 <= i < self.children@.len() ==> #[trigger] self@.children[i] == self.children@[i]@,
    {
    }

    /// The nodes of `nodes[from..]` and everything below them, each node
    /// before its children and the children in order.
    pub open spec fn preorder_from(nodes: Seq<PartitionNode<T>>, from: int) -> Seq<PartitionNode<T>>
        decreases nodes, nodes.len() - from,
    {
        if from < 0 || from >= nodes.len() {
            Seq::empty()
        } else {
            nodes[from].preorder() + Self::preorder_from(nodes, from + 1)
        }
    }

    /// This node and everything below it in pre-order: the node itself, then
    /// each child with all that is below it, in order.
    pub open spec fn preorder(self) -> Seq<PartitionNode<T>>
        decreases self, 0nat,
    {
        seq![self] + Self::preorder_from(self.children@, 0)
    }

    /// Whether the node has no children.
    pub fn is_leaf(&self) -> (leaf: bool)
        ensures
            leaf == (self.children@.len() == 0),
    {
        self.children.len() == 0
    }

    /// A pre-order traversal that starts at this node.
    pub fn iter(&self) -> (it: PartitionIter<'_, T>)
        ensures
            it.remaining() == self.preorder(),
    {
        let mut stack: Vec<&PartitionNode<T>> = Vec::new();
        stack.push(self);
        let it = PartitionIter { stack };
        proof {
            reveal_with_fuel(PartitionIter::pending, 2);
            assert(it.remaining() =~= self.preorder());
        }
        it
    }

    /// All nodes in pre-order, with or without this node at the front.
    pub fn descendants(&self, include_root: bool) -> (nodes: Vec<&PartitionNode<T>>)
        ensures
            nodes@.len() == self.preorder().len() - if include_root { 0int } else { 1int },
            forall|i: int|
                0 <= i < nodes@.len() ==> *#[trigger] nodes@[i] == self.preorder()[if include_root { i } else { i + 1 }],
    {
        let mut it = self.iter();
        let mut result: Vec<&PartitionNode<T>> = Vec::new();
        loop
            invariant
                result@.len() + it.remaining().len() == self.preorder().len(),
                forall|i: int| 0 <= i < result@.len() ==> *#[trigger] result@[i] == self.preorder()[i],
                forall|i: int| 0 <= i < it.remaining().len() ==> #[trigger] it.remaining()[i] == self.preorder()[result@.len() + i],
            ensures
                result@.len() == self.preorder().len(),
                forall|i: int| 0 <= i < result@.len() ==> *#[trigger] result@[i] == self.preorder()[i],
            decreases it.remaining().len(),
        {
            let ghost before = it.remaining();
            match it.next() {
                Some(node) => {
                    result.push(node);
                    proof {
                        assert forall|i: int| 0 <= i < it.remaining().len() implies #[trigger] it.remaining()[i]
                            == self.preorder()[result@.len() + i] by {
                            assert(it.remaining()[i] == before[i + 1]);
                        }
                    }
                },
                None => {
                    break ;
                },
            }
        }
        if !include_root && result.len() > 0 {
            result.remove(0);
        }
        result
    }
}

impl<T: Clone> Placed<T> {
    /// Whether `copy` is this positioned tree with every payload cloned:
    /// the same geometry and the same names, node for node.
    pub open spec fn cloned_to(self, copy: Placed<T>) -> bool
        decreases self,
    {
        &&& cloned(self.data, copy.data)
        &&& copy.name == self.name
        &&& copy.value == self.value
        &&& copy.x0 == self.x0
        &&& copy.x1 == self.x1
        &&& copy.y0 == self.y0
        &&& copy.y1 == self.y1
        &&& copy.depth == self.depth
        &&& copy.height == self.height
        &&& copy.color_index == self.color_index
        &&& copy.children.len() == self.children.len()
        &&& forall|i: int| 0 <= i < self.children.len() ==> self.children[i].cloned_to(#[trigger] copy.children[i])
    }
}

impl<T: Clone> Clone for PartitionNode<T> {
    /// Copies the positioned tree node for node, cloning every payload. The
    /// walk keeps its own list of the nodes whose children are being copied.
    fn clone(&self) -> (copy: Self)
        ensures
            self@.cloned_to(copy@),
    {
        let ghost mut works: Seq<nat> = Seq::empty();
        let mut stack: Vec<Copying<'_, T>> = Vec::new();
        let mut top = Copying { node: self, done: Vec::new() };
        loop
            invariant
                works.len() == stack@.len(),
                stack@.len() == 0 ==> top.node == self,
                stack@.len() > 0 ==> stack@[0].node == self,
                top.wf(true),
                forall|j: int| 0 <= j < stack@.len() ==> (#[trigger] stack@[j]).wf(false),
                forall|j: int|
                    0 <= j < stack@.len() - 1 ==> *(#[trigger] stack@[j + 1]).node == stack@[j].node.children@[stack@[j].done@.len() as int],
                stack@.len() > 0 ==> *top.node == stack@[stack@.len() - 1].node.children@[stack@[stack@.len()
                    - 1].done@.len() as int],
                forall|j: int| 0 <= j < stack@.len() ==> #[trigger] works[j] == stack@[j].work_behind(),
            decreases total(works) + top.work(),
        {
            let ghost before = stack@;
            let node = top.node;
            if top.done.len() < node.children.len() {
                let child = &node.children[top.done.len()];
                let frame = Copying { node: child, done: Vec::new() };
                proof {
                    let n = node.children@.len() as int;
                    lemma_rest_split(PartitionNode::sizes(node.children@), n - top.done@.len());
                    lemma_rest_split(PartitionNode::sizes(child.children@), child.children@.len() as int);
                    assert(frame.work() == 2 * child.size() - 1);
                    lemma_total_push(works, top.work_behind());
                    works = works.push(top.work_behind());
                }
                stack.push(top);
                top = frame;
            } else {
                let Copying { node: _, done } = top;
                let copy = PartitionNode {
                    data: node.data.clone(),
                    value: node.value,
                    x0: node.x0,
                    x1: node.x1,
                    y0: node.y0,
                    y1: node.y1,
                    depth: node.depth,
                    height: node.height,
                    color_index: node.color_index,
                    name: node.name.clone(),
                    children: done,
                };
                proof {
                    assert forall|i: int| 0 <= i < node@.children.len() implies node@.children[i].cloned_to(
                        #[trigger] copy@.children[i],
                    ) by {
                        assert(copy@.children[i] == copy.children@[i]@);
                    }
                }
                match stack.pop() {
                    None => {
                        return copy;
                    },
                    Some(parent) => {
                        proof {
                            let j = stack@.len() as int;
                            assert(parent == before[j]);
                            assert(works =~= works.drop_last().push(works[j]));
                            lemma_total_push(works.drop_last(), works[j]);
                            works = works.drop_last();
                            lemma_rest_split(PartitionNode::sizes(node.children@), 0);
                            if j > 0 {
                                assert(*before[(j - 1) + 1].node == before[j - 1].node.children@[before[j
                                    - 1].done@.len() as int]);
                            }
                        }
                        top = parent;
                        top.done.push(copy);
                    },
                }
            }
        }
    }
}

impl<T> PartitionNode<T> {
    /// The numbers of nodes of each of `nodes`, in order.
    pub open spec fn sizes(nodes: Seq<PartitionNode<T>>) -> Seq<nat>
        decreases nodes, 0nat,
    {
        Seq::new(
            nodes.len(),
            |i: int|
                if 0 <= i < nodes.len() {
                    nodes[i].size()
                } else {
                    0
                },
        )
    }

    /// The number of nodes of this positioned tree.
    pub open spec fn size(self) -> nat
        decreases self, 1nat,
    {
        1 + total(Self::sizes(self.children@))
    }
}

/// A node on the work list of a copy: its first children have been copied.
struct Copying<'a, T> {
    node: &'a PartitionNode<T>,
    done: Vec<PartitionNode<T>>,
}

impl<'a, T: Clone> Copying<'a, T> {
    /// Whether the frame holds copies of the first children of its node.
    /// Where the frame is not `open`, the child behind them is being copied.
    spec fn wf(self, open: bool) -> bool {
        let n = self.node.children@.len() as int;
        let m = self.done@.len() as int;
        &&& if open { m <= n } else { m < n }
        &&& forall|q: int| 0 <= q < m ==> self.node.children@[q]@.cloned_to((#[trigger] self.done@[q])@)
    }

    /// The number of steps that the frame still asks for.
    spec fn work(self) -> nat {
        1 + 2 * rest_sum(PartitionNode::sizes(self.node.children@), self.node.children@.len() - self.done@.len())
    }

    /// The number of steps that the frame asks for once the child that is
    /// being copied has been taken in.
    spec fn work_behind(self) -> nat {
        1 + 2 * rest_sum(PartitionNode::sizes(self.node.children@), self.node.children@.len() - self.done@.len() - 1)
    }
}

/// A pre-order traversal of a positioned tree, one node per call of
/// [`next`](PartitionIter::next).
pub struct PartitionIter<'a, T> {
    stack: Vec<&'a PartitionNode<T>>,
}

impl<'a, T> PartitionIter<'a, T> {
    /// What the first `n` entries of a stack still have to yield: the entry
    /// on top with all below it comes first.
    pub open spec fn pending(stack: Seq<&'a PartitionNode<T>>, n: int) -> Seq<PartitionNode<T>>
        decreases n,
    {
        if n <= 0 || n > stack.len() {
            Seq::empty()
        } else {
            stack[n - 1].preorder() + Self::pending(stack, n - 1)
        }
    }

    /// The nodes that the traversal has yet to yield, in order.
    pub closed spec fn remaining(&self) -> Seq<PartitionNode<T>> {
        Self::pending(self.stack@, self.stack@.len() as int)
    }

    /// What a stack has to yield depends only on its entries.
    proof fn lemma_pending_agrees(a: Seq<&'a PartitionNode<T>>, b: Seq<&'a PartitionNode<T>>, n: int)
        requires
            0 <= n <= a.len(),
            n <= b.len(),
            forall|k: int| 0 <= k < n ==> a[k] == b[k],
        ensures
            Self::pending(a, n) == Self::pending(b, n),
        decreases n,
    {
        if n > 0 {
            Self::lemma_pending_agrees(a, b, n - 1);
        }
    }

    /// Yields the next node in pre-order, or `None` when all nodes have been
    /// yielded.
    pub fn next(&mut self) -> (node: Option<&'a PartitionNode<T>>)
        ensures
            old(self).remaining().len() == 0 ==> node.is_none() && final(self).remaining() == old(self).remaining(),
            old(self).remaining().len() > 0 ==> node.is_some() && *node.unwrap() == old(self).remaining()[0]
                && final(self).remaining() == old(self).remaining().drop_first(),
    {
        let ghost before = self.stack@;
        if let Some(node) = self.stack.pop() {
            let ghost rest = self.stack@;
            let ghost below = Self::pending(rest, rest.len() as int);
            proof {
                Self::lemma_pending_agrees(before, rest, rest.len() as int);
            }
            let n = node.children.len();
            let mut k: usize = n;
            while k > 0
                invariant
                    0 <= k <= n,
                    n == node.children@.len(),
                    below == Self::pending(rest, rest.len() as int),
                    self.stack@.len() == rest.len() + (n - k),
                    Self::pending(self.stack@, self.stack@.len() as int) == PartitionNode::preorder_from(
                        node.children@,
                        k as int,
                    ) + below,
                decreases k,
            {
                let ghost shorter = self.stack@;
                k -= 1;
                self.stack.push(&node.children[k]);
                proof {
                    Self::lemma_pending_agrees(self.stack@, shorter, shorter.len() as int);
                    assert(Self::pending(self.stack@, self.stack@.len() as int) =~= PartitionNode::preorder_from(
                        node.children@,
                        k as int,
                    ) + below);
                }
            }
            proof {
                assert(old(self).remaining() =~= seq![*node] + (PartitionNode::preorder_from(node.children@, 0) + below));
                assert(self.remaining() =~= old(self).remaining().drop_first());
            }
            Some(node)
        } else {
            None
        }
    }
}

/// Whether `actual` is `plan` with every payload cloned: the same geometry
/// node for node, each payload a clone of the planned one, and each name the
/// label of the payload beside it.
pub open spec fn placed_as<T: Clone + Label>(actual: Placed<T>, plan: Placed<T>) -> bool
    decreases plan,
{
    &&& cloned(plan.data, actual.data)
    &&& actual.name == actual.data.label_spec()
    &&& actual.value == plan.value
    &&& actual.x0 == plan.x0
    &&& actual.x1 == plan.x1
    &&& actual.y0 == plan.y0
    &&& actual.y1 == plan.y1
    &&& actual.depth == plan.depth
    &&& actual.height == plan.height
    &&& actual.color_index == plan.color_index
    &&& actual.children.len() == plan.children.len()
    &&& forall|i: int| 0 <= i < plan.children.len() ==> placed_as(#[trigger] actual.children[i], plan.children[i])
}

/// Placing a copy of a tree gives the placement of the tree, with every
/// payload cloned.
pub proof fn lemma_cloned_placed<T: Clone + Label>(
    t: Tree<T>,
    copy: Tree<T>,
    x0: nat,
    x1: nat,
    depth: nat,
    band: nat,
    color: nat,
)
    requires
        t.cloned_to(copy),
    ensures
        placed_as(place(copy, x0, x1, depth, band, color), place(t, x0, x1, depth, band, color)),
    decreases t,
{
    let span = (x1 - x0) as nat;
    let actual = place(copy, x0, x1, depth, band, color);
    let plan = place(t, x0, x1, depth, band, color);
    t.lemma_cloned_numbers(copy);
    assert forall|i: int| 0 <= i < plan.children.len() implies placed_as(#[trigger] actual.children[i], plan.children[i]) by {
        lemma_cloned_placed(
            t.children[i],
            copy.children[i],
            x0 + edge(t, i, span),
            x0 + edge(t, i + 1, span),
            depth + 1,
            band,
            branch_color(depth, i, color),
        );
    }
}

/// The partition layout and its settings.
pub struct PartitionLayout {
    /// The width to divide: a full turn for a sunburst, a width for an
    /// icicle.
    pub x_size: u64,
    /// The height to divide into bands: a radius for a sunburst, a height
    /// for an icicle.
    pub y_size: u64,
    /// The gap asked for between siblings. The division of spans does not
    /// use it.
    pub padding: u64,
    /// Whether rounded coordinates are asked for. Coordinates are whole
    /// numbers either way.
    pub round: bool,
}

impl Default for PartitionLayout {
    fn default() -> (layout: Self)
        ensures
            layout == PartitionLayout::initial(),
    {
        Self::new()
    }
}

impl PartitionLayout {
    /// The settings of a new layout: a full turn wide, one unit high, no
    /// padding, no rounding.
    pub open spec fn initial() -> PartitionLayout {
        PartitionLayout { x_size: FULL_TURN, y_size: RESOLUTION, padding: 0, round: false }
    }

    /// A layout with the default settings.
    pub fn new() -> (layout: Self)
        ensures
            layout == Self::initial(),
    {
        PartitionLayout { x_size: FULL_TURN, y_size: RESOLUTION, padding: 0, round: false }
    }

    /// Sets the extent to divide: `x` across and `y` through the levels.
    pub fn size(self, x: u64, y: u64) -> (layout: Self)
        ensures
            layout == (PartitionLayout { x_size: x, y_size: y, ..self }),
    {
        PartitionLayout { x_size: x, y_size: y, padding: self.padding, round: self.round }
    }

    /// Sets the gap asked for between siblings.
    pub fn padding(self, padding: u64) -> (layout: Self)
        ensures
            layout == (PartitionLayout { padding, ..self }),
    {
        PartitionLayout { x_size: self.x_size, y_size: self.y_size, padding, round: self.round }
    }

    /// Sets whether rounded coordinates are asked for.
    pub fn round(self, round: bool) -> (layout: Self)
        ensures
            layout == (PartitionLayout { round, ..self }),
    {
        PartitionLayout { x_size: self.x_size, y_size: self.y_size, padding: self.padding, round }
    }

    /// The height of one band where the deepest leaf lies at `max_depth`:
    /// the height divided evenly among all levels, rounded down.
    pub open spec fn band(self, max_depth: nat) -> nat {
        self.y_size as nat / (max_depth + 1)
    }

    /// The placement that this layout gives a hierarchy: the tree is
    /// prepared, the root takes the whole width, and every level takes one
    /// band.
    pub open spec fn plan<T: Label>(self, t: Tree<T>) -> Placed<T> {
        let ready = t.prepared();
        place(ready, 0, self.x_size as nat, 0, self.band(ready.deepest()), 0)
    }

    /// Lays out a hierarchy. The hierarchy itself is left as it is: the
    /// layout works on a copy, aggregates its weights, orders the children of
    /// every node by descending weight, and returns the positioned copy.
    pub fn layout<T: Clone + Label>(&self, root: &HierarchyNode<T>) -> (placed: PartitionNode<T>)
        requires
            root@.aggregate() <= u64::MAX,
            root@.reach() < usize::MAX,
        ensures
            placed_as(placed@, self.plan(root@)),
            placed@.x0 == 0,
            placed@.x1 == self.x_size,
            placed@.depth == 0,
            placed@.color_index == 0,
            placed@.value == root@.aggregate(),
            (root@.reach() + 1) * self.band(root@.reach()) <= self.y_size,
            placed@.covered(),
            placed@.banded(self.band(root@.reach())),
            placed@.proportional(),
            placed@.branch_colored(),
            placed@.heaviest_first(),
            placed@.labelled(),
    {
        let mut tree = root.clone();
        let ghost copy = tree@;
        proof {
            root@.lemma_cloned_numbers(copy);
            root@.lemma_cloned_prepared(copy);
            root@.prepared().lemma_cloned_numbers(copy.prepared());
            copy.lemma_summed_shape();
            copy.lemma_prepared();
        }
        tree.sum();
        tree.each_before();
        tree.sort_by_value();

        let max_depth = self.find_max_depth(&tree);
        let levels: u64 = (max_depth + 1) as u64;
        let y_per_depth = if max_depth > 0 { self.y_size / levels } else { self.y_size };
        proof {
            assert(y_per_depth == self.band(max_depth as nat)) by {
                if max_depth == 0 {
                    assert(self.y_size as nat / 1 == self.y_size);
                }
            }
            lemma_fundamental_div_mod(self.y_size as int, levels as int);
            lemma_mod_bound(self.y_size as int, levels as int);
            assert((0 + tree@.reach() + 1) * y_per_depth == levels * (self.y_size as int / levels as int));
            lemma_cloned_placed(root@.prepared(), copy.prepared(), 0, self.x_size as nat, 0, y_per_depth as nat, 0);
        }
        let placed = self.layout_node(tree, y_per_depth);
        proof {
            lemma_plan_laws(*self, root@);
            lemma_placed_as_laws(placed@, self.plan(root@), self.band(root@.reach()));
        }
        placed
    }

    /// The largest depth recorded on a leaf below `node`, found by a walk
    /// over all nodes.
    fn find_max_depth<T>(&self, node: &HierarchyNode<T>) -> (deepest: usize)
        ensures
            deepest == node@.deepest(),
    {
        let mut it = node.iter();
        let mut best: usize = 0;
        proof {
            node.lemma_leaf_depths();
        }
        loop
            invariant
                node@.deepest() == if best >= peak(HierarchyNode::leaf_depths(it.remaining())) {
                    best as nat
                } else {
                    peak(HierarchyNode::leaf_depths(it.remaining()))
                },
            ensures
                best == node@.deepest(),
            decreases it.remaining().len(),
        {
            let ghost ahead = it.remaining();
            match it.next() {
                Some(found) => {
                    proof {
                        let rest = ahead.drop_first();
                        assert(ahead =~= seq![*found] + rest);
                        assert(HierarchyNode::leaf_depths(seq![*found] + rest) =~= HierarchyNode::leaf_depths(
                            seq![*found],
                        ) + HierarchyNode::leaf_depths(rest));
                        lemma_peak_concat(HierarchyNode::leaf_depths(seq![*found]), HierarchyNode::leaf_depths(rest));
                        reveal_with_fuel(prefix_max, 2);
                    }
                    if found.children.len() == 0 && found.depth > best {
                        best = found.depth;
                    }
                },
                None => {
                    proof {
                        assert(ahead =~= Seq::<HierarchyNode<T>>::empty());
                    }
                    break ;
                },
            }
        }
        best
    }

    /// Puts `node` on the work list with the span from `x0` to `x1`.
    fn open_frame<T: Label>(
        &self,
        node: HierarchyNode<T>,
        x0: u64,
        x1: u64,
        color_index: usize,
        Ghost(depth): Ghost<nat>,
        Ghost(band): Ghost<nat>,
        Ghost(levels): Ghost<nat>,
    ) -> (frame: Frame<T>)
        requires
            node@.conserved(),
            x0 <= x1,
            depth + node@.reach() <= levels,
        ensures
            frame.stands_for(node@, depth, band, levels, true),
            frame.x0 == x0,
            frame.x1 == x1,
            frame.color_index == color_index,
            frame.waiting@.len() == node@.children.len(),
    {
        let ghost t = node@;
        proof {
            node.lemma_view();
        }
        let HierarchyNode { data, value, children, depth: _, height } = node;
        let name = data.label();
        let running = if children.len() == 0 { 0 } else { value };
        proof {
            lemma_cut_bounds(running as nat, running as nat, value as nat, (x1 - x0) as nat);
        }
        let edge = x0 + cut_at(running, value, x1 - x0);
        let frame = Frame { data, name, value, height, x0, x1, color_index, edge, running, waiting: children, done: Vec::new() };
        proof {
            assert forall|k: int| 0 <= k < frame.waiting@.len() implies (#[trigger] frame.waiting@[k])@ == t.children[k] by {}
        }
        frame
    }

    /// Takes a node off the work list whose children have all been placed.
    fn close_frame<T: Label>(
        &self,
        frame: Frame<T>,
        depth: usize,
        y_per_depth: u64,
        Ghost(o): Ghost<Tree<T>>,
        Ghost(levels): Ghost<nat>,
    ) -> (node: PartitionNode<T>)
        requires
            frame.stands_for(o, depth as nat, y_per_depth as nat, levels, true),
            frame.waiting@.len() == 0,
            (levels + 1) * y_per_depth <= u64::MAX,
        ensures
            node@ == frame.goal(o, depth as nat, y_per_depth as nat),
    {
        let ghost plan = frame.goal(o, depth as nat, y_per_depth as nat);
        proof {
            assert(depth * y_per_depth + y_per_depth <= (levels + 1) * y_per_depth) by (nonlinear_arith)
                requires
                    0 <= depth <= levels,
                    0 <= y_per_depth,
            ;
            assert(0 <= depth * y_per_depth) by (nonlinear_arith)
                requires
                    0 <= depth,
                    0 <= y_per_depth,
            ;
        }
        let Frame { data, name, value, height, x0, x1, color_index, edge: _, running: _, waiting: _, done } = frame;
        let mut done = done;
        let ghost placed = done@;
        let n = done.len();
        let mut children: Vec<PartitionNode<T>> = Vec::new();
        while done.len() > 0
            invariant
                n == placed.len(),
                done@.len() + children@.len() == n,
                forall|q: int| 0 <= q < done@.len() ==> #[trigger] done@[q] == placed[q],
                forall|k: int| 0 <= k < children@.len() ==> #[trigger] children@[k] == placed[n - 1 - k],
            decreases done@.len(),
        {
            let child = done.pop().unwrap();
            children.push(child);
        }
        let y0: u64 = (depth as u64) * y_per_depth;
        let y1: u64 = y0 + y_per_depth;
        let node = PartitionNode { data, value, x0, x1, y0, y1, depth, height, children, color_index, name };
        proof {
            assert forall|k: int| 0 <= k < n implies node@.children[k] == plan.children[k] by {
                assert(node.children@[k] == placed[n - 1 - k]);
            }
            assert(node@.children =~= plan.children);
        }
        node
    }

    /// Places `root` and everything below it: `root` takes the span from
    /// zero to `x_size` and the first band. The walk keeps its own list of
    /// the nodes whose children are being placed, so the depth of the tree
    /// costs no call stack.
    fn layout_node<T: Label>(&self, root: HierarchyNode<T>, y_per_depth: u64) -> (placed: PartitionNode<T>)
        requires
            root@.conserved(),
            (root@.reach() + 1) * y_per_depth <= u64::MAX,
        ensures
            placed@ == place(root@, 0, self.x_size as nat, 0, y_per_depth as nat, 0),
    {
        let ghost levels = root@.reach();
        let ghost band = y_per_depth as nat;
        let ghost mut origs: Seq<Tree<T>> = seq![root@];
        let ghost mut works: Seq<nat> = Seq::empty();
        let mut stack: Vec<Frame<T>> = Vec::new();
        let mut top = self.open_frame(root, 0, self.x_size, 0, Ghost(0), Ghost(band), Ghost(levels));
        loop
            invariant
                origs.len() == stack@.len() + 1,
                works.len() == stack@.len(),
                band == y_per_depth,
                (levels + 1) * y_per_depth <= u64::MAX,
                if stack@.len() == 0 {
                    top.goal(origs[0], 0, band) == place(root@, 0, self.x_size as nat, 0, band, 0)
                } else {
                    stack@[0].goal(origs[0], 0, band) == place(root@, 0, self.x_size as nat, 0, band, 0)
                },
                top.stands_for(origs[stack@.len() as int], stack@.len() as nat, band, levels, true),
                forall|j: int|
                    0 <= j < stack@.len() ==> (#[trigger] stack@[j]).stands_for(origs[j], j as nat, band, levels, false),
                forall|j: int|
                    0 <= j < stack@.len() - 1 ==> (#[trigger] stack@[j + 1]).goal(origs[j + 1], (j + 1) as nat, band)
                        == stack@[j].goal(origs[j], j as nat, band).children[stack@[j].waiting@.len() as int],
                stack@.len() > 0 ==> top.goal(origs[stack@.len() as int], stack@.len() as nat, band) == stack@[stack@.len()
                    - 1].goal(origs[stack@.len() - 1], (stack@.len() - 1) as nat, band).children[stack@[stack@.len()
                    - 1].waiting@.len() as int],
                forall|j: int| 0 <= j < stack@.len() ==> #[trigger] works[j] == stack@[j].work(origs[j]),
            decreases total(works) + top.work(origs[stack@.len() as int]),
        {
            let ghost o = origs[stack@.len() as int];
            let ghost before = stack@;
            let ghost depth = stack@.len() as nat;
            let ghost was = top;
            match top.waiting.pop() {
                Some(child) => {
                    let index = top.waiting.len();
                    let span = top.x1 - top.x0;
                    proof {
                        assert(child@ == o.children[index as int]);
                        assert(o.children[index as int].conserved());
                        assert(o.weights()[index as int] == child.value);
                        assert(o.sizes()[index as int] == child@.size());
                        lemma_prefix_sum_monotone(o.weights(), 0, index as int);
                        lemma_prefix_sum_monotone(o.weights(), index as int, index + 1);
                        lemma_prefix_sum_monotone(o.weights(), index + 1, o.children.len() as int);
                        lemma_cut_bounds(
                            prefix_sum(o.weights(), index as int),
                            prefix_sum(o.weights(), index + 1),
                            o.value,
                            span as nat,
                        );
                        lemma_prefix_max(o.reaches(), o.children.len() as int);
                        assert(o.reaches()[index as int] == child@.reach());
                    }
                    let right = top.edge;
                    top.running = top.running - child.value;
                    let left = top.x0 + cut_at(top.running, top.value, span);
                    top.edge = left;
                    // The children of the root start the branches; below, the branch is inherited.
                    let color = if stack.len() == 0 { index } else { top.color_index };
                    let frame = self.open_frame(
                        child,
                        left,
                        right,
                        color,
                        Ghost(depth + 1),
                        Ghost(band),
                        Ghost(levels),
                    );
                    proof {
                        assert(top.goal(o, depth, band) == was.goal(o, depth, band));
                        assert(frame.goal(child@, depth + 1, band) == top.goal(o, depth, band).children[index as int]);
                        lemma_total_push(works, top.work(o));
                        works = works.push(top.work(o));
                        origs = origs.push(child@);
                        assert(frame.work(child@) == 2 * child@.size() - 1);
                    }
                    stack.push(top);
                    top = frame;
                },
                None => {
                    let node = self.close_frame(top, stack.len(), y_per_depth, Ghost(o), Ghost(levels));
                    match stack.pop() {
                        None => {
                            return node;
                        },
                        Some(parent) => {
                            proof {
                                let j = stack@.len() as int;
                                assert(parent == before[j]);
                                assert(works =~= works.drop_last().push(works[j]));
                                lemma_total_push(works.drop_last(), works[j]);
                                works = works.drop_last();
                                origs = origs.drop_last();
                            }
                            top = parent;
                            top.done.push(node);
                            proof {
                                assert(top.goal(origs[stack@.len() as int], stack@.len() as nat, band) == before[stack@.len() as int].goal(
                                    origs[stack@.len() as int],
                                    stack@.len() as nat,
                                    band,
                                ));
                            }
                        },
                    }
                },
            }
        }
    }
}

/// A node on the work list: its span is known, and its children are being
/// placed from the last to the first.
struct Frame<T> {
    data: T,
    name: String,
    value: u64,
    height: usize,
    x0: u64,
    x1: u64,
    color_index: usize,
    /// Where the span of the child placed last begins.
    edge: u64,
    /// The weight of the children that have yet to be placed.
    running: u64,
    waiting: Vec<HierarchyNode<T>>,
    done: Vec<PartitionNode<T>>,
}

impl<T: Label> Frame<T> {
    /// The positioned node that the frame is to become.
    spec fn goal(self, o: Tree<T>, depth: nat, band: nat) -> Placed<T> {
        place(o, self.x0 as nat, self.x1 as nat, depth, band, self.color_index as nat)
    }

    /// Whether the frame stands for the node `o` at `depth`: it holds the
    /// children of `o` that have yet to be placed, in order, and behind
    /// them, from the last child backwards, the children that have been
    /// placed. Where the frame is not `open`, the child between the two
    /// groups is being placed.
    spec fn stands_for(self, o: Tree<T>, depth: nat, band: nat, levels: nat, open: bool) -> bool {
        let n = o.children.len() as int;
        let r = self.waiting@.len() as int;
        &&& self.data == o.data
        &&& self.name@ == o.data.label_spec()
        &&& self.value == o.value
        &&& self.height == o.height
        &&& self.x0 <= self.edge <= self.x1
        &&& o.conserved()
        &&& depth + o.reach() <= levels
        &&& r + self.done@.len() + (if open { 0int } else { 1int }) == n
        &&& self.running == prefix_sum(o.weights(), r)
        &&& self.edge == self.x0 + edge(o, r, (self.x1 - self.x0) as nat)
        &&& forall|k: int| 0 <= k < r ==> (#[trigger] self.waiting@[k])@ == o.children[k]
        &&& forall|q: int|
            0 <= q < self.done@.len() ==> (#[trigger] self.done@[q])@ == self.goal(o, depth, band).children[n - 1 - q]
    }

    /// The number of steps that the frame still asks for: one to finish it,
    /// and two for every node below a child that has yet to be placed.
    spec fn work(self, o: Tree<T>) -> nat {
        1 + 2 * prefix_sum(o.sizes(), self.waiting@.len() as int)
    }
}

} // verus!
