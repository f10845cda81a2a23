//! Treemap layout: nested rectangles with areas in proportion to weight.
//!
//! The root takes the whole extent. Every node with children sets aside its
//! padding and divides what is left among its children by the tiling method
//! of the layout. Children keep the order in which the hierarchy lists them.

use vstd::prelude::*;
use crate::model::Tree;
use crate::node::HierarchyNode;
use crate::series::{
    lemma_prefix_sum_monotone, lemma_rest_split, lemma_total_push, prefix_sum, rest_sum, total,
};
use crate::share::RESOLUTION;
use crate::tiling::{areas, cells_of, contained, lemma_cells_tile, tile, tiles, Area, Rect, TilingMethod};

verus! {

/// The mathematical model of a node with its rectangle in a treemap.
pub struct Tiled<T> {
    /// The payload of the node.
    pub data: T,
    /// The aggregated weight of the node.
    pub value: nat,
    /// The left edge of the rectangle.
    pub x: nat,
    /// The top edge of the rectangle.
    pub y: nat,
    /// The width of the rectangle.
    pub width: nat,
    /// The height of the rectangle.
    pub rect_height: nat,
    /// The distance from the root.
    pub depth: nat,
    /// The recorded distance to the deepest leaf below.
    pub height: nat,
    /// The positioned subtrees, in order.
    pub children: Seq<Tiled<T>>,
}

impl<T> Tiled<T> {
    /// The rectangle of the node.
    pub open spec fn area(self) -> Area {
        Area { x0: self.x, y0: self.y, x1: self.x + self.width, y1: self.y + self.rect_height }
    }

    /// The rectangles of the children, in order.
    pub open spec fn cells(self) -> Seq<Area> {
        Seq::new(self.children.len(), |i: int| self.children[i].area())
    }

    /// The weights of the children, in order.
    pub open spec fn weights(self) -> Seq<nat> {
        Seq::new(self.children.len(), |i: int| self.children[i].value)
    }
}

/// A node with the rectangle that the treemap layout gave it.
#[derive(Debug)]
pub struct TreemapNode<T> {
    /// The payload of the node.
    pub data: T,
    /// The aggregated weight of the node.
    pub value: u64,
    /// The left edge of the rectangle.
    pub x: u64,
    /// The top edge of the rectangle.
    pub y: u64,
    /// The width of the rectangle.
    pub width: u64,
    /// The height of the rectangle.
    pub rect_height: u64,
    /// The distance from the root.
    pub depth: usize,
    /// The recorded distance to the deepest leaf below.
    pub height: usize,
    /// The positioned subtrees, in the order of the hierarchy.
    pub children: Vec<TreemapNode<T>>,
}

impl<T> View for TreemapNode<T> {
    type V = Tiled<T>;

    open spec fn view(&self) -> Tiled<T> {
        self.model()
    }
}

impl<T> TreemapNode<T> {
    /// The positioned tree that this node stands for.
    pub open spec fn model(self) -> Tiled<T>
        decreases self,
    {
        Tiled {
            data: self.data,
            value: self.value as nat,
            x: self.x as nat,
            y: self.y as nat,
            width: self.width as nat,
            rect_height: self.rect_height as nat,
            depth: self.depth as nat,
            height: self.height as nat,
            children: Seq::new(
                self.children@.len(),
                |i: int|
                    if 0 <= i < self.children@.len() {
                        self.children@[i].model()
                    } else {
                        arbitrary()
                    },
            ),
        }
    }

    /// Whether the node has no children.
    pub fn is_leaf(&self) -> (leaf: bool)
        ensures
            leaf == (self.children@.len() == 0),
    {
        self.children.len() == 0
    }
}

/// The treemap layout and its settings.
pub struct TreemapLayout {
    /// The width of the rectangle of the root.
    pub width: u64,
    /// The height of the rectangle of the root.
    pub height: u64,
    /// The room that every node with children sets aside on each side.
    pub padding: u64,
    /// The room that every node with children sets aside at the top, on top
    /// of the padding, for a header.
    pub padding_top: u64,
    /// The way to divide a rectangle among children.
    pub tiling: TilingMethod,
}

/// The rectangles of `t` and everything below it, where `t` has the
/// rectangle `area` and lies at `depth`.
pub open spec fn tile_tree<T>(layout: TreemapLayout, t: Tree<T>, area: Area, depth: nat) -> Tiled<T>
    decreases t,
{
    let inner = area.inset(layout.padding as nat, layout.padding_top as nat);
    let cells = cells_of(layout.tiling, t.weights(), inner);
    Tiled {
        data: t.data,
        value: t.value,
        x: area.x0,
        y: area.y0,
        width: area.width(),
        rect_height: area.height(),
        depth,
        height: t.height,
        children: Seq::new(
            t.children.len(),
            |i: int|
                if 0 <= i < t.children.len() {
                    tile_tree(layout, t.children[i], cells[i], depth + 1)
                } else {
                    arbitrary()
                },
        ),
    }
}

/// Whether `actual` is `plan` with every payload cloned: the same rectangles
/// node for node, and each payload a clone of the planned one.
pub open spec fn tiled_as<T: Clone>(actual: Tiled<T>, plan: Tiled<T>) -> bool
    decreases plan,
{
    &&& cloned(plan.data, actual.data)
    &&& actual.value == plan.value
    &&& actual.x == plan.x
    &&& actual.y == plan.y
    &&& actual.width == plan.width
    &&& actual.rect_height == plan.rect_height
    &&& actual.depth == plan.depth
    &&& actual.height == plan.height
    &&& actual.children.len() == plan.children.len()
    &&& forall|i: int| 0 <= i < plan.children.len() ==> tiled_as(#[trigger] actual.children[i], plan.children[i])
}

/// Tiling a copy of a tree gives the tiling of the tree, with every payload
/// cloned.
pub proof fn lemma_cloned_tiled<T: Clone>(layout: TreemapLayout, t: Tree<T>, copy: Tree<T>, area: Area, depth: nat)
    requires
        t.cloned_to(copy),
    ensures
        tiled_as(tile_tree(layout, copy, area, depth), tile_tree(layout, t, area, depth)),
    decreases t,
{
    let actual = tile_tree(layout, copy, area, depth);
    let plan = tile_tree(layout, t, area, depth);
    let inner = area.inset(layout.padding as nat, layout.padding_top as nat);
    let cells = cells_of(layout.tiling, t.weights(), inner);
    t.lemma_cloned_numbers(copy);
    assert forall|i: int| 0 <= i < plan.children.len() implies tiled_as(#[trigger] actual.children[i], plan.children[i]) by {
        lemma_cloned_tiled(layout, t.children[i], copy.children[i], cells[i], depth + 1);
    }
}

impl<T: Clone> Tiled<T> {
    /// Whether `copy` is this positioned tree with every payload cloned.
    pub open spec fn cloned_to(self, copy: Tiled<T>) -> bool {
        tiled_as(copy, self)
    }
}

impl<T: Clone> Clone for TreemapNode<T> {
    /// Copies the positioned tree node for node, cloning every payload. The
    /// walk keeps its own list of the nodes whose children are being copied.
    fn clone(&self) -> (copy: Self)
        ensures
            self@.cloned_to(copy@),
    {
        let ghost mut works: Seq<nat> = Seq::empty();
        let mut stack: Vec<Copying<'_, T>> = Vec::new();
        let mut top = Copying { node: self, done: Vec::new() };
        loop
            invariant
                works.len() == stack@.len(),
                stack@.len() == 0 ==> top.node == self,
                stack@.len() > 0 ==> stack@[0].node == self,
                top.wf(true),
                forall|j: int| 0 <= j < stack@.len() ==> (#[trigger] stack@[j]).wf(false),
                forall|j: int|
                    0 <= j < stack@.len() - 1 ==> *(#[trigger] stack@[j + 1]).node == stack@[j].node.children@[stack@[j].done@.len() as int],
                stack@.len() > 0 ==> *top.node == stack@[stack@.len() - 1].node.children@[stack@[stack@.len()
                    - 1].done@.len() as int],
                forall|j: int| 0 <= j < stack@.len() ==> #[trigger] works[j] == stack@[j].work_behind(),
            decreases total(works) + top.work(),
        {
            let ghost before = stack@;
            let node = top.node;
            if top.done.len() < node.children.len() {
                let child = &node.children[top.done.len()];
                let frame = Copying { node: child, done: Vec::new() };
                proof {
                    let n = node.children@.len() as int;
                    lemma_rest_split(TreemapNode::sizes(node.children@), n - top.done@.len());
                    lemma_rest_split(TreemapNode::sizes(child.children@), child.children@.len() as int);
                    assert(frame.work() == 2 * child.size() - 1);
                    lemma_total_push(works, top.work_behind());
                    works = works.push(top.work_behind());
                }
                stack.push(top);
                top = frame;
            } else {
                let Copying { node: _, done } = top;
                let copy = TreemapNode {
                    data: node.data.clone(),
                    value: node.value,
                    x: node.x,
                    y: node.y,
                    width: node.width,
                    rect_height: node.rect_height,
                    depth: node.depth,
                    height: node.height,
                    children: done,
                };
                proof {
                    assert forall|i: int| 0 <= i < node@.children.len() implies node@.children[i].cloned_to(
                        #[trigger] copy@.children[i],
                    ) by {
                        assert(copy@.children[i] == copy.children@[i]@);
                    }
                }
                match stack.pop() {
                    None => {
                        return copy;
                    },
                    Some(parent) => {
                        proof {
                            let j = stack@.len() as int;
                            assert(parent == before[j]);
                            assert(works =~= works.drop_last().push(works[j]));
                            lemma_total_push(works.drop_last(), works[j]);
                            works = works.drop_last();
                            lemma_rest_split(TreemapNode::sizes(node.children@), 0);
                            if j > 0 {
                                assert(*before[(j - 1) + 1].node == before[j - 1].node.children@[before[j
                                    - 1].done@.len() as int]);
                            }
                        }
                        top = parent;
                        top.done.push(copy);
                    },
                }
            }
        }
    }
}

impl<T> TreemapNode<T> {
    /// The numbers of nodes of each of `nodes`, in order.
    pub open spec fn sizes(nodes: Seq<TreemapNode<T>>) -> Seq<nat>
        decreases nodes, 0nat,
    {
        Seq::new(
            nodes.len(),
            |i: int|
                if 0 <= i < nodes.len() {
                    nodes[i].size()
                } else {
                    0
                },
        )
    }

    /// The number of nodes of this positioned tree.
    pub open spec fn size(self) -> nat
        decreases self, 1nat,
    {
        1 + total(Self::sizes(self.children@))
    }
}

/// A node on the work list of a copy: its first children have been copied.
struct Copying<'a, T> {
    node: &'a TreemapNode<T>,
    done: Vec<TreemapNode<T>>,
}

impl<'a, T: Clone> Copying<'a, T> {
    /// Whether the frame holds copies of the first children of its node.
    /// Where the frame is not `open`, the child behind them is being copied.
    spec fn wf(self, open: bool) -> bool {
        let n = self.node.children@.len() as int;
        let m = self.done@.len() as int;
        &&& if open { m <= n } else { m < n }
        &&& forall|q: int| 0 <= q < m ==> self.node.children@[q]@.cloned_to((#[trigger] self.done@[q])@)
    }

    /// The number of steps that the frame still asks for.
    spec fn work(self) -> nat {
        1 + 2 * rest_sum(TreemapNode::sizes(self.node.children@), self.node.children@.len() - self.done@.len())
    }

    /// The number of steps that the frame asks for once the child that is
    /// being copied has been taken in.
    spec fn work_behind(self) -> nat {
        1 + 2 * rest_sum(TreemapNode::sizes(self.node.children@), self.node.children@.len() - self.done@.len() - 1)
    }
}

impl<T> Tiled<T> {
    /// At every node, the rectangles of the children lie within what the
    /// padding leaves of the rectangle of the node; where the children have
    /// weight they tile it, so that their sizes add up to its size, and
    /// where they have none they are empty.
    pub open spec fn nested(self, padding: nat, padding_top: nat) -> bool
        decreases self,
    {
        let inner = self.area().inset(padding, padding_top);
        &&& contained(self.cells(), inner)
        &&& self.children.len() > 0 && total(self.weights()) > 0 ==> tiles(self.cells(), inner)
        &&& total(self.weights()) == 0 ==> forall|i: int|
            0 <= i < self.children.len() ==> (#[trigger] self.children[i]).area().size() == 0
        &&& forall|i: int|
            0 <= i < self.children.len() ==> {
                &&& (#[trigger] self.children[i]).depth == self.depth + 1
                &&& self.children[i].nested(padding, padding_top)
            }
    }
}

impl<T> Tiled<T> {
    /// The positioned tree without its payloads: what is left is the
    /// geometry.
    pub open spec fn outline(self) -> Tiled<()>
        decreases self,
    {
        Tiled {
            data: (),
            value: self.value,
            x: self.x,
            y: self.y,
            width: self.width,
            rect_height: self.rect_height,
            depth: self.depth,
            height: self.height,
            children: Seq::new(
                self.children.len(),
                |i: int|
                    if 0 <= i < self.children.len() {
                        self.children[i].outline()
                    } else {
                        arbitrary()
                    },
            ),
        }
    }
}

/// A result that realises a plan has the geometry of the plan.
pub proof fn lemma_tiled_as_outline<T: Clone>(actual: Tiled<T>, plan: Tiled<T>)
    requires
        tiled_as(actual, plan),
    ensures
        actual.outline() == plan.outline(),
    decreases plan,
{
    assert forall|i: int| 0 <= i < plan.children.len() implies actual.outline().children[i]
        == plan.outline().children[i] by {
        lemma_tiled_as_outline(actual.children[i], plan.children[i]);
    }
    assert(actual.outline().children =~= plan.outline().children);
}

/// **Determinism.** Whatever two results the layout returns for one
/// hierarchy under one setting, they have the same geometry.
pub proof fn lemma_layout_deterministic<T: Clone>(layout: TreemapLayout, t: Tree<T>, first: Tiled<T>, second: Tiled<T>)
    requires
        tiled_as(first, layout.plan(t)),
        tiled_as(second, layout.plan(t)),
    ensures
        first.outline() == second.outline(),
{
    lemma_tiled_as_outline(first, layout.plan(t));
    lemma_tiled_as_outline(second, layout.plan(t));
}

/// The nesting of a plan holds of every result that realises it.
pub proof fn lemma_tiled_as_nested<T: Clone>(actual: Tiled<T>, plan: Tiled<T>, padding: nat, padding_top: nat)
    requires
        tiled_as(actual, plan),
    ensures
        actual.area() == plan.area(),
        plan.nested(padding, padding_top) ==> actual.nested(padding, padding_top),
    decreases plan,
{
    assert forall|i: int| 0 <= i < plan.children.len() implies {
        &&& (#[trigger] actual.children[i]).area() == plan.children[i].area()
        &&& actual.children[i].value == plan.children[i].value
        &&& actual.children[i].depth == plan.children[i].depth
        &&& plan.children[i].nested(padding, padding_top) ==> actual.children[i].nested(padding, padding_top)
    } by {
        lemma_tiled_as_nested(actual.children[i], plan.children[i], padding, padding_top);
    }
    assert(actual.cells() =~= plan.cells());
    assert(actual.weights() =~= plan.weights());
    if plan.nested(padding, padding_top) {
        assert forall|i: int| 0 <= i < actual.children.len() implies {
            &&& (#[trigger] actual.children[i]).depth == actual.depth + 1
            &&& actual.children[i].nested(padding, padding_top)
        } by {
            assert(plan.children[i].depth == plan.depth + 1);
        }
        if total(actual.weights()) == 0 {
            assert forall|i: int| 0 <= i < actual.children.len() implies (#[trigger] actual.children[i]).area().size()
                == 0 by {
                assert(plan.children[i].area().size() == 0);
            }
        }
    }
}

/// What the padding leaves of a rectangle is a rectangle within it.
pub proof fn lemma_inset(area: Area, padding: nat, padding_top: nat)
    requires
        area.wf(),
    ensures
        area.inset(padding, padding_top).wf(),
        area.holds(area.inset(padding, padding_top)),
{
    reveal(Area::inset);
}

/// **Nesting and area conservation.** Whatever tree is tiled into whatever
/// rectangle by whatever method: the rectangle of every child lies within
/// what the padding leaves of its parent, and the children of a node that
/// have weight tile that room exactly.
pub proof fn lemma_tile_tree_nested<T>(layout: TreemapLayout, t: Tree<T>, area: Area, depth: nat)
    requires
        area.wf(),
    ensures
        tile_tree(layout, t, area, depth).area() == area,
        tile_tree(layout, t, area, depth).nested(layout.padding as nat, layout.padding_top as nat),
    decreases t,
{
    let p = tile_tree(layout, t, area, depth);
    let inner = area.inset(layout.padding as nat, layout.padding_top as nat);
    let cells = cells_of(layout.tiling, t.weights(), inner);
    lemma_inset(area, layout.padding as nat, layout.padding_top as nat);
    lemma_cells_tile(layout.tiling, t.weights(), inner);
    assert forall|i: int| 0 <= i < p.children.len() implies {
        &&& (#[trigger] p.children[i]).area() == cells[i]
        &&& p.children[i].value == t.weights()[i]
        &&& p.children[i].depth == depth + 1
        &&& p.children[i].nested(layout.padding as nat, layout.padding_top as nat)
    } by {
        lemma_tile_tree_nested(layout, t.children[i], cells[i], depth + 1);
    }
    assert(p.cells() =~= cells);
    assert(p.weights() =~= t.weights());
}

/// A node on the work list: its rectangle and the cells of its children are
/// known, and its children are being placed from the last to the first.
struct Frame<T> {
    data: T,
    value: u64,
    height: usize,
    rect: Rect,
    cells: Vec<Rect>,
    waiting: Vec<HierarchyNode<T>>,
    done: Vec<TreemapNode<T>>,
}

impl<T> Frame<T> {
    /// Whether the frame stands for the node `o` at `depth`: it holds the
    /// cells of all children of `o`, the children of `o` that have yet to be
    /// placed, in order, and behind them, from the last child backwards, the
    /// children that have been placed. Where the frame is not `open`, the
    /// child between the two groups is being placed.
    spec fn stands_for(self, layout: TreemapLayout, o: Tree<T>, depth: nat, open: bool) -> bool {
        let n = o.children.len() as int;
        &&& self.data == o.data
        &&& self.value == o.value
        &&& self.height == o.height
        &&& self.rect@.wf()
        &&& o.conserved()
        &&& self.cells@.len() == n
        &&& areas(self.cells@) == cells_of(
            layout.tiling,
            o.weights(),
            self.rect@.inset(layout.padding as nat, layout.padding_top as nat),
        )
        &&& contained(areas(self.cells@), self.rect@)
        &&& self.waiting@.len() + self.done@.len() + (if open { 0int } else { 1int }) == n
        &&& forall|k: int| 0 <= k < self.waiting@.len() ==> (#[trigger] self.waiting@[k])@ == o.children[k]
        &&& forall|q: int|
            0 <= q < self.done@.len() ==> (#[trigger] self.done@[q])@ == tile_tree(
                layout,
                o.children[n - 1 - q],
                self.cells@[n - 1 - q]@,
                depth + 1,
            )
    }

    /// The number of steps that the frame still asks for: one to finish it,
    /// and two for every node below a child that has yet to be placed.
    spec fn work(self, o: Tree<T>) -> nat {
        1 + 2 * prefix_sum(o.sizes(), self.waiting@.len() as int)
    }
}

impl Default for TreemapLayout {
    fn default() -> (layout: Self)
        ensures
            layout == TreemapLayout::initial(),
    {
        Self::new()
    }
}

impl TreemapLayout {
    /// The settings of a new layout: one unit wide and one unit high, no
    /// padding, and halving as the tiling method.
    pub open spec fn initial() -> TreemapLayout {
        TreemapLayout {
            width: RESOLUTION,
            height: RESOLUTION,
            padding: 0,
            padding_top: 0,
            tiling: TilingMethod::Binary,
        }
    }

    /// A layout with the default settings.
    pub fn new() -> (layout: Self)
        ensures
            layout == Self::initial(),
    {
        TreemapLayout {
            width: RESOLUTION,
            height: RESOLUTION,
            padding: 0,
            padding_top: 0,
            tiling: TilingMethod::Binary,
        }
    }

    /// Sets the size of the rectangle of the root.
    pub fn size(self, width: u64, height: u64) -> (layout: Self)
        ensures
            layout == (TreemapLayout { width, height, ..self }),
    {
        TreemapLayout { width, height, padding: self.padding, padding_top: self.padding_top, tiling: self.tiling }
    }

    /// Sets the room that every node with children sets aside on each side.
    pub fn padding(self, padding: u64) -> (layout: Self)
        ensures
            layout == (TreemapLayout { padding, ..self }),
    {
        TreemapLayout {
            width: self.width,
            height: self.height,
            padding,
            padding_top: self.padding_top,
            tiling: self.tiling,
        }
    }

    /// Sets the room that every node with children sets aside at the top,
    /// on top of the padding.
    pub fn padding_top(self, padding_top: u64) -> (layout: Self)
        ensures
            layout == (TreemapLayout { padding_top, ..self }),
    {
        TreemapLayout { width: self.width, height: self.height, padding: self.padding, padding_top, tiling: self.tiling }
    }

    /// Sets the way to divide a rectangle among children.
    pub fn tiling(self, tiling: TilingMethod) -> (layout: Self)
        ensures
            layout == (TreemapLayout { tiling, ..self }),
    {
        TreemapLayout {
            width: self.width,
            height: self.height,
            padding: self.padding,
            padding_top: self.padding_top,
            tiling,
        }
    }

    /// The rectangle of the root.
    pub open spec fn extent(self) -> Area {
        Area { x0: 0, y0: 0, x1: self.width as nat, y1: self.height as nat }
    }

    /// The rectangles that this layout gives a hierarchy: weights are
    /// aggregated, and the root takes the whole extent.
    pub open spec fn plan<T>(self, t: Tree<T>) -> Tiled<T> {
        tile_tree(self, t.summed(), self.extent(), 0)
    }

    /// Lays out a hierarchy. The hierarchy itself is left as it is: the
    /// layout works on a copy, aggregates its weights, and returns the
    /// positioned copy.
    pub fn layout<T: Clone>(&self, root: &HierarchyNode<T>) -> (placed: TreemapNode<T>)
        requires
            root@.aggregate() <= u64::MAX,
        ensures
            tiled_as(placed@, self.plan(root@)),
            placed@.area() == self.extent(),
            placed@.depth == 0,
            placed@.value == root@.aggregate(),
            placed@.nested(self.padding as nat, self.padding_top as nat),
    {
        let mut tree = root.clone();
        let ghost copy = tree@;
        proof {
            root@.lemma_cloned_numbers(copy);
            root@.lemma_cloned_summed(copy);
            copy.lemma_summed_conserved();
            root@.lemma_summed_conserved();
        }
        tree.sum();
        let rect = Rect { x0: 0, y0: 0, x1: self.width, y1: self.height };
        let placed = self.tile_all(tree, rect);
        proof {
            let plan = self.plan(root@);
            lemma_cloned_tiled(*self, root@.summed(), copy.summed(), self.extent(), 0);
            lemma_tile_tree_nested(*self, root@.summed(), self.extent(), 0);
            lemma_tiled_as_nested(placed@, plan, self.padding as nat, self.padding_top as nat);
        }
        placed
    }

    /// Puts `node` on the work list: computes the cells of its children
    /// within what the padding leaves of `rect`.
    fn open_frame<T>(&self, node: HierarchyNode<T>, rect: Rect, Ghost(depth): Ghost<nat>) -> (frame: Frame<T>)
        requires
            node@.conserved(),
            rect@.wf(),
        ensures
            frame.stands_for(*self, node@, depth, true),
            frame.rect == rect,
            frame.waiting@.len() == node@.children.len(),
    {
        let ghost t = node@;
        let ghost weights = t.weights();
        proof {
            node.lemma_view();
        }
        let HierarchyNode { data, value, children, depth: _, height } = node;
        let n = children.len();
        let mut sums: Vec<u64> = Vec::new();
        sums.push(0);
        let mut i: usize = 0;
        while i < n
            invariant
                0 <= i <= n,
                n == children@.len(),
                n == weights.len(),
                t.conserved(),
                t.value == value,
                weights == t.weights(),
                forall|k: int| 0 <= k < n ==> weights[k] == (#[trigger] children@[k]).value,
                sums@.len() == i + 1,
                forall|k: int| 0 <= k <= i ==> #[trigger] sums@[k] == prefix_sum(weights, k),
            decreases n - i,
        {
            proof {
                lemma_prefix_sum_monotone(weights, i + 1, n as int);
            }
            let next = sums[i] + children[i].value;
            sums.push(next);
            i += 1;
        }
        let inner = rect.inset(self.padding, self.padding_top);
        let cells = tile(self.tiling, &sums, inner, Ghost(weights));
        proof {
            lemma_cells_tile(self.tiling, weights, inner@);
        }
        let frame = Frame { data, value, height, rect, cells, waiting: children, done: Vec::new() };
        proof {
            assert forall|k: int| 0 <= k < frame.waiting@.len() implies (#[trigger] frame.waiting@[k])@ == t.children[k] by {}
        }
        frame
    }

    /// Takes a node off the work list whose children have all been placed.
    fn close_frame<T>(&self, frame: Frame<T>, depth: usize, Ghost(o): Ghost<Tree<T>>) -> (node: TreemapNode<T>)
        requires
            frame.stands_for(*self, o, depth as nat, true),
            frame.waiting@.len() == 0,
        ensures
            node@ == tile_tree(*self, o, frame.rect@, depth as nat),
    {
        let Frame { data, value, height, rect, cells, waiting: _, done } = frame;
        let mut done = done;
        let ghost placed = done@;
        let n = done.len();
        let mut children: Vec<TreemapNode<T>> = Vec::new();
        while done.len() > 0
            invariant
                n == placed.len(),
                done@.len() + children@.len() == n,
                forall|q: int| 0 <= q < done@.len() ==> #[trigger] done@[q] == placed[q],
                forall|k: int| 0 <= k < children@.len() ==> #[trigger] children@[k] == placed[n - 1 - k],
            decreases done@.len(),
        {
            let child = done.pop().unwrap();
            children.push(child);
        }
        let node = TreemapNode {
            data,
            value,
            x: rect.x0,
            y: rect.y0,
            width: rect.x1 - rect.x0,
            rect_height: rect.y1 - rect.y0,
            depth,
            height,
            children,
        };
        proof {
            let plan = tile_tree(*self, o, rect@, depth as nat);
            assert forall|k: int| 0 <= k < n implies node@.children[k] == plan.children[k] by {
                assert(node.children@[k] == placed[n - 1 - k]);
                assert(areas(cells@)[k] == cells@[k]@);
            }
            assert(node@.children =~= plan.children);
        }
        node
    }

    /// Places `root` and everything below it into `rect`. The walk keeps its
    /// own list of the nodes whose children are being placed, so the depth
    /// of the tree costs no call stack.
    fn tile_all<T>(&self, root: HierarchyNode<T>, rect: Rect) -> (placed: TreemapNode<T>)
        requires
            root@.conserved(),
            rect@.wf(),
        ensures
            placed@ == tile_tree(*self, root@, rect@, 0),
    {
        let ghost mut origs: Seq<Tree<T>> = seq![root@];
        let ghost mut works: Seq<nat> = Seq::empty();
        let mut stack: Vec<Frame<T>> = Vec::new();
        let mut top = self.open_frame(root, rect, Ghost(0));
        loop
            invariant
                origs.len() == stack@.len() + 1,
                works.len() == stack@.len(),
                origs[0] == root@,
                stack@.len() == 0 ==> top.rect == rect,
                stack@.len() > 0 ==> stack@[0].rect == rect,
                top.stands_for(*self, origs[stack@.len() as int], stack@.len() as nat, true),
                forall|j: int|
                    0 <= j < stack@.len() ==> (#[trigger] stack@[j]).stands_for(*self, origs[j], j as nat, false),
                forall|j: int|
                    0 <= j < stack@.len() ==> origs[j + 1] == origs[j].children[(#[trigger] stack@[j]).waiting@.len() as int],
                forall|j: int|
                    0 <= j < stack@.len() - 1 ==> (#[trigger] stack@[j + 1]).rect == stack@[j].cells@[stack@[j].waiting@.len() as int],
                stack@.len() > 0 ==> top.rect == stack@[stack@.len() - 1].cells@[stack@[stack@.len() - 1].waiting@.len() as int],
                forall|j: int| 0 <= j < stack@.len() ==> #[trigger] works[j] == stack@[j].work(origs[j]),
            decreases total(works) + top.work(origs[stack@.len() as int]),
        {
            let ghost o = origs[stack@.len() as int];
            let ghost before = stack@;
            match top.waiting.pop() {
                Some(child) => {
                    let index = top.waiting.len();
                    let cell = top.cells[index];
                    proof {
                        assert(areas(top.cells@)[index as int] == cell@);
                        assert(o.children[index as int].conserved());
                        assert(o.sizes()[index as int] == child@.size());
                        lemma_prefix_sum_monotone(child@.sizes(), 0, child@.children.len() as int);
                    }
                    let frame = self.open_frame(child, cell, Ghost((stack@.len() + 1) as nat));
                    proof {
                        lemma_total_push(works, top.work(o));
                        works = works.push(top.work(o));
                        origs = origs.push(child@);
                        assert(frame.work(child@) == 2 * child@.size() - 1);
                    }
                    stack.push(top);
                    top = frame;
                },
                None => {
                    let node = self.close_frame(top, stack.len(), Ghost(o));
                    match stack.pop() {
                        None => {
                            return node;
                        },
                        Some(parent) => {
                            proof {
                                let j = stack@.len() as int;
                                assert(parent == before[j]);
                                assert(works =~= works.drop_last().push(works[j]));
                                lemma_total_push(works.drop_last(), works[j]);
                                works = works.drop_last();
                                origs = origs.drop_last();
                            }
                            top = parent;
                            top.done.push(node);
                        },
                    }
                },
            }
        }
    }
}

} // verus!
