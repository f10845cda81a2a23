//! Tree layout: positions for node-link diagrams.
//!
//! Leaves take consecutive slots from left to right, spread evenly across
//! the width; every other node stands at the mean of its children. The
//! vertical position of a node is given by its depth alone. Children keep the
//! order in which the hierarchy lists them.

use vstd::prelude::*;
use vstd::arithmetic::div_mod::{lemma_div_is_ordered, lemma_div_multiples_vanish};
use vstd::arithmetic::mul::lemma_mul_is_commutative;
use crate::model::Tree;
use crate::node::HierarchyNode;
use crate::series::{
    lemma_entry_le_total, lemma_prefix_max, lemma_prefix_sum_monotone, lemma_rest_split, lemma_total_push,
    prefix_sum, rest_sum, total,
};
use crate::share::{cut, cut_at, lemma_cut_bounds, lemma_cut_share, RESOLUTION};

verus! {

/// The mathematical model of a node with a position in a node-link diagram.
pub struct Plotted<T> {
    /// The payload of the node.
    pub data: T,
    /// The weight of the node.
    pub value: nat,
    /// The horizontal position of the node.
    pub x: nat,
    /// The vertical position of the node.
    pub y: nat,
    /// The distance from the root.
    pub depth: nat,
    /// The recorded distance to the deepest leaf below.
    pub height: nat,
    /// The positioned subtrees, in order.
    pub children: Seq<Plotted<T>>,
}

impl<T> Plotted<T> {
    /// The horizontal positions of the children, in order.
    pub open spec fn xs(self) -> Seq<nat> {
        Seq::new(self.children.len(), |i: int| self.children[i].x)
    }
}

/// Where leaf number `k` stands across `width`, where `slots` is the number
/// of the last leaf: the leaves divide the width evenly, and a lone leaf
/// stands in the middle.
pub open spec fn leaf_x(k: nat, slots: nat, width: nat) -> nat {
    if slots == 0 {
        width / 2
    } else {
        cut(k, slots, width)
    }
}

/// The mean of `xs`, rounded down; zero for no entries.
pub open spec fn mean(xs: Seq<nat>) -> nat {
    if xs.len() == 0 {
        0
    } else {
        total(xs) / xs.len()
    }
}

/// The positions of `t` and everything below it, where the leaves of `t`
/// are numbered from `first`, the last leaf of the whole tree has number
/// `slots`, `t` lies at `depth`, and the deepest leaf of the whole tree lies
/// at `levels`.
pub open spec fn plot<T>(
    t: Tree<T>,
    first: nat,
    slots: nat,
    width: nat,
    depth: nat,
    levels: nat,
    height: nat,
) -> Plotted<T>
    decreases t,
{
    let children = Seq::new(
        t.children.len(),
        |i: int|
            if 0 <= i < t.children.len() {
                plot(
                    t.children[i],
                    first + prefix_sum(t.leaf_counts(), i),
                    slots,
                    width,
                    depth + 1,
                    levels,
                    height,
                )
            } else {
                arbitrary()
            },
    );
    Plotted {
        data: t.data,
        value: t.value,
        x: if t.is_leaf() {
            leaf_x(first, slots, width)
        } else {
            mean(Seq::new(children.len(), |i: int| children[i].x))
        },
        y: cut(depth, levels, height),
        depth,
        height: t.height,
        children,
    }
}

/// A node with the position that the tree layout gave it.
#[derive(Debug)]
pub struct TreeNode<T> {
    /// The payload of the node.
    pub data: T,
    /// The weight of the node.
    pub value: u64,
    /// The horizontal position of the node.
    pub x: u64,
    /// The vertical position of the node.
    pub y: u64,
    /// The distance from the root.
    pub depth: usize,
    /// The recorded distance to the deepest leaf below.
    pub height: usize,
    /// The positioned subtrees, in the order of the hierarchy.
    pub children: Vec<TreeNode<T>>,
}

impl<T> View for TreeNode<T> {
    type V = Plotted<T>;

    open spec fn view(&self) -> Plotted<T> {
        self.model()
    }
}

impl<T> TreeNode<T> {
    /// The positioned tree that this node stands for.
    pub open spec fn model(self) -> Plotted<T>
        decreases self,
    {
        Plotted {
            data: self.data,
            value: self.value as nat,
            x: self.x as nat,
            y: self.y as nat,
            depth: self.depth as nat,
            height: self.height as nat,
            children: Seq::new(
                self.children@.len(),
                |i: int|
                    if 0 <= i < self.children@.len() {
                        self.children@[i].model()
                    } else {
                        arbitrary()
                    },
            ),
        }
    }

    /// Whether the node has no children.
    pub fn is_leaf(&self) -> (leaf: bool)
        ensures
            leaf == (self.children@.len() == 0),
    {
        self.children.len() == 0
    }
}

/// Whether `actual` is `plan` with every payload cloned: the same positions
/// node for node, and each payload a clone of the planned one.
pub open spec fn plotted_as<T: Clone>(actual: Plotted<T>, plan: Plotted<T>) -> bool
    decreases plan,
{
    &&& cloned(plan.data, actual.data)
    &&& actual.value == plan.value
    &&& actual.x == plan.x
    &&& actual.y == plan.y
    &&& actual.depth == plan.depth
    &&& actual.height == plan.height
    &&& actual.children.len() == plan.children.len()
    &&& forall|i: int| 0 <= i < plan.children.len() ==> plotted_as(#[trigger] actual.children[i], plan.children[i])
}

impl<T: Clone> Plotted<T> {
    /// Whether `copy` is this positioned tree with every payload cloned.
    pub open spec fn cloned_to(self, copy: Plotted<T>) -> bool {
        plotted_as(copy, self)
    }
}

impl<T: Clone> Clone for TreeNode<T> {
    /// Copies the positioned tree node for node, cloning every payload. The
    /// walk keeps its own list of the nodes whose children are being copied.
    fn clone(&self) -> (copy: Self)
        ensures
            self@.cloned_to(copy@),
    {
        let ghost mut works: Seq<nat> = Seq::empty();
        let mut stack: Vec<Copying<'_, T>> = Vec::new();
        let mut top = Copying { node: self, done: Vec::new() };
        loop
            invariant
                works.len() == stack@.len(),
                stack@.len() == 0 ==> top.node == self,
                stack@.len() > 0 ==> stack@[0].node == self,
                top.wf(true),
                forall|j: int| 0 <= j < stack@.len() ==> (#[trigger] stack@[j]).wf(false),
                forall|j: int|
                    0 <= j < stack@.len() - 1 ==> *(#[trigger] stack@[j + 1]).node == stack@[j].node.children@[stack@[j].done@.len() as int],
                stack@.len() > 0 ==> *top.node == stack@[stack@.len() - 1].node.children@[stack@[stack@.len()
                    - 1].done@.len() as int],
                forall|j: int| 0 <= j < stack@.len() ==> #[trigger] works[j] == stack@[j].work_behind(),
            decreases total(works) + top.work(),
        {
            let ghost before = stack@;
            let node = top.node;
            if top.done.len() < node.children.len() {
                let child = &node.children[top.done.len()];
                let frame = Copying { node: child, done: Vec::new() };
                proof {
                    let n = node.children@.len() as int;
                    lemma_rest_split(TreeNode::sizes(node.children@), n - top.done@.len());
                    lemma_rest_split(TreeNode::sizes(child.children@), child.children@.len() as int);
                    assert(frame.work() == 2 * child.size() - 1);
                    lemma_total_push(works, top.work_behind());
                    works = works.push(top.work_behind());
                }
                stack.push(top);
                top = frame;
            } else {
                let Copying { node: _, done } = top;
                let copy = TreeNode {
                    data: node.data.clone(),
                    value: node.value,
                    x: node.x,
                    y: node.y,
                    depth: node.depth,
                    height: node.height,
                    children: done,
                };
                proof {
                    assert forall|i: int| 0 <= i < node@.children.len() implies node@.children[i].cloned_to(
                        #[trigger] copy@.children[i],
                    ) by {
                        assert(copy@.children[i] == copy.children@[i]@);
                    }
                }
                match stack.pop() {
                    None => {
                        return copy;
                    },
                    Some(parent) => {
                        proof {
                            let j = stack@.len() as int;
                            assert(parent == before[j]);
                            assert(works =~= works.drop_last().push(works[j]));
                            lemma_total_push(works.drop_last(), works[j]);
                            works = works.drop_last();
                            lemma_rest_split(TreeNode::sizes(node.children@), 0);
                            if j > 0 {
                                assert(*before[(j - 1) + 1].node == before[j - 1].node.children@[before[j
                                    - 1].done@.len() as int]);
                            }
                        }
                        top = parent;
                        top.done.push(copy);
                    },
                }
            }
        }
    }
}

impl<T> TreeNode<T> {
    /// The numbers of nodes of each of `nodes`, in order.
    pub open spec fn sizes(nodes: Seq<TreeNode<T>>) -> Seq<nat>
        decreases nodes, 0nat,
    {
        Seq::new(
            nodes.len(),
            |i: int|
                if 0 <= i < nodes.len() {
                    nodes[i].size()
                } else {
                    0
                },
        )
    }

    /// The number of nodes of this positioned tree.
    pub open spec fn size(self) -> nat
        decreases self, 1nat,
    {
        1 + total(Self::sizes(self.children@))
    }
}

/// A node on the work list of a copy: its first children have been copied.
struct Copying<'a, T> {
    node: &'a TreeNode<T>,
    done: Vec<TreeNode<T>>,
}

impl<'a, T: Clone> Copying<'a, T> {
    /// Whether the frame holds copies of the first children of its node.
    /// Where the frame is not `open`, the child behind them is being copied.
    spec fn wf(self, open: bool) -> bool {
        let n = self.node.children@.len() as int;
        let m = self.done@.len() as int;
        &&& if open { m <= n } else { m < n }
        &&& forall|q: int| 0 <= q < m ==> self.node.children@[q]@.cloned_to((#[trigger] self.done@[q])@)
    }

    /// The number of steps that the frame still asks for.
    spec fn work(self) -> nat {
        1 + 2 * rest_sum(TreeNode::sizes(self.node.children@), self.node.children@.len() - self.done@.len())
    }

    /// The number of steps that the frame asks for once the child that is
    /// being copied has been taken in.
    spec fn work_behind(self) -> nat {
        1 + 2 * rest_sum(TreeNode::sizes(self.node.children@), self.node.children@.len() - self.done@.len() - 1)
    }
}

/// Plotting a copy of a tree gives the plot of the tree, with every payload
/// cloned.
pub proof fn lemma_cloned_plotted<T: Clone>(
    t: Tree<T>,
    copy: Tree<T>,
    first: nat,
    slots: nat,
    width: nat,
    depth: nat,
    levels: nat,
    height: nat,
)
    requires
        t.cloned_to(copy),
    ensures
        plotted_as(
            plot(copy, first, slots, width, depth, levels, height),
            plot(t, first, slots, width, depth, levels, height),
        ),
    decreases t,
{
    let actual = plot(copy, first, slots, width, depth, levels, height);
    let plan = plot(t, first, slots, width, depth, levels, height);
    t.lemma_cloned_numbers(copy);
    assert forall|i: int| 0 <= i < plan.children.len() implies plotted_as(#[trigger] actual.children[i], plan.children[i]) by {
        lemma_cloned_plotted(
            t.children[i],
            copy.children[i],
            first + prefix_sum(t.leaf_counts(), i),
            slots,
            width,
            depth + 1,
            levels,
            height,
        );
    }
    assert(actual.xs() =~= plan.xs());
    assert(Seq::new(actual.children.len(), |i: int| actual.children[i].x) =~= actual.xs());
    assert(Seq::new(plan.children.len(), |i: int| plan.children[i].x) =~= plan.xs());
}

/// The sum of entries that all lie between `lo` and `hi` lies between the
/// same bounds, taken as often as there are entries.
proof fn lemma_total_bounds(xs: Seq<nat>, lo: nat, hi: nat, n: int)
    requires
        0 <= n <= xs.len(),
        forall|i: int| 0 <= i < xs.len() ==> lo <= #[trigger] xs[i] && xs[i] <= hi,
    ensures
        n * lo <= prefix_sum(xs, n) <= n * hi,
    decreases n,
{
    if n > 0 {
        lemma_total_bounds(xs, lo, hi, n - 1);
        assert(n * lo == (n - 1) * lo + lo) by (nonlinear_arith);
        assert(n * hi == (n - 1) * hi + hi) by (nonlinear_arith);
    } else {
        assert(0 * lo == 0 && 0 * hi == 0);
    }
}

/// The mean of entries that all lie between `lo` and `hi` lies between `lo`
/// and `hi`.
pub proof fn lemma_mean_bounds(xs: Seq<nat>, lo: nat, hi: nat)
    requires
        xs.len() > 0,
        forall|i: int| 0 <= i < xs.len() ==> lo <= #[trigger] xs[i] && xs[i] <= hi,
    ensures
        lo <= mean(xs) <= hi,
{
    let n = xs.len() as int;
    lemma_total_bounds(xs, lo, hi, n);
    lemma_div_is_ordered(n * lo, total(xs) as int, n);
    lemma_div_is_ordered(total(xs) as int, n * hi, n);
    lemma_mul_is_commutative(n, lo as int);
    lemma_mul_is_commutative(n, hi as int);
    lemma_div_multiples_vanish(lo as int, n);
    lemma_div_multiples_vanish(hi as int, n);
}

/// Leaves stand from left to right in the order of their numbers, within the
/// width; where the width has a step for every slot, no two leaves share a
/// position.
pub proof fn lemma_leaf_x_monotone(a: nat, b: nat, slots: nat, width: nat)
    requires
        a <= b <= slots,
    ensures
        leaf_x(a, slots, width) <= leaf_x(b, slots, width) <= width,
        a < b && width >= slots ==> leaf_x(a, slots, width) < leaf_x(b, slots, width),
{
    if slots > 0 {
        lemma_cut_bounds(a, b, slots, width);
        if a < b && width >= slots {
            lemma_cut_share(a, b, slots, width);
            let d = cut(b, slots, width) - cut(a, slots, width);
            assert((b - a) * width >= slots) by (nonlinear_arith)
                requires
                    b - a >= 1,
                    width >= slots,
                    slots > 0,
            ;
            assert(d >= 1) by (nonlinear_arith)
                requires
                    d * slots > (b - a) * width - slots,
                    (b - a) * width >= slots,
                    slots > 0,
                    d >= 0,
            ;
        }
    }
}

impl<T> Plotted<T> {
    /// The children of every node stand from left to right in their order:
    /// no child stands left of a sibling before it.
    pub open spec fn left_to_right(self) -> bool
        decreases self,
    {
        &&& forall|i: int, j: int|
            0 <= i < j < self.children.len() ==> (#[trigger] self.children[i]).x <= (#[trigger] self.children[j]).x
        &&& forall|i: int| 0 <= i < self.children.len() ==> (#[trigger] self.children[i]).left_to_right()
    }

    /// The children of every node stand strictly from left to right: every
    /// child stands right of the sibling before it.
    pub open spec fn strictly_left_to_right(self) -> bool
        decreases self,
    {
        &&& forall|i: int, j: int|
            0 <= i < j < self.children.len() ==> (#[trigger] self.children[i]).x < (#[trigger] self.children[j]).x
        &&& forall|i: int| 0 <= i < self.children.len() ==> (#[trigger] self.children[i]).strictly_left_to_right()
    }

    /// Every node with children stands at the mean of its children, rounded
    /// down.
    pub open spec fn centered(self) -> bool
        decreases self,
    {
        &&& self.children.len() > 0 ==> self.x == mean(self.xs())
        &&& forall|i: int| 0 <= i < self.children.len() ==> (#[trigger] self.children[i]).centered()
    }

    /// Every node stands at the height that its depth gives it among
    /// `levels` levels below the root, within `height`, and every child lies
    /// one level below its parent.
    pub open spec fn levelled(self, levels: nat, height: nat) -> bool
        decreases self,
    {
        &&& self.y == cut(self.depth, levels, height)
        &&& forall|i: int|
            0 <= i < self.children.len() ==> {
                &&& (#[trigger] self.children[i]).depth == self.depth + 1
                &&& self.children[i].levelled(levels, height)
            }
    }
}

/// **Order and centring.** Whatever tree is plotted: every node stands
/// between its first and its last leaf, the children of every node stand
/// from left to right in their order, every node with children stands at
/// the mean of its children, and the depth of a node gives its height.
/// Where the width has a step for every slot, siblings stand strictly apart.
pub proof fn lemma_plot_laws<T>(t: Tree<T>, first: nat, slots: nat, width: nat, depth: nat, levels: nat, height: nat)
    requires
        first + t.leaves() <= slots + 1,
    ensures
        leaf_x(first, slots, width) <= plot(t, first, slots, width, depth, levels, height).x,
        plot(t, first, slots, width, depth, levels, height).x <= leaf_x(
            (first + t.leaves() - 1) as nat,
            slots,
            width,
        ),
        plot(t, first, slots, width, depth, levels, height).x <= width,
        plot(t, first, slots, width, depth, levels, height).left_to_right(),
        plot(t, first, slots, width, depth, levels, height).centered(),
        plot(t, first, slots, width, depth, levels, height).levelled(levels, height),
        width >= slots ==> plot(t, first, slots, width, depth, levels, height).strictly_left_to_right(),
    decreases t,
{
    let p = plot(t, first, slots, width, depth, levels, height);
    let n = t.children.len() as int;
    let counts = t.leaf_counts();
    t.lemma_leaves_positive();
    let last = (first + t.leaves() - 1) as nat;
    lemma_leaf_x_monotone(first, last, slots, width);
    assert(Seq::new(p.children.len(), |i: int| p.children[i].x) =~= p.xs());
    if n > 0 {
        assert forall|i: int| 0 <= i < n implies {
            let start = first + prefix_sum(counts, i);
            let end = (start + t.children[i].leaves() - 1) as nat;
            &&& first <= start <= end <= last
            &&& leaf_x(start, slots, width) <= (#[trigger] p.children[i]).x <= leaf_x(end, slots, width)
            &&& p.children[i].left_to_right()
            &&& p.children[i].centered()
            &&& p.children[i].levelled(levels, height)
            &&& width >= slots ==> p.children[i].strictly_left_to_right()
            &&& p.children[i].depth == depth + 1
        } by {
            let start = first + prefix_sum(counts, i);
            lemma_entry_le_total(counts, i);
            t.children[i].lemma_leaves_positive();
            assert(counts[i] == t.children[i].leaves());
            lemma_plot_laws(t.children[i], start, slots, width, depth + 1, levels, height);
        }
        assert forall|i: int| 0 <= i < p.xs().len() implies leaf_x(first, slots, width) <= #[trigger] p.xs()[i]
            && p.xs()[i] <= leaf_x(last, slots, width) by {
            let start = first + prefix_sum(counts, i);
            let end = (start + t.children[i].leaves() - 1) as nat;
            assert(p.xs()[i] == p.children[i].x);
            lemma_leaf_x_monotone(first, start, slots, width);
            lemma_leaf_x_monotone(end, last, slots, width);
        }
        lemma_mean_bounds(p.xs(), leaf_x(first, slots, width), leaf_x(last, slots, width));
        assert forall|i: int, j: int| 0 <= i < j < n implies (#[trigger] p.children[i]).x <= (#[trigger] p.children[j]).x
            && (width >= slots ==> p.children[i].x < p.children[j].x) by {
            let end_i = (first + prefix_sum(counts, i) + t.children[i].leaves() - 1) as nat;
            let start_j = first + prefix_sum(counts, j);
            lemma_prefix_sum_monotone(counts, i + 1, j);
            assert(counts[i] == t.children[i].leaves());
            t.children[i].lemma_leaves_positive();
            assert(prefix_sum(counts, i + 1) == prefix_sum(counts, i) + counts[i]);
            assert(end_i < start_j);
            lemma_entry_le_total(counts, j);
            t.children[j].lemma_leaves_positive();
            assert(counts[j] == t.children[j].leaves());
            lemma_leaf_x_monotone(end_i, start_j, slots, width);
        }
    }
}

/// The tree layout and its settings.
pub struct TreeLayout {
    /// The width across which the leaves are spread.
    pub width: u64,
    /// The height across which the levels are spread.
    pub height: u64,
}

impl Default for TreeLayout {
    fn default() -> (layout: Self)
        ensures
            layout == TreeLayout::initial(),
    {
        Self::new()
    }
}

impl TreeLayout {
    /// The settings of a new layout: one unit wide and one unit high.
    pub open spec fn initial() -> TreeLayout {
        TreeLayout { width: RESOLUTION, height: RESOLUTION }
    }

    /// A layout with the default settings.
    pub fn new() -> (layout: Self)
        ensures
            layout == Self::initial(),
    {
        TreeLayout { width: RESOLUTION, height: RESOLUTION }
    }

    /// Sets the extent to fill: `width` across and `height` through the
    /// levels.
    pub fn size(self, width: u64, height: u64) -> (layout: Self)
        ensures
            layout == (TreeLayout { width, height }),
    {
        TreeLayout { width, height }
    }

    /// The positions that this layout gives a hierarchy: the leaves are
    /// numbered from zero and spread across the width, and the levels down to
    /// the deepest leaf are spread across the height.
    pub open spec fn plan<T>(self, t: Tree<T>) -> Plotted<T> {
        plot(t, 0, (t.leaves() - 1) as nat, self.width as nat, 0, t.reach(), self.height as nat)
    }

    /// Lays out a hierarchy. The hierarchy itself is left as it is: the
    /// layout works on a copy and returns the positioned copy. Weights play
    /// no part, and children keep their order.
    pub fn layout<T: Clone>(&self, root: &HierarchyNode<T>) -> (plotted: TreeNode<T>)
        requires
            root@.leaves() <= u64::MAX,
            root@.reach() < usize::MAX,
        ensures
            plotted_as(plotted@, self.plan(root@)),
            plotted@.depth == 0,
            plotted@.y == 0,
            plotted@.left_to_right(),
            plotted@.centered(),
            plotted@.levelled(root@.reach(), self.height as nat),
            plotted@.x <= self.width,
            self.width >= root@.leaves() - 1 ==> plotted@.strictly_left_to_right(),
    {
        let tree = root.clone();
        let ghost copy = tree@;
        proof {
            root@.lemma_cloned_numbers(copy);
            root@.lemma_leaves_positive();
        }
        let leaves = tree.leaf_count().unwrap();
        let levels = tree.levels().unwrap();
        let slots = leaves - 1;
        let plotted = self.plot_node(tree, slots, levels);
        proof {
            let plan = self.plan(root@);
            lemma_cloned_plotted(root@, copy, 0, slots as nat, self.width as nat, 0, levels as nat, self.height as nat);
            lemma_plot_laws(root@, 0, slots as nat, self.width as nat, 0, levels as nat, self.height as nat);
            lemma_plotted_as_laws(plotted@, plan, levels as nat, self.height as nat);
            lemma_cut_bounds(0, 0, levels as nat, self.height as nat);
        }
        plotted
    }

    /// Puts `node` on the work list: its leaves are numbered from `first`.
    fn open_frame<T>(
        &self,
        node: HierarchyNode<T>,
        first: u64,
        Ghost(slots): Ghost<nat>,
        Ghost(depth): Ghost<nat>,
        Ghost(levels): Ghost<nat>,
    ) -> (frame: Frame<T>)
        requires
            first + node@.leaves() <= slots + 1,
            slots < u64::MAX,
            depth + node@.reach() <= levels,
            levels <= usize::MAX,
        ensures
            frame.stands_for(*self, node@, slots, depth, levels, true),
            frame.first == first,
            frame.waiting@.len() == node@.children.len(),
            frame.done@.len() == 0,
    {
        let ghost t = node@;
        proof {
            node.lemma_view();
        }
        let HierarchyNode { data, value, children, depth: _, height } = node;
        let mut children = children;
        let ghost given = children@;
        let n = children.len();
        let mut waiting: Vec<HierarchyNode<T>> = Vec::new();
        while children.len() > 0
            invariant
                n == given.len(),
                children@.len() + waiting@.len() == n,
                forall|k: int| 0 <= k < children@.len() ==> #[trigger] children@[k] == given[k],
                forall|k: int| 0 <= k < waiting@.len() ==> #[trigger] waiting@[k] == given[n - 1 - k],
            decreases children@.len(),
        {
            let child = children.pop().unwrap();
            waiting.push(child);
        }
        let frame = Frame { data, value, height, first, seen: 0, sum_x: 0, waiting, done: Vec::new() };
        proof {
            assert(0 * u64::MAX == 0);
            assert forall|k: int| 0 <= k < frame.waiting@.len() implies (#[trigger] frame.waiting@[k])@ == t.children[n - 1
                - k] by {
                assert(frame.waiting@[k] == given[n - 1 - k]);
            }
        }
        frame
    }

    /// Takes a node off the work list whose children have all been placed,
    /// and counts its leaves.
    fn close_frame<T>(
        &self,
        frame: Frame<T>,
        slots: u64,
        depth: usize,
        levels: usize,
        Ghost(o): Ghost<Tree<T>>,
    ) -> (found: (TreeNode<T>, u64))
        requires
            frame.stands_for(*self, o, slots as nat, depth as nat, levels as nat, true),
            frame.waiting@.len() == 0,
        ensures
            found.0@ == frame.goal(*self, o, slots as nat, depth as nat, levels as nat),
            found.1 == o.leaves(),
    {
        let ghost plan = frame.goal(*self, o, slots as nat, depth as nat, levels as nat);
        let y = cut_at(depth as u64, levels as u64, self.height);
        let Frame { data, value, height, first, seen, sum_x, waiting: _, done } = frame;
        let n = done.len();
        proof {
            o.lemma_leaves_positive();
            assert(Seq::new(plan.children.len(), |i: int| plan.children[i].x) =~= plan.xs());
        }
        if n == 0 {
            let x = if slots == 0 { self.width / 2 } else { cut_at(first, slots, self.width) };
            let plotted = TreeNode { data, value, x, y, depth, height, children: done };
            proof {
                assert(plotted@.children =~= plan.children);
            }
            return (plotted, 1);
        }
        proof {
            assert(n * u64::MAX / (n as int) == u64::MAX) by {
                lemma_mul_is_commutative(n as int, u64::MAX as int);
                lemma_div_multiples_vanish(u64::MAX as int, n as int);
            }
            lemma_div_is_ordered(sum_x as int, n * u64::MAX, n as int);
        }
        let x = (sum_x / (n as u128)) as u64;
        let plotted = TreeNode { data, value, x, y, depth, height, children: done };
        proof {
            assert(plotted@.children =~= plan.children);
        }
        (plotted, seen)
    }

    /// Plots `root` and everything below it. The walk keeps its own list of
    /// the nodes whose children are being plotted, so the depth of the tree
    /// costs no call stack.
    fn plot_node<T>(&self, root: HierarchyNode<T>, slots: u64, levels: usize) -> (plotted: TreeNode<T>)
        requires
            root@.leaves() <= slots + 1,
            slots < u64::MAX,
            root@.reach() <= levels,
        ensures
            plotted@ == plot(root@, 0, slots as nat, self.width as nat, 0, levels as nat, self.height as nat),
    {
        let ghost mut origs: Seq<Tree<T>> = seq![root@];
        let ghost mut works: Seq<nat> = Seq::empty();
        let mut stack: Vec<Frame<T>> = Vec::new();
        let mut top = self.open_frame(root, 0, Ghost(slots as nat), Ghost(0), Ghost(levels as nat));
        loop
            invariant
                origs.len() == stack@.len() + 1,
                works.len() == stack@.len(),
                slots < u64::MAX,
                stack@.len() <= levels,
                if stack@.len() == 0 {
                    top.goal(*self, origs[0], slots as nat, 0, levels as nat) == plot(
                        root@,
                        0,
                        slots as nat,
                        self.width as nat,
                        0,
                        levels as nat,
                        self.height as nat,
                    )
                } else {
                    stack@[0].goal(*self, origs[0], slots as nat, 0, levels as nat) == plot(
                        root@,
                        0,
                        slots as nat,
                        self.width as nat,
                        0,
                        levels as nat,
                        self.height as nat,
                    )
                },
                top.stands_for(
                    *self,
                    origs[stack@.len() as int],
                    slots as nat,
                    stack@.len() as nat,
                    levels as nat,
                    true,
                ),
                forall|j: int|
                    0 <= j < stack@.len() ==> (#[trigger] stack@[j]).stands_for(
                        *self,
                        origs[j],
                        slots as nat,
                        j as nat,
                        levels as nat,
                        false,
                    ),
                forall|j: int|
                    0 <= j < stack@.len() ==> origs[j + 1] == origs[j].children[(#[trigger] stack@[j]).done@.len() as int],
                forall|j: int|
                    0 <= j < stack@.len() - 1 ==> (#[trigger] stack@[j + 1]).goal(
                        *self,
                        origs[j + 1],
                        slots as nat,
                        (j + 1) as nat,
                        levels as nat,
                    ) == stack@[j].goal(*self, origs[j], slots as nat, j as nat, levels as nat).children[stack@[j].done@.len() as int],
                stack@.len() > 0 ==> top.goal(
                    *self,
                    origs[stack@.len() as int],
                    slots as nat,
                    stack@.len() as nat,
                    levels as nat,
                ) == stack@[stack@.len() - 1].goal(
                    *self,
                    origs[stack@.len() - 1],
                    slots as nat,
                    (stack@.len() - 1) as nat,
                    levels as nat,
                ).children[stack@[stack@.len() - 1].done@.len() as int],
                forall|j: int| 0 <= j < stack@.len() ==> #[trigger] works[j] == stack@[j].work(origs[j]),
            decreases total(works) + top.work(origs[stack@.len() as int]),
        {
            let ghost o = origs[stack@.len() as int];
            let ghost before = stack@;
            let ghost depth = stack@.len() as nat;
            let ghost was = top;
            match top.waiting.pop() {
                Some(child) => {
                    let ghost index = top.done@.len() as int;
                    proof {
                        let n = o.children.len() as int;
                        assert(was.waiting@[n - 1 - index]@ == o.children[index]);
                        assert(child@ == o.children[index]);
                        lemma_entry_le_total(o.leaf_counts(), index);
                        assert(o.leaf_counts()[index] == child@.leaves());
                        child@.lemma_leaves_positive();
                        lemma_prefix_max(o.reaches(), n);
                        assert(o.reaches()[index] == child@.reach());
                        assert(o.sizes().len() == n);
                        lemma_rest_split(o.sizes(), (n - index) as int);
                        assert(o.sizes()[index] == child@.size());
                    }
                    let frame = self.open_frame(
                        child,
                        top.first + top.seen,
                        Ghost(slots as nat),
                        Ghost(depth + 1),
                        Ghost(levels as nat),
                    );
                    proof {
                        assert(top.goal(*self, o, slots as nat, depth, levels as nat) == was.goal(
                            *self,
                            o,
                            slots as nat,
                            depth,
                            levels as nat,
                        ));
                        assert(frame.goal(*self, child@, slots as nat, depth + 1, levels as nat) == top.goal(
                            *self,
                            o,
                            slots as nat,
                            depth,
                            levels as nat,
                        ).children[index]);
                        lemma_total_push(works, top.work(o));
                        works = works.push(top.work(o));
                        origs = origs.push(child@);
                        lemma_rest_split(child@.sizes(), child@.children.len() as int);
                        assert(frame.work(child@) == 2 * child@.size() - 1);
                    }
                    stack.push(top);
                    top = frame;
                },
                None => {
                    let (node, leaves) = self.close_frame(top, slots, stack.len(), levels, Ghost(o));
                    match stack.pop() {
                        None => {
                            return node;
                        },
                        Some(parent) => {
                            let ghost j = stack@.len() as int;
                            let ghost po = origs[j];
                            proof {
                                assert(parent == before[j]);
                                assert(works =~= works.drop_last().push(works[j]));
                                lemma_total_push(works.drop_last(), works[j]);
                                works = works.drop_last();
                                origs = origs.drop_last();
                                let plan = parent.goal(*self, po, slots as nat, j as nat, levels as nat);
                                let index = parent.done@.len() as int;
                                lemma_entry_le_total(po.leaf_counts(), index);
                                assert(po.leaf_counts()[index] == o.leaves());
                                assert(plan.xs()[index] == node@.x);
                                assert((index + 1) * u64::MAX == index * u64::MAX + u64::MAX) by (nonlinear_arith);
                                assert(po.children.len() * u64::MAX <= usize::MAX * u64::MAX) by (nonlinear_arith)
                                    requires
                                        po.children.len() <= usize::MAX,
                                ;
                                assert((index + 1) * u64::MAX <= po.children.len() * u64::MAX) by (nonlinear_arith)
                                    requires
                                        index + 1 <= po.children.len(),
                                ;
                                assert(usize::MAX * u64::MAX <= 0xffff_ffff_ffff_ffff * 0xffff_ffff_ffff_ffff) by (nonlinear_arith)
                                    requires
                                        usize::MAX <= 0xffff_ffff_ffff_ffff,
                                        u64::MAX == 0xffff_ffff_ffff_ffff,
                                ;
                            }
                            top = parent;
                            top.sum_x = top.sum_x + node.x as u128;
                            top.seen = top.seen + leaves;
                            top.done.push(node);
                            proof {
                                assert(top.goal(*self, po, slots as nat, j as nat, levels as nat) == before[j].goal(
                                    *self,
                                    po,
                                    slots as nat,
                                    j as nat,
                                    levels as nat,
                                ));
                            }
                        },
                    }
                },
            }
        }
    }
}

/// A node on the work list: the number of its first leaf is known, and its
/// children are being plotted from the first to the last.
struct Frame<T> {
    data: T,
    value: u64,
    height: usize,
    first: u64,
    /// The number of leaves below the children that have been plotted.
    seen: u64,
    /// The sum of the horizontal positions of the children that have been
    /// plotted.
    sum_x: u128,
    /// The children that have yet to be plotted, the next one last.
    waiting: Vec<HierarchyNode<T>>,
    done: Vec<TreeNode<T>>,
}

impl<T> Frame<T> {
    /// The plotted node that the frame is to become.
    spec fn goal(self, layout: TreeLayout, o: Tree<T>, slots: nat, depth: nat, levels: nat) -> Plotted<T> {
        plot(o, self.first as nat, slots, layout.width as nat, depth, levels, layout.height as nat)
    }

    /// Whether the frame stands for the node `o` at `depth`: it holds the
    /// children of `o` that have been plotted, in order, and the children
    /// that have yet to be plotted, the next one last. Where the frame is
    /// not `open`, the child between the two groups is being plotted.
    spec fn stands_for(self, layout: TreeLayout, o: Tree<T>, slots: nat, depth: nat, levels: nat, open: bool) -> bool {
        let n = o.children.len() as int;
        let m = self.done@.len() as int;
        let plan = self.goal(layout, o, slots, depth, levels);
        &&& self.data == o.data
        &&& self.value == o.value
        &&& self.height == o.height
        &&& self.first + o.leaves() <= slots + 1
        &&& slots < u64::MAX
        &&& depth + o.reach() <= levels
        &&& levels <= usize::MAX
        &&& n <= usize::MAX
        &&& m + self.waiting@.len() + (if open { 0int } else { 1int }) == n
        &&& self.seen == prefix_sum(o.leaf_counts(), m)
        &&& self.sum_x == prefix_sum(plan.xs(), m)
        &&& self.sum_x <= m * u64::MAX
        &&& forall|k: int| 0 <= k < self.waiting@.len() ==> (#[trigger] self.waiting@[k])@ == o.children[n - 1 - k]
        &&& forall|q: int| 0 <= q < m ==> (#[trigger] self.done@[q])@ == plan.children[q]
    }

    /// The number of steps that the frame still asks for: one to finish it,
    /// and two for every node below a child that has yet to be plotted.
    spec fn work(self, o: Tree<T>) -> nat {
        1 + 2 * rest_sum(o.sizes(), self.waiting@.len() as int)
    }
}

impl<T> Plotted<T> {
    /// The positioned tree without its payloads: what is left is the
    /// geometry.
    pub open spec fn outline(self) -> Plotted<()>
        decreases self,
    {
        Plotted {
            data: (),
            value: self.value,
            x: self.x,
            y: self.y,
            depth: self.depth,
            height: self.height,
            children: Seq::new(
                self.children.len(),
                |i: int|
                    if 0 <= i < self.children.len() {
                        self.children[i].outline()
                    } else {
                        arbitrary()
                    },
            ),
        }
    }
}

/// A result that realises a plan has the geometry of the plan.
pub proof fn lemma_plotted_as_outline<T: Clone>(actual: Plotted<T>, plan: Plotted<T>)
    requires
        plotted_as(actual, plan),
    ensures
        actual.outline() == plan.outline(),
    decreases plan,
{
    assert forall|i: int| 0 <= i < plan.children.len() implies actual.outline().children[i]
        == plan.outline().children[i] by {
        lemma_plotted_as_outline(actual.children[i], plan.children[i]);
    }
    assert(actual.outline().children =~= plan.outline().children);
}

/// **Determinism.** Whatever two results the layout returns for one
/// hierarchy under one setting, they have the same geometry.
pub proof fn lemma_layout_deterministic<T: Clone>(layout: TreeLayout, t: Tree<T>, first: Plotted<T>, second: Plotted<T>)
    requires
        plotted_as(first, layout.plan(t)),
        plotted_as(second, layout.plan(t)),
    ensures
        first.outline() == second.outline(),
{
    lemma_plotted_as_outline(first, layout.plan(t));
    lemma_plotted_as_outline(second, layout.plan(t));
}

/// The laws of a plot hold of every result that realises it.
pub proof fn lemma_plotted_as_laws<T: Clone>(actual: Plotted<T>, plan: Plotted<T>, levels: nat, height: nat)
    requires
        plotted_as(actual, plan),
    ensures
        plan.left_to_right() ==> actual.left_to_right(),
        plan.strictly_left_to_right() ==> actual.strictly_left_to_right(),
        plan.centered() ==> actual.centered(),
        plan.levelled(levels, height) ==> actual.levelled(levels, height),
    decreases plan,
{
    assert forall|i: int| 0 <= i < plan.children.len() implies {
        &&& plan.children[i].left_to_right() ==> (#[trigger] actual.children[i]).left_to_right()
        &&& plan.children[i].strictly_left_to_right() ==> actual.children[i].strictly_left_to_right()
        &&& plan.children[i].centered() ==> actual.children[i].centered()
        &&& plan.children[i].levelled(levels, height) ==> actual.children[i].levelled(levels, height)
        &&& actual.children[i].x == plan.children[i].x
        &&& actual.children[i].depth == plan.children[i].depth
    } by {
        lemma_plotted_as_laws(actual.children[i], plan.children[i], levels, height);
    }
    assert(actual.xs() =~= plan.xs());
    if plan.left_to_right() {
        assert forall|i: int, j: int| 0 <= i < j < actual.children.len() implies (#[trigger] actual.children[i]).x <= (
        #[trigger] actual.children[j]).x by {
            assert(plan.children[i].x <= plan.children[j].x);
        }
    }
    if plan.strictly_left_to_right() {
        assert forall|i: int, j: int| 0 <= i < j < actual.children.len() implies (#[trigger] actual.children[i]).x < (
        #[trigger] actual.children[j]).x by {
            assert(plan.children[i].x < plan.children[j].x);
        }
    }
}

} // verus!
