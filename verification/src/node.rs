//! The hierarchy that callers build and hand to a layout.

use vstd::prelude::*;
use crate::series::{
    lemma_peak_concat, lemma_peak_push, lemma_rest_split, lemma_total_push, peak, prefix_max, rest_sum, total,
};
use crate::measure::measure;
use crate::model::Tree;
use crate::walk::{admits, applied, lemma_admits_child, rebuild_all, settle, Pass};

verus! {

/// A node of a hierarchy: a payload, a weight and the subtrees it owns.
#[derive(Debug)]
pub struct HierarchyNode<T> {
    /// The caller's payload.
    pub data: T,
    /// The weight of the node. [`sum`](HierarchyNode::sum) replaces it on
    /// every node that has children.
    pub value: u64,
    /// The subtrees, in insertion order.
    pub children: Vec<HierarchyNode<T>>,
    /// The distance from the root, as stamped by
    /// [`each_before`](HierarchyNode::each_before).
    pub depth: usize,
    /// The distance to the deepest leaf below, kept up to date by
    /// [`add_child`](HierarchyNode::add_child).
    pub height: usize,
}

impl<T> View for HierarchyNode<T> {
    type V = Tree<T>;

    open spec fn view(&self) -> Tree<T> {
        self.model()
    }
}

/// The height of a node that has just received a child of height `child`.
pub open spec fn raised(height: nat, child: nat) -> nat {
    let above: nat = if child < usize::MAX { child + 1 } else { child };
    if height >= above { height } else { above }
}

impl<T> HierarchyNode<T> {
    /// The tree that this node stands for.
    pub open spec fn model(self) -> Tree<T>
        decreases self,
    {
        Tree {
            data: self.data,
            value: self.value as nat,
            depth: self.depth as nat,
            height: self.height as nat,
            children: Seq::new(
                self.children@.len(),
                |i: int|
                    if 0 <= i < self.children@.len() {
                        self.children@[i].model()
                    } else {
                        arbitrary()
                    },
            ),
        }
    }

    /// What the model of a node consists of.
    pub proof fn lemma_view(self)
        ensures
            self@.data == self.data,
            self@.value == self.value,
            self@.depth == self.depth,
            self@.height == self.height,
            self@.children.len() == self.children@.len(),
            forall|i: int| 0 <= i < self.children@.len() ==> #[trigger] self@.children[i] == self.children@[i]@,
    {
    }

    /// A leaf with the given payload and weight.
    pub fn new(data: T, value: u64) -> (node: Self)
        ensures
            node@ == (Tree { data, value: value as nat, depth: 0, height: 0, children: Seq::empty() }),
            node@.is_leaf(),
            node@.measured(),
    {
        let node = HierarchyNode { data, value, children: Vec::new(), depth: 0, height: 0 };
        assert(node@.children =~= Seq::empty());
        node
    }

    /// Whether the node has no children.
    pub fn is_leaf(&self) -> (leaf: bool)
        ensures
            leaf == self@.is_leaf(),
    {
        self.children.len() == 0
    }

    /// Appends `child` as the last subtree and raises the height of this node
    /// to clear it. Nothing below `child` and no earlier subtree changes.
    pub fn add_child(&mut self, child: HierarchyNode<T>)
        ensures
            final(self)@ == (Tree {
                children: old(self)@.children.push(child@),
                height: raised(old(self)@.height, child@.height),
                ..old(self)@
            }),
            old(self)@.measured() && child@.measured() && child@.height < usize::MAX ==> final(self)@.measured(),
    {
        let above: usize = if child.height < usize::MAX { child.height + 1 } else { child.height };
        if self.height < above {
            self.height = above;
        }
        self.children.push(child);
        proof {
            assert(self@.children =~= old(self)@.children.push(child@));
            assert(self@.reaches() =~= old(self)@.reaches().push(child@.reach()));
            lemma_peak_push(old(self)@.reaches(), child@.reach());
        }
    }

    /// Aggregates weights from the leaves up: every node with children gets
    /// the sum of its children's aggregated weights, and every leaf keeps its
    /// own. Payloads, depths, heights and the order of children stay.
    pub fn sum(&mut self)
        requires
            old(self)@.aggregate() <= u64::MAX,
        ensures
            final(self)@ == old(self)@.summed(),
            final(self)@.conserved(),
    {
        proof {
            self@.lemma_summed_conserved();
        }
        self.run(Pass::Sum);
    }

    /// Records depths in pre-order: zero on this node and one more on each
    /// level below. Nothing else changes.
    pub fn each_before(&mut self)
        requires
            old(self)@.reach() <= usize::MAX,
        ensures
            final(self)@ == old(self)@.stamped(0),
            final(self)@.depth == 0,
            final(self)@.depths_consistent(),
    {
        let ghost given = self@;
        proof {
            given.lemma_stamped(0);
            self.lemma_view();
        }
        self.depth = 0;
        proof {
            self.lemma_view();
            assert(self@.children =~= given.children);
            assert(self@.stamped(0).children =~= given.stamped(0).children);
        }
        self.run(Pass::Stamp);
    }

    /// Puts the children of every node into descending order of weight.
    /// The sort is stable: children of equal weight keep their order.
    pub fn sort_by_value(&mut self)
        ensures
            final(self)@ == old(self)@.sorted(),
            final(self)@.descending(),
    {
        proof {
            self@.lemma_sorted_descending();
        }
        self.run(Pass::Sort);
    }

    /// Runs `pass` on this node, taken to lie at depth zero, and on
    /// everything below it.
    fn run(&mut self, pass: Pass)
        requires
            admits(pass, old(self)@, 0),
            pass is Stamp ==> old(self).depth == 0,
        ensures
            final(self)@ == applied(pass, old(self)@, 0),
    {
        let ghost o = self@;
        proof {
            self.lemma_view();
        }
        let mut children: Vec<HierarchyNode<T>> = Vec::new();
        std::mem::swap(&mut self.children, &mut children);
        proof {
            assert forall|k: int| 0 <= k < children@.len() implies admits(pass, (#[trigger] children@[k])@, 1) by {
                lemma_admits_child(pass, o, 0, k);
            }
        }
        let mut rebuilt = rebuild_all(children, pass, 1);
        std::mem::swap(&mut self.children, &mut rebuilt);
        settle(self, pass, Ghost(o), Ghost(0));
    }
}

impl<T> HierarchyNode<T> {
    /// The nodes of `nodes[from..]` and everything below them, each node
    /// before its children and the children in order.
    pub open spec fn preorder_from(nodes: Seq<HierarchyNode<T>>, from: int) -> Seq<HierarchyNode<T>>
        decreases nodes, nodes.len() - from,
    {
        if from < 0 || from >= nodes.len() {
            Seq::empty()
        } else {
            nodes[from].preorder() + Self::preorder_from(nodes, from + 1)
        }
    }

    /// This node and everything below it in pre-order: the node itself, then
    /// each child with all that is below it, in order.
    pub open spec fn preorder(self) -> Seq<HierarchyNode<T>>
        decreases self, 0nat,
    {
        seq![self] + Self::preorder_from(self.children@, 0)
    }

    /// For each of `nodes`, the depth recorded on it where it is a leaf, and
    /// zero where it is not.
    pub open spec fn leaf_depths(nodes: Seq<HierarchyNode<T>>) -> Seq<nat> {
        Seq::new(
            nodes.len(),
            |i: int|
                if nodes[i].children@.len() == 0 {
                    nodes[i].depth as nat
                } else {
                    0
                },
        )
    }

    /// The largest depth recorded on a leaf among the children from `from`
    /// on and everything below them is the largest that their subtrees hold.
    proof fn lemma_leaf_depths_from(nodes: Seq<HierarchyNode<T>>, deepests: Seq<nat>, from: int)
        requires
            0 <= from <= nodes.len(),
            deepests.len() == nodes.len(),
            forall|i: int| 0 <= i < nodes.len() ==> deepests[i] == (#[trigger] nodes[i])@.deepest(),
        ensures
            peak(Self::leaf_depths(Self::preorder_from(nodes, from))) == peak(deepests.skip(from)),
        decreases nodes, nodes.len() - from,
    {
        if from < nodes.len() {
            let first = nodes[from].preorder();
            let rest = Self::preorder_from(nodes, from + 1);
            nodes[from].lemma_leaf_depths();
            Self::lemma_leaf_depths_from(nodes, deepests, from + 1);
            assert(Self::leaf_depths(first + rest) =~= Self::leaf_depths(first) + Self::leaf_depths(rest));
            lemma_peak_concat(Self::leaf_depths(first), Self::leaf_depths(rest));
            assert(deepests.skip(from) =~= seq![deepests[from]] + deepests.skip(from + 1));
            lemma_peak_concat(seq![deepests[from]], deepests.skip(from + 1));
            reveal_with_fuel(prefix_max, 2);
        } else {
            assert(deepests.skip(from) =~= Seq::<nat>::empty());
            assert(Self::leaf_depths(Self::preorder_from(nodes, from)) =~= Seq::<nat>::empty());
        }
    }

    /// The largest depth recorded on a leaf of a tree is the largest that a
    /// walk over all its nodes finds on a leaf.
    pub proof fn lemma_leaf_depths(self)
        ensures
            peak(Self::leaf_depths(self.preorder())) == self@.deepest(),
        decreases self, 1nat,
    {
        let rest = Self::preorder_from(self.children@, 0);
        let deepests = self@.deepests();
        self.lemma_view();
        assert forall|i: int| 0 <= i < self.children@.len() implies deepests[i] == (#[trigger] self.children@[i])@.deepest() by {}
        Self::lemma_leaf_depths_from(self.children@, deepests, 0);
        assert(deepests.skip(0) =~= deepests);
        assert(Self::leaf_depths(seq![self] + rest) =~= Self::leaf_depths(seq![self]) + Self::leaf_depths(rest));
        lemma_peak_concat(Self::leaf_depths(seq![self]), Self::leaf_depths(rest));
        reveal_with_fuel(prefix_max, 2);
        if self.children@.len() == 0 {
            assert(rest =~= Seq::<HierarchyNode<T>>::empty());
        }
    }

    /// A pre-order traversal that starts at this node. It keeps its own work
    /// list, so the depth of the tree costs no call stack.
    pub fn iter(&self) -> (it: HierarchyIter<'_, T>)
        ensures
            it.remaining() == self.preorder(),
    {
        let mut stack: Vec<&HierarchyNode<T>> = Vec::new();
        stack.push(self);
        let it = HierarchyIter { stack };
        proof {
            reveal_with_fuel(HierarchyIter::pending, 2);
            assert(it.remaining() =~= self.preorder());
        }
        it
    }

    /// The aggregated weight of this tree, where it fits in 64 bits.
    pub fn total_weight(&self) -> (weight: Option<u64>)
        ensures
            weight.is_some() == (self@.aggregate() <= u64::MAX),
            weight.is_some() ==> weight.unwrap() == self@.aggregate(),
    {
        measure(self).weight
    }

    /// The number of leaves of this tree, where it fits in 64 bits.
    pub fn leaf_count(&self) -> (count: Option<u64>)
        ensures
            count.is_some() == (self@.leaves() <= u64::MAX),
            count.is_some() ==> count.unwrap() == self@.leaves(),
    {
        measure(self).leaves
    }

    /// The distance from this node to the deepest leaf below it, where one
    /// more still fits in a `usize`.
    pub fn levels(&self) -> (reach: Option<usize>)
        ensures
            reach.is_some() == (self@.reach() < usize::MAX),
            reach.is_some() ==> reach.unwrap() == self@.reach(),
    {
        measure(self).reach
    }

    /// Whether the passes of a weighted layout can run on this tree within
    /// machine numbers: the aggregated weight fits in 64 bits, and every
    /// depth and the number of levels fit in a `usize`.
    pub fn fits(&self) -> (ok: bool)
        ensures
            ok == (self@.aggregate() <= u64::MAX && self@.reach() < usize::MAX),
    {
        let found = measure(self);
        found.weight.is_some() && found.reach.is_some()
    }
}

/// A pre-order traversal of a hierarchy, one node per call of
/// [`next`](HierarchyIter::next).
pub struct HierarchyIter<'a, T> {
    stack: Vec<&'a HierarchyNode<T>>,
}

impl<'a, T> HierarchyIter<'a, T> {
    /// What the first `n` entries of a stack still have to yield: the entry
    /// on top with all below it comes first.
    pub open spec fn pending(stack: Seq<&'a HierarchyNode<T>>, n: int) -> Seq<HierarchyNode<T>>
        decreases n,
    {
        if n <= 0 || n > stack.len() {
            Seq::empty()
        } else {
            stack[n - 1].preorder() + Self::pending(stack, n - 1)
        }
    }

    /// The nodes that the traversal has yet to yield, in order.
    pub closed spec fn remaining(&self) -> Seq<HierarchyNode<T>> {
        Self::pending(self.stack@, self.stack@.len() as int)
    }

    /// What a stack has to yield depends only on its entries.
    proof fn lemma_pending_agrees(a: Seq<&'a HierarchyNode<T>>, b: Seq<&'a HierarchyNode<T>>, n: int)
        requires
            0 <= n <= a.len(),
            n <= b.len(),
            forall|k: int| 0 <= k < n ==> a[k] == b[k],
        ensures
            Self::pending(a, n) == Self::pending(b, n),
        decreases n,
    {
        if n > 0 {
            Self::lemma_pending_agrees(a, b, n - 1);
        }
    }

    /// Yields the next node in pre-order, or `None` when all nodes have been
    /// yielded.
    pub fn next(&mut self) -> (node: Option<&'a HierarchyNode<T>>)
        ensures
            old(self).remaining().len() == 0 ==> node.is_none() && final(self).remaining() == old(self).remaining(),
            old(self).remaining().len() > 0 ==> node.is_some() && *node.unwrap() == old(self).remaining()[0]
                && final(self).remaining() == old(self).remaining().drop_first(),
    {
        let ghost before = self.stack@;
        if let Some(node) = self.stack.pop() {
            let ghost rest = self.stack@;
            let ghost below = Self::pending(rest, rest.len() as int);
            proof {
                Self::lemma_pending_agrees(before, rest, rest.len() as int);
            }
            let n = node.children.len();
            let mut k: usize = n;
            while k > 0
                invariant
                    0 <= k <= n,
                    n == node.children@.len(),
                    below == Self::pending(rest, rest.len() as int),
                    self.stack@.len() == rest.len() + (n - k),
                    Self::pending(self.stack@, self.stack@.len() as int) == HierarchyNode::preorder_from(
                        node.children@,
                        k as int,
                    ) + below,
                decreases k,
            {
                let ghost shorter = self.stack@;
                k -= 1;
                self.stack.push(&node.children[k]);
                proof {
                    Self::lemma_pending_agrees(self.stack@, shorter, shorter.len() as int);
                    assert(Self::pending(self.stack@, self.stack@.len() as int) =~= HierarchyNode::preorder_from(
                        node.children@,
                        k as int,
                    ) + below);
                }
            }
            proof {
                assert(old(self).remaining() =~= seq![*node] + (HierarchyNode::preorder_from(node.children@, 0) + below));
                assert(self.remaining() =~= old(self).remaining().drop_first());
            }
            Some(node)
        } else {
            None
        }
    }
}

impl<T: Clone> Clone for HierarchyNode<T> {
    /// Copies the tree node for node, cloning every payload. The walk keeps
    /// its own list of the nodes whose children are being copied.
    fn clone(&self) -> (copy: Self)
        ensures
            self@.cloned_to(copy@),
    {
        let ghost mut works: Seq<nat> = Seq::empty();
        let mut stack: Vec<Copying<'_, T>> = Vec::new();
        let mut top = Copying { node: self, done: Vec::new() };
        loop
            invariant
                works.len() == stack@.len(),
                stack@.len() == 0 ==> top.node == self,
                stack@.len() > 0 ==> stack@[0].node == self,
                top.wf(true),
                forall|j: int| 0 <= j < stack@.len() ==> (#[trigger] stack@[j]).wf(false),
                forall|j: int|
                    0 <= j < stack@.len() - 1 ==> *(#[trigger] stack@[j + 1]).node == stack@[j].node.children@[stack@[j].done@.len() as int],
                stack@.len() > 0 ==> *top.node == stack@[stack@.len() - 1].node.children@[stack@[stack@.len()
                    - 1].done@.len() as int],
                forall|j: int| 0 <= j < stack@.len() ==> #[trigger] works[j] == stack@[j].work_behind(),
            decreases total(works) + top.work(),
        {
            let ghost before = stack@;
            let node = top.node;
            proof {
                node.lemma_view();
            }
            if top.done.len() < node.children.len() {
                let child = &node.children[top.done.len()];
                let frame = Copying { node: child, done: Vec::new() };
                proof {
                    let t = node@;
                    let n = t.children.len() as int;
                    child.lemma_view();
                    lemma_rest_split(t.sizes(), n - top.done@.len());
                    assert(t.sizes()[top.done@.len() as int] == child@.size());
                    lemma_rest_split(child@.sizes(), child@.children.len() as int);
                    assert(frame.work() == 2 * child@.size() - 1);
                    lemma_total_push(works, top.work_behind());
                    works = works.push(top.work_behind());
                }
                stack.push(top);
                top = frame;
            } else {
                let Copying { node: _, done } = top;
                let copy = HierarchyNode {
                    data: node.data.clone(),
                    value: node.value,
                    children: done,
                    depth: node.depth,
                    height: node.height,
                };
                proof {
                    copy.lemma_view();
                    assert forall|i: int| 0 <= i < node@.children.len() implies node@.children[i].cloned_to(
                        #[trigger] copy@.children[i],
                    ) by {
                        assert(copy@.children[i] == copy.children@[i]@);
                    }
                }
                match stack.pop() {
                    None => {
                        return copy;
                    },
                    Some(parent) => {
                        proof {
                            let j = stack@.len() as int;
                            assert(parent == before[j]);
                            assert(works =~= works.drop_last().push(works[j]));
                            lemma_total_push(works.drop_last(), works[j]);
                            works = works.drop_last();
                            lemma_rest_split(node@.sizes(), 0);
                            parent.node.lemma_view();
                            if j > 0 {
                                assert(*before[(j - 1) + 1].node == before[j - 1].node.children@[before[j
                                    - 1].done@.len() as int]);
                            }
                        }
                        top = parent;
                        top.done.push(copy);
                    },
                }
            }
        }
    }
}

/// A node on the work list of a copy: its first children have been copied.
struct Copying<'a, T> {
    node: &'a HierarchyNode<T>,
    done: Vec<HierarchyNode<T>>,
}

impl<'a, T: Clone> Copying<'a, T> {
    /// Whether the frame holds copies of the first children of its node.
    /// Where the frame is not `open`, the child behind them is being copied.
    spec fn wf(self, open: bool) -> bool {
        let n = self.node.children@.len() as int;
        let m = self.done@.len() as int;
        &&& if open { m <= n } else { m < n }
        &&& forall|q: int| 0 <= q < m ==> self.node.children@[q]@.cloned_to((#[trigger] self.done@[q])@)
    }

    /// The number of steps that the frame still asks for.
    spec fn work(self) -> nat {
        1 + 2 * rest_sum(self.node@.sizes(), self.node@.children.len() - self.done@.len())
    }

    /// The number of steps that the frame asks for once the child that is
    /// being copied has been taken in.
    spec fn work_behind(self) -> nat {
        1 + 2 * rest_sum(self.node@.sizes(), self.node@.children.len() - self.done@.len() - 1)
    }
}

} // verus!
