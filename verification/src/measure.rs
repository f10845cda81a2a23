//! The size of a hierarchy in machine numbers, found without recursion.

use vstd::prelude::*;
use crate::model::Tree;
use crate::node::HierarchyNode;
use crate::series::{lemma_rest_split, lemma_total_push, prefix_max, prefix_sum, rest_sum, total};

verus! {

/// What a walk finds of a tree: each number where it fits its type.
#[derive(Clone, Copy)]
pub(crate) struct Measure {
    /// The aggregated weight.
    pub(crate) weight: Option<u64>,
    /// The number of leaves.
    pub(crate) leaves: Option<u64>,
    /// The distance to the deepest leaf.
    pub(crate) reach: Option<usize>,
}

/// `n` as a 64-bit number, where it is one.
pub(crate) open spec fn fit64(n: nat) -> Option<u64> {
    if n <= u64::MAX {
        Some(n as u64)
    } else {
        None
    }
}

/// `n` as a number of levels, where one more level can still be counted.
pub(crate) open spec fn fit_level(n: nat) -> Option<usize> {
    if n < usize::MAX {
        Some(n as usize)
    } else {
        None
    }
}

/// The measure of `t`.
pub(crate) open spec fn measured<T>(t: Tree<T>) -> Measure {
    Measure { weight: fit64(t.aggregate()), leaves: fit64(t.leaves()), reach: fit_level(t.reach()) }
}

/// A node on the work list: its first `next` children have been measured.
struct Frame<'a, T> {
    node: &'a HierarchyNode<T>,
    next: usize,
    weight: Option<u64>,
    leaves: Option<u64>,
    tallest: Option<usize>,
}

impl<'a, T> Frame<'a, T> {
    /// Whether the frame has measured the first `next` children of its
    /// node. Where the frame is not `open`, the child behind them is being
    /// measured.
    spec fn wf(self, open: bool) -> bool {
        let t = self.node@;
        let n = t.children.len() as int;
        let next = self.next as int;
        &&& if open { next <= n } else { next < n }
        &&& n == self.node.children@.len()
        &&& self.weight == fit64(prefix_sum(t.aggregates(), next))
        &&& self.leaves == fit64(prefix_sum(t.leaf_counts(), next))
        &&& self.tallest == if prefix_max(t.reaches(), next) + 1 < usize::MAX {
            Some(prefix_max(t.reaches(), next) as usize)
        } else {
            None
        }
    }

    /// The number of steps that the frame still asks for: one to finish it,
    /// and two for every node below a child that has yet to be measured.
    spec fn work(self) -> nat {
        1 + 2 * rest_sum(self.node@.sizes(), self.node@.children.len() - self.next)
    }

    /// The number of steps that the frame asks for once the child that is
    /// being measured has been taken in.
    spec fn work_behind(self) -> nat {
        1 + 2 * rest_sum(self.node@.sizes(), self.node@.children.len() - self.next - 1)
    }

    /// A frame for `node`, with none of its children measured.
    fn open(node: &'a HierarchyNode<T>) -> (frame: Self)
        ensures
            frame.wf(true),
            frame.node == node,
            frame.next == 0,
    {
        proof {
            node.lemma_view();
        }
        Frame { node, next: 0, weight: Some(0), leaves: Some(0), tallest: Some(0) }
    }

    /// The measure of the node, once all its children have been measured.
    fn close(self) -> (found: Measure)
        requires
            self.wf(true),
            self.next == self.node@.children.len(),
        ensures
            found == measured(self.node@),
    {
        proof {
            self.node.lemma_view();
        }
        if self.node.children.len() == 0 {
            Measure { weight: Some(self.node.value), leaves: Some(1), reach: Some(0) }
        } else {
            let reach = match self.tallest {
                Some(tallest) => Some(tallest + 1),
                None => None,
            };
            Measure { weight: self.weight, leaves: self.leaves, reach }
        }
    }

    /// Takes in the measure of the child that was being measured.
    fn absorb(&mut self, child: Measure)
        requires
            old(self).wf(false),
            child == measured(old(self).node@.children[old(self).next as int]),
        ensures
            final(self).wf(true),
            final(self).node == old(self).node,
            final(self).next == old(self).next + 1,
    {
        let ghost t = self.node@;
        let ghost i = self.next as int;
        let count = self.node.children.len();
        assert(self.next < count);
        let next = self.next + 1;
        proof {
            self.node.lemma_view();
            assert(t.aggregates()[i] == t.children[i].aggregate());
            assert(t.leaf_counts()[i] == t.children[i].leaves());
            assert(t.reaches()[i] == t.children[i].reach());
        }
        self.weight = match (self.weight, child.weight) {
            (Some(sum), Some(part)) => if part <= u64::MAX - sum { Some(sum + part) } else { None },
            _ => None,
        };
        self.leaves = match (self.leaves, child.leaves) {
            (Some(sum), Some(part)) => if part <= u64::MAX - sum { Some(sum + part) } else { None },
            _ => None,
        };
        self.tallest = match (self.tallest, child.reach) {
            (Some(tallest), Some(reach)) => if reach >= usize::MAX - 1 {
                None
            } else if reach > tallest {
                Some(reach)
            } else {
                Some(tallest)
            },
            _ => None,
        };
        self.next = next;
    }
}

/// Measures `root` and everything below it. The walk keeps its own list of
/// the nodes whose children are being measured, so the depth of the tree
/// costs no call stack.
pub(crate) fn measure<T>(root: &HierarchyNode<T>) -> (found: Measure)
    ensures
        found == measured(root@),
{
    let ghost mut works: Seq<nat> = Seq::empty();
    let mut stack: Vec<Frame<'_, T>> = Vec::new();
    let mut top = Frame::open(root);
    loop
        invariant
            works.len() == stack@.len(),
            stack@.len() == 0 ==> top.node == root,
            stack@.len() > 0 ==> stack@[0].node == root,
            top.wf(true),
            forall|j: int| 0 <= j < stack@.len() ==> (#[trigger] stack@[j]).wf(false),
            forall|j: int|
                0 <= j < stack@.len() - 1 ==> *(#[trigger] stack@[j + 1]).node == stack@[j].node.children@[stack@[j].next as int],
            stack@.len() > 0 ==> *top.node == stack@[stack@.len() - 1].node.children@[stack@[stack@.len() - 1].next as int],
            forall|j: int| 0 <= j < stack@.len() ==> #[trigger] works[j] == stack@[j].work_behind(),
        decreases total(works) + top.work(),
    {
        let ghost before = stack@;
        let ghost t = top.node@;
        let node = top.node;
        if top.next < node.children.len() {
            let child = &node.children[top.next];
            let frame = Frame::open(child);
            proof {
                let n = t.children.len() as int;
                node.lemma_view();
                child.lemma_view();
                lemma_rest_split(t.sizes(), n - top.next);
                assert(t.sizes()[top.next as int] == child@.size());
                lemma_rest_split(child@.sizes(), child@.children.len() as int);
                assert(frame.work() == 2 * child@.size() - 1);
                lemma_total_push(works, top.work_behind());
                works = works.push(top.work_behind());
            }
            stack.push(top);
            top = frame;
        } else {
            let found = top.close();
            match stack.pop() {
                None => {
                    return found;
                },
                Some(parent) => {
                    proof {
                        let j = stack@.len() as int;
                        assert(parent == before[j]);
                        assert(works =~= works.drop_last().push(works[j]));
                        lemma_total_push(works.drop_last(), works[j]);
                        works = works.drop_last();
                        lemma_rest_split(top.node@.sizes(), 0);
                        if j > 0 {
                            assert(*before[(j - 1) + 1].node == before[j - 1].node.children@[before[j - 1].next as int]);
                        }
                    }
                    top = parent;
                    top.absorb(found);
                },
            }
        }
    }
}

} // verus!
