//! The passes over a hierarchy, walked without recursion.
//!
//! A pass rebuilds a tree from the leaves up. The walk keeps its own list of
//! the nodes whose children are being rebuilt, so the depth of the tree costs
//! no call stack.

use vstd::prelude::*;
use crate::model::Tree;
use crate::node::HierarchyNode;
use crate::order::{arranged, lemma_slot_found, lemma_stable_order, stable_order};
use crate::series::{
    lemma_entry_le_total, lemma_prefix_max, lemma_prefix_sum_monotone, lemma_total_push, prefix_sum, total,
};

verus! {

/// The passes that rebuild a hierarchy.
#[derive(Clone, Copy)]
pub(crate) enum Pass {
    /// Aggregates weights.
    Sum,
    /// Records depths.
    Stamp,
    /// Orders children by descending weight.
    Sort,
}

/// The tree that `pass` makes of `t`, where `t` lies at `depth`.
pub(crate) open spec fn applied<T>(pass: Pass, t: Tree<T>, depth: nat) -> Tree<T> {
    match pass {
        Pass::Sum => t.summed(),
        Pass::Stamp => t.stamped(depth),
        Pass::Sort => t.sorted(),
    }
}

/// Whether `pass` can run on `t` at `depth` within machine numbers.
pub(crate) open spec fn admits<T>(pass: Pass, t: Tree<T>, depth: nat) -> bool {
    match pass {
        Pass::Sum => t.aggregate() <= u64::MAX,
        Pass::Stamp => depth + t.reach() <= usize::MAX,
        Pass::Sort => true,
    }
}

/// The weights of `nodes`, in order.
pub(crate) open spec fn keys_of<T>(nodes: Seq<HierarchyNode<T>>) -> Seq<nat> {
    Seq::new(nodes.len(), |k: int| nodes[k].value as nat)
}

/// Puts `children` into stable descending order of weight: each child in
/// turn joins the sorted run of those before it, behind every child that is
/// not lighter. Its place in the run is found by halving.
pub(crate) fn sort_children<T>(children: &mut Vec<HierarchyNode<T>>)
    ensures
        final(children)@.len() == old(children)@.len(),
        forall|k: int|
            0 <= k < old(children)@.len() ==> #[trigger] final(children)@[k] == old(children)@[stable_order(
                keys_of(old(children)@),
            )[k]],
{
    let ghost given = children@;
    let ghost keys = keys_of(given);
    let n = children.len();
    let ghost mut perm: Seq<int> = Seq::new(n as nat, |k: int| k);
    let mut i: usize = 0;
    proof {
        assert(perm.take(0) =~= stable_order(keys.take(0)));
    }
    while i < n
        invariant
            0 <= i <= n,
            n == given.len(),
            n == children@.len(),
            n == perm.len(),
            keys == keys_of(given),
            forall|k: int| 0 <= k < n ==> 0 <= #[trigger] perm[k] < n,
            forall|k: int| 0 <= k < n ==> #[trigger] children@[k] == given[perm[k]],
            forall|k: int| i <= k < n ==> #[trigger] perm[k] == k,
            perm.take(i as int) == stable_order(keys.take(i as int)),
        decreases n - i,
    {
        let ghost settled = perm.take(i as int);
        let ghost run = arranged(keys.take(i as int), settled);
        let ghost mid = children@;
        let moved = children.remove(i);
        proof {
            // the children before `i` stand in descending order
            lemma_stable_order(keys.take(i as int));
            assert forall|a: int, b: int| 0 <= a < b < i implies (#[trigger] children@[a]).value >= (
            #[trigger] children@[b]).value by {
                assert(children@[a] == mid[a] && children@[b] == mid[b]);
                assert(settled[a] == perm[a] && settled[b] == perm[b]);
                assert(mid[a] == given[perm[a]] && mid[b] == given[perm[b]]);
                assert(keys.take(i as int)[settled[a]] >= keys.take(i as int)[settled[b]]);
            }
        }
        let mut j: usize = 0;
        let mut end: usize = i;
        while j < end
            invariant
                0 <= j <= end <= i < n,
                children@ == mid.remove(i as int),
                mid.len() == n,
                forall|a: int, b: int|
                    0 <= a < b < i ==> (#[trigger] children@[a]).value >= (#[trigger] children@[b]).value,
                forall|k: int| 0 <= k < j ==> (#[trigger] children@[k]).value >= moved.value,
                forall|k: int| end <= k < i ==> (#[trigger] children@[k]).value < moved.value,
            decreases end - j,
        {
            let middle = j + (end - j) / 2;
            if children[middle].value >= moved.value {
                j = middle + 1;
            } else {
                end = middle;
            }
        }
        children.insert(j, moved);
        proof {
            let key = moved.value as nat;
            assert forall|k: int| 0 <= k < i implies #[trigger] run[k] == mid[k].value by {
                assert(settled[k] == perm[k]);
                assert(mid[k] == given[perm[k]]);
            }
            assert forall|k: int| 0 <= k < j implies run[k] >= key by {
                assert(children@[k] == mid[k]);
            }
            if j < i {
                assert(mid.remove(i as int)[j as int] == mid[j as int]);
            }
            lemma_slot_found(run, key, j as int);
            assert(keys.take(i + 1).drop_last() =~= keys.take(i as int));
            assert(keys.take(i + 1).last() == key) by {
                assert(mid[i as int] == given[perm[i as int]]);
            }
            let next = perm.remove(i as int).insert(j as int, i as int);
            assert(next.take(i + 1) =~= settled.insert(j as int, i as int));
            assert forall|k: int| 0 <= k < n implies 0 <= #[trigger] next[k] < n && #[trigger] children@[k]
                == given[next[k]] by {
                if k < j {
                    assert(children@[k] == mid[k]);
                } else if k == j {
                } else if k <= i {
                    assert(children@[k] == mid[k - 1]);
                    assert(next[k] == perm[k - 1]);
                } else {
                    assert(children@[k] == mid[k]);
                    assert(next[k] == perm[k]);
                }
            }
            assert forall|k: int| i + 1 <= k < n implies #[trigger] next[k] == k by {
                assert(next[k] == perm[k]);
            }
            perm = next;
        }
        i += 1;
    }
    proof {
        assert(keys.take(n as int) =~= keys);
        assert(perm.take(n as int) =~= perm);
    }
}

/// Finishes `pass` on a node whose children have been rebuilt: the node
/// gets the weight of its children, or its children their order.
pub(crate) fn settle<T>(node: &mut HierarchyNode<T>, pass: Pass, Ghost(o): Ghost<Tree<T>>, Ghost(depth): Ghost<nat>)
    requires
        admits(pass, o, depth),
        old(node).data == o.data,
        old(node).value == o.value,
        old(node).height == o.height,
        old(node).depth == applied(pass, o, depth).depth,
        old(node).children@.len() == o.children.len(),
        forall|k: int|
            0 <= k < o.children.len() ==> (#[trigger] old(node).children@[k])@ == applied(pass, o.children[k], depth + 1),
    ensures
        final(node)@ == applied(pass, o, depth),
{
    let n = node.children.len();
    let ghost given = node.children@;
    match pass {
        Pass::Sum => {
            if n > 0 {
                let ghost parts = o.aggregates();
                let mut acc: u64 = 0;
                let mut i: usize = 0;
                while i < n
                    invariant
                        0 <= i <= n,
                        n == node.children@.len(),
                        n == o.children.len(),
                        node.children@ == given,
                        parts == o.aggregates(),
                        total(parts) <= u64::MAX,
                        forall|k: int| 0 <= k < n ==> (#[trigger] given[k])@ == o.children[k].summed(),
                        acc == prefix_sum(parts, i as int),
                    decreases n - i,
                {
                    proof {
                        lemma_entry_le_total(parts, i as int);
                        o.children[i as int].lemma_summed_conserved();
                        assert(given[i as int]@ == o.children[i as int].summed());
                        given[i as int].lemma_view();
                    }
                    acc = acc + node.children[i].value;
                    i += 1;
                }
                node.value = acc;
            }
            proof {
                assert(node@.children =~= o.summed().children);
            }
        },
        Pass::Stamp => {
            proof {
                assert(node@.children =~= o.stamped(depth).children);
            }
        },
        Pass::Sort => {
            sort_children(&mut node.children);
            proof {
                let order = stable_order(o.weights());
                o.lemma_sorted_children();
                assert forall|k: int| 0 <= k < n implies keys_of(given)[k] == o.weights()[k] by {
                    o.children[k].lemma_sorted_root();
                    assert(given[k]@ == o.children[k].sorted());
                    given[k].lemma_view();
                }
                assert(keys_of(given) =~= o.weights());
                assert forall|k: int| 0 <= k < n implies node@.children[k] == o.sorted().children[k] by {
                    assert(node.children@[k] == given[order[k]]);
                }
                assert(node@.children =~= o.sorted().children);
            }
        },
    }
}

/// A node on the work list: its children are being rebuilt from the last to
/// the first.
pub(crate) struct Rebuild<T> {
    /// The node, with the children that have yet to be rebuilt.
    pub(crate) node: HierarchyNode<T>,
    /// The children that have been rebuilt, the last child first.
    pub(crate) done: Vec<HierarchyNode<T>>,
}

impl<T> Rebuild<T> {
    /// Whether the frame stands for the node `o` at `depth`. Where the frame
    /// is not `open`, the child between the two groups is being rebuilt.
    pub(crate) open spec fn stands_for(self, pass: Pass, o: Tree<T>, depth: nat, open: bool) -> bool {
        let n = o.children.len() as int;
        let r = self.node.children@.len() as int;
        &&& admits(pass, o, depth)
        &&& self.node.data == o.data
        &&& self.node.value == o.value
        &&& self.node.height == o.height
        &&& self.node.depth == applied(pass, o, depth).depth
        &&& r + self.done@.len() + (if open { 0int } else { 1int }) == n
        &&& forall|k: int| 0 <= k < r ==> (#[trigger] self.node.children@[k])@ == o.children[k]
        &&& forall|q: int|
            0 <= q < self.done@.len() ==> (#[trigger] self.done@[q])@ == applied(pass, o.children[n - 1 - q], depth + 1)
    }

    /// The number of steps that the frame still asks for.
    pub(crate) open spec fn work(self, o: Tree<T>) -> nat {
        1 + 2 * prefix_sum(o.sizes(), self.node.children@.len() as int)
    }
}

/// What a pass asks of a tree, it asks of every child one level down.
pub(crate) proof fn lemma_admits_child<T>(pass: Pass, o: Tree<T>, depth: nat, i: int)
    requires
        admits(pass, o, depth),
        0 <= i < o.children.len(),
    ensures
        admits(pass, o.children[i], depth + 1),
{
    lemma_entry_le_total(o.aggregates(), i);
    lemma_prefix_max(o.reaches(), o.children.len() as int);
    assert(o.aggregates()[i] == o.children[i].aggregate());
    assert(o.reaches()[i] == o.children[i].reach());
}

/// Takes a node off the work list whose children have all been rebuilt.
fn close_frame<T>(frame: Rebuild<T>, pass: Pass, Ghost(o): Ghost<Tree<T>>, Ghost(depth): Ghost<nat>) -> (node:
    HierarchyNode<T>)
    requires
        frame.stands_for(pass, o, depth, true),
        frame.node.children@.len() == 0,
    ensures
        node@ == applied(pass, o, depth),
{
    let Rebuild { node, done } = frame;
    let mut node = node;
    let mut done = done;
    let ghost rebuilt = done@;
    let n = done.len();
    while done.len() > 0
        invariant
            n == rebuilt.len(),
            done@.len() + node.children@.len() == n,
            node.data == o.data,
            node.value == o.value,
            node.height == o.height,
            node.depth == applied(pass, o, depth).depth,
            forall|q: int| 0 <= q < done@.len() ==> #[trigger] done@[q] == rebuilt[q],
            forall|k: int| 0 <= k < node.children@.len() ==> #[trigger] node.children@[k] == rebuilt[n - 1 - k],
        decreases done@.len(),
    {
        let child = done.pop().unwrap();
        node.children.push(child);
    }
    proof {
        assert forall|k: int| 0 <= k < o.children.len() implies (#[trigger] node.children@[k])@ == applied(
            pass,
            o.children[k],
            depth + 1,
        ) by {
            assert(node.children@[k] == rebuilt[n - 1 - k]);
        }
    }
    settle(&mut node, pass, Ghost(o), Ghost(depth));
    node
}

/// Runs `pass` on `root` and everything below it, where `root` lies at
/// `depth`.
pub(crate) fn rebuild<T>(root: HierarchyNode<T>, pass: Pass, depth: usize) -> (rebuilt: HierarchyNode<T>)
    requires
        admits(pass, root@, depth as nat),
    ensures
        rebuilt@ == applied(pass, root@, depth as nat),
{
    let ghost mut origs: Seq<Tree<T>> = seq![root@];
    let ghost mut works: Seq<nat> = Seq::empty();
    let mut stack: Vec<Rebuild<T>> = Vec::new();
    let mut top = open_frame(root, pass, depth, Ghost(depth as nat));
    loop
        invariant
            origs.len() == stack@.len() + 1,
            works.len() == stack@.len(),
            origs[0] == root@,
            top.stands_for(pass, origs[stack@.len() as int], (depth + stack@.len()) as nat, true),
            forall|j: int|
                0 <= j < stack@.len() ==> (#[trigger] stack@[j]).stands_for(pass, origs[j], (depth + j) as nat, false),
            forall|j: int|
                0 <= j < stack@.len() ==> origs[j + 1] == origs[j].children[(#[trigger] stack@[j]).node.children@.len() as int],
            forall|j: int| 0 <= j < stack@.len() ==> #[trigger] works[j] == stack@[j].work(origs[j]),
        decreases total(works) + top.work(origs[stack@.len() as int]),
    {
        let ghost o = origs[stack@.len() as int];
        let ghost before = stack@;
        let ghost level = (depth + stack@.len()) as nat;
        match top.node.children.pop() {
            Some(child) => {
                let ghost index = top.node.children@.len() as int;
                proof {
                    assert(child@ == o.children[index]);
                    lemma_admits_child(pass, o, level, index);
                    assert(o.sizes()[index] == child@.size());
                    lemma_prefix_sum_monotone(child@.sizes(), 0, child@.children.len() as int);
                }
                let below = match pass {
                    Pass::Stamp => depth + stack.len() + 1,
                    _ => 0,
                };
                let frame = open_frame(child, pass, below, Ghost(level + 1));
                proof {
                    lemma_total_push(works, top.work(o));
                    works = works.push(top.work(o));
                    origs = origs.push(child@);
                    assert(frame.work(child@) == 2 * child@.size() - 1);
                }
                stack.push(top);
                top = frame;
            },
            None => {
                let node = close_frame(top, pass, Ghost(o), Ghost(level));
                match stack.pop() {
                    None => {
                        return node;
                    },
                    Some(parent) => {
                        proof {
                            let j = stack@.len() as int;
                            assert(parent == before[j]);
                            assert(works =~= works.drop_last().push(works[j]));
                            lemma_total_push(works.drop_last(), works[j]);
                            works = works.drop_last();
                            origs = origs.drop_last();
                        }
                        top = parent;
                        top.done.push(node);
                    },
                }
            },
        }
    }
}

/// Puts `node` on the work list, at a depth that is recorded only where the
/// pass records depths.
fn open_frame<T>(node: HierarchyNode<T>, pass: Pass, depth: usize, Ghost(level): Ghost<nat>) -> (frame: Rebuild<
    T,
>)
    requires
        admits(pass, node@, level),
        pass is Stamp ==> depth == level,
    ensures
        frame.stands_for(pass, node@, level, true),
        frame.node.children@.len() == node@.children.len(),
{
    let ghost t = node@;
    proof {
        node.lemma_view();
    }
    let mut node = node;
    match pass {
        Pass::Stamp => {
            node.depth = depth;
        },
        _ => {},
    }
    let frame = Rebuild { node, done: Vec::new() };
    proof {
        assert forall|k: int| 0 <= k < frame.node.children@.len() implies (#[trigger] frame.node.children@[k])@
            == t.children[k] by {}
    }
    frame
}

/// Runs `pass` on every one of `children`, which lie at `depth`.
pub(crate) fn rebuild_all<T>(children: Vec<HierarchyNode<T>>, pass: Pass, depth: usize) -> (rebuilt: Vec<HierarchyNode<T>>)
    requires
        forall|k: int| 0 <= k < children@.len() ==> admits(pass, (#[trigger] children@[k])@, depth as nat),
    ensures
        rebuilt@.len() == children@.len(),
        forall|k: int|
            0 <= k < children@.len() ==> (#[trigger] rebuilt@[k])@ == applied(pass, children@[k]@, depth as nat),
{
    let mut rebuilt: Vec<HierarchyNode<T>> = Vec::new();
    for child in it: children
        invariant
            it.seq() == children@,
            rebuilt@.len() == it.index(),
            forall|k: int| 0 <= k < children@.len() ==> admits(pass, (#[trigger] children@[k])@, depth as nat),
            forall|k: int|
                0 <= k < rebuilt@.len() ==> (#[trigger] rebuilt@[k])@ == applied(pass, children@[k]@, depth as nat),
    {
        let node = rebuild(child, pass, depth);
        rebuilt.push(node);
    }
    rebuilt
}

} // verus!
