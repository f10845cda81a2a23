//! The mathematical model of a hierarchy.
//!
//! A [`Tree`] is what a [`HierarchyNode`](crate::node::HierarchyNode) stands
//! for in contracts: the same fields over unbounded numbers, with the children
//! as a sequence. The passes over a hierarchy are defined here as functions
//! from trees to trees.

use vstd::prelude::*;
use crate::order::{
    arranged, is_permutation, lemma_arranged_total, lemma_stable_order, lemma_stable_order_of_sorted, stable_order,
};
use crate::series::{lemma_entry_le_total, lemma_peak_arranged, lemma_prefix_max_shift, peak, total};

verus! {

/// A rooted tree of weighted nodes.
pub struct Tree<T> {
    /// The caller's payload.
    pub data: T,
    /// The weight of the node.
    pub value: nat,
    /// The recorded distance from the root.
    pub depth: nat,
    /// The recorded distance to the deepest leaf below.
    pub height: nat,
    /// The subtrees, in order.
    pub children: Seq<Tree<T>>,
}

impl<T> Tree<T> {
    /// A node without children.
    pub open spec fn is_leaf(self) -> bool {
        self.children.len() == 0
    }

    /// The weights of the children, in order.
    pub open spec fn weights(self) -> Seq<nat> {
        Seq::new(self.children.len(), |i: int| self.children[i].value)
    }

    /// The aggregated weights of the children, in order.
    pub open spec fn aggregates(self) -> Seq<nat>
        decreases self, 0nat,
    {
        Seq::new(
            self.children.len(),
            |i: int|
                if 0 <= i < self.children.len() {
                    self.children[i].aggregate()
                } else {
                    0
                },
        )
    }

    /// The weight that aggregation gives a node: its own weight for a leaf,
    /// and otherwise the sum of the weights of all leaves below it.
    pub open spec fn aggregate(self) -> nat
        decreases self, 1nat,
    {
        if self.is_leaf() {
            self.value
        } else {
            total(self.aggregates())
        }
    }

    /// The tree after aggregation: every node carries its aggregated weight,
    /// and nothing else changes.
    pub open spec fn summed(self) -> Tree<T>
        decreases self,
    {
        Tree {
            value: self.aggregate(),
            children: Seq::new(
                self.children.len(),
                |i: int|
                    if 0 <= i < self.children.len() {
                        self.children[i].summed()
                    } else {
                        self
                    },
            ),
            ..self
        }
    }

    /// Every node with children weighs exactly as much as its children
    /// together.
    pub open spec fn conserved(self) -> bool
        decreases self,
    {
        &&& !self.is_leaf() ==> self.value == total(self.weights())
        &&& forall|i: int| 0 <= i < self.children.len() ==> (#[trigger] self.children[i]).conserved()
    }

    /// **Conservation.** Aggregation keeps the weight of every leaf and makes
    /// every other node weigh exactly as much as its children together.
    pub proof fn lemma_summed_conserved(self)
        ensures
            self.summed().conserved(),
            self.summed().value == self.aggregate(),
            self.summed().children.len() == self.children.len(),
            self.is_leaf() ==> self.summed().value == self.value,
        decreases self,
    {
        let s = self.summed();
        assert forall|i: int| 0 <= i < s.children.len() implies (#[trigger] s.children[i]).conserved() by {
            self.children[i].lemma_summed_conserved();
        }
        if !self.is_leaf() {
            assert forall|i: int| 0 <= i < s.children.len() implies s.weights()[i] == self.aggregates()[i] by {
                self.children[i].lemma_summed_conserved();
            }
            assert(s.weights() =~= self.aggregates());
        }
    }

    /// The numbers of nodes of each child, in order.
    pub open spec fn sizes(self) -> Seq<nat>
        decreases self, 0nat,
    {
        Seq::new(
            self.children.len(),
            |i: int|
                if 0 <= i < self.children.len() {
                    self.children[i].size()
                } else {
                    0
                },
        )
    }

    /// The number of nodes of this tree.
    pub open spec fn size(self) -> nat
        decreases self, 1nat,
    {
        1 + total(self.sizes())
    }

    /// The numbers of leaves below each child, in order.
    pub open spec fn leaf_counts(self) -> Seq<nat>
        decreases self, 0nat,
    {
        Seq::new(
            self.children.len(),
            |i: int|
                if 0 <= i < self.children.len() {
                    self.children[i].leaves()
                } else {
                    0
                },
        )
    }

    /// The number of leaves of this tree: one for a leaf, and otherwise the
    /// leaves of all children together.
    pub open spec fn leaves(self) -> nat
        decreases self, 1nat,
    {
        if self.is_leaf() {
            1
        } else {
            total(self.leaf_counts())
        }
    }

    /// Every tree has a leaf.
    pub proof fn lemma_leaves_positive(self)
        ensures
            self.leaves() >= 1,
        decreases self,
    {
        if !self.is_leaf() {
            self.children[0].lemma_leaves_positive();
            lemma_entry_le_total(self.leaf_counts(), 0);
        }
    }

    /// The distances from each child to the deepest leaf below it, in order.
    pub open spec fn reaches(self) -> Seq<nat>
        decreases self, 0nat,
    {
        Seq::new(
            self.children.len(),
            |i: int|
                if 0 <= i < self.children.len() {
                    self.children[i].reach()
                } else {
                    0
                },
        )
    }

    /// The distance from this node to the deepest leaf below it.
    pub open spec fn reach(self) -> nat
        decreases self, 1nat,
    {
        if self.is_leaf() {
            0
        } else {
            1 + peak(self.reaches())
        }
    }

    /// Every node records as its height the distance to the deepest leaf
    /// below it.
    pub open spec fn measured(self) -> bool
        decreases self,
    {
        &&& self.height == self.reach()
        &&& forall|i: int| 0 <= i < self.children.len() ==> (#[trigger] self.children[i]).measured()
    }

    /// The largest recorded depth below each child, in order.
    pub open spec fn deepests(self) -> Seq<nat>
        decreases self, 0nat,
    {
        Seq::new(
            self.children.len(),
            |i: int|
                if 0 <= i < self.children.len() {
                    self.children[i].deepest()
                } else {
                    0
                },
        )
    }

    /// The largest depth recorded on a leaf of this tree.
    pub open spec fn deepest(self) -> nat
        decreases self, 1nat,
    {
        if self.is_leaf() {
            self.depth
        } else {
            peak(self.deepests())
        }
    }

    /// The tree with depths recorded from `depth` at this node downwards, one
    /// more per level.
    pub open spec fn stamped(self, depth: nat) -> Tree<T>
        decreases self,
    {
        Tree {
            depth,
            children: Seq::new(
                self.children.len(),
                |i: int|
                    if 0 <= i < self.children.len() {
                        self.children[i].stamped(depth + 1)
                    } else {
                        self
                    },
            ),
            ..self
        }
    }

    /// Every child records a depth one more than its parent.
    pub open spec fn depths_consistent(self) -> bool
        decreases self,
    {
        forall|i: int|
            0 <= i < self.children.len() ==> {
                &&& (#[trigger] self.children[i]).depth == self.depth + 1
                &&& self.children[i].depths_consistent()
            }
    }

    /// **Depths.** After stamping from `depth`, every child records a depth
    /// one more than its parent, and the deepest leaf lies `reach` levels
    /// below this node.
    pub proof fn lemma_stamped(self, depth: nat)
        ensures
            self.stamped(depth).depth == depth,
            self.stamped(depth).depths_consistent(),
            self.stamped(depth).deepest() == depth + self.reach(),
            self.stamped(depth).reach() == self.reach(),
        decreases self,
    {
        let s = self.stamped(depth);
        assert forall|i: int| 0 <= i < s.children.len() implies {
            &&& (#[trigger] s.children[i]).depth == s.depth + 1
            &&& s.children[i].depths_consistent()
        } by {
            self.children[i].lemma_stamped(depth + 1);
        }
        if !self.is_leaf() {
            assert forall|i: int| 0 <= i < s.children.len() implies s.deepests()[i] == self.reaches()[i] + (depth + 1)
                && s.reaches()[i] == self.reaches()[i] by {
                self.children[i].lemma_stamped(depth + 1);
            }
            lemma_prefix_max_shift(self.reaches(), s.deepests(), depth + 1, s.children.len() as int);
            assert(s.reaches() =~= self.reaches());
        }
    }

    /// Aggregation moves no node: the deepest leaf stays where it is.
    pub proof fn lemma_summed_shape(self)
        ensures
            self.summed().reach() == self.reach(),
            self.summed().deepest() == self.deepest(),
        decreases self,
    {
        let s = self.summed();
        if !self.is_leaf() {
            assert forall|i: int| 0 <= i < s.children.len() implies s.reaches()[i] == self.reaches()[i]
                && s.deepests()[i] == self.deepests()[i] by {
                self.children[i].lemma_summed_shape();
            }
            assert(s.reaches() =~= self.reaches());
            assert(s.deepests() =~= self.deepests());
        }
    }

    /// The tree with the children of every node in stable descending order of
    /// weight: heavier children first, equal ones in their earlier order.
    pub open spec fn sorted(self) -> Tree<T>
        decreases self,
    {
        let order = stable_order(self.weights());
        Tree {
            children: Seq::new(
                self.children.len(),
                |k: int|
                    if 0 <= k < self.children.len() && 0 <= order[k] < self.children.len() {
                        self.children[order[k]].sorted()
                    } else {
                        self
                    },
            ),
            ..self
        }
    }

    /// No child weighs more than a sibling before it, at any node.
    pub open spec fn descending(self) -> bool
        decreases self,
    {
        &&& forall|a: int, b: int|
            0 <= a < b < self.children.len() ==> (#[trigger] self.children[a]).value >= (
            #[trigger] self.children[b]).value
        &&& forall|i: int| 0 <= i < self.children.len() ==> (#[trigger] self.children[i]).descending()
    }

    /// Sorting changes no node but in the order of its children: child `k` of
    /// the result is the sorted child that the stable order names.
    pub proof fn lemma_sorted_children(self)
        ensures
            self.sorted().data == self.data,
            self.sorted().value == self.value,
            self.sorted().depth == self.depth,
            self.sorted().height == self.height,
            self.sorted().children.len() == self.children.len(),
            is_permutation(stable_order(self.weights()), self.children.len() as int),
            forall|k: int|
                0 <= k < self.children.len() ==> #[trigger] self.sorted().children[k]
                    == self.children[stable_order(self.weights())[k]].sorted(),
            self.sorted().weights() == arranged(self.weights(), stable_order(self.weights())),
    {
        let order = stable_order(self.weights());
        lemma_stable_order(self.weights());
        assert forall|k: int| 0 <= k < self.children.len() implies #[trigger] self.sorted().weights()[k]
            == arranged(self.weights(), order)[k] by {
            self.children[order[k]].lemma_sorted_root();
        }
        assert(self.sorted().weights() =~= arranged(self.weights(), order));
    }

    /// Sorting keeps the fields of the node it is applied to.
    pub proof fn lemma_sorted_root(self)
        ensures
            self.sorted().data == self.data,
            self.sorted().value == self.value,
            self.sorted().depth == self.depth,
            self.sorted().height == self.height,
            self.sorted().children.len() == self.children.len(),
    {
    }

    /// **Order.** After sorting, the children of every node stand in
    /// descending order of weight.
    pub proof fn lemma_sorted_descending(self)
        ensures
            self.sorted().descending(),
        decreases self,
    {
        let s = self.sorted();
        let order = stable_order(self.weights());
        self.lemma_sorted_children();
        lemma_stable_order(self.weights());
        assert forall|a: int, b: int| 0 <= a < b < s.children.len() implies (#[trigger] s.children[a]).value >= (
        #[trigger] s.children[b]).value by {
            self.children[order[a]].lemma_sorted_root();
            self.children[order[b]].lemma_sorted_root();
            assert(self.weights()[order[a]] >= self.weights()[order[b]]);
        }
        assert forall|i: int| 0 <= i < s.children.len() implies (#[trigger] s.children[i]).descending() by {
            self.children[order[i]].lemma_sorted_descending();
        }
    }

    /// Sorting keeps every node as heavy as its children together.
    pub proof fn lemma_sorted_conserved(self)
        requires
            self.conserved(),
        ensures
            self.sorted().conserved(),
        decreases self,
    {
        let s = self.sorted();
        let order = stable_order(self.weights());
        self.lemma_sorted_children();
        lemma_arranged_total(self.weights(), self.weights());
        assert forall|i: int| 0 <= i < s.children.len() implies (#[trigger] s.children[i]).conserved() by {
            assert(self.children[order[i]].conserved());
            self.children[order[i]].lemma_sorted_conserved();
        }
    }

    /// Sorting moves no node up or down: the deepest leaf stays as deep.
    pub proof fn lemma_sorted_shape(self)
        ensures
            self.sorted().reach() == self.reach(),
            self.sorted().deepest() == self.deepest(),
        decreases self,
    {
        let s = self.sorted();
        let order = stable_order(self.weights());
        self.lemma_sorted_children();
        if !self.is_leaf() {
            assert forall|k: int| 0 <= k < s.children.len() implies s.reaches()[k] == arranged(self.reaches(), order)[k]
                && s.deepests()[k] == arranged(self.deepests(), order)[k] by {
                self.children[order[k]].lemma_sorted_shape();
            }
            assert(s.reaches() =~= arranged(self.reaches(), order));
            assert(s.deepests() =~= arranged(self.deepests(), order));
            lemma_peak_arranged(self.reaches(), order);
            lemma_peak_arranged(self.deepests(), order);
        }
    }
}

impl<T> Tree<T> {
    /// Stamping changes no weight.
    pub proof fn lemma_stamped_conserved(self, depth: nat)
        requires
            self.conserved(),
        ensures
            self.stamped(depth).conserved(),
            self.stamped(depth).value == self.value,
        decreases self,
    {
        let s = self.stamped(depth);
        assert forall|i: int| 0 <= i < s.children.len() implies (#[trigger] s.children[i]).conserved()
            && s.children[i].value == self.children[i].value by {
            assert(self.children[i].conserved());
            self.children[i].lemma_stamped_conserved(depth + 1);
        }
        assert(s.weights() =~= self.weights());
    }

    /// The tree made ready for a layout that orders by weight: weights
    /// aggregated, depths recorded from zero at the root, and the children of
    /// every node in stable descending order of weight.
    pub open spec fn prepared(self) -> Tree<T> {
        self.summed().stamped(0).sorted()
    }

    /// A prepared tree conserves weight at every node, lists heavier children
    /// first, and records on its deepest leaf the distance from the root.
    pub proof fn lemma_prepared(self)
        ensures
            self.prepared().conserved(),
            self.prepared().descending(),
            self.prepared().value == self.aggregate(),
            self.prepared().reach() == self.reach(),
            self.prepared().deepest() == self.reach(),
    {
        let summed = self.summed();
        let stamped = summed.stamped(0);
        self.lemma_summed_conserved();
        self.lemma_summed_shape();
        summed.lemma_stamped_conserved(0);
        summed.lemma_stamped(0);
        stamped.lemma_sorted_conserved();
        stamped.lemma_sorted_descending();
        stamped.lemma_sorted_shape();
        stamped.lemma_sorted_root();
    }
}

impl<T> Tree<T> {
    /// **Aggregation settles.** Aggregating an aggregated tree changes
    /// nothing.
    pub proof fn lemma_summed_idempotent(self)
        ensures
            self.summed().aggregate() == self.aggregate(),
            self.summed().summed() == self.summed(),
        decreases self,
    {
        let s = self.summed();
        assert forall|i: int| 0 <= i < self.children.len() implies s.aggregates()[i] == self.aggregates()[i]
            && (#[trigger] s.children[i]).summed() == s.children[i] by {
            self.children[i].lemma_summed_idempotent();
        }
        assert(s.aggregates() =~= self.aggregates());
        assert(s.summed().children =~= s.children);
    }

    /// **Sorting settles.** Sorting a sorted tree changes nothing.
    pub proof fn lemma_sorted_idempotent(self)
        ensures
            self.sorted().sorted() == self.sorted(),
        decreases self,
    {
        let s = self.sorted();
        let order = stable_order(self.weights());
        self.lemma_sorted_children();
        self.lemma_sorted_descending();
        assert forall|a: int, b: int| 0 <= a < b < s.weights().len() implies s.weights()[a] >= s.weights()[b] by {
            assert(s.children[a].value >= s.children[b].value);
        }
        lemma_stable_order_of_sorted(s.weights());
        s.lemma_sorted_children();
        assert forall|k: int| 0 <= k < s.children.len() implies s.sorted().children[k] == s.children[k] by {
            self.children[order[k]].lemma_sorted_idempotent();
        }
        assert(s.sorted().children =~= s.children);
    }
}

impl<T: Clone> Tree<T> {
    /// Whether `copy` is this tree with every payload cloned: the same shape
    /// and the same numbers, node for node.
    pub open spec fn cloned_to(self, copy: Tree<T>) -> bool
        decreases self,
    {
        &&& cloned(self.data, copy.data)
        &&& copy.value == self.value
        &&& copy.depth == self.depth
        &&& copy.height == self.height
        &&& copy.children.len() == self.children.len()
        &&& forall|i: int| 0 <= i < self.children.len() ==> self.children[i].cloned_to(#[trigger] copy.children[i])
    }

    /// A copy has the numbers of the tree it was copied from.
    pub proof fn lemma_cloned_numbers(self, copy: Tree<T>)
        requires
            self.cloned_to(copy),
        ensures
            copy.weights() == self.weights(),
            copy.leaf_counts() == self.leaf_counts(),
            copy.aggregate() == self.aggregate(),
            copy.reach() == self.reach(),
            copy.deepest() == self.deepest(),
            copy.leaves() == self.leaves(),
            copy.conserved() == self.conserved(),
        decreases self,
    {
        assert(copy.weights() =~= self.weights()) by {
            reveal_with_fuel(Tree::cloned_to, 2);
        }
        assert forall|i: int| 0 <= i < self.children.len() implies {
            &&& copy.aggregates()[i] == self.aggregates()[i]
            &&& copy.reaches()[i] == self.reaches()[i]
            &&& copy.deepests()[i] == self.deepests()[i]
            &&& copy.leaf_counts()[i] == self.leaf_counts()[i]
            &&& (#[trigger] copy.children[i]).conserved() == self.children[i].conserved()
        } by {
            self.children[i].lemma_cloned_numbers(copy.children[i]);
        }
        assert(copy.aggregates() =~= self.aggregates());
        assert(copy.reaches() =~= self.reaches());
        assert(copy.deepests() =~= self.deepests());
        assert(copy.leaf_counts() =~= self.leaf_counts());
        if self.conserved() {
            assert forall|i: int| 0 <= i < copy.children.len() implies (#[trigger] copy.children[i]).conserved() by {
                assert(self.children[i].conserved());
            }
        }
        if copy.conserved() {
            assert forall|i: int| 0 <= i < self.children.len() implies (#[trigger] self.children[i]).conserved() by {
                assert(copy.children[i].conserved());
            }
        }
    }

    /// Aggregating a copy gives a copy of the aggregated tree.
    pub proof fn lemma_cloned_summed(self, copy: Tree<T>)
        requires
            self.cloned_to(copy),
        ensures
            self.summed().cloned_to(copy.summed()),
        decreases self,
    {
        self.lemma_cloned_numbers(copy);
        assert forall|i: int| 0 <= i < self.children.len() implies self.summed().children[i].cloned_to(
            #[trigger] copy.summed().children[i],
        ) by {
            self.children[i].lemma_cloned_summed(copy.children[i]);
        }
    }

    /// Stamping a copy gives a copy of the stamped tree.
    pub proof fn lemma_cloned_stamped(self, copy: Tree<T>, depth: nat)
        requires
            self.cloned_to(copy),
        ensures
            self.stamped(depth).cloned_to(copy.stamped(depth)),
        decreases self,
    {
        assert forall|i: int| 0 <= i < self.children.len() implies self.stamped(depth).children[i].cloned_to(
            #[trigger] copy.stamped(depth).children[i],
        ) by {
            self.children[i].lemma_cloned_stamped(copy.children[i], depth + 1);
        }
    }

    /// Sorting a copy gives a copy of the sorted tree.
    pub proof fn lemma_cloned_sorted(self, copy: Tree<T>)
        requires
            self.cloned_to(copy),
        ensures
            self.sorted().cloned_to(copy.sorted()),
        decreases self,
    {
        let order = stable_order(self.weights());
        self.lemma_cloned_numbers(copy);
        self.lemma_sorted_children();
        copy.lemma_sorted_children();
        assert forall|k: int| 0 <= k < self.children.len() implies self.sorted().children[k].cloned_to(
            #[trigger] copy.sorted().children[k],
        ) by {
            assert(self.children[order[k]].cloned_to(copy.children[order[k]]));
            self.children[order[k]].lemma_cloned_sorted(copy.children[order[k]]);
        }
    }

    /// Preparing a copy gives a copy of the prepared tree.
    pub proof fn lemma_cloned_prepared(self, copy: Tree<T>)
        requires
            self.cloned_to(copy),
        ensures
            self.prepared().cloned_to(copy.prepared()),
    {
        self.lemma_cloned_summed(copy);
        self.summed().lemma_cloned_stamped(copy.summed(), 0);
        self.summed().stamped(0).lemma_cloned_sorted(copy.summed().stamped(0));
    }
}

} // verus!
