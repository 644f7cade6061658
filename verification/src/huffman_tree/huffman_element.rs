use crate::huffman_tree::huffman_node::{HuffmanBranch, HuffmanLeaf, HuffmanNode};
use crate::huffman_tree::merge::{merges_before, tree_weight};
use crate::symbol::lawful_order;
use core::cmp::Ordering;
use vstd::prelude::*;
use vstd::std_specs::cmp::OrdSpec;
use vstd::std_specs::convert::FromSpecImpl;

verus! {

/// A tree as the tree builder holds it while it merges: every node carries
/// its weight, which the order of the builder reads down the first children.
/// Weights are `u128`, so that no sum of `usize` counts can overflow.
#[derive(PartialEq, Eq, Debug)]
pub enum WeightedHuffmanNode<T> {
    Leaf(WeightedHuffmanLeaf<T>),
    Branch(WeightedHuffmanBranch<T>),
}

#[derive(PartialEq, Eq, Debug)]
pub struct WeightedHuffmanLeaf<T> {
    pub weight: u128,
    pub symbol: T,
}

#[derive(PartialEq, Eq, Debug)]
pub struct WeightedHuffmanBranch<T> {
    pub weight: u128,
    pub links: (Box<WeightedHuffmanNode<T>>, Box<WeightedHuffmanNode<T>>),
}

impl<T> WeightedHuffmanBranch<T> {
    /// The branch over `greater` (first child) and `lower` (second child),
    /// weighing what the two weigh together.
    pub fn new(greater: WeightedHuffmanNode<T>, lower: WeightedHuffmanNode<T>) -> (branch:
        WeightedHuffmanBranch<T>)
        requires
            greater.weight() + lower.weight() <= u128::MAX,
        ensures
            branch.weight == greater.weight() + lower.weight(),
            *branch.links.0 == greater,
            *branch.links.1 == lower,
    {
        let weight = greater.get_weight() + lower.get_weight();
        WeightedHuffmanBranch { weight, links: (Box::new(greater), Box::new(lower)) }
    }
}

impl<T> WeightedHuffmanNode<T> {
    /// The tree without its weights.
    pub open spec fn tree(self) -> HuffmanNode<T>
        decreases self,
    {
        match self {
            WeightedHuffmanNode::Leaf(leaf) => HuffmanNode::leaf(leaf.symbol),
            WeightedHuffmanNode::Branch(branch) => HuffmanNode::branch(
                branch.links.0.tree(),
                branch.links.1.tree(),
            ),
        }
    }

    /// The weight at the root.
    pub open spec fn weight(self) -> nat {
        match self {
            WeightedHuffmanNode::Leaf(leaf) => leaf.weight as nat,
            WeightedHuffmanNode::Branch(branch) => branch.weight as nat,
        }
    }

    /// Every branch weighs what its two children weigh together.
    pub open spec fn sums(self) -> bool
        decreases self,
    {
        match self {
            WeightedHuffmanNode::Leaf(_) => true,
            WeightedHuffmanNode::Branch(branch) => branch.weight == branch.links.0.weight()
                + branch.links.1.weight() && branch.links.0.sums() && branch.links.1.sums(),
        }
    }

    /// Every node weighs what its tree weighs under `counts`: the sum of the
    /// counts of the symbols at its leaves.
    pub open spec fn weighed(self, counts: Map<T, nat>) -> bool
        decreases self,
    {
        &&& self.weight() == tree_weight(counts, self.tree())
        &&& match self {
            WeightedHuffmanNode::Leaf(_) => true,
            WeightedHuffmanNode::Branch(branch) => branch.links.0.weighed(counts)
                && branch.links.1.weighed(counts),
        }
    }

    pub fn get_weight(&self) -> (weight: u128)
        ensures
            weight == self.weight(),
    {
        match self {
            WeightedHuffmanNode::Leaf(leaf) => leaf.weight,
            WeightedHuffmanNode::Branch(branch) => branch.weight,
        }
    }

    /// The leaf for `symbol` with the given weight.
    pub fn into_leaf(symbol: T, weight: usize) -> (node: WeightedHuffmanNode<T>)
        ensures
            node == WeightedHuffmanNode::Leaf(
                WeightedHuffmanLeaf { weight: weight as u128, symbol },
            ),
            node.tree() == HuffmanNode::leaf(symbol),
            node.weight() == weight,
    {
        WeightedHuffmanNode::Leaf(WeightedHuffmanLeaf { symbol, weight: weight as u128 })
    }

    /// The branch over `greater` (first child) and `lower` (second child).
    pub fn into_branch(greater: WeightedHuffmanNode<T>, lower: WeightedHuffmanNode<T>) -> (node:
        WeightedHuffmanNode<T>)
        requires
            greater.weight() + lower.weight() <= u128::MAX,
        ensures
            node matches WeightedHuffmanNode::Branch(branch) && *branch.links.0 == greater
                && *branch.links.1 == lower,
            node.tree() == HuffmanNode::branch(greater.tree(), lower.tree()),
            node.weight() == greater.weight() + lower.weight(),
    {
        WeightedHuffmanNode::Branch(WeightedHuffmanBranch::new(greater, lower))
    }

    /// The tree without its weights.
    pub fn into_tree(self) -> (tree: HuffmanNode<T>)
        ensures
            tree == self.tree(),
        decreases self,
    {
        match self {
            WeightedHuffmanNode::Leaf(leaf) => HuffmanNode::Leaf(
                HuffmanLeaf { symbol: leaf.symbol },
            ),
            WeightedHuffmanNode::Branch(branch) => {
                let (first, second) = branch.links;
                let first = (*first).into_tree();
                let second = (*second).into_tree();
                HuffmanNode::Branch(HuffmanBranch { links: (Box::new(first), Box::new(second)) })
            },
        }
    }
}

impl<T: Ord> WeightedHuffmanNode<T> {
    /// The order in which the tree builder takes nodes: by weight, the
    /// lighter first. At equal weight a branch comes before a leaf, two
    /// leaves come as their symbols do, and two branches come as their first
    /// children do by this same order, weight first.
    pub open spec fn order(self, other: Self) -> Ordering
        decreases self,
    {
        if self.weight() < other.weight() {
            Ordering::Less
        } else if self.weight() > other.weight() {
            Ordering::Greater
        } else {
            match (self, other) {
                (WeightedHuffmanNode::Leaf(_), WeightedHuffmanNode::Branch(_)) => Ordering::Greater,
                (WeightedHuffmanNode::Branch(_), WeightedHuffmanNode::Leaf(_)) => Ordering::Less,
                (WeightedHuffmanNode::Leaf(me), WeightedHuffmanNode::Leaf(it)) => me.symbol.cmp_spec(
                    &it.symbol,
                ),
                (WeightedHuffmanNode::Branch(me), WeightedHuffmanNode::Branch(it)) => {
                    me.links.0.order(*it.links.0)
                },
            }
        }
    }

    /// `self` is taken strictly before `other`.
    pub open spec fn sorts_before(self, other: Self) -> bool {
        self.order(other) == Ordering::Less
    }

    /// Compares two weighted nodes in the builder's order.
    pub fn cmp(&self, other: &Self) -> (ordering: Ordering)
        requires
            lawful_order::<T>(),
        ensures
            ordering == self.order(*other),
        decreases *self,
    {
        proof {
            reveal(vstd::laws_cmp::obeys_cmp_ord);
        }
        if self.get_weight() < other.get_weight() {
            Ordering::Less
        } else if self.get_weight() > other.get_weight() {
            Ordering::Greater
        } else {
            match (self, other) {
                (WeightedHuffmanNode::Leaf(_), WeightedHuffmanNode::Branch(_)) => Ordering::Greater,
                (WeightedHuffmanNode::Branch(_), WeightedHuffmanNode::Leaf(_)) => Ordering::Less,
                (WeightedHuffmanNode::Leaf(me), WeightedHuffmanNode::Leaf(it)) => me.symbol.cmp(
                    &it.symbol,
                ),
                (WeightedHuffmanNode::Branch(me), WeightedHuffmanNode::Branch(it)) => {
                    me.links.0.cmp(&it.links.0)
                },
            }
        }
    }

    /// Whether `self` is taken strictly before `other`.
    pub fn precedes(&self, other: &Self) -> (first: bool)
        requires
            lawful_order::<T>(),
        ensures
            first == self.sorts_before(*other),
    {
        match self.cmp(other) {
            Ordering::Less => true,
            _ => false,
        }
    }

    /// Nodes that weigh what their trees weigh are taken in the order in
    /// which their trees are merged.
    pub proof fn lemma_sorts_as_merged(self, other: Self, counts: Map<T, nat>)
        requires
            self.weighed(counts),
            other.weighed(counts),
        ensures
            self.sorts_before(other) == merges_before(counts, self.tree(), other.tree()),
        decreases self,
    {
        match (self, other) {
            (WeightedHuffmanNode::Branch(me), WeightedHuffmanNode::Branch(it)) => {
                me.links.0.lemma_sorts_as_merged(*it.links.0, counts);
            },
            _ => {},
        }
    }
}

impl<T> From<WeightedHuffmanNode<T>> for HuffmanNode<T> {
    /// Drops the weights and keeps the tree.
    fn from(weighted: WeightedHuffmanNode<T>) -> (node: Self) {
        weighted.into_tree()
    }
}

impl<T> FromSpecImpl<WeightedHuffmanNode<T>> for HuffmanNode<T> {
    open spec fn obeys_from_spec() -> bool {
        true
    }

    open spec fn from_spec(weighted: WeightedHuffmanNode<T>) -> Self {
        weighted.tree()
    }
}

} // verus!
