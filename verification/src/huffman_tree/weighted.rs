use crate::huffman_tree::huffman_element::{
    WeightedHuffmanBranch, WeightedHuffmanLeaf, WeightedHuffmanNode,
};
use crate::huffman_tree::huffman_node::HuffmanNode;
use crate::symbol::lawful_order;
use core::cmp::Ordering;
use vstd::prelude::*;
use vstd::std_specs::convert::FromSpecImpl;

verus! {

/// A weighted tree that can be made by its own constructors only, so that
/// the weight of a branch is always the sum of the weights of its children.
#[derive(PartialEq, Eq, Debug)]
pub struct Weighted<T>(WeightedHuffmanNode<T>);

impl<T> Weighted<T> {
    /// The weighted node that is held.
    pub closed spec fn node(self) -> WeightedHuffmanNode<T> {
        self.0
    }

    #[verifier::type_invariant]
    closed spec fn well_made(self) -> bool {
        self.0.sums()
    }

    /// The weighted node that is held, in which every branch weighs what its
    /// two children weigh together.
    pub fn as_node(&self) -> (node: &WeightedHuffmanNode<T>)
        ensures
            *node == self.node(),
            node.sums(),
    {
        proof {
            use_type_invariant(self);
        }
        &self.0
    }

    /// The tree without its weights.
    pub open spec fn tree(self) -> HuffmanNode<T> {
        self.node().tree()
    }

    /// The weight at the root.
    pub open spec fn weight(self) -> nat {
        self.node().weight()
    }

    pub fn get_weight(&self) -> (weight: u128)
        ensures
            weight == self.weight(),
    {
        self.0.get_weight()
    }

    /// The leaf for `symbol` with the given weight.
    pub fn new_leaf(symbol: T, weight: u64) -> (leaf: Weighted<T>)
        ensures
            leaf.node() == WeightedHuffmanNode::Leaf(
                WeightedHuffmanLeaf { weight: weight as u128, symbol },
            ),
    {
        Weighted(WeightedHuffmanNode::Leaf(WeightedHuffmanLeaf { weight: weight as u128, symbol }))
    }

    /// The branch over `greater` (first child) and `lower` (second child),
    /// weighing what the two weigh together.
    pub fn new_branch(greater: Weighted<T>, lower: Weighted<T>) -> (branch: Weighted<T>)
        requires
            greater.weight() + lower.weight() <= u128::MAX,
        ensures
            branch.node() == WeightedHuffmanNode::Branch(
                WeightedHuffmanBranch {
                    weight: (greater.weight() + lower.weight()) as u128,
                    links: (Box::new(greater.node()), Box::new(lower.node())),
                },
            ),
    {
        proof {
            use_type_invariant(&greater);
            use_type_invariant(&lower);
        }
        Weighted(WeightedHuffmanNode::into_branch(greater.0, lower.0))
    }
}

impl<T: Ord> Weighted<T> {
    /// The order in which a tree builder takes weighted trees: by weight, the
    /// lighter first. At equal weight a branch comes before a leaf, two
    /// leaves come as their symbols do, and two branches come as their first
    /// children do by this same order, weight first.
    pub open spec fn order(self, other: Self) -> Ordering {
        self.node().order(other.node())
    }

    /// Compares two weighted trees in the builder's order.
    pub fn cmp(&self, other: &Self) -> (ordering: Ordering)
        requires
            lawful_order::<T>(),
        ensures
            ordering == self.order(*other),
    {
        self.0.cmp(&other.0)
    }
}

impl<T> From<Weighted<T>> for HuffmanNode<T> {
    /// Drops the weights and keeps the tree.
    fn from(weighted: Weighted<T>) -> (node: Self) {
        weighted.0.into_tree()
    }
}

impl<T> FromSpecImpl<Weighted<T>> for HuffmanNode<T> {
    open spec fn obeys_from_spec() -> bool {
        true
    }

    open spec fn from_spec(weighted: Weighted<T>) -> Self {
        weighted.tree()
    }
}

} // verus!
