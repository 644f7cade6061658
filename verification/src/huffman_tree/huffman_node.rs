use crate::symbol::{lawful_clone, lawful_order};
use core::cmp::Ordering;
use vstd::std_specs::cmp::OrdSpec;
use vstd::prelude::*;

verus! {

/// A node of a prefix-code tree: a leaf holds one symbol, a branch holds two
/// children. The first child is reached by bit `0`, the second by bit `1`.
#[derive(PartialEq, Eq, Debug)]
pub enum HuffmanNode<T> {
    Leaf(HuffmanLeaf<T>),
    Branch(HuffmanBranch<T>),
}

#[derive(PartialEq, Eq, Debug)]
pub struct HuffmanLeaf<T> {
    pub symbol: T,
}

#[derive(PartialEq, Eq, Debug)]
pub struct HuffmanBranch<T> {
    pub links: (Box<HuffmanNode<T>>, Box<HuffmanNode<T>>),
}

impl<T> HuffmanBranch<T> {
    /// A branch whose first child is `greater` and whose second is `lower`.
    pub fn new(greater: HuffmanNode<T>, lower: HuffmanNode<T>) -> (branch: HuffmanBranch<T>)
        ensures
            *branch.links.0 == greater,
            *branch.links.1 == lower,
    {
        HuffmanBranch { links: (Box::new(greater), Box::new(lower)) }
    }
}

impl<T> HuffmanNode<T> {
    /// The tree that is the single leaf `symbol`.
    pub open spec fn leaf(symbol: T) -> HuffmanNode<T> {
        HuffmanNode::Leaf(HuffmanLeaf { symbol })
    }

    /// The tree whose first child is `first` and whose second is `second`.
    pub open spec fn branch(first: HuffmanNode<T>, second: HuffmanNode<T>) -> HuffmanNode<T> {
        HuffmanNode::Branch(HuffmanBranch { links: (Box::new(first), Box::new(second)) })
    }

    /// The symbols at the leaves, read from the first child to the second.
    pub open spec fn leaves(self) -> Seq<T>
        decreases self,
    {
        match self {
            HuffmanNode::Leaf(leaf) => seq![leaf.symbol],
            HuffmanNode::Branch(branch) => branch.links.0.leaves() + branch.links.1.leaves(),
        }
    }

    /// The set of symbols that the tree can code.
    pub open spec fn symbols(self) -> Set<T> {
        self.leaves().to_set()
    }

    /// The symbol reached by always taking the first child.
    pub open spec fn leftmost(self) -> T
        decreases self,
    {
        match self {
            HuffmanNode::Leaf(leaf) => leaf.symbol,
            HuffmanNode::Branch(branch) => branch.links.0.leftmost(),
        }
    }

    /// The leaf for `symbol`.
    pub fn into_leaf(symbol: T) -> (node: HuffmanNode<T>)
        ensures
            node == Self::leaf(symbol),
    {
        HuffmanNode::Leaf(HuffmanLeaf { symbol })
    }

    /// The branch whose first child is `greater` and whose second is `lower`.
    pub fn into_branch(greater: HuffmanNode<T>, lower: HuffmanNode<T>) -> (node: HuffmanNode<T>)
        ensures
            node == Self::branch(greater, lower),
    {
        HuffmanNode::Branch(HuffmanBranch::new(greater, lower))
    }
}

impl<T: Ord> HuffmanNode<T> {
    /// The order of trees by shape and symbol alone: a branch sorts before a
    /// leaf, two leaves sort as their symbols do, and two branches sort as
    /// their first children do.
    pub open spec fn order(self, other: Self) -> Ordering
        decreases self,
    {
        match (self, other) {
            (HuffmanNode::Leaf(_), HuffmanNode::Branch(_)) => Ordering::Greater,
            (HuffmanNode::Branch(_), HuffmanNode::Leaf(_)) => Ordering::Less,
            (HuffmanNode::Leaf(me), HuffmanNode::Leaf(it)) => me.symbol.cmp_spec(&it.symbol),
            (HuffmanNode::Branch(me), HuffmanNode::Branch(it)) => me.links.0.order(*it.links.0),
        }
    }

    /// Compares two trees by shape and symbol.
    pub fn cmp(&self, other: &Self) -> (ordering: Ordering)
        requires
            lawful_order::<T>(),
        ensures
            ordering == self.order(*other),
        decreases *self,
    {
        proof {
            reveal(vstd::laws_cmp::obeys_cmp_ord);
        }
        match (self, other) {
            (HuffmanNode::Leaf(_), HuffmanNode::Branch(_)) => Ordering::Greater,
            (HuffmanNode::Branch(_), HuffmanNode::Leaf(_)) => Ordering::Less,
            (HuffmanNode::Leaf(me), HuffmanNode::Leaf(it)) => me.symbol.cmp(&it.symbol),
            (HuffmanNode::Branch(me), HuffmanNode::Branch(it)) => me.links.0.cmp(&it.links.0),
        }
    }
}

impl<T: Clone> Clone for HuffmanLeaf<T> {
    /// A copy of the leaf, equal to it wherever a clone of a symbol equals
    /// the symbol.
    fn clone(&self) -> (copy: Self)
        ensures
            lawful_clone::<T>() ==> copy == *self,
    {
        let symbol = self.symbol.clone();
        assert(cloned::<T>(self.symbol, symbol));
        HuffmanLeaf { symbol }
    }
}

impl<T: Clone> Clone for HuffmanBranch<T> {
    /// A copy of the branch, equal to it wherever a clone of a symbol equals
    /// the symbol.
    fn clone(&self) -> (copy: Self)
        ensures
            lawful_clone::<T>() ==> copy == *self,
    {
        let first = (*self.links.0).clone();
        let second = (*self.links.1).clone();
        HuffmanBranch { links: (Box::new(first), Box::new(second)) }
    }
}

impl<T: Clone> Clone for HuffmanNode<T> {
    /// A copy of the tree, equal to it wherever a clone of a symbol equals
    /// the symbol.
    fn clone(&self) -> (copy: Self)
        ensures
            lawful_clone::<T>() ==> copy == *self,
        decreases *self,
    {
        match self {
            HuffmanNode::Leaf(leaf) => {
                let symbol = leaf.symbol.clone();
                assert(cloned::<T>(leaf.symbol, symbol));
                HuffmanNode::Leaf(HuffmanLeaf { symbol })
            },
            HuffmanNode::Branch(branch) => {
                let first = (*branch.links.0).clone();
                let second = (*branch.links.1).clone();
                HuffmanNode::Branch(HuffmanBranch { links: (Box::new(first), Box::new(second)) })
            },
        }
    }
}

} // verus!
