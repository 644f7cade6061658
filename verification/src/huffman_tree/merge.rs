use crate::huffman_tree::huffman_node::HuffmanNode;
use crate::symbol::{
    lawful_order, lemma_symbol_lt_transitive, lemma_symbol_trichotomy, symbol_lt,
};
use vstd::prelude::*;

verus! {

/// The weight of a tree under the counts `counts`: the sum of the counts of
/// the symbols at its leaves.
pub open spec fn tree_weight<T>(counts: Map<T, nat>, tree: HuffmanNode<T>) -> nat
    decreases tree,
{
    match tree {
        HuffmanNode::Leaf(leaf) => counts[leaf.symbol],
        HuffmanNode::Branch(branch) => tree_weight(counts, *branch.links.0) + tree_weight(
            counts,
            *branch.links.1,
        ),
    }
}

/// `a` is merged before `b` under the counts `counts`: the lighter tree
/// first. At equal weight a branch comes before a leaf, two leaves come as
/// their symbols do, and two branches come as their first children do by
/// this same order, weight first.
pub open spec fn merges_before<T: Ord>(
    counts: Map<T, nat>,
    a: HuffmanNode<T>,
    b: HuffmanNode<T>,
) -> bool
    decreases a,
{
    tree_weight(counts, a) < tree_weight(counts, b) || (tree_weight(counts, a) == tree_weight(
        counts,
        b,
    ) && match (a, b) {
        (HuffmanNode::Leaf(_), HuffmanNode::Branch(_)) => false,
        (HuffmanNode::Branch(_), HuffmanNode::Leaf(_)) => true,
        (HuffmanNode::Leaf(me), HuffmanNode::Leaf(it)) => symbol_lt(me.symbol, it.symbol),
        (HuffmanNode::Branch(me), HuffmanNode::Branch(it)) => merges_before(
            counts,
            *me.links.0,
            *it.links.0,
        ),
    })
}

/// Of two trees with different leftmost symbols one is merged before the
/// other.
pub proof fn lemma_merges_total<T: Ord>(counts: Map<T, nat>, a: HuffmanNode<T>, b: HuffmanNode<T>)
    requires
        lawful_order::<T>(),
        a.leftmost() != b.leftmost(),
    ensures
        merges_before(counts, a, b) || merges_before(counts, b, a),
    decreases a,
{
    match (a, b) {
        (HuffmanNode::Leaf(me), HuffmanNode::Leaf(it)) => {
            lemma_symbol_trichotomy(me.symbol, it.symbol);
        },
        (HuffmanNode::Branch(me), HuffmanNode::Branch(it)) => {
            lemma_merges_total(counts, *me.links.0, *it.links.0);
        },
        _ => {},
    }
}

/// Of two trees at most one is merged before the other, and none before
/// itself.
pub proof fn lemma_merges_asymmetric<T: Ord>(
    counts: Map<T, nat>,
    a: HuffmanNode<T>,
    b: HuffmanNode<T>,
)
    requires
        lawful_order::<T>(),
    ensures
        !(merges_before(counts, a, b) && merges_before(counts, b, a)),
    decreases a,
{
    match (a, b) {
        (HuffmanNode::Leaf(me), HuffmanNode::Leaf(it)) => {
            lemma_symbol_trichotomy(me.symbol, it.symbol);
        },
        (HuffmanNode::Branch(me), HuffmanNode::Branch(it)) => {
            lemma_merges_asymmetric(counts, *me.links.0, *it.links.0);
        },
        _ => {},
    }
}

/// Merging order is transitive.
pub proof fn lemma_merges_transitive<T: Ord>(
    counts: Map<T, nat>,
    a: HuffmanNode<T>,
    b: HuffmanNode<T>,
    c: HuffmanNode<T>,
)
    requires
        lawful_order::<T>(),
        merges_before(counts, a, b),
        merges_before(counts, b, c),
    ensures
        merges_before(counts, a, c),
    decreases a,
{
    if tree_weight(counts, a) == tree_weight(counts, b) && tree_weight(counts, b) == tree_weight(
        counts,
        c,
    ) {
        match (a, b, c) {
            (HuffmanNode::Leaf(x), HuffmanNode::Leaf(y), HuffmanNode::Leaf(z)) => {
                lemma_symbol_lt_transitive(x.symbol, y.symbol, z.symbol);
            },
            (HuffmanNode::Branch(x), HuffmanNode::Branch(y), HuffmanNode::Branch(z)) => {
                lemma_merges_transitive(counts, *x.links.0, *y.links.0, *z.links.0);
            },
            _ => {},
        }
    }
}

/// `tree` is the member of `forest` that is merged before every other.
pub open spec fn is_lowest<T: Ord>(
    counts: Map<T, nat>,
    forest: Set<HuffmanNode<T>>,
    tree: HuffmanNode<T>,
) -> bool {
    &&& forest.contains(tree)
    &&& forall|other: HuffmanNode<T>| #[trigger]
        forest.contains(other) && other != tree ==> merges_before(counts, tree, other)
}

/// The member of `forest` that is merged first.
pub open spec fn lowest<T: Ord>(counts: Map<T, nat>, forest: Set<HuffmanNode<T>>) -> HuffmanNode<
    T,
> {
    choose|tree: HuffmanNode<T>| is_lowest(counts, forest, tree)
}

/// One merge: the two lowest members of `forest` leave it and the branch
/// over them enters, the second lowest as its first child and the lowest as
/// its second.
pub open spec fn merge_step<T: Ord>(counts: Map<T, nat>, forest: Set<HuffmanNode<T>>) -> Set<
    HuffmanNode<T>,
> {
    let lower = lowest(counts, forest);
    let rest = forest.remove(lower);
    let greater = lowest(counts, rest);
    rest.remove(greater).insert(HuffmanNode::branch(greater, lower))
}

/// Merges until one tree is left, and gives that tree.
pub open spec fn merge_all<T: Ord>(counts: Map<T, nat>, forest: Set<HuffmanNode<T>>) -> HuffmanNode<
    T,
>
    decreases forest.len(),
{
    let next = merge_step(counts, forest);
    if forest.finite() && forest.len() >= 2 && next.len() < forest.len() {
        merge_all(counts, next)
    } else {
        forest.choose()
    }
}

/// One leaf for each symbol that has a count.
pub open spec fn initial_forest<T>(counts: Map<T, nat>) -> Set<HuffmanNode<T>> {
    Set::new(
        |tree: HuffmanNode<T>|
            exists|symbol: T|
                counts.contains_key(symbol) && tree == #[trigger] HuffmanNode::leaf(symbol),
    )
}

/// The Huffman tree for the counts `counts`: none where no symbol has a
/// count, and else what is left when the leaves have been merged.
pub open spec fn huffman_tree<T: Ord>(counts: Map<T, nat>) -> Option<HuffmanNode<T>> {
    if counts.dom().is_empty() {
        None
    } else {
        Some(merge_all(counts, initial_forest(counts)))
    }
}

/// A forest has at most one lowest member.
pub proof fn lemma_lowest_unique<T: Ord>(
    counts: Map<T, nat>,
    forest: Set<HuffmanNode<T>>,
    tree: HuffmanNode<T>,
)
    requires
        lawful_order::<T>(),
        is_lowest(counts, forest, tree),
    ensures
        lowest(counts, forest) == tree,
{
    let other = lowest(counts, forest);
    assert(is_lowest(counts, forest, other));
    if other != tree {
        assert(forest.contains(other));
        assert(forest.contains(tree));
        lemma_merges_asymmetric(counts, tree, other);
    }
}

} // verus!
