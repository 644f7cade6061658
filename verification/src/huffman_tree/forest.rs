use crate::huffman_tree::huffman_element::WeightedHuffmanNode;
use crate::huffman_tree::huffman_node::HuffmanNode;
use vstd::prelude::*;

verus! {

/// No two nodes of the forest have the same leftmost symbol, so that the
/// builder's order never leaves two of them tied.
pub open spec fn distinct_leftmost<T>(forest: Seq<WeightedHuffmanNode<T>>) -> bool {
    forall|i: int, j: int|
        0 <= i < forest.len() && 0 <= j < forest.len() && i != j ==> (#[trigger] forest[i]).tree().leftmost()
            != (#[trigger] forest[j]).tree().leftmost()
}

/// The trees of a forest, without their weights and their places.
pub open spec fn forest_trees<T>(forest: Seq<WeightedHuffmanNode<T>>) -> Set<HuffmanNode<T>> {
    Set::new(
        |tree: HuffmanNode<T>|
            exists|i: int| 0 <= i < forest.len() && (#[trigger] forest[i]).tree() == tree,
    )
}

/// The weights of a forest added up.
pub open spec fn weight_total<T>(forest: Seq<WeightedHuffmanNode<T>>) -> nat
    decreases forest.len(),
{
    if forest.len() == 0 {
        0
    } else {
        weight_total(forest.drop_last()) + forest.last().weight()
    }
}

/// A node pushed onto a forest adds its tree to the forest's trees.
pub proof fn lemma_trees_push<T>(forest: Seq<WeightedHuffmanNode<T>>, node: WeightedHuffmanNode<T>)
    ensures
        forest_trees(forest.push(node)) == forest_trees(forest).insert(node.tree()),
{
    let pushed = forest.push(node);
    assert forall|tree: HuffmanNode<T>|
        forest_trees(pushed).contains(tree) == forest_trees(forest).insert(node.tree()).contains(
            tree,
        ) by {
        if forest_trees(pushed).contains(tree) {
            let i = choose|i: int| 0 <= i < pushed.len() && (#[trigger] pushed[i]).tree() == tree;
            if i < forest.len() {
                assert(forest[i].tree() == tree);
            }
        }
        if forest_trees(forest).contains(tree) {
            let i = choose|i: int| 0 <= i < forest.len() && (#[trigger] forest[i]).tree() == tree;
            assert(pushed[i].tree() == tree);
        }
        if tree == node.tree() {
            assert(pushed[forest.len() as int].tree() == tree);
        }
    }
    assert(forest_trees(pushed) =~= forest_trees(forest).insert(node.tree()));
}

/// A node taken out of a forest without ties takes its tree out of the
/// forest's trees.
pub proof fn lemma_trees_remove<T>(forest: Seq<WeightedHuffmanNode<T>>, at: int)
    requires
        0 <= at < forest.len(),
        distinct_leftmost(forest),
    ensures
        forest_trees(forest.remove(at)) == forest_trees(forest).remove(forest[at].tree()),
        distinct_leftmost(forest.remove(at)),
        forall|i: int|
            0 <= i < forest.remove(at).len() ==> (#[trigger] forest.remove(at)[i]).tree().leftmost()
                != forest[at].tree().leftmost(),
{
    let rest = forest.remove(at);
    assert forall|i: int| 0 <= i < rest.len() implies (#[trigger] rest[i]).tree().leftmost()
        != forest[at].tree().leftmost() by {
        if i < at {
            assert(rest[i] == forest[i]);
        } else {
            assert(rest[i] == forest[i + 1]);
        }
    }
    assert forall|i: int, j: int| 0 <= i < rest.len() && 0 <= j < rest.len() && i != j implies (
    #[trigger] rest[i]).tree().leftmost() != (#[trigger] rest[j]).tree().leftmost() by {
        let i0 = if i < at { i } else { i + 1 };
        let j0 = if j < at { j } else { j + 1 };
        assert(rest[i] == forest[i0]);
        assert(rest[j] == forest[j0]);
    }
    assert forall|tree: HuffmanNode<T>|
        forest_trees(rest).contains(tree) == forest_trees(forest).remove(
            forest[at].tree(),
        ).contains(tree) by {
        if forest_trees(rest).contains(tree) {
            let i = choose|i: int| 0 <= i < rest.len() && (#[trigger] rest[i]).tree() == tree;
            let i0 = if i < at { i } else { i + 1 };
            assert(rest[i] == forest[i0]);
            assert(forest[i0].tree() == tree);
        }
        if forest_trees(forest).contains(tree) && tree != forest[at].tree() {
            let i = choose|i: int| 0 <= i < forest.len() && (#[trigger] forest[i]).tree() == tree;
            let i0 = if i < at { i } else { i - 1 };
            assert(rest[i0] == forest[i]);
            assert(rest[i0].tree() == tree);
        }
    }
    assert(forest_trees(rest) =~= forest_trees(forest).remove(forest[at].tree()));
}

/// A forest without ties holds as many trees as nodes.
pub proof fn lemma_trees_len<T>(forest: Seq<WeightedHuffmanNode<T>>)
    requires
        distinct_leftmost(forest),
    ensures
        forest_trees(forest).finite(),
        forest_trees(forest).len() == forest.len(),
    decreases forest.len(),
{
    if forest.len() == 0 {
        assert(forest_trees(forest) =~= Set::<HuffmanNode<T>>::empty());
    } else {
        let at = forest.len() - 1;
        let rest = forest.drop_last();
        assert(rest =~= forest.remove(at));
        lemma_trees_remove(forest, at);
        lemma_trees_len(rest);
        assert(forest =~= rest.push(forest.last()));
        lemma_trees_push(rest, forest.last());
        assert(!forest_trees(rest).contains(forest.last().tree()));
    }
}

/// Pushing a node adds its weight to the total.
pub proof fn lemma_weight_push<T>(forest: Seq<WeightedHuffmanNode<T>>, node: WeightedHuffmanNode<T>)
    ensures
        weight_total(forest.push(node)) == weight_total(forest) + node.weight(),
{
    assert(forest.push(node).drop_last() =~= forest);
}

/// Each node of the forest, and each node below it, weighs what its tree
/// weighs under `counts`.
pub open spec fn weights_match<T>(counts: Map<T, nat>, forest: Seq<WeightedHuffmanNode<T>>) -> bool {
    forall|i: int| 0 <= i < forest.len() ==> (#[trigger] forest[i]).weighed(counts)
}

} // verus!
