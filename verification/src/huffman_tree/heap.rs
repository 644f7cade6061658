use crate::huffman_tree::forest::{
    distinct_leftmost, forest_trees, lemma_trees_push, lemma_trees_remove, lemma_weight_push,
    weight_total, weights_match,
};
use crate::huffman_tree::huffman_element::WeightedHuffmanNode;
use crate::huffman_tree::huffman_node::HuffmanNode;
use crate::huffman_tree::merge::{
    is_lowest, lemma_lowest_unique, lemma_merges_total, lemma_merges_transitive, lowest,
    merges_before,
};
use crate::symbol::lawful_order;
use vstd::prelude::*;

verus! {

/// The node at `i` sorts after its parent, the node at `(i - 1) / 2`.
pub open spec fn above_parent<T: Ord>(forest: Seq<WeightedHuffmanNode<T>>, i: int) -> bool {
    forest[(i - 1) / 2].sorts_before(forest[i])
}

/// The forest is laid out as a binary heap: every node but the first sorts
/// after its parent, so that the first node is the lowest.
pub open spec fn heap_ordered<T: Ord>(forest: Seq<WeightedHuffmanNode<T>>) -> bool {
    forall|i: int| 1 <= i < forest.len() ==> #[trigger] above_parent(forest, i)
}

/// The nodes below `at` sort after the parent of `at`, so that the heap can be
/// mended by moving the node at `at` up or down.
pub open spec fn bridged<T: Ord>(forest: Seq<WeightedHuffmanNode<T>>, at: int) -> bool {
    forall|i: int|
        1 <= i < forest.len() && (i - 1) / 2 == at && at >= 1 ==> forest[(at - 1)
            / 2].sorts_before(#[trigger] forest[i])
}

/// The forest with the nodes at `i` and `j` in each other's place.
pub open spec fn swapped_at<T>(forest: Seq<WeightedHuffmanNode<T>>, i: int, j: int) -> Seq<
    WeightedHuffmanNode<T>,
> {
    forest.update(i, forest[j]).update(j, forest[i])
}

/// Putting another node at one place changes the total weight by the
/// difference of the two weights.
pub proof fn lemma_weight_update<T>(
    forest: Seq<WeightedHuffmanNode<T>>,
    at: int,
    node: WeightedHuffmanNode<T>,
)
    requires
        0 <= at < forest.len(),
    ensures
        weight_total(forest.update(at, node)) + forest[at].weight() == weight_total(forest)
            + node.weight(),
    decreases forest.len(),
{
    if at == forest.len() - 1 {
        assert(forest.update(at, node).drop_last() =~= forest.drop_last());
    } else {
        lemma_weight_update(forest.drop_last(), at, node);
        assert(forest.update(at, node).drop_last() =~= forest.drop_last().update(at, node));
    }
}

/// Two nodes that change places leave the forest with the same trees, the
/// same total weight, and as free of ties and as well weighed as it was.
pub proof fn lemma_swapped<T>(
    counts: Map<T, nat>,
    forest: Seq<WeightedHuffmanNode<T>>,
    i: int,
    j: int,
)
    requires
        0 <= i < forest.len(),
        0 <= j < forest.len(),
    ensures
        forest_trees(swapped_at(forest, i, j)) == forest_trees(forest),
        weight_total(swapped_at(forest, i, j)) == weight_total(forest),
        distinct_leftmost(forest) ==> distinct_leftmost(swapped_at(forest, i, j)),
        weights_match(counts, forest) ==> weights_match(counts, swapped_at(forest, i, j)),
{
    let other = swapped_at(forest, i, j);
    let back = |k: int|
        if k == i {
            j
        } else if k == j {
            i
        } else {
            k
        };
    assert forall|k: int| 0 <= k < forest.len() implies #[trigger] other[k] == forest[back(k)] by {}
    assert forall|tree: HuffmanNode<T>|
        forest_trees(other).contains(tree) == forest_trees(forest).contains(tree) by {
        if forest_trees(other).contains(tree) {
            let k = choose|k: int| 0 <= k < other.len() && (#[trigger] other[k]).tree() == tree;
            assert(forest[back(k)].tree() == tree);
        }
        if forest_trees(forest).contains(tree) {
            let k = choose|k: int| 0 <= k < forest.len() && (#[trigger] forest[k]).tree() == tree;
            assert(other[back(k)].tree() == tree);
        }
    }
    assert(forest_trees(other) =~= forest_trees(forest));
    lemma_weight_update(forest, i, forest[j]);
    lemma_weight_update(forest.update(i, forest[j]), j, forest[i]);
    if distinct_leftmost(forest) {
        assert forall|a: int, b: int|
            0 <= a < other.len() && 0 <= b < other.len() && a != b implies (
        #[trigger] other[a]).tree().leftmost() != (#[trigger] other[b]).tree().leftmost() by {
            assert(other[a] == forest[back(a)]);
            assert(other[b] == forest[back(b)]);
        }
    }
    if weights_match(counts, forest) {
        assert forall|k: int| 0 <= k < other.len() implies (#[trigger] other[k]).weighed(
            counts,
        ) by {
            assert(other[k] == forest[back(k)]);
        }
    }
}

/// In a heap the first node sorts before every other.
pub proof fn lemma_first_is_lowest<T: Ord>(
    counts: Map<T, nat>,
    forest: Seq<WeightedHuffmanNode<T>>,
    i: int,
)
    requires
        lawful_order::<T>(),
        heap_ordered(forest),
        weights_match(counts, forest),
        1 <= i < forest.len(),
    ensures
        forest[0].sorts_before(forest[i]),
    decreases i,
{
    let parent = (i - 1) / 2;
    assert(above_parent(forest, i));
    if parent != 0 {
        lemma_first_is_lowest(counts, forest, parent);
        lemma_sorts_transitive(counts, forest[0], forest[parent], forest[i]);
    }
}

/// `<[T]>::swap`: the elements at `a` and `b` change places, and no other
/// element moves. The call panics on an index out of bounds, which
/// `requires` rules out.
#[verifier::external_body]
fn swap_nodes<T>(forest: &mut Vec<WeightedHuffmanNode<T>>, a: usize, b: usize)
    requires
        a < old(forest)@.len(),
        b < old(forest)@.len(),
    ensures
        final(forest)@ == swapped_at(old(forest)@, a as int, b as int),
{
    forest.swap(a, b)
}

/// The builder's order on weighted nodes is transitive.
pub proof fn lemma_sorts_transitive<T: Ord>(
    counts: Map<T, nat>,
    a: WeightedHuffmanNode<T>,
    b: WeightedHuffmanNode<T>,
    c: WeightedHuffmanNode<T>,
)
    requires
        lawful_order::<T>(),
        a.weighed(counts),
        b.weighed(counts),
        c.weighed(counts),
        a.sorts_before(b),
        b.sorts_before(c),
    ensures
        a.sorts_before(c),
{
    a.lemma_sorts_as_merged(b, counts);
    b.lemma_sorts_as_merged(c, counts);
    a.lemma_sorts_as_merged(c, counts);
    lemma_merges_transitive(counts, a.tree(), b.tree(), c.tree());
}

/// Of two weighted nodes with different leftmost symbols one sorts before
/// the other.
pub proof fn lemma_sorts_total<T: Ord>(
    counts: Map<T, nat>,
    a: WeightedHuffmanNode<T>,
    b: WeightedHuffmanNode<T>,
)
    requires
        lawful_order::<T>(),
        a.weighed(counts),
        b.weighed(counts),
        a.tree().leftmost() != b.tree().leftmost(),
    ensures
        a.sorts_before(b) || b.sorts_before(a),
{
    a.lemma_sorts_as_merged(b, counts);
    b.lemma_sorts_as_merged(a, counts);
    lemma_merges_total(counts, a.tree(), b.tree());
}

/// Puts `node` into the heap.
pub(crate) fn heap_push<T: Ord>(
    forest: &mut Vec<WeightedHuffmanNode<T>>,
    node: WeightedHuffmanNode<T>,
    Ghost(counts): Ghost<Map<T, nat>>,
)
    requires
        lawful_order::<T>(),
        heap_ordered(old(forest)@),
        distinct_leftmost(old(forest)@.push(node)),
        weights_match(counts, old(forest)@.push(node)),
    ensures
        heap_ordered(final(forest)@),
        distinct_leftmost(final(forest)@),
        weights_match(counts, final(forest)@),
        final(forest)@.len() == old(forest)@.len() + 1,
        forest_trees(final(forest)@) == forest_trees(old(forest)@.push(node)),
        weight_total(final(forest)@) == weight_total(old(forest)@.push(node)),
{
    forest.push(node);
    let ghost pushed = forest@;
    let mut at = forest.len() - 1;
    assert forall|k: int| 1 <= k < pushed.len() && k != at implies #[trigger] above_parent(
        pushed,
        k,
    ) by {
        assert(above_parent(old(forest)@, k));
    }
    while at > 0
        invariant
            lawful_order::<T>(),
            at < forest@.len(),
            forest@.len() == pushed.len(),
            forest_trees(forest@) == forest_trees(pushed),
            weight_total(forest@) == weight_total(pushed),
            distinct_leftmost(forest@),
            weights_match(counts, forest@),
            forall|k: int| 1 <= k < forest@.len() && k != at ==> #[trigger] above_parent(forest@, k),
            bridged(forest@, at as int),
        ensures
            heap_ordered(forest@),
            forest@.len() == pushed.len(),
            forest_trees(forest@) == forest_trees(pushed),
            weight_total(forest@) == weight_total(pushed),
            distinct_leftmost(forest@),
            weights_match(counts, forest@),
        decreases at,
    {
        let parent = (at - 1) / 2;
        let ghost held = forest@;
        if forest[at].precedes(&forest[parent]) {
            swap_nodes(forest, at, parent);
            proof {
                let moved = forest@;
                lemma_swapped(counts, held, at as int, parent as int);
                assert forall|k: int| 1 <= k < moved.len() && k != parent implies #[trigger] above_parent(
                    moved,
                    k,
                ) by {
                    let up = (k - 1) / 2;
                    if k == at {
                    } else if up == at {
                        assert(held[parent as int].sorts_before(held[k]));
                    } else if up == parent {
                        assert(above_parent(held, k));
                        lemma_sorts_transitive(counts, held[at as int], held[parent as int], held[k]);
                    } else {
                        assert(above_parent(held, k));
                    }
                }
                assert forall|k: int|
                    1 <= k < moved.len() && (k - 1) / 2 == parent && parent >= 1 implies moved[(
                    parent - 1) / 2].sorts_before(#[trigger] moved[k]) by {
                    let above = (parent - 1) / 2;
                    assert(above_parent(held, parent as int));
                    if k != at {
                        assert(above_parent(held, k));
                        lemma_sorts_transitive(counts, held[above], held[parent as int], held[k]);
                    }
                }
            }
            at = parent;
        } else {
            proof {
                lemma_sorts_total(counts, held[at as int], held[parent as int]);
                assert(above_parent(held, at as int));
            }
            break;
        }
    }
}

/// Lays the nodes out as a heap.
pub(crate) fn heap_from<T: Ord>(
    nodes: Vec<WeightedHuffmanNode<T>>,
    Ghost(counts): Ghost<Map<T, nat>>,
) -> (forest: Vec<WeightedHuffmanNode<T>>)
    requires
        lawful_order::<T>(),
        distinct_leftmost(nodes@),
        weights_match(counts, nodes@),
    ensures
        heap_ordered(forest@),
        distinct_leftmost(forest@),
        weights_match(counts, forest@),
        forest@.len() == nodes@.len(),
        forest_trees(forest@) == forest_trees(nodes@),
        weight_total(forest@) == weight_total(nodes@),
{
    let mut rest = nodes;
    let mut forest: Vec<WeightedHuffmanNode<T>> = Vec::new();
    proof {
        assert(forest_trees(forest@) =~= Set::<HuffmanNode<T>>::empty());
        assert(forest_trees(rest@) + forest_trees(forest@) =~= forest_trees(nodes@));
    }
    while rest.len() > 0
        invariant
            lawful_order::<T>(),
            heap_ordered(forest@),
            distinct_leftmost(forest@),
            weights_match(counts, forest@),
            distinct_leftmost(rest@),
            weights_match(counts, rest@),
            forall|i: int, tree: HuffmanNode<T>|
                0 <= i < rest@.len() && forest_trees(forest@).contains(tree) ==> (
                #[trigger] rest@[i]).tree().leftmost() != #[trigger] tree.leftmost(),
            rest@.len() + forest@.len() == nodes@.len(),
            forest_trees(rest@) + forest_trees(forest@) == forest_trees(nodes@),
            weight_total(rest@) + weight_total(forest@) == weight_total(nodes@),
        decreases rest@.len(),
    {
        let ghost waiting = rest@;
        let ghost heaped = forest@;
        let node = rest.pop().unwrap();
        proof {
            let last = waiting.len() - 1;
            assert(rest@ =~= waiting.remove(last));
            assert(rest@ =~= waiting.drop_last());
            lemma_trees_remove(waiting, last);
            lemma_trees_push(heaped, node);
            lemma_weight_push(heaped, node);
            assert(distinct_leftmost(heaped.push(node))) by {
                let pushed = heaped.push(node);
                assert forall|a: int, b: int|
                    0 <= a < pushed.len() && 0 <= b < pushed.len() && a != b implies (
                #[trigger] pushed[a]).tree().leftmost() != (
                #[trigger] pushed[b]).tree().leftmost() by {
                    if a < heaped.len() {
                        assert(pushed[a] == heaped[a]);
                        assert(forest_trees(heaped).contains(heaped[a].tree()));
                    }
                    if b < heaped.len() {
                        assert(pushed[b] == heaped[b]);
                        assert(forest_trees(heaped).contains(heaped[b].tree()));
                    }
                    assert(waiting[last] == node);
                }
            }
            assert(weights_match(counts, heaped.push(node))) by {
                let pushed = heaped.push(node);
                assert forall|k: int| 0 <= k < pushed.len() implies (
                #[trigger] pushed[k]).weighed(counts) by {
                    if k < heaped.len() {
                        assert(pushed[k] == heaped[k]);
                    } else {
                        assert(pushed[k] == waiting[last]);
                    }
                }
            }
            assert(weights_match(counts, rest@)) by {
                assert forall|k: int| 0 <= k < rest@.len() implies (
                #[trigger] rest@[k]).weighed(counts) by {
                    assert(rest@[k] == waiting[k]);
                }
            }
        }
        heap_push(&mut forest, node, Ghost(counts));
        proof {
            assert forall|i: int, tree: HuffmanNode<T>|
                0 <= i < rest@.len() && forest_trees(forest@).contains(tree) implies (
            #[trigger] rest@[i]).tree().leftmost() != #[trigger] tree.leftmost() by {
                assert(rest@[i] == waiting[i]);
                if tree == node.tree() {
                    assert(waiting[waiting.len() - 1] == node);
                } else {
                    assert(forest_trees(heaped).contains(tree));
                }
            }
            assert(forest_trees(rest@) + forest_trees(forest@) =~= forest_trees(nodes@)) by {
                assert(forest_trees(waiting).contains(node.tree())) by {
                    assert(waiting[waiting.len() - 1].tree() == node.tree());
                }
            }
        }
    }
    proof {
        assert(forest_trees(rest@) =~= Set::<HuffmanNode<T>>::empty());
        assert(forest_trees(rest@) + forest_trees(forest@) =~= forest_trees(forest@));
    }
    forest
}

/// Takes the lowest node out of the heap.
pub(crate) fn heap_pop<T: Ord>(
    forest: &mut Vec<WeightedHuffmanNode<T>>,
    Ghost(counts): Ghost<Map<T, nat>>,
) -> (taken: WeightedHuffmanNode<T>)
    requires
        lawful_order::<T>(),
        old(forest)@.len() >= 1,
        heap_ordered(old(forest)@),
        distinct_leftmost(old(forest)@),
        weights_match(counts, old(forest)@),
    ensures
        forest_trees(old(forest)@).contains(taken.tree()),
        lowest(counts, forest_trees(old(forest)@)) == taken.tree(),
        taken.weighed(counts),
        final(forest)@.len() == old(forest)@.len() - 1,
        forest_trees(final(forest)@) == forest_trees(old(forest)@).remove(taken.tree()),
        weight_total(final(forest)@) + taken.weight() == weight_total(old(forest)@),
        heap_ordered(final(forest)@),
        distinct_leftmost(final(forest)@),
        weights_match(counts, final(forest)@),
        forall|i: int|
            0 <= i < final(forest)@.len() ==> (#[trigger] final(forest)@[i]).tree().leftmost()
                != taken.tree().leftmost(),
{
    let ghost before = forest@;
    let taken = forest.swap_remove(0);
    let ghost cut = forest@;
    proof {
        lemma_cut(counts, before);
    }
    let len = forest.len();
    let half = len / 2;
    let mut at: usize = 0;
    while at < half
        invariant
            lawful_order::<T>(),
            len == forest@.len(),
            half == len / 2,
            at < len || len == 0,
            forest_trees(forest@) == forest_trees(cut),
            weight_total(forest@) == weight_total(cut),
            distinct_leftmost(forest@),
            weights_match(counts, forest@),
            forall|k: int|
                1 <= k < forest@.len() && (k - 1) / 2 != at ==> #[trigger] above_parent(forest@, k),
            bridged(forest@, at as int),
            forall|i: int|
                0 <= i < forest@.len() ==> (#[trigger] forest@[i]).tree().leftmost()
                    != taken.tree().leftmost(),
        ensures
            heap_ordered(forest@),
            len == forest@.len(),
            forest_trees(forest@) == forest_trees(cut),
            weight_total(forest@) == weight_total(cut),
            distinct_leftmost(forest@),
            weights_match(counts, forest@),
            forall|i: int|
                0 <= i < forest@.len() ==> (#[trigger] forest@[i]).tree().leftmost()
                    != taken.tree().leftmost(),
        decreases len - at,
    {
        let left = 2 * at + 1;
        let right = left + 1;
        let ghost held = forest@;
        let child = if right < len && forest[right].precedes(&forest[left]) {
            right
        } else {
            left
        };
        let ghost other = if child == left {
            right
        } else {
            left
        };
        proof {
            if right < len {
                lemma_sorts_total(counts, held[left as int], held[right as int]);
                assert(held[child as int].sorts_before(held[other as int]));
            }
        }
        if forest[child].precedes(&forest[at]) {
            swap_nodes(forest, at, child);
            proof {
                let moved = forest@;
                lemma_swapped(counts, held, at as int, child as int);
                assert forall|k: int|
                    1 <= k < moved.len() && (k - 1) / 2 != child implies #[trigger] above_parent(
                    moved,
                    k,
                ) by {
                    let up = (k - 1) / 2;
                    if k == child {
                    } else if k == other {
                    } else if k == at {
                        assert(held[up].sorts_before(held[child as int]));
                    } else {
                        assert(above_parent(held, k));
                    }
                }
                assert forall|k: int|
                    1 <= k < moved.len() && (k - 1) / 2 == child && child >= 1 implies moved[(child
                    - 1) / 2].sorts_before(#[trigger] moved[k]) by {
                    assert(above_parent(held, k));
                }
                assert forall|i: int| 0 <= i < moved.len() implies (
                #[trigger] moved[i]).tree().leftmost() != taken.tree().leftmost() by {
                    if i == at {
                        assert(moved[i] == held[child as int]);
                    } else if i == child {
                        assert(moved[i] == held[at as int]);
                    } else {
                        assert(moved[i] == held[i]);
                    }
                }
            }
            at = child;
        } else {
            proof {
                lemma_sorts_total(counts, held[at as int], held[child as int]);
                if right < len {
                    lemma_sorts_transitive(
                        counts,
                        held[at as int],
                        held[child as int],
                        held[other as int],
                    );
                }
                assert forall|k: int| 1 <= k < held.len() implies #[trigger] above_parent(
                    held,
                    k,
                ) by {
                    if (k - 1) / 2 == at {
                        assert(k == left || k == right);
                    }
                }
            }
            break;
        }
    }
    proof {
        assert forall|k: int| 1 <= k < forest@.len() implies #[trigger] above_parent(
            forest@,
            k,
        ) by {}
    }
    taken
}

/// What is left when the first node of a heap has been taken and the last
/// has been put in its place: the trees but the one taken, a heap but for
/// the new first node, and the node taken was the lowest.
proof fn lemma_cut<T: Ord>(counts: Map<T, nat>, before: Seq<WeightedHuffmanNode<T>>)
    requires
        lawful_order::<T>(),
        before.len() >= 1,
        heap_ordered(before),
        distinct_leftmost(before),
        weights_match(counts, before),
    ensures
        ({
            let taken = before[0];
            let cut = before.update(0, before.last()).drop_last();
            &&& forest_trees(before).contains(taken.tree())
            &&& lowest(counts, forest_trees(before)) == taken.tree()
            &&& taken.weighed(counts)
            &&& forest_trees(cut) == forest_trees(before).remove(taken.tree())
            &&& weight_total(cut) + taken.weight() == weight_total(before)
            &&& distinct_leftmost(cut)
            &&& weights_match(counts, cut)
            &&& forall|k: int|
                1 <= k < cut.len() && (k - 1) / 2 != 0 ==> #[trigger] above_parent(cut, k)
            &&& bridged(cut, 0)
            &&& forall|i: int|
                0 <= i < cut.len() ==> (#[trigger] cut[i]).tree().leftmost()
                    != taken.tree().leftmost()
        }),
{
    let taken = before[0];
    let last = before.len() - 1;
    let cut = before.update(0, before.last()).drop_last();
    let from = |i: int|
        if i == 0 {
            last
        } else {
            i
        };
    assert forall|i: int| 0 <= i < cut.len() implies #[trigger] cut[i] == before[from(i)] by {}
    assert(is_lowest(counts, forest_trees(before), taken.tree())) by {
        assert forall|other: HuffmanNode<T>| #[trigger]
            forest_trees(before).contains(other) && other != taken.tree() implies merges_before(
            counts,
            taken.tree(),
            other,
        ) by {
            let k = choose|k: int| 0 <= k < before.len() && (#[trigger] before[k]).tree() == other;
            lemma_first_is_lowest(counts, before, k);
            before[0].lemma_sorts_as_merged(before[k], counts);
        }
    }
    lemma_lowest_unique(counts, forest_trees(before), taken.tree());
    assert forall|tree: HuffmanNode<T>|
        forest_trees(cut).contains(tree) == forest_trees(before).remove(taken.tree()).contains(
            tree,
        ) by {
        if forest_trees(cut).contains(tree) {
            let i = choose|i: int| 0 <= i < cut.len() && (#[trigger] cut[i]).tree() == tree;
            assert(before[from(i)].tree() == tree);
            assert(before[from(i)].tree().leftmost() != before[0].tree().leftmost());
        }
        if forest_trees(before).contains(tree) && tree != taken.tree() {
            let i = choose|i: int| 0 <= i < before.len() && (#[trigger] before[i]).tree() == tree;
            if i == last {
                assert(cut[0].tree() == tree);
            } else {
                assert(cut[i].tree() == tree);
            }
        }
    }
    assert(forest_trees(cut) =~= forest_trees(before).remove(taken.tree()));
    lemma_weight_update(before, 0, before.last());
    assert forall|a: int, b: int| 0 <= a < cut.len() && 0 <= b < cut.len() && a != b implies (
    #[trigger] cut[a]).tree().leftmost() != (#[trigger] cut[b]).tree().leftmost() by {
        assert(cut[a] == before[from(a)]);
        assert(cut[b] == before[from(b)]);
    }
    assert forall|k: int| 0 <= k < cut.len() implies (#[trigger] cut[k]).weighed(counts) by {
        assert(cut[k] == before[from(k)]);
    }
    assert forall|k: int| 1 <= k < cut.len() && (k - 1) / 2 != 0 implies #[trigger] above_parent(
        cut,
        k,
    ) by {
        assert(above_parent(before, k));
    }
    assert forall|i: int| 0 <= i < cut.len() implies (#[trigger] cut[i]).tree().leftmost()
        != taken.tree().leftmost() by {
        assert(cut[i] == before[from(i)]);
    }
}

} // verus!
