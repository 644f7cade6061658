use crate::huffman_tree::huffman_node::HuffmanNode;
use crate::huffman_tree::merge::{
    huffman_tree, initial_forest, is_lowest, lemma_merges_asymmetric, lemma_merges_total,
    lemma_merges_transitive, lowest, merge_all, merge_step, merges_before,
};
use crate::symbol::lawful_order;
use vstd::prelude::*;

verus! {

/// The trees of `forest` share out the symbols of `alphabet`: each symbol
/// stands at one leaf of one tree, and no other symbol stands at any leaf.
pub open spec fn shares_out<T>(forest: Set<HuffmanNode<T>>, alphabet: Set<T>) -> bool {
    &&& forest.finite()
    &&& forall|tree: HuffmanNode<T>| #[trigger]
        forest.contains(tree) ==> tree.leaves().no_duplicates()
    &&& forall|a: HuffmanNode<T>, b: HuffmanNode<T>, symbol: T|
        #![trigger forest.contains(a), b.symbols().contains(symbol)]
        forest.contains(a) && forest.contains(b) && a != b && a.symbols().contains(symbol)
            ==> !b.symbols().contains(symbol)
    &&& forall|tree: HuffmanNode<T>, symbol: T|
        #![trigger forest.contains(tree), tree.symbols().contains(symbol)]
        forest.contains(tree) && tree.symbols().contains(symbol) ==> alphabet.contains(symbol)
    &&& forall|symbol: T| #[trigger]
        alphabet.contains(symbol) ==> holder(forest, symbol).symbols().contains(symbol)
            && forest.contains(holder(forest, symbol))
}

/// The tree of `forest` that holds `symbol`.
pub open spec fn holder<T>(forest: Set<HuffmanNode<T>>, symbol: T) -> HuffmanNode<T> {
    choose|tree: HuffmanNode<T>| forest.contains(tree) && tree.symbols().contains(symbol)
}

/// The leftmost symbol of a tree is one of its symbols.
pub proof fn lemma_leftmost_is_symbol<T>(tree: HuffmanNode<T>)
    ensures
        tree.leaves().len() > 0,
        tree.leaves()[0] == tree.leftmost(),
        tree.symbols().contains(tree.leftmost()),
    decreases tree,
{
    match tree {
        HuffmanNode::Leaf(leaf) => {},
        HuffmanNode::Branch(branch) => {
            lemma_leftmost_is_symbol(*branch.links.0);
        },
    }
    assert(tree.leaves().contains(tree.leaves()[0]));
}

/// A forest whose trees share out an alphabet has a member that is merged
/// before every other.
pub proof fn lemma_lowest_exists<T: Ord>(
    counts: Map<T, nat>,
    forest: Set<HuffmanNode<T>>,
    alphabet: Set<T>,
)
    requires
        lawful_order::<T>(),
        shares_out(forest, alphabet),
        forest.len() >= 1,
    ensures
        is_lowest(counts, forest, lowest(counts, forest)),
    decreases forest.len(),
{
    let first = forest.choose();
    assert(forest.contains(first)) by {
        if forest.is_empty() {
            assert(forest.len() == 0);
        }
    }
    if forest.len() == 1 {
        assert forall|other: HuffmanNode<T>| #[trigger]
            forest.contains(other) && other != first implies merges_before(
            counts,
            first,
            other,
        ) by {
            assert(forest.remove(first).len() == 0);
            assert(forest.remove(first).contains(other));
        }
        assert(is_lowest(counts, forest, first));
    } else {
        let rest = forest.remove(first);
        lemma_shares_out_subset(forest, alphabet, first);
        lemma_lowest_exists(counts, rest, rest_alphabet(forest, alphabet, first));
        let least = lowest(counts, rest);
        assert(forest.contains(least));
        lemma_leftmost_is_symbol(first);
        lemma_leftmost_is_symbol(least);
        assert(first.leftmost() != least.leftmost());
        lemma_merges_total(counts, first, least);
        lemma_merges_asymmetric(counts, first, least);
        if merges_before(counts, first, least) {
            assert forall|other: HuffmanNode<T>| #[trigger]
                forest.contains(other) && other != first implies merges_before(
                counts,
                first,
                other,
            ) by {
                assert(rest.contains(other));
                if other != least {
                    lemma_merges_transitive(counts, first, least, other);
                }
            }
            assert(is_lowest(counts, forest, first));
        } else {
            assert forall|other: HuffmanNode<T>| #[trigger]
                forest.contains(other) && other != least implies merges_before(
                counts,
                least,
                other,
            ) by {
                if other != first {
                    assert(rest.contains(other));
                }
            }
            assert(is_lowest(counts, forest, least));
        }
    }
}

/// The symbols that are left to a forest when the tree `gone` leaves it.
pub open spec fn rest_alphabet<T>(
    forest: Set<HuffmanNode<T>>,
    alphabet: Set<T>,
    gone: HuffmanNode<T>,
) -> Set<T> {
    alphabet.difference(gone.symbols())
}

/// When a tree leaves a forest, the other trees share out the symbols that
/// it did not hold.
pub proof fn lemma_shares_out_subset<T>(
    forest: Set<HuffmanNode<T>>,
    alphabet: Set<T>,
    gone: HuffmanNode<T>,
)
    requires
        shares_out(forest, alphabet),
        forest.contains(gone),
    ensures
        shares_out(forest.remove(gone), rest_alphabet(forest, alphabet, gone)),
{
    let rest = forest.remove(gone);
    let left = rest_alphabet(forest, alphabet, gone);
    assert forall|symbol: T| #[trigger] left.contains(symbol) implies holder(
        rest,
        symbol,
    ).symbols().contains(symbol) && rest.contains(holder(rest, symbol)) by {
        let tree = holder(forest, symbol);
        assert(alphabet.contains(symbol));
        assert(forest.contains(tree) && tree.symbols().contains(symbol));
        assert(tree != gone);
        assert(rest.contains(tree) && tree.symbols().contains(symbol));
    }
    assert forall|tree: HuffmanNode<T>, symbol: T|
        #![trigger rest.contains(tree), tree.symbols().contains(symbol)]
        rest.contains(tree) && tree.symbols().contains(symbol) implies left.contains(symbol) by {
        assert(forest.contains(tree));
        assert(forest.contains(gone));
        if gone.symbols().contains(symbol) {
            assert(false);
        }
    }
    assert forall|a: HuffmanNode<T>, b: HuffmanNode<T>, symbol: T|
        #![trigger rest.contains(a), b.symbols().contains(symbol)]
        rest.contains(a) && rest.contains(b) && a != b && a.symbols().contains(
            symbol,
        ) implies !b.symbols().contains(symbol) by {
        assert(forest.contains(a));
        assert(forest.contains(b));
    }
}

/// A branch has the leaves of its first child followed by those of its
/// second, differs from both children, and has more than one leaf.
pub proof fn lemma_branch_leaves<T>(first: HuffmanNode<T>, second: HuffmanNode<T>)
    ensures
        HuffmanNode::branch(first, second).leaves() == first.leaves() + second.leaves(),
        HuffmanNode::branch(first, second).symbols() == first.symbols() + second.symbols(),
        HuffmanNode::branch(first, second) != first,
        HuffmanNode::branch(first, second) != second,
        HuffmanNode::branch(first, second).leaves().len() >= 2,
{
    let branch = HuffmanNode::branch(first, second);
    vstd::seq_lib::seq_to_set_distributes_over_add(first.leaves(), second.leaves());
    assert(branch.height() > first.height());
    assert(branch.height() > second.height());
    lemma_leftmost_is_symbol(first);
    lemma_leftmost_is_symbol(second);
}

/// One merge keeps the symbols shared out, and leaves one tree fewer.
pub proof fn lemma_merge_step_shares<T: Ord>(
    counts: Map<T, nat>,
    forest: Set<HuffmanNode<T>>,
    alphabet: Set<T>,
)
    requires
        lawful_order::<T>(),
        shares_out(forest, alphabet),
        forest.len() >= 2,
    ensures
        shares_out(merge_step(counts, forest), alphabet),
        merge_step(counts, forest).len() == forest.len() - 1,
{
    lemma_lowest_exists(counts, forest, alphabet);
    let lower = lowest(counts, forest);
    let rest = forest.remove(lower);
    lemma_shares_out_subset(forest, alphabet, lower);
    lemma_lowest_exists(counts, rest, rest_alphabet(forest, alphabet, lower));
    let greater = lowest(counts, rest);
    let others = rest.remove(greater);
    let branch = HuffmanNode::branch(greater, lower);
    let next = others.insert(branch);
    assert(next == merge_step(counts, forest));
    assert(forest.contains(lower));
    assert(forest.contains(greater));
    assert(greater != lower);
    lemma_branch_leaves(greater, lower);
    lemma_leftmost_is_symbol(greater);
    assert(branch.symbols().contains(greater.leftmost()));
    assert(!others.contains(branch)) by {
        if others.contains(branch) {
            assert(forest.contains(branch));
            assert(branch != greater);
            assert(greater.symbols().contains(greater.leftmost()));
            assert(false);
        }
    }
    assert(branch.leaves().no_duplicates()) by {
        assert forall|i: int, j: int|
            0 <= i < greater.leaves().len() && 0 <= j < lower.leaves().len() implies greater.leaves()[i]
            != lower.leaves()[j] by {
            assert(greater.symbols().contains(greater.leaves()[i]));
            assert(lower.symbols().contains(lower.leaves()[j]));
        }
        vstd::seq_lib::lemma_no_dup_in_concat(greater.leaves(), lower.leaves());
    }
    assert forall|tree: HuffmanNode<T>| #[trigger] next.contains(tree) implies tree.leaves().no_duplicates() by {
        if tree != branch {
            assert(forest.contains(tree));
        }
    }
    assert forall|a: HuffmanNode<T>, b: HuffmanNode<T>, symbol: T|
        #![trigger next.contains(a), b.symbols().contains(symbol)]
        next.contains(a) && next.contains(b) && a != b && a.symbols().contains(
            symbol,
        ) implies !b.symbols().contains(symbol) by {
        if a == branch {
            assert(forest.contains(b));
            if greater.symbols().contains(symbol) {
                assert(forest.contains(greater));
            } else {
                assert(lower.symbols().contains(symbol));
                assert(forest.contains(lower));
            }
        } else if b == branch {
            assert(forest.contains(a));
            if b.symbols().contains(symbol) {
                if greater.symbols().contains(symbol) {
                    assert(forest.contains(a) && forest.contains(greater) && a != greater);
                    assert(false);
                } else {
                    assert(lower.symbols().contains(symbol));
                    assert(forest.contains(a) && forest.contains(lower) && a != lower);
                    assert(false);
                }
            }
        } else {
            assert(forest.contains(a));
            assert(forest.contains(b));
        }
    }
    assert forall|tree: HuffmanNode<T>, symbol: T|
        #![trigger next.contains(tree), tree.symbols().contains(symbol)]
        next.contains(tree) && tree.symbols().contains(symbol) implies alphabet.contains(
        symbol,
    ) by {
        if tree == branch {
            if greater.symbols().contains(symbol) {
                assert(forest.contains(greater));
            } else {
                assert(lower.symbols().contains(symbol));
                assert(forest.contains(lower));
            }
        } else {
            assert(forest.contains(tree));
        }
    }
    assert forall|symbol: T| #[trigger] alphabet.contains(symbol) implies holder(
        next,
        symbol,
    ).symbols().contains(symbol) && next.contains(holder(next, symbol)) by {
        let tree = holder(forest, symbol);
        assert(forest.contains(tree) && tree.symbols().contains(symbol));
        if tree == lower || tree == greater {
            assert(next.contains(branch) && branch.symbols().contains(symbol));
        } else {
            assert(next.contains(tree) && tree.symbols().contains(symbol));
        }
    }
}

/// Merging a forest that shares out an alphabet ends in one tree that holds
/// each symbol of the alphabet at one leaf.
pub proof fn lemma_merge_all_shares<T: Ord>(
    counts: Map<T, nat>,
    forest: Set<HuffmanNode<T>>,
    alphabet: Set<T>,
)
    requires
        lawful_order::<T>(),
        shares_out(forest, alphabet),
        forest.len() >= 1,
    ensures
        merge_all(counts, forest).leaves().no_duplicates(),
        merge_all(counts, forest).symbols() == alphabet,
        forest.len() == 1 ==> forest.contains(merge_all(counts, forest)),
    decreases forest.len(),
{
    if forest.len() == 1 {
        let tree = forest.choose();
        assert(forest.contains(tree)) by {
            if forest.is_empty() {
                assert(forest.len() == 0);
            }
        }
        assert(merge_all(counts, forest) == tree);
        assert forall|symbol: T| alphabet.contains(symbol) implies tree.symbols().contains(
            symbol,
        ) by {
            let other = holder(forest, symbol);
            assert(forest.contains(other) && other.symbols().contains(symbol));
            if other != tree {
                assert(forest.remove(tree).contains(other));
                assert(forest.remove(tree).len() == 0);
            }
        }
        assert(tree.symbols() =~= alphabet);
    } else {
        lemma_merge_step_shares(counts, forest, alphabet);
        lemma_merge_all_shares(counts, merge_step(counts, forest), alphabet);
    }
}

/// The leaves that the builder starts from share out the symbols that have
/// a count, one leaf for each.
pub proof fn lemma_initial_shares<T>(counts: Map<T, nat>)
    requires
        counts.dom().finite(),
    ensures
        shares_out(initial_forest(counts), counts.dom()),
        initial_forest(counts).len() == counts.dom().len(),
    decreases counts.dom().len(),
{
    let forest = initial_forest(counts);
    if counts.dom().is_empty() {
        assert(forest =~= Set::<HuffmanNode<T>>::empty());
    } else {
        let symbol = counts.dom().choose();
        let fewer = counts.remove(symbol);
        lemma_initial_shares(fewer);
        assert forall|tree: HuffmanNode<T>|
            forest.contains(tree) == initial_forest(fewer).insert(
                HuffmanNode::leaf(symbol),
            ).contains(tree) by {
            if forest.contains(tree) {
                let held = choose|held: T|
                    counts.contains_key(held) && tree == #[trigger] HuffmanNode::leaf(held);
                if held != symbol {
                    assert(fewer.contains_key(held));
                }
            }
            if initial_forest(fewer).contains(tree) {
                let held = choose|held: T|
                    fewer.contains_key(held) && tree == #[trigger] HuffmanNode::leaf(held);
                assert(counts.contains_key(held));
            }
        }
        assert(forest =~= initial_forest(fewer).insert(HuffmanNode::leaf(symbol)));
        assert(!initial_forest(fewer).contains(HuffmanNode::leaf(symbol))) by {
            if initial_forest(fewer).contains(HuffmanNode::leaf(symbol)) {
                let held = choose|held: T|
                    fewer.contains_key(held) && HuffmanNode::leaf(symbol)
                        == #[trigger] HuffmanNode::leaf(held);
                assert(held == symbol);
            }
        }
    }
    assert forall|tree: HuffmanNode<T>| #[trigger] forest.contains(tree) implies tree.leaves()
        =~= seq![tree.leftmost()] && tree is Leaf by {
        let held = choose|held: T|
            counts.contains_key(held) && tree == #[trigger] HuffmanNode::leaf(held);
    }
    assert forall|tree: HuffmanNode<T>, symbol: T|
        #![trigger forest.contains(tree), tree.symbols().contains(symbol)]
        forest.contains(tree) && tree.symbols().contains(symbol) implies counts.dom().contains(
        symbol,
    ) && tree == HuffmanNode::leaf(symbol) by {
        let held = choose|held: T|
            counts.contains_key(held) && tree == #[trigger] HuffmanNode::leaf(held);
        assert(tree.leaves() =~= seq![held]);
    }
    assert forall|symbol: T| #[trigger] counts.dom().contains(symbol) implies holder(
        forest,
        symbol,
    ).symbols().contains(symbol) && forest.contains(holder(forest, symbol)) by {
        let tree = HuffmanNode::leaf(symbol);
        assert(forest.contains(tree));
        assert(tree.leaves() =~= seq![symbol]);
        assert(tree.leaves()[0] == symbol);
        assert(tree.symbols().contains(symbol));
    }
    assert forall|a: HuffmanNode<T>, b: HuffmanNode<T>, symbol: T|
        #![trigger forest.contains(a), b.symbols().contains(symbol)]
        forest.contains(a) && forest.contains(b) && a != b && a.symbols().contains(
            symbol,
        ) implies !b.symbols().contains(symbol) by {
        if b.symbols().contains(symbol) {
            assert(a == HuffmanNode::leaf(symbol));
            assert(b == HuffmanNode::leaf(symbol));
        }
    }
}

/// The height of a tree is less than the number of its leaves.
pub proof fn lemma_height_below_leaves<T>(tree: HuffmanNode<T>)
    ensures
        tree.height() < tree.leaves().len(),
    decreases tree,
{
    match tree {
        HuffmanNode::Leaf(_) => {},
        HuffmanNode::Branch(branch) => {
            lemma_height_below_leaves(*branch.links.0);
            lemma_height_below_leaves(*branch.links.1);
        },
    }
}

/// The tree built from a table holds each symbol of the table at one leaf
/// and no other symbol, and is less high than the table has symbols.
pub proof fn lemma_tree_holds_alphabet<T: Ord>(counts: Map<T, nat>)
    requires
        lawful_order::<T>(),
        counts.dom().finite(),
        !counts.dom().is_empty(),
    ensures
        huffman_tree(counts) matches Some(tree) && tree.leaves().no_duplicates() && tree.symbols()
            == counts.dom() && tree.leaves().len() == counts.dom().len() && tree.height()
            < counts.dom().len(),
{
    lemma_initial_shares(counts);
    assert(counts.dom().len() >= 1) by {
        if counts.dom().len() == 0 {
            assert(counts.dom().is_empty());
        }
    }
    lemma_merge_all_shares(counts, initial_forest(counts), counts.dom());
    let tree = huffman_tree(counts)->Some_0;
    tree.leaves().unique_seq_to_set();
    lemma_height_below_leaves(tree);
}

/// The tree of a table with one symbol is the leaf of that symbol, whatever
/// its count.
pub proof fn lemma_single_symbol_tree<T: Ord>(counts: Map<T, nat>, symbol: T)
    requires
        lawful_order::<T>(),
        counts.dom() == set![symbol],
    ensures
        huffman_tree(counts) == Some(HuffmanNode::leaf(symbol)),
{
    assert(counts.dom().contains(symbol));
    lemma_tree_holds_alphabet(counts);
    let tree = huffman_tree(counts)->Some_0;
    lemma_leftmost_is_symbol(tree);
    match tree {
        HuffmanNode::Leaf(leaf) => {
            assert(leaf.symbol == symbol);
        },
        HuffmanNode::Branch(branch) => {
            lemma_branch_leaves(*branch.links.0, *branch.links.1);
            assert(tree == HuffmanNode::branch(*branch.links.0, *branch.links.1));
        },
    }
}

} // verus!
