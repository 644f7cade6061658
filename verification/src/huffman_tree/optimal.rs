use crate::huffman_tree::coding::encoded_len;
use crate::huffman_tree::exchange::{
    cost, depth, lemma_cheapest_as_pair, lemma_children_apart, lemma_cost_reads_own_counts,
    lemma_count_changed,
};
use crate::huffman_tree::huffman_generator::{count_in, lemma_tally_bounds, tally};
use crate::huffman_tree::laws::lemma_codes_cover_leaves;
use crate::huffman_tree::huffman_node::HuffmanNode;
use crate::huffman_tree::merge::{
    huffman_tree, initial_forest, lowest, merge_all, merge_step, merges_before, tree_weight,
};
use crate::symbol::lawful_order;
use crate::huffman_tree::tree_laws::{
    lemma_branch_leaves, lemma_initial_shares, lemma_leftmost_is_symbol, lemma_lowest_exists,
    lemma_merge_all_shares, lemma_merge_step_shares, lemma_shares_out_subset,
    lemma_tree_holds_alphabet, rest_alphabet, shares_out,
};
use vstd::prelude::*;

verus! {

/// The leftmost symbols of the trees of a forest. In a forest that shares
/// out an alphabet each tree has its own, which can stand for the tree.
pub open spec fn heads<T>(forest: Set<HuffmanNode<T>>) -> Set<T> {
    Set::new(
        |symbol: T|
            exists|tree: HuffmanNode<T>|
                forest.contains(tree) && #[trigger] tree.leftmost() == symbol,
    )
}

/// The tree of the forest whose leftmost symbol is `symbol`.
pub open spec fn headed_by<T>(forest: Set<HuffmanNode<T>>, symbol: T) -> HuffmanNode<T> {
    choose|tree: HuffmanNode<T>| forest.contains(tree) && #[trigger] tree.leftmost() == symbol
}

/// The weight of each tree of the forest, held at its leftmost symbol.
pub open spec fn head_weights<T>(counts: Map<T, nat>, forest: Set<HuffmanNode<T>>) -> Map<
    T,
    nat,
> {
    Map::new(
        |symbol: T| heads(forest).contains(symbol),
        |symbol: T| tree_weight(counts, headed_by(forest, symbol)),
    )
}

/// The tree is put together from trees of the forest.
pub open spec fn built_over<T>(forest: Set<HuffmanNode<T>>, tree: HuffmanNode<T>) -> bool
    decreases tree,
{
    forest.contains(tree) || match tree {
        HuffmanNode::Leaf(_) => false,
        HuffmanNode::Branch(branch) => built_over(forest, *branch.links.0) && built_over(
            forest,
            *branch.links.1,
        ),
    }
}

/// The tree with each tree of the forest drawn together into one leaf, which
/// holds the leftmost symbol of the tree it stands for.
pub open spec fn outline<T>(forest: Set<HuffmanNode<T>>, tree: HuffmanNode<T>) -> HuffmanNode<T>
    decreases tree,
{
    if forest.contains(tree) {
        HuffmanNode::leaf(tree.leftmost())
    } else {
        match tree {
            HuffmanNode::Leaf(_) => tree,
            HuffmanNode::Branch(branch) => HuffmanNode::branch(
                outline(forest, *branch.links.0),
                outline(forest, *branch.links.1),
            ),
        }
    }
}

/// In a forest that shares out an alphabet, the leftmost symbol of a tree
/// finds that tree again.
pub proof fn lemma_head_finds_tree<T>(
    forest: Set<HuffmanNode<T>>,
    alphabet: Set<T>,
    tree: HuffmanNode<T>,
)
    requires
        shares_out(forest, alphabet),
        forest.contains(tree),
    ensures
        heads(forest).contains(tree.leftmost()),
        headed_by(forest, tree.leftmost()) == tree,
{
    let found = headed_by(forest, tree.leftmost());
    assert(forest.contains(found) && found.leftmost() == tree.leftmost());
    lemma_leftmost_is_symbol(tree);
    lemma_leftmost_is_symbol(found);
    if found != tree {
        assert(forest.contains(tree) && found.symbols().contains(tree.leftmost()));
        assert(false);
    }
}

/// A tree that is built over a forest holds all symbols of some tree of the
/// forest.
pub proof fn lemma_built_over_holds_one<T>(forest: Set<HuffmanNode<T>>, tree: HuffmanNode<T>) -> (part:
    HuffmanNode<T>)
    requires
        built_over(forest, tree),
    ensures
        forest.contains(part),
        forall|symbol: T| #[trigger] part.symbols().contains(symbol) ==> tree.symbols().contains(symbol),
    decreases tree,
{
    if forest.contains(tree) {
        tree
    } else {
        let first = *tree->Branch_0.links.0;
        let second = *tree->Branch_0.links.1;
        let part = lemma_built_over_holds_one(forest, first);
        lemma_branch_leaves(first, second);
        assert(tree == HuffmanNode::branch(first, second));
        assert forall|symbol: T| #[trigger] part.symbols().contains(symbol) implies tree.symbols().contains(
            symbol,
        ) by {
            assert(first.symbols().contains(symbol));
        }
        part
    }
}

/// The outline of a tree built over a forest holds the leftmost symbol of
/// each tree of the forest that the tree is made of, once, and weighs what
/// the tree weighs.
pub proof fn lemma_outline<T>(
    counts: Map<T, nat>,
    forest: Set<HuffmanNode<T>>,
    alphabet: Set<T>,
    tree: HuffmanNode<T>,
)
    requires
        shares_out(forest, alphabet),
        built_over(forest, tree),
        tree.leaves().no_duplicates(),
    ensures
        outline(forest, tree).leaves().no_duplicates(),
        forall|symbol: T|
            #[trigger] outline(forest, tree).symbols().contains(symbol) <==> (heads(
                forest,
            ).contains(symbol) && tree.symbols().contains(symbol)),
        tree_weight(head_weights(counts, forest), outline(forest, tree)) == tree_weight(
            counts,
            tree,
        ),
    decreases tree,
{
    let drawn = outline(forest, tree);
    if forest.contains(tree) {
        lemma_head_finds_tree(forest, alphabet, tree);
        lemma_leftmost_is_symbol(tree);
        assert(drawn.leaves() =~= seq![tree.leftmost()]);
        assert(drawn.leaves()[0] == tree.leftmost());
        assert forall|symbol: T| #[trigger]
            drawn.symbols().contains(symbol) <==> (heads(forest).contains(symbol)
                && tree.symbols().contains(symbol)) by {
            if heads(forest).contains(symbol) && tree.symbols().contains(symbol) {
                let other = headed_by(forest, symbol);
                assert(forest.contains(other) && other.leftmost() == symbol);
                lemma_leftmost_is_symbol(other);
                if other != tree {
                    assert(forest.contains(other) && tree.symbols().contains(symbol));
                    assert(false);
                }
            }
        }
    } else {
        let first = *tree->Branch_0.links.0;
        let second = *tree->Branch_0.links.1;
        lemma_children_apart(tree);
        lemma_outline(counts, forest, alphabet, first);
        lemma_outline(counts, forest, alphabet, second);
        let drawn_first = outline(forest, first);
        let drawn_second = outline(forest, second);
        lemma_branch_leaves(drawn_first, drawn_second);
        assert(drawn.leaves().no_duplicates()) by {
            assert forall|i: int, j: int|
                0 <= i < drawn_first.leaves().len() && 0 <= j
                    < drawn_second.leaves().len() implies drawn_first.leaves()[i]
                != drawn_second.leaves()[j] by {
                let symbol = drawn_first.leaves()[i];
                assert(drawn_first.symbols().contains(symbol));
                if symbol == drawn_second.leaves()[j] {
                    assert(drawn_second.symbols().contains(symbol));
                }
            }
            vstd::seq_lib::lemma_no_dup_in_concat(drawn_first.leaves(), drawn_second.leaves());
        }
        assert forall|symbol: T| #[trigger]
            drawn.symbols().contains(symbol) <==> (heads(forest).contains(symbol)
                && tree.symbols().contains(symbol)) by {
            assert(drawn.symbols().contains(symbol) <==> (drawn_first.symbols().contains(symbol)
                || drawn_second.symbols().contains(symbol)));
        }
    }
}

/// The forest after the trees `lower` and `greater` have been merged.
pub open spec fn merged<T>(
    forest: Set<HuffmanNode<T>>,
    lower: HuffmanNode<T>,
    greater: HuffmanNode<T>,
) -> Set<HuffmanNode<T>> {
    forest.remove(lower).remove(greater).insert(HuffmanNode::branch(greater, lower))
}

/// A tree built over the forest after a merge is built over the forest
/// before it. Its outline over the earlier forest costs what its outline
/// over the later forest costs, and the weights of the two merged trees more
/// where the tree holds them.
pub proof fn lemma_outline_step<T>(
    counts: Map<T, nat>,
    forest: Set<HuffmanNode<T>>,
    alphabet: Set<T>,
    lower: HuffmanNode<T>,
    greater: HuffmanNode<T>,
    tree: HuffmanNode<T>,
)
    requires
        shares_out(forest, alphabet),
        shares_out(merged(forest, lower, greater), alphabet),
        forest.contains(lower),
        forest.contains(greater),
        lower != greater,
        built_over(merged(forest, lower, greater), tree),
        tree.leaves().no_duplicates(),
    ensures
        built_over(forest, tree),
        cost(head_weights(counts, forest), outline(forest, tree)) == cost(
            head_weights(counts, merged(forest, lower, greater)),
            outline(merged(forest, lower, greater), tree),
        ) + if tree.symbols().contains(greater.leftmost()) {
            tree_weight(counts, lower) + tree_weight(counts, greater)
        } else {
            0
        },
    decreases tree,
{
    let later = merged(forest, lower, greater);
    let joined = HuffmanNode::branch(greater, lower);
    lemma_branch_leaves(greater, lower);
    lemma_leftmost_is_symbol(greater);
    lemma_leftmost_is_symbol(lower);
    assert(!forest.contains(joined)) by {
        if forest.contains(joined) {
            assert(joined.symbols().contains(greater.leftmost()));
            assert(forest.contains(greater) && joined.symbols().contains(greater.leftmost()));
            assert(false);
        }
    }
    if later.contains(tree) {
        if tree == joined {
            lemma_head_finds_tree(forest, alphabet, lower);
            lemma_head_finds_tree(forest, alphabet, greater);
            assert(outline(forest, tree) == HuffmanNode::branch(
                outline(forest, greater),
                outline(forest, lower),
            ));
            assert(outline(forest, greater) == HuffmanNode::leaf(greater.leftmost()));
            assert(outline(forest, lower) == HuffmanNode::leaf(lower.leftmost()));
            assert(built_over(forest, greater));
            assert(built_over(forest, lower));
            assert(built_over(forest, tree));
            let weights = head_weights(counts, forest);
            let high = HuffmanNode::leaf(greater.leftmost());
            let low = HuffmanNode::leaf(lower.leftmost());
            assert(cost(weights, high) == 0);
            assert(cost(weights, low) == 0);
            assert(tree_weight(weights, high) == tree_weight(counts, greater));
            assert(tree_weight(weights, low) == tree_weight(counts, lower));
            assert(cost(weights, HuffmanNode::branch(high, low)) == tree_weight(counts, greater)
                + tree_weight(counts, lower));
            assert(outline(later, tree) == HuffmanNode::leaf(tree.leftmost()));
            assert(cost(head_weights(counts, later), outline(later, tree)) == 0);
        } else {
            assert(forest.contains(tree));
            assert(outline(later, tree) == HuffmanNode::leaf(tree.leftmost()));
            assert(outline(forest, tree) == HuffmanNode::leaf(tree.leftmost()));
            assert(cost(head_weights(counts, later), outline(later, tree)) == 0);
            assert(cost(head_weights(counts, forest), outline(forest, tree)) == 0);
            if tree.symbols().contains(greater.leftmost()) {
                assert(forest.contains(greater) && tree.symbols().contains(greater.leftmost()));
                assert(false);
            }
        }
    } else {
        let first = *tree->Branch_0.links.0;
        let second = *tree->Branch_0.links.1;
        lemma_children_apart(tree);
        assert(!forest.contains(tree)) by {
            if forest.contains(tree) {
                assert(tree == lower || tree == greater);
                let part = lemma_built_over_holds_one(later, first);
                lemma_leftmost_is_symbol(part);
                assert(first.symbols().contains(part.leftmost()));
                assert(tree.symbols().contains(part.leftmost()));
                if part == joined {
                    assert(part.symbols().contains(greater.leftmost()));
                    assert(part.symbols().contains(lower.leftmost()));
                    assert(first.symbols().contains(greater.leftmost()));
                    assert(first.symbols().contains(lower.leftmost()));
                    assert(tree.symbols().contains(greater.leftmost()));
                    assert(tree.symbols().contains(lower.leftmost()));
                    if tree == lower {
                        assert(forest.contains(greater) && lower.symbols().contains(
                            greater.leftmost(),
                        ));
                    } else {
                        assert(forest.contains(lower) && greater.symbols().contains(
                            lower.leftmost(),
                        ));
                    }
                    assert(false);
                } else {
                    assert(forest.contains(part));
                    assert(part != tree);
                    assert(forest.contains(part) && tree.symbols().contains(part.leftmost()));
                    assert(false);
                }
            }
        }
        lemma_outline_step(counts, forest, alphabet, lower, greater, first);
        lemma_outline_step(counts, forest, alphabet, lower, greater, second);
        lemma_outline(counts, forest, alphabet, first);
        lemma_outline(counts, forest, alphabet, second);
        lemma_outline(counts, later, alphabet, first);
        lemma_outline(counts, later, alphabet, second);
        assert(outline(forest, tree) == HuffmanNode::branch(
            outline(forest, first),
            outline(forest, second),
        ));
        assert(outline(later, tree) == HuffmanNode::branch(
            outline(later, first),
            outline(later, second),
        ));
        assert(built_over(forest, tree));
    }
}

/// The tree that merging leaves of a forest is, drawn together over the
/// forest, costs no more than any other tree over the leftmost symbols of
/// the forest, where each of these symbols counts what its tree weighs.
pub proof fn lemma_merge_all_optimal<T: Ord>(
    counts: Map<T, nat>,
    forest: Set<HuffmanNode<T>>,
    alphabet: Set<T>,
    other: HuffmanNode<T>,
)
    requires
        lawful_order::<T>(),
        shares_out(forest, alphabet),
        forest.len() >= 1,
        other.leaves().no_duplicates(),
        forall|symbol: T|
            #[trigger] other.symbols().contains(symbol) <==> heads(forest).contains(symbol),
    ensures
        built_over(forest, merge_all(counts, forest)),
        cost(head_weights(counts, forest), outline(forest, merge_all(counts, forest))) <= cost(
            head_weights(counts, forest),
            other,
        ),
    decreases forest.len(),
{
    let tree = merge_all(counts, forest);
    let weights = head_weights(counts, forest);
    if forest.len() == 1 {
        lemma_merge_all_shares(counts, forest, alphabet);
        assert(outline(forest, tree) == HuffmanNode::leaf(tree.leftmost()));
        assert(cost(weights, outline(forest, tree)) == 0);
    } else {
        lemma_lowest_exists(counts, forest, alphabet);
        let lower = lowest(counts, forest);
        let rest = forest.remove(lower);
        lemma_shares_out_subset(forest, alphabet, lower);
        lemma_lowest_exists(counts, rest, rest_alphabet(forest, alphabet, lower));
        let greater = lowest(counts, rest);
        let joined = HuffmanNode::branch(greater, lower);
        let next = merge_step(counts, forest);
        assert(next == merged(forest, lower, greater));
        lemma_merge_step_shares(counts, forest, alphabet);
        assert(tree == merge_all(counts, next));
        lemma_merge_all_shares(counts, next, alphabet);
        let a = lower.leftmost();
        let b = greater.leftmost();
        lemma_head_finds_tree(forest, alphabet, lower);
        lemma_head_finds_tree(forest, alphabet, greater);
        lemma_head_finds_tree(next, alphabet, joined);
        lemma_leftmost_is_symbol(lower);
        lemma_leftmost_is_symbol(greater);
        assert(a != b);
        assert(other.symbols().contains(a));
        assert(other.symbols().contains(b));
        assert forall|symbol: T| #[trigger] other.symbols().contains(symbol) implies weights[a]
            <= weights[symbol] by {
            assert(heads(forest).contains(symbol));
            let holder = headed_by(forest, symbol);
            assert(forest.contains(holder) && holder.leftmost() == symbol);
            if holder != lower {
                assert(merges_before(counts, lower, holder));
            }
        }
        assert forall|symbol: T| #[trigger]
            other.symbols().contains(symbol) && symbol != a implies weights[b]
            <= weights[symbol] by {
            assert(heads(forest).contains(symbol));
            let holder = headed_by(forest, symbol);
            assert(forest.contains(holder) && holder.leftmost() == symbol);
            assert(rest.contains(holder));
            if holder != greater {
                assert(merges_before(counts, greater, holder));
            }
        }
        let small = lemma_cheapest_as_pair(weights, other, a, b);
        let later = head_weights(counts, next);
        let raised = weights.insert(b, weights[a] + weights[b]);
        assert forall|symbol: T| #[trigger]
            small.symbols().contains(symbol) <==> heads(next).contains(symbol) by {
            if heads(next).contains(symbol) {
                let holder = headed_by(next, symbol);
                assert(next.contains(holder) && holder.leftmost() == symbol);
                if holder != joined {
                    assert(forest.contains(holder));
                    lemma_head_finds_tree(forest, alphabet, holder);
                }
            }
            if heads(forest).contains(symbol) && symbol != a {
                let holder = headed_by(forest, symbol);
                assert(forest.contains(holder) && holder.leftmost() == symbol);
                if holder == greater {
                    assert(next.contains(joined) && joined.leftmost() == symbol);
                } else {
                    assert(next.contains(holder) && holder.leftmost() == symbol);
                }
            }
        }
        assert forall|symbol: T| #[trigger] small.symbols().contains(symbol) implies raised[symbol]
            == later[symbol] by {
            assert(heads(next).contains(symbol));
            if symbol == b {
                assert(headed_by(next, b) == joined);
                assert(tree_weight(counts, joined) == tree_weight(counts, greater) + tree_weight(
                    counts,
                    lower,
                ));
            } else {
                let holder = headed_by(forest, symbol);
                assert(forest.contains(holder) && holder.leftmost() == symbol);
                assert(next.contains(holder));
                lemma_head_finds_tree(next, alphabet, holder);
            }
        }
        lemma_cost_reads_own_counts(raised, later, small);
        lemma_merge_all_optimal(counts, next, alphabet, small);
        assert(tree.symbols().contains(b)) by {
            assert(alphabet.contains(b));
        }
        lemma_outline_step(counts, forest, alphabet, lower, greater, tree);
    }
}

/// A tree built from single leaves is its own outline over these leaves.
pub proof fn lemma_outline_over_leaves<T>(counts: Map<T, nat>, tree: HuffmanNode<T>)
    requires
        built_over(initial_forest(counts), tree),
    ensures
        outline(initial_forest(counts), tree) == tree,
    decreases tree,
{
    let forest = initial_forest(counts);
    if forest.contains(tree) {
        let symbol = choose|symbol: T|
            counts.contains_key(symbol) && tree == #[trigger] HuffmanNode::leaf(symbol);
        assert(tree.leftmost() == symbol);
    } else {
        lemma_outline_over_leaves(counts, *tree->Branch_0.links.0);
        lemma_outline_over_leaves(counts, *tree->Branch_0.links.1);
    }
}

/// Over the single leaves that merging starts from, the leaf of a symbol is
/// the tree that the symbol finds.
pub proof fn lemma_initial_head<T>(counts: Map<T, nat>, symbol: T)
    requires
        counts.dom().finite(),
        counts.contains_key(symbol),
    ensures
        heads(initial_forest(counts)).contains(symbol),
        headed_by(initial_forest(counts), symbol) == HuffmanNode::leaf(symbol),
{
    let forest = initial_forest(counts);
    let leaf = HuffmanNode::leaf(symbol);
    assert(forest.contains(leaf));
    assert(leaf.leftmost() == symbol);
    let found = headed_by(forest, symbol);
    assert(forest.contains(found) && found.leftmost() == symbol);
    let held = choose|held: T|
        counts.contains_key(held) && found == #[trigger] HuffmanNode::leaf(held);
    assert(found.leftmost() == held);
}

/// Over the single leaves that merging starts from, the leftmost symbols are
/// the symbols of the table.
pub proof fn lemma_initial_heads<T>(counts: Map<T, nat>)
    requires
        counts.dom().finite(),
    ensures
        heads(initial_forest(counts)) == counts.dom(),
{
    let forest = initial_forest(counts);
    assert forall|symbol: T| heads(forest).contains(symbol) == counts.dom().contains(
        symbol,
    ) by {
        if counts.dom().contains(symbol) {
            lemma_initial_head(counts, symbol);
        }
        if heads(forest).contains(symbol) {
            let holder = headed_by(forest, symbol);
            assert(forest.contains(holder) && holder.leftmost() == symbol);
            let held = choose|held: T|
                counts.contains_key(held) && holder == #[trigger] HuffmanNode::leaf(held);
            assert(holder.leftmost() == held);
        }
    }
    assert(heads(forest) =~= counts.dom());
}

/// A tree over the symbols of the table costs the same whether each symbol
/// counts what the table says or what its single leaf weighs.
pub proof fn lemma_initial_cost<T>(counts: Map<T, nat>, tree: HuffmanNode<T>)
    requires
        counts.dom().finite(),
        tree.symbols() == counts.dom(),
    ensures
        cost(head_weights(counts, initial_forest(counts)), tree) == cost(counts, tree),
{
    let weights = head_weights(counts, initial_forest(counts));
    assert forall|symbol: T| #[trigger] tree.symbols().contains(symbol) implies weights[symbol]
        == counts[symbol] by {
        lemma_initial_head(counts, symbol);
    }
    lemma_cost_reads_own_counts(weights, counts, tree);
}

/// Merging the single leaves of a table gives a tree that costs no more,
/// counted by the weights of the leaves, than any tree over the symbols of
/// the table.
proof fn lemma_merge_of_leaves_optimal<T: Ord>(counts: Map<T, nat>, other: HuffmanNode<T>)
    requires
        lawful_order::<T>(),
        counts.dom().finite(),
        counts.dom().len() >= 1,
        other.leaves().no_duplicates(),
        other.symbols() == counts.dom(),
    ensures
        cost(
            head_weights(counts, initial_forest(counts)),
            merge_all(counts, initial_forest(counts)),
        ) <= cost(head_weights(counts, initial_forest(counts)), other),
{
    let forest = initial_forest(counts);
    lemma_initial_shares(counts);
    lemma_initial_heads(counts);
    lemma_merge_all_optimal(counts, forest, counts.dom(), other);
    lemma_outline_over_leaves(counts, merge_all(counts, forest));
}

/// No tree that holds each symbol of the table at one leaf costs less than
/// the Huffman tree of the table.
pub proof fn lemma_huffman_tree_is_optimal<T: Ord>(counts: Map<T, nat>, other: HuffmanNode<T>)
    requires
        lawful_order::<T>(),
        counts.dom().finite(),
        !counts.dom().is_empty(),
        other.leaves().no_duplicates(),
        other.symbols() == counts.dom(),
    ensures
        huffman_tree(counts) matches Some(tree) && cost(counts, tree) <= cost(counts, other),
{
    let tree = merge_all(counts, initial_forest(counts));
    assert(counts.dom().len() >= 1) by {
        if counts.dom().len() == 0 {
            assert(counts.dom().is_empty());
        }
    }
    lemma_tree_holds_alphabet(counts);
    lemma_merge_of_leaves_optimal(counts, other);
    lemma_initial_cost(counts, tree);
    lemma_initial_cost(counts, other);
}

/// The codeword of a symbol is as long as its leaf is deep.
pub proof fn lemma_code_length_is_depth<T>(tree: HuffmanNode<T>, prefix: Seq<bool>, symbol: T)
    requires
        tree.leaves().no_duplicates(),
        tree.symbols().contains(symbol),
    ensures
        tree.codes_under(prefix).contains_key(symbol),
        tree.codes_under(prefix)[symbol].len() == prefix.len() + depth(tree, symbol),
    decreases tree,
{
    lemma_codes_cover_leaves(tree, prefix);
    match tree {
        HuffmanNode::Leaf(leaf) => {
            assert(tree.leaves() =~= seq![leaf.symbol]);
        },
        HuffmanNode::Branch(branch) => {
            let first = *branch.links.0;
            let second = *branch.links.1;
            lemma_children_apart(tree);
            lemma_codes_cover_leaves(first, prefix.push(false));
            lemma_codes_cover_leaves(second, prefix.push(true));
            if second.symbols().contains(symbol) {
                assert(!first.symbols().contains(symbol));
                lemma_code_length_is_depth(second, prefix.push(true), symbol);
            } else {
                assert(first.symbols().contains(symbol));
                lemma_code_length_is_depth(first, prefix.push(false), symbol);
            }
        },
    }
}

/// How often each symbol occurs in `symbols`, with zero for every symbol
/// that does not occur.
pub open spec fn occurrences<T>(symbols: Seq<T>) -> Map<T, nat> {
    Map::total(|symbol: T| count_in(tally(symbols), symbol))
}

/// What a tree costs under the counts of a text is the number of bits that
/// its codewords need for the text.
pub proof fn lemma_encoded_len_is_cost<T>(tree: HuffmanNode<T>, symbols: Seq<T>)
    requires
        tree.leaves().no_duplicates(),
        forall|i: int| 0 <= i < symbols.len() ==> tree.symbols().contains(#[trigger] symbols[i]),
    ensures
        encoded_len(tree.codes(), symbols) == cost(occurrences(symbols), tree),
    decreases symbols.len(),
{
    if symbols.len() == 0 {
        lemma_cost_of_nothing(occurrences(symbols), tree);
    } else {
        let front = symbols.drop_last();
        let last = symbols.last();
        assert forall|i: int| 0 <= i < front.len() implies tree.symbols().contains(
            #[trigger] front[i],
        ) by {
            assert(front[i] == symbols[i]);
        }
        lemma_encoded_len_is_cost(tree, front);
        lemma_code_length_is_depth(tree, Seq::empty(), last);
        let before = occurrences(front);
        lemma_count_changed(before, tree, last, before[last] + 1);
        assert(occurrences(symbols) =~= before.insert(last, before[last] + 1));
        assert(1 * depth(tree, last) == depth(tree, last));
    }
}

/// Where every count is zero, every tree weighs and costs nothing.
pub proof fn lemma_cost_of_nothing<T>(counts: Map<T, nat>, tree: HuffmanNode<T>)
    requires
        forall|symbol: T| #[trigger] tree.symbols().contains(symbol) ==> counts[symbol] == 0,
    ensures
        tree_weight(counts, tree) == 0,
        cost(counts, tree) == 0,
    decreases tree,
{
    match tree {
        HuffmanNode::Leaf(leaf) => {
            lemma_leftmost_is_symbol(tree);
        },
        HuffmanNode::Branch(branch) => {
            let first = *branch.links.0;
            let second = *branch.links.1;
            lemma_branch_leaves(first, second);
            assert(tree == HuffmanNode::branch(first, second));
            assert forall|symbol: T| #[trigger] first.symbols().contains(symbol) implies counts[symbol]
                == 0 by {
                assert(tree.symbols().contains(symbol));
            }
            assert forall|symbol: T| #[trigger] second.symbols().contains(symbol) implies counts[symbol]
                == 0 by {
                assert(tree.symbols().contains(symbol));
            }
            lemma_cost_of_nothing(counts, first);
            lemma_cost_of_nothing(counts, second);
        },
    }
}

/// The Huffman tree of a text encodes the text in no more bits than any
/// other tree that holds each symbol of the text at one leaf.
pub proof fn lemma_huffman_encoding_is_shortest<T: Ord>(symbols: Seq<T>, other: HuffmanNode<T>)
    requires
        lawful_order::<T>(),
        symbols.len() > 0,
        other.leaves().no_duplicates(),
        other.symbols() == symbols.to_set(),
    ensures
        huffman_tree(tally(symbols)) matches Some(tree) && encoded_len(tree.codes(), symbols)
            <= encoded_len(other.codes(), symbols),
{
    let counts = tally(symbols);
    lemma_tally_bounds(symbols);
    assert(counts.dom().contains(symbols[0])) by {
        assert(symbols.to_set().contains(symbols[0]));
    }
    lemma_tree_holds_alphabet(counts);
    lemma_huffman_tree_is_optimal(counts, other);
    let tree = huffman_tree(counts)->Some_0;
    assert forall|i: int| 0 <= i < symbols.len() implies tree.symbols().contains(
        #[trigger] symbols[i],
    ) && other.symbols().contains(symbols[i]) by {
        assert(symbols.to_set().contains(symbols[i]));
    }
    lemma_encoded_len_is_cost(tree, symbols);
    lemma_encoded_len_is_cost(other, symbols);
    let total = occurrences(symbols);
    assert forall|symbol: T| #[trigger] tree.symbols().contains(symbol) implies total[symbol]
        == counts[symbol] by {}
    assert forall|symbol: T| #[trigger] other.symbols().contains(symbol) implies total[symbol]
        == counts[symbol] by {}
    lemma_cost_reads_own_counts(total, counts, tree);
    lemma_cost_reads_own_counts(total, counts, other);
}

} // verus!
