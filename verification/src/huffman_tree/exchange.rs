use crate::huffman_tree::huffman_node::HuffmanNode;
use crate::huffman_tree::merge::tree_weight;
use crate::huffman_tree::tree_laws::{lemma_branch_leaves, lemma_leftmost_is_symbol};
use vstd::prelude::*;

verus! {

/// The cost of a tree under the counts `counts`: for each leaf the count of
/// its symbol times the length of its codeword, added up. It is the number
/// of bits that the tree needs for a text with these counts.
pub open spec fn cost<T>(counts: Map<T, nat>, tree: HuffmanNode<T>) -> nat
    decreases tree,
{
    match tree {
        HuffmanNode::Leaf(_) => 0,
        HuffmanNode::Branch(branch) => cost(counts, *branch.links.0) + cost(
            counts,
            *branch.links.1,
        ) + tree_weight(counts, *branch.links.0) + tree_weight(counts, *branch.links.1),
    }
}

/// The number of branches above the leaf of `symbol`.
pub open spec fn depth<T>(tree: HuffmanNode<T>, symbol: T) -> nat
    decreases tree,
{
    match tree {
        HuffmanNode::Leaf(_) => 0,
        HuffmanNode::Branch(branch) => 1 + if branch.links.0.symbols().contains(symbol) {
            depth(*branch.links.0, symbol)
        } else {
            depth(*branch.links.1, symbol)
        },
    }
}

/// The two children of a branch hold different symbols, each child holds its
/// symbols once, and together they hold the symbols of the branch.
pub proof fn lemma_children_apart<T>(tree: HuffmanNode<T>)
    requires
        tree is Branch,
        tree.leaves().no_duplicates(),
    ensures
        tree->Branch_0.links.0.leaves().no_duplicates(),
        tree->Branch_0.links.1.leaves().no_duplicates(),
        forall|symbol: T|
            !(#[trigger] tree->Branch_0.links.0.symbols().contains(symbol)
                && tree->Branch_0.links.1.symbols().contains(symbol)),
        forall|symbol: T|
            #[trigger] tree.symbols().contains(symbol) <==> (
            tree->Branch_0.links.0.symbols().contains(symbol)
                || tree->Branch_0.links.1.symbols().contains(symbol)),
{
    let first = *tree->Branch_0.links.0;
    let second = *tree->Branch_0.links.1;
    let all = tree.leaves();
    assert(all == first.leaves() + second.leaves());
    assert forall|i: int, j: int|
        0 <= i < first.leaves().len() && 0 <= j < first.leaves().len() && i != j implies first.leaves()[i]
        != first.leaves()[j] by {
        assert(all[i] == first.leaves()[i]);
        assert(all[j] == first.leaves()[j]);
    }
    assert forall|i: int, j: int|
        0 <= i < second.leaves().len() && 0 <= j < second.leaves().len() && i
            != j implies second.leaves()[i] != second.leaves()[j] by {
        assert(all[first.leaves().len() + i] == second.leaves()[i]);
        assert(all[first.leaves().len() + j] == second.leaves()[j]);
    }
    assert forall|symbol: T|
        !(#[trigger] first.symbols().contains(symbol) && second.symbols().contains(symbol)) by {
        if first.symbols().contains(symbol) && second.symbols().contains(symbol) {
            let i = choose|i: int| 0 <= i < first.leaves().len() && first.leaves()[i] == symbol;
            let j = choose|j: int| 0 <= j < second.leaves().len() && second.leaves()[j] == symbol;
            assert(all[i] == symbol);
            assert(all[first.leaves().len() + j] == symbol);
        }
    }
    vstd::seq_lib::seq_to_set_distributes_over_add(first.leaves(), second.leaves());
    assert(tree.symbols() =~= first.symbols() + second.symbols());
}

/// Weight and cost look only at the counts of the symbols of the tree.
pub proof fn lemma_cost_reads_own_counts<T>(a: Map<T, nat>, b: Map<T, nat>, tree: HuffmanNode<T>)
    requires
        forall|symbol: T| #[trigger] tree.symbols().contains(symbol) ==> a[symbol] == b[symbol],
    ensures
        tree_weight(a, tree) == tree_weight(b, tree),
        cost(a, tree) == cost(b, tree),
    decreases tree,
{
    match tree {
        HuffmanNode::Leaf(leaf) => {
            lemma_leftmost_is_symbol(tree);
        },
        HuffmanNode::Branch(branch) => {
            let first = *branch.links.0;
            let second = *branch.links.1;
            lemma_branch_leaves(first, second);
            assert(tree == HuffmanNode::branch(first, second));
            assert forall|symbol: T| #[trigger] first.symbols().contains(symbol) implies a[symbol]
                == b[symbol] by {
                assert(tree.symbols().contains(symbol));
            }
            assert forall|symbol: T| #[trigger] second.symbols().contains(symbol) implies a[symbol]
                == b[symbol] by {
                assert(tree.symbols().contains(symbol));
            }
            lemma_cost_reads_own_counts(a, b, first);
            lemma_cost_reads_own_counts(a, b, second);
        },
    }
}

/// What a change of one count does to weight and cost: the weight changes
/// by the change of the count, the cost by the change times the depth of the
/// symbol's leaf.
pub proof fn lemma_count_changed<T>(counts: Map<T, nat>, tree: HuffmanNode<T>, symbol: T, to: nat)
    requires
        tree.leaves().no_duplicates(),
    ensures
        tree.symbols().contains(symbol) ==> tree_weight(counts.insert(symbol, to), tree)
            == tree_weight(counts, tree) + to - counts[symbol] && cost(
            counts.insert(symbol, to),
            tree,
        ) == cost(counts, tree) + (to - counts[symbol]) * depth(tree, symbol),
        !tree.symbols().contains(symbol) ==> tree_weight(counts.insert(symbol, to), tree)
            == tree_weight(counts, tree) && cost(counts.insert(symbol, to), tree) == cost(
            counts,
            tree,
        ),
    decreases tree,
{
    let changed = counts.insert(symbol, to);
    if !tree.symbols().contains(symbol) {
        assert forall|other: T| #[trigger] tree.symbols().contains(other) implies counts[other]
            == changed[other] by {}
        lemma_cost_reads_own_counts(counts, changed, tree);
    } else {
        match tree {
            HuffmanNode::Leaf(leaf) => {
                assert(tree.leaves() =~= seq![leaf.symbol]);
                assert(leaf.symbol == symbol);
                assert((to - counts[symbol]) * 0 == 0);
            },
            HuffmanNode::Branch(branch) => {
                let first = *branch.links.0;
                let second = *branch.links.1;
                lemma_children_apart(tree);
                lemma_count_changed(counts, first, symbol, to);
                lemma_count_changed(counts, second, symbol, to);
                let delta = to - counts[symbol];
                if first.symbols().contains(symbol) {
                    assert(!second.symbols().contains(symbol));
                    assert(delta * (1 + depth(first, symbol)) == delta + delta * depth(
                        first,
                        symbol,
                    )) by (nonlinear_arith);
                } else {
                    assert(second.symbols().contains(symbol));
                    assert(delta * (1 + depth(second, symbol)) == delta + delta * depth(
                        second,
                        symbol,
                    )) by (nonlinear_arith);
                }
            },
        }
    }
}

/// The symbol that stands for `symbol` when `a` and `b` change places.
pub open spec fn swapped<T>(a: T, b: T, symbol: T) -> T {
    if symbol == a {
        b
    } else if symbol == b {
        a
    } else {
        symbol
    }
}

/// The tree in which the symbols `a` and `b` have changed places.
pub open spec fn relabel<T>(tree: HuffmanNode<T>, a: T, b: T) -> HuffmanNode<T>
    decreases tree,
{
    match tree {
        HuffmanNode::Leaf(leaf) => HuffmanNode::leaf(swapped(a, b, leaf.symbol)),
        HuffmanNode::Branch(branch) => HuffmanNode::branch(
            relabel(*branch.links.0, a, b),
            relabel(*branch.links.1, a, b),
        ),
    }
}

/// The leaves `p` and `q` hang side by side under one branch of the tree.
pub open spec fn side_by_side<T>(tree: HuffmanNode<T>, p: T, q: T) -> bool
    decreases tree,
{
    match tree {
        HuffmanNode::Leaf(_) => false,
        HuffmanNode::Branch(branch) => is_pair(tree, p, q) || side_by_side(
            *branch.links.0,
            p,
            q,
        ) || side_by_side(*branch.links.1, p, q),
    }
}

/// The tree is the branch over the two leaves `p` and `q`, in either order.
pub open spec fn is_pair<T>(tree: HuffmanNode<T>, p: T, q: T) -> bool {
    tree == HuffmanNode::branch(HuffmanNode::leaf(p), HuffmanNode::leaf(q)) || tree
        == HuffmanNode::branch(HuffmanNode::leaf(q), HuffmanNode::leaf(p))
}

/// Changing the places of two symbols keeps the shape of the tree: height,
/// depths, and which leaves hang side by side; it keeps each symbol at one
/// leaf; and it costs what the tree costs when the two counts change places
/// instead.
pub proof fn lemma_relabel<T>(counts: Map<T, nat>, tree: HuffmanNode<T>, a: T, b: T)
    requires
        tree.leaves().no_duplicates(),
    ensures
        relabel(tree, a, b).height() == tree.height(),
        relabel(tree, a, b).leaves().no_duplicates(),
        relabel(tree, a, b) is Branch <==> tree is Branch,
        forall|symbol: T|
            #[trigger] relabel(tree, a, b).symbols().contains(symbol) <==> tree.symbols().contains(
                swapped(a, b, symbol),
            ),
        forall|symbol: T|
            tree.symbols().contains(symbol) ==> #[trigger] depth(
                relabel(tree, a, b),
                swapped(a, b, symbol),
            ) == depth(tree, symbol),
        forall|p: T, q: T| #[trigger]
            side_by_side(tree, p, q) ==> side_by_side(
                relabel(tree, a, b),
                swapped(a, b, p),
                swapped(a, b, q),
            ),
        tree_weight(counts, relabel(tree, a, b)) == tree_weight(
            counts.insert(a, counts[b]).insert(b, counts[a]),
            tree,
        ),
        cost(counts, relabel(tree, a, b)) == cost(
            counts.insert(a, counts[b]).insert(b, counts[a]),
            tree,
        ),
    decreases tree,
{
    let other = relabel(tree, a, b);
    match tree {
        HuffmanNode::Leaf(leaf) => {
            assert(tree.leaves() =~= seq![leaf.symbol]);
            assert(other.leaves() =~= seq![swapped(a, b, leaf.symbol)]);
            assert forall|symbol: T| #[trigger]
                other.symbols().contains(symbol) <==> tree.symbols().contains(
                    swapped(a, b, symbol),
                ) by {
                assert(tree.leaves()[0] == leaf.symbol);
                assert(other.leaves()[0] == swapped(a, b, leaf.symbol));
            }
        },
        HuffmanNode::Branch(branch) => {
            let first = *branch.links.0;
            let second = *branch.links.1;
            let new_first = relabel(first, a, b);
            let new_second = relabel(second, a, b);
            lemma_children_apart(tree);
            lemma_relabel(counts, first, a, b);
            lemma_relabel(counts, second, a, b);
            lemma_branch_leaves(new_first, new_second);
            assert(other.leaves().no_duplicates()) by {
                assert forall|i: int, j: int|
                    0 <= i < new_first.leaves().len() && 0 <= j
                        < new_second.leaves().len() implies new_first.leaves()[i]
                    != new_second.leaves()[j] by {
                    let symbol = new_first.leaves()[i];
                    assert(new_first.symbols().contains(symbol));
                    if symbol == new_second.leaves()[j] {
                        assert(new_second.symbols().contains(symbol));
                        assert(first.symbols().contains(swapped(a, b, symbol)));
                        assert(second.symbols().contains(swapped(a, b, symbol)));
                    }
                }
                vstd::seq_lib::lemma_no_dup_in_concat(new_first.leaves(), new_second.leaves());
            }
            assert forall|symbol: T| #[trigger]
                other.symbols().contains(symbol) <==> tree.symbols().contains(
                    swapped(a, b, symbol),
                ) by {
                assert(other.symbols().contains(symbol) <==> (new_first.symbols().contains(symbol)
                    || new_second.symbols().contains(symbol)));
            }
            assert forall|symbol: T| tree.symbols().contains(symbol) implies #[trigger] depth(
                other,
                swapped(a, b, symbol),
            ) == depth(tree, symbol) by {
                let moved = swapped(a, b, symbol);
                assert(swapped(a, b, moved) == symbol);
                assert(*other->Branch_0.links.0 == new_first);
                assert(*other->Branch_0.links.1 == new_second);
                if first.symbols().contains(symbol) {
                    assert(new_first.symbols().contains(moved));
                    assert(depth(new_first, moved) == depth(first, symbol));
                } else {
                    assert(second.symbols().contains(symbol));
                    assert(new_second.symbols().contains(moved));
                    if new_first.symbols().contains(moved) {
                        assert(first.symbols().contains(swapped(a, b, moved)));
                        assert(false);
                    }
                    assert(depth(new_second, moved) == depth(second, symbol));
                }
            }
            assert forall|p: T, q: T| #[trigger] side_by_side(tree, p, q) implies side_by_side(
                other,
                swapped(a, b, p),
                swapped(a, b, q),
            ) by {
                assert(*other->Branch_0.links.0 == new_first);
                assert(*other->Branch_0.links.1 == new_second);
                if is_pair(tree, p, q) {
                    if tree == HuffmanNode::branch(HuffmanNode::leaf(p), HuffmanNode::leaf(q)) {
                        assert(first == HuffmanNode::leaf(p));
                        assert(second == HuffmanNode::leaf(q));
                        assert(new_first == HuffmanNode::leaf(swapped(a, b, p)));
                        assert(new_second == HuffmanNode::leaf(swapped(a, b, q)));
                    } else {
                        assert(first == HuffmanNode::leaf(q));
                        assert(second == HuffmanNode::leaf(p));
                        assert(new_first == HuffmanNode::leaf(swapped(a, b, q)));
                        assert(new_second == HuffmanNode::leaf(swapped(a, b, p)));
                    }
                    assert(is_pair(other, swapped(a, b, p), swapped(a, b, q)));
                } else if side_by_side(first, p, q) {
                    assert(side_by_side(new_first, swapped(a, b, p), swapped(a, b, q)));
                } else {
                    assert(side_by_side(second, p, q));
                    assert(side_by_side(new_second, swapped(a, b, p), swapped(a, b, q)));
                }
            }
        },
    }
}

/// No leaf lies deeper than the tree is high.
pub proof fn lemma_depth_within_height<T>(tree: HuffmanNode<T>, symbol: T)
    ensures
        depth(tree, symbol) <= tree.height(),
    decreases tree,
{
    match tree {
        HuffmanNode::Leaf(_) => {},
        HuffmanNode::Branch(branch) => {
            lemma_depth_within_height(*branch.links.0, symbol);
            lemma_depth_within_height(*branch.links.1, symbol);
        },
    }
}

/// Leaves that hang side by side are two different symbols of the tree.
pub proof fn lemma_side_by_side_symbols<T>(tree: HuffmanNode<T>, p: T, q: T)
    requires
        tree.leaves().no_duplicates(),
        side_by_side(tree, p, q),
    ensures
        tree.symbols().contains(p),
        tree.symbols().contains(q),
        p != q,
    decreases tree,
{
    let first = *tree->Branch_0.links.0;
    let second = *tree->Branch_0.links.1;
    lemma_children_apart(tree);
    if is_pair(tree, p, q) {
        lemma_leftmost_is_symbol(first);
        lemma_leftmost_is_symbol(second);
    } else if side_by_side(first, p, q) {
        lemma_side_by_side_symbols(first, p, q);
    } else {
        lemma_side_by_side_symbols(second, p, q);
    }
}

/// A tree with a branch has two leaves that hang side by side at its
/// greatest depth.
pub proof fn lemma_deepest_pair<T>(tree: HuffmanNode<T>) -> (pair: (T, T))
    requires
        tree is Branch,
        tree.leaves().no_duplicates(),
    ensures
        side_by_side(tree, pair.0, pair.1),
        depth(tree, pair.0) == tree.height(),
        depth(tree, pair.1) == tree.height(),
    decreases tree,
{
    let first = *tree->Branch_0.links.0;
    let second = *tree->Branch_0.links.1;
    lemma_children_apart(tree);
    if first is Leaf && second is Leaf {
        let p = first->Leaf_0.symbol;
        let q = second->Leaf_0.symbol;
        lemma_leftmost_is_symbol(first);
        lemma_leftmost_is_symbol(second);
        assert(is_pair(tree, p, q));
        assert(first.symbols().contains(p));
        assert(second.symbols().contains(q));
        assert(!first.symbols().contains(q));
        assert(first.height() == 0 && second.height() == 0);
        assert(depth(first, p) == 0 && depth(second, q) == 0);
        assert(tree.height() == 1);
        assert(depth(tree, p) == 1);
        assert(depth(tree, q) == 1);
        (p, q)
    } else if first is Branch && first.height() >= second.height() {
        let pair = lemma_deepest_pair(first);
        lemma_side_by_side_symbols(first, pair.0, pair.1);
        assert(tree.height() == 1 + first.height());
        assert(depth(tree, pair.0) == 1 + depth(first, pair.0));
        assert(depth(tree, pair.1) == 1 + depth(first, pair.1));
        pair
    } else {
        assert(second is Branch) by {
            if second is Leaf {
                assert(second.height() == 0);
            }
        }
        let pair = lemma_deepest_pair(second);
        lemma_side_by_side_symbols(second, pair.0, pair.1);
        assert(!first.symbols().contains(pair.0));
        assert(!first.symbols().contains(pair.1));
        assert(first.height() <= second.height()) by {
            if first is Leaf {
                assert(first.height() == 0);
            }
        }
        assert(tree.height() == 1 + second.height());
        assert(depth(tree, pair.0) == 1 + depth(second, pair.0));
        assert(depth(tree, pair.1) == 1 + depth(second, pair.1));
        pair
    }
}

/// The tree in which the pair of the leaves `a` and `b` has become the one
/// leaf `b`.
pub open spec fn collapse<T>(tree: HuffmanNode<T>, a: T, b: T) -> HuffmanNode<T>
    decreases tree,
{
    match tree {
        HuffmanNode::Leaf(_) => tree,
        HuffmanNode::Branch(branch) => if is_pair(tree, a, b) {
            HuffmanNode::leaf(b)
        } else {
            HuffmanNode::branch(
                collapse(*branch.links.0, a, b),
                collapse(*branch.links.1, a, b),
            )
        },
    }
}

/// A tree without the symbol `a` has no pair of `a` and `b` to collapse.
pub proof fn lemma_nothing_to_collapse<T>(tree: HuffmanNode<T>, a: T, b: T)
    requires
        !tree.symbols().contains(a),
    ensures
        collapse(tree, a, b) == tree,
    decreases tree,
{
    match tree {
        HuffmanNode::Leaf(_) => {},
        HuffmanNode::Branch(branch) => {
            let first = *branch.links.0;
            let second = *branch.links.1;
            lemma_branch_leaves(first, second);
            assert(tree == HuffmanNode::branch(first, second));
            lemma_leftmost_is_symbol(first);
            lemma_leftmost_is_symbol(second);
            assert(!first.symbols().contains(a)) by {
                if first.symbols().contains(a) {
                    assert(tree.symbols().contains(a));
                }
            }
            assert(!second.symbols().contains(a)) by {
                if second.symbols().contains(a) {
                    assert(tree.symbols().contains(a));
                }
            }
            lemma_nothing_to_collapse(first, a, b);
            lemma_nothing_to_collapse(second, a, b);
        },
    }
}

/// Collapsing the pair of `a` and `b` takes `a` out of the tree. With the
/// counts of both at `b`, the tree weighs what it weighed and costs what it
/// cost less the two counts.
pub proof fn lemma_collapse<T>(counts: Map<T, nat>, tree: HuffmanNode<T>, a: T, b: T)
    requires
        tree.leaves().no_duplicates(),
        a != b,
        side_by_side(tree, a, b),
    ensures
        collapse(tree, a, b).leaves().no_duplicates(),
        forall|symbol: T|
            #[trigger] collapse(tree, a, b).symbols().contains(symbol) <==> (
            tree.symbols().contains(symbol) && symbol != a),
        tree_weight(counts.insert(b, counts[a] + counts[b]), collapse(tree, a, b)) == tree_weight(
            counts,
            tree,
        ),
        cost(counts.insert(b, counts[a] + counts[b]), collapse(tree, a, b)) + counts[a] + counts[b]
            == cost(counts, tree),
    decreases tree,
{
    let merged = counts.insert(b, counts[a] + counts[b]);
    let small = collapse(tree, a, b);
    let first = *tree->Branch_0.links.0;
    let second = *tree->Branch_0.links.1;
    lemma_children_apart(tree);
    if is_pair(tree, a, b) {
        lemma_leftmost_is_symbol(first);
        lemma_leftmost_is_symbol(second);
        assert(small.leaves() =~= seq![b]);
        assert(small.leaves()[0] == b);
        assert(first.leaves() =~= seq![first.leftmost()]);
        assert(second.leaves() =~= seq![second.leftmost()]);
        assert(cost(counts, first) == 0 && cost(counts, second) == 0);
        assert(tree_weight(counts, first) + tree_weight(counts, second) == counts[a] + counts[b]);
        assert(cost(merged, small) == 0);
        assert(tree_weight(merged, small) == counts[a] + counts[b]);
        assert forall|symbol: T| #[trigger]
            small.symbols().contains(symbol) <==> (tree.symbols().contains(symbol) && symbol
                != a) by {
            if tree.symbols().contains(symbol) {
                if first.symbols().contains(symbol) {
                    assert(symbol == first.leftmost());
                } else {
                    assert(second.symbols().contains(symbol));
                    assert(symbol == second.leftmost());
                }
            }
        }
    } else {
        let inner = if side_by_side(first, a, b) {
            first
        } else {
            second
        };
        let outer = if side_by_side(first, a, b) {
            second
        } else {
            first
        };
        lemma_side_by_side_symbols(inner, a, b);
        lemma_collapse(counts, inner, a, b);
        assert(!outer.symbols().contains(a));
        assert(!outer.symbols().contains(b));
        lemma_nothing_to_collapse(outer, a, b);
        assert forall|symbol: T| #[trigger] outer.symbols().contains(symbol) implies counts[symbol]
            == merged[symbol] by {}
        lemma_cost_reads_own_counts(counts, merged, outer);
        let small_first = collapse(first, a, b);
        let small_second = collapse(second, a, b);
        lemma_branch_leaves(small_first, small_second);
        assert(small == HuffmanNode::branch(small_first, small_second));
        assert(cost(merged, small) == cost(merged, small_first) + cost(merged, small_second)
            + tree_weight(merged, small_first) + tree_weight(merged, small_second));
        assert(tree_weight(merged, small) == tree_weight(merged, small_first) + tree_weight(
            merged,
            small_second,
        ));
        assert(small.leaves().no_duplicates()) by {
            assert forall|i: int, j: int|
                0 <= i < small_first.leaves().len() && 0 <= j
                    < small_second.leaves().len() implies small_first.leaves()[i]
                != small_second.leaves()[j] by {
                let symbol = small_first.leaves()[i];
                assert(small_first.symbols().contains(symbol));
                if symbol == small_second.leaves()[j] {
                    assert(small_second.symbols().contains(symbol));
                }
            }
            vstd::seq_lib::lemma_no_dup_in_concat(small_first.leaves(), small_second.leaves());
        }
        assert forall|symbol: T| #[trigger]
            small.symbols().contains(symbol) <==> (tree.symbols().contains(symbol) && symbol
                != a) by {
            assert(small.symbols().contains(symbol) <==> (small_first.symbols().contains(symbol)
                || small_second.symbols().contains(symbol)));
        }
    }
}

/// Moving a symbol with a smaller count to a deeper leaf, and the symbol of
/// that leaf up in exchange, does not raise the cost.
pub proof fn lemma_swap_not_dearer<T>(counts: Map<T, nat>, tree: HuffmanNode<T>, a: T, x: T)
    requires
        tree.leaves().no_duplicates(),
        tree.symbols().contains(a),
        tree.symbols().contains(x),
        counts[a] <= counts[x],
        depth(tree, a) <= depth(tree, x),
    ensures
        cost(counts, relabel(tree, a, x)) <= cost(counts, tree),
{
    lemma_relabel(counts, tree, a, x);
    let raised = counts.insert(a, counts[x]);
    lemma_count_changed(counts, tree, a, counts[x]);
    lemma_count_changed(raised, tree, x, counts[a]);
    let gain = counts[x] - counts[a];
    let da = depth(tree, a) as int;
    let dx = depth(tree, x) as int;
    if a != x {
        assert(raised[x] == counts[x]);
        assert(gain * da + (-gain) * dx <= 0) by (nonlinear_arith)
            requires
                gain >= 0,
                0 <= da <= dx,
        ;
    } else {
        assert(gain == 0);
        assert(raised[x] == counts[a]);
        assert(0 * da == 0);
    }
}

/// The pair lemma: a tree in which the two symbols with the smallest counts
/// do not hang side by side costs no less than some tree in which they do.
/// Given with that pair collapsed: the tree `small` lacks `a` and costs, with
/// both counts at `b`, at most what `tree` costs less the two counts.
pub proof fn lemma_cheapest_as_pair<T>(counts: Map<T, nat>, tree: HuffmanNode<T>, a: T, b: T) -> (small:
    HuffmanNode<T>)
    requires
        tree.leaves().no_duplicates(),
        a != b,
        tree.symbols().contains(a),
        tree.symbols().contains(b),
        forall|symbol: T| #[trigger] tree.symbols().contains(symbol) ==> counts[a] <= counts[symbol],
        forall|symbol: T|
            #[trigger] tree.symbols().contains(symbol) && symbol != a ==> counts[b]
                <= counts[symbol],
    ensures
        small.leaves().no_duplicates(),
        forall|symbol: T|
            #[trigger] small.symbols().contains(symbol) <==> (tree.symbols().contains(symbol)
                && symbol != a),
        cost(counts.insert(b, counts[a] + counts[b]), small) + counts[a] + counts[b] <= cost(
            counts,
            tree,
        ),
{
    assert(tree is Branch) by {
        if tree is Leaf {
            assert(tree.leaves() =~= seq![tree->Leaf_0.symbol]);
        }
    }
    let pair = lemma_deepest_pair(tree);
    let x = pair.0;
    let y = pair.1;
    lemma_side_by_side_symbols(tree, x, y);
    lemma_depth_within_height(tree, a);
    lemma_swap_not_dearer(counts, tree, a, x);
    lemma_relabel(counts, tree, a, x);
    let first = relabel(tree, a, x);
    let z = swapped(a, x, y);
    assert(swapped(a, x, x) == a);
    assert(side_by_side(first, a, z));
    assert(depth(first, z) == depth(tree, y));
    assert forall|symbol: T| #[trigger]
        first.symbols().contains(symbol) <==> tree.symbols().contains(symbol) by {
        assert(first.symbols().contains(symbol) <==> tree.symbols().contains(
            swapped(a, x, symbol),
        ));
    }
    lemma_side_by_side_symbols(first, a, z);
    lemma_depth_within_height(first, b);
    lemma_swap_not_dearer(counts, first, b, z);
    lemma_relabel(counts, first, b, z);
    let second = relabel(first, b, z);
    assert(swapped(b, z, a) == a);
    assert(swapped(b, z, z) == b);
    assert(side_by_side(second, a, b));
    assert forall|symbol: T| #[trigger]
        second.symbols().contains(symbol) <==> tree.symbols().contains(symbol) by {
        assert(second.symbols().contains(symbol) <==> first.symbols().contains(
            swapped(b, z, symbol),
        ));
        assert(first.symbols().contains(swapped(b, z, symbol)) <==> tree.symbols().contains(
            swapped(b, z, symbol),
        ));
    }
    lemma_collapse(counts, second, a, b);
    collapse(second, a, b)
}

} // verus!
