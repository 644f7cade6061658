use crate::huffman_tree::forest::{
    distinct_leftmost, forest_trees, lemma_trees_len, lemma_trees_push, lemma_weight_push,
    weight_total, weights_match,
};
use crate::huffman_tree::heap::{heap_from, heap_ordered, heap_pop, heap_push};
use crate::huffman_tree::huffman_decoder::HuffmanDecoder;
use crate::huffman_tree::huffman_element::WeightedHuffmanNode;
use crate::huffman_tree::huffman_encoder::HuffmanEncoder;
use crate::huffman_tree::huffman_node::HuffmanNode;
use crate::huffman_tree::merge::{huffman_tree, initial_forest, merge_all, merge_step, tree_weight};
use crate::huffman_tree::tree_laws::{lemma_branch_leaves, lemma_tree_holds_alphabet};
use crate::symbol::lawful_symbols;
use std::collections::HashMap;
use std::hash::Hash;
use vstd::prelude::*;
use vstd::std_specs::iter::IteratorSpec;

verus! {

/// The count that `counts` holds for `symbol`: zero where it holds none.
pub open spec fn count_in<T>(counts: Map<T, nat>, symbol: T) -> nat {
    if counts.contains_key(symbol) {
        counts[symbol]
    } else {
        0
    }
}

/// The counts after `occurences` more of `symbol` have been added.
pub open spec fn add_count<T>(counts: Map<T, nat>, symbol: T, occurences: nat) -> Map<T, nat> {
    counts.insert(symbol, count_in(counts, symbol) + occurences)
}

/// The counts after each symbol of `symbols` has been added once.
pub open spec fn tally_onto<T>(counts: Map<T, nat>, symbols: Seq<T>) -> Map<T, nat>
    decreases symbols.len(),
{
    if symbols.len() == 0 {
        counts
    } else {
        add_count(tally_onto(counts, symbols.drop_last()), symbols.last(), 1)
    }
}

/// How often each symbol occurs in `symbols`.
pub open spec fn tally<T>(symbols: Seq<T>) -> Map<T, nat> {
    tally_onto(Map::empty(), symbols)
}

/// Counting more symbols lowers no count.
pub proof fn lemma_tally_grows<T>(counts: Map<T, nat>, symbols: Seq<T>, n: int, symbol: T)
    requires
        0 <= n <= symbols.len(),
    ensures
        count_in(tally_onto(counts, symbols.take(n)), symbol) <= count_in(
            tally_onto(counts, symbols),
            symbol,
        ),
    decreases symbols.len() - n,
{
    if n == symbols.len() {
        assert(symbols.take(n) =~= symbols);
    } else {
        lemma_tally_grows(counts, symbols, n + 1, symbol);
        assert(symbols.take(n + 1).drop_last() =~= symbols.take(n));
    }
}

/// A tally holds exactly the symbols that occur, and counts none more often
/// than the sequence is long.
pub proof fn lemma_tally_bounds<T>(symbols: Seq<T>)
    ensures
        tally(symbols).dom() == symbols.to_set(),
        tally(symbols).dom().finite(),
        forall|symbol: T| count_in(tally(symbols), symbol) <= symbols.len(),
    decreases symbols.len(),
{
    if symbols.len() == 0 {
        assert(tally(symbols).dom() =~= symbols.to_set());
    } else {
        let front = symbols.drop_last();
        lemma_tally_bounds(front);
        assert forall|symbol: T|
            tally(symbols).dom().contains(symbol) == symbols.to_set().contains(symbol) by {
            if symbols.to_set().contains(symbol) {
                let i = choose|i: int| 0 <= i < symbols.len() && symbols[i] == symbol;
                if i < front.len() {
                    assert(front[i] == symbol);
                    assert(front.to_set().contains(symbol));
                }
            }
            if front.to_set().contains(symbol) {
                let i = choose|i: int| 0 <= i < front.len() && front[i] == symbol;
                assert(symbols[i] == symbol);
            }
            if symbol == symbols.last() {
                assert(symbols[symbols.len() - 1] == symbol);
            }
        }
        assert(tally(symbols).dom() =~= symbols.to_set());
        assert forall|symbol: T| count_in(tally(symbols), symbol) <= symbols.len() by {
            assert(count_in(tally(front), symbol) <= front.len());
        }
    }
    vstd::seq_lib::seq_to_set_is_finite(symbols);
}

/// The frequency table: how often each symbol occurs. It is filled by adding
/// occurrences and is used up when the tree is built from it.
#[derive(PartialEq, Eq, Debug)]
pub struct HuffmanGenerator<T> where T: Eq + Hash + Clone + Ord {
    symbols: HashMap<T, usize>,
}

impl<T> View for HuffmanGenerator<T> where T: Eq + Hash + Clone + Ord {
    type V = Map<T, nat>;

    /// The count of each symbol that has one.
    closed spec fn view(&self) -> Map<T, nat> {
        self.symbols@.map_values(|count: usize| count as nat)
    }
}

impl<T> HuffmanGenerator<T> where T: Eq + Hash + Clone + Ord {
    /// The empty table.
    pub fn new() -> (generator: HuffmanGenerator<T>)
        ensures
            generator@ == Map::<T, nat>::empty(),
    {
        let generator = HuffmanGenerator { symbols: HashMap::new() };
        assert(generator@ =~= Map::<T, nat>::empty());
        generator
    }

    /// The count held for `symbol`, if it has one.
    pub fn occurences_of(&self, symbol: &T) -> (count: Option<usize>)
        requires
            lawful_symbols::<T>(),
        ensures
            count matches Some(n) ==> self@.contains_key(*symbol) && self@[*symbol] == n,
            count is None ==> !self@.contains_key(*symbol),
    {
        broadcast use vstd::std_specs::hash::group_hash_axioms;

        match self.symbols.get(symbol) {
            Some(count) => Some(*count),
            None => None,
        }
    }

    /// Adds `occurences` to the count of `symbol`, which starts at zero.
    /// Calls add up, in whatever order they come.
    pub fn add_occurences_to_symbol(&mut self, symbol: &T, occurences: usize)
        requires
            lawful_symbols::<T>(),
            count_in(old(self)@, *symbol) + occurences <= usize::MAX,
        ensures
            final(self)@ == add_count(old(self)@, *symbol, occurences as nat),
    {
        broadcast use vstd::std_specs::hash::group_hash_axioms;

        let key = symbol.clone();
        assert(cloned::<T>(*symbol, key));
        let count = match self.symbols.get(symbol) {
            Some(count) => *count + occurences,
            None => occurences,
        };
        self.symbols.insert(key, count);
        assert(self@ =~= add_count(old(self)@, *symbol, occurences as nat));
    }

    /// One weighted leaf for each symbol of the table, in no particular
    /// order.
    fn weighted_leaves(&self) -> (forest: Vec<WeightedHuffmanNode<T>>)
        requires
            lawful_symbols::<T>(),
        ensures
            forest@.len() == self@.dom().len(),
            self@.dom().finite(),
            forest_trees(forest@) == initial_forest(self@),
            distinct_leftmost(forest@),
            weights_match(self@, forest@),
            weight_total(forest@) <= forest@.len() * 0xFFFF_FFFF_FFFF_FFFF,
    {
        broadcast use vstd::std_specs::hash::group_hash_axioms;

        let mut forest: Vec<WeightedHuffmanNode<T>> = Vec::new();
        let ghost entries = self.symbols.iter().remaining();
        for entry in it: self.symbols.iter()
            invariant
                lawful_symbols::<T>(),
                it.seq() == entries,
                forest@.len() == it.index(),
                forall|i: int|
                    0 <= i < forest@.len() ==> (#[trigger] forest@[i]).tree() == HuffmanNode::leaf(
                        *entries[i].0,
                    ) && forest@[i].weight() == *entries[i].1,
                weight_total(forest@) <= forest@.len() * 0xFFFF_FFFF_FFFF_FFFF,
        {
            let symbol = entry.0.clone();
            assert(cloned::<T>(*entry.0, symbol));
            let leaf = WeightedHuffmanNode::into_leaf(symbol, *entry.1);
            proof {
                lemma_weight_push(forest@, leaf);
            }
            forest.push(leaf);
        }
        proof {
            let counts = self@;
            assert forall|i: int, j: int|
                0 <= i < forest@.len() && 0 <= j < forest@.len() && i != j implies (
            #[trigger] forest@[i]).tree().leftmost() != (#[trigger] forest@[j]).tree().leftmost() by {
                assert(self.symbols@.contains_key(*entries[i].0));
                assert(self.symbols@.contains_key(*entries[j].0));
                if *entries[i].0 == *entries[j].0 {
                    assert(entries[i] == entries[j]);
                }
            }
            assert forall|i: int| 0 <= i < forest@.len() implies (#[trigger] forest@[i]).weight()
                == tree_weight(counts, forest@[i].tree()) by {
                assert(self.symbols@.contains_key(*entries[i].0));
            }
            assert forall|tree: HuffmanNode<T>|
                forest_trees(forest@).contains(tree) == initial_forest(counts).contains(tree) by {
                if forest_trees(forest@).contains(tree) {
                    let i = choose|i: int|
                        0 <= i < forest@.len() && (#[trigger] forest@[i]).tree() == tree;
                    assert(self.symbols@.contains_key(*entries[i].0));
                    assert(counts.contains_key(*entries[i].0));
                    assert(tree == HuffmanNode::leaf(*entries[i].0));
                }
                if initial_forest(counts).contains(tree) {
                    let symbol = choose|symbol: T|
                        counts.contains_key(symbol) && tree == #[trigger] HuffmanNode::leaf(symbol);
                    assert(self.symbols@.contains_key(symbol));
                    assert(entries.contains((&symbol, &self.symbols@[symbol])));
                    let i = choose|i: int|
                        0 <= i < entries.len() && entries[i] == (&symbol, &self.symbols@[symbol]);
                    assert(forest@[i].tree() == tree);
                }
            }
            assert(forest_trees(forest@) =~= initial_forest(counts));
            assert(counts.dom() =~= self.symbols@.dom());
        }
        forest
    }

    /// Builds the Huffman tree of the table, each node with its weight: the
    /// two nodes that sort lowest are merged, the second lowest as first
    /// child, until one node is left. An empty table has no tree; a table of
    /// one symbol has a single leaf. `HuffmanNode::from` drops the weights.
    pub fn into_huffman_tree(self) -> (root: Option<WeightedHuffmanNode<T>>)
        requires
            lawful_symbols::<T>(),
        ensures
            root is None <==> self@.dom().is_empty(),
            root matches Some(node) ==> {
                &&& huffman_tree(self@) == Some(node.tree())
                &&& node.weighed(self@)
                &&& node.tree().leaves().no_duplicates()
                &&& node.tree().symbols() == self@.dom()
                &&& node is Leaf <==> self@.dom().len() == 1
                &&& node.tree().height() < self@.dom().len() <= usize::MAX
            },
    {
        broadcast use vstd::std_specs::hash::group_hash_axioms;

        let leaves = self.weighted_leaves();
        proof {
            if !self@.dom().is_empty() {
                lemma_tree_holds_alphabet(self@);
                let tree = huffman_tree(self@)->Some_0;
                if tree is Branch {
                    lemma_branch_leaves(*tree->Branch_0.links.0, *tree->Branch_0.links.1);
                    assert(tree == HuffmanNode::branch(
                        *tree->Branch_0.links.0,
                        *tree->Branch_0.links.1,
                    ));
                } else {
                    assert(tree.leaves() =~= seq![tree->Leaf_0.symbol]);
                }
            }
        }
        if leaves.len() == 0 {
            proof {
                assert(self@.dom().len() == 0);
                assert(self@.dom().is_empty());
            }
            return None;
        }
        assert(!self@.dom().is_empty());
        let ghost counts = self@;
        let ghost bound = leaves@.len() * 0xFFFF_FFFF_FFFF_FFFF;
        assert(bound <= u128::MAX) by (nonlinear_arith)
            requires
                bound == leaves@.len() * 0xFFFF_FFFF_FFFF_FFFF,
                leaves@.len() <= 0xFFFF_FFFF_FFFF_FFFF,
        ;
        let mut forest = heap_from(leaves, Ghost(counts));
        while forest.len() > 1
            invariant
                lawful_symbols::<T>(),
                forest@.len() >= 1,
                heap_ordered(forest@),
                distinct_leftmost(forest@),
                weights_match(counts, forest@),
                weight_total(forest@) <= bound,
                bound <= u128::MAX,
                merge_all(counts, forest_trees(forest@)) == merge_all(
                    counts,
                    initial_forest(counts),
                ),
            decreases forest@.len(),
        {
            let ghost before = forest@;
            let lower = heap_pop(&mut forest, Ghost(counts));
            let greater = heap_pop(&mut forest, Ghost(counts));
            let ghost others = forest@;
            let branch = WeightedHuffmanNode::into_branch(greater, lower);
            proof {
                lemma_trees_push(others, branch);
                lemma_weight_push(others, branch);
                let merged = others.push(branch);
                assert(branch.tree().leftmost() == greater.tree().leftmost());
                assert(distinct_leftmost(merged)) by {
                    assert forall|i: int, j: int|
                        0 <= i < merged.len() && 0 <= j < merged.len() && i != j implies (
                    #[trigger] merged[i]).tree().leftmost() != (
                    #[trigger] merged[j]).tree().leftmost() by {
                        if i < others.len() {
                            assert(merged[i] == others[i]);
                        }
                        if j < others.len() {
                            assert(merged[j] == others[j]);
                        }
                    }
                }
                assert(weights_match(counts, merged)) by {
                    assert forall|i: int| 0 <= i < merged.len() implies (
                    #[trigger] merged[i]).weight() == tree_weight(counts, merged[i].tree()) by {
                        if i < others.len() {
                            assert(merged[i] == others[i]);
                        }
                    }
                }
                assert(forest_trees(merged) == merge_step(counts, forest_trees(before)));
                lemma_trees_len(before);
                lemma_trees_len(merged);
            }
            heap_push(&mut forest, branch, Ghost(counts));
            proof {
                lemma_trees_len(forest@);
            }
        }
        let ghost single = forest@;
        let root = forest.remove(0);
        proof {
            assert(single =~= seq![root]);
            let last = forest_trees(seq![root]);
            lemma_trees_len(seq![root]);
            assert(merge_all(counts, last) == last.choose());
            assert(root.weight() == single[0].weight());
            assert(seq![root][0].tree() == root.tree());
            assert(last.contains(root.tree()));
            assert(last.contains(last.choose()));
            assert(last.choose() == root.tree()) by {
                let i = choose|i: int|
                    0 <= i < seq![root].len() && (#[trigger] seq![root][i]).tree() == last.choose();
            }
        }
        Some(root)
    }

    /// Builds the Huffman tree of the table and gives the encoder and the
    /// decoder for it. An empty table has neither.
    pub fn into_encoder_decoder_pair(self) -> (pair: Option<
        (HuffmanEncoder<T>, HuffmanDecoder<T>),
    >)
        requires
            lawful_symbols::<T>(),
        ensures
            pair is None <==> self@.dom().is_empty(),
            pair matches Some((encoder, decoder)) ==> huffman_tree(self@) == Some(decoder.tree())
                && encoder@ == decoder.tree().codes(),
    {
        broadcast use vstd::std_specs::hash::group_hash_axioms;

        let count = self.symbols.len();
        proof {
            assert(self@.dom() =~= self.symbols@.dom());
            assert(self@.dom().len() == count);
            if !self@.dom().is_empty() {
                lemma_tree_holds_alphabet(self@);
            }
        }
        match self.into_huffman_tree() {
            None => None,
            Some(root) => {
                let tree = HuffmanNode::from(root);
                let encoder = HuffmanEncoder::from_tree(&tree);
                Some((encoder, HuffmanDecoder::new(tree)))
            },
        }
    }

    /// Ends the counting and hands out the count of each symbol. An empty
    /// table gives an empty map.
    pub fn finalize(self) -> (counts: HashMap<T, usize>)
        ensures
            counts@.dom() == self@.dom(),
            forall|symbol: T| self@.contains_key(symbol) ==> counts@[symbol] == self@[symbol],
    {
        assert(self@.dom() =~= self.symbols@.dom());
        self.symbols
    }

    /// Adds one occurrence for each symbol of `symbols`, in their order.
    pub fn add_occurences_from_iterator(&mut self, symbols: &[T])
        requires
            lawful_symbols::<T>(),
            forall|symbol: T| count_in(tally_onto(old(self)@, symbols@), symbol) <= usize::MAX,
        ensures
            final(self)@ == tally_onto(old(self)@, symbols@),
    {
        let mut i: usize = 0;
        assert(symbols@.take(0) =~= Seq::<T>::empty());
        while i < symbols.len()
            invariant
                lawful_symbols::<T>(),
                i <= symbols@.len(),
                forall|symbol: T| count_in(tally_onto(old(self)@, symbols@), symbol) <= usize::MAX,
                self@ == tally_onto(old(self)@, symbols@.take(i as int)),
            decreases symbols@.len() - i,
        {
            proof {
                assert(symbols@.take(i + 1).drop_last() =~= symbols@.take(i as int));
                assert(symbols@.take(i + 1).last() == symbols@[i as int]);
                lemma_tally_grows(old(self)@, symbols@, i + 1, symbols@[i as int]);
            }
            self.add_occurences_to_symbol(&symbols[i], 1);
            i = i + 1;
        }
        assert(symbols@.take(i as int) =~= symbols@);
    }

    /// The same as `add_occurences_to_symbol`.
    pub fn add_occurences(&mut self, symbol: &T, occurences: usize)
        requires
            lawful_symbols::<T>(),
            count_in(old(self)@, *symbol) + occurences <= usize::MAX,
        ensures
            final(self)@ == add_count(old(self)@, *symbol, occurences as nat),
    {
        self.add_occurences_to_symbol(symbol, occurences)
    }
}

} // verus!
