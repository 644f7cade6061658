use crate::bits::{bits_of, bitvec_append, bitvec_clone, bitvec_len, bitvec_new, bitvec_push};
use crate::huffman_tree::coding::{encode_with, encoded_len};
use crate::huffman_tree::huffman_generator::{
    count_in, lemma_tally_bounds, tally, tally_onto, HuffmanGenerator,
};
use crate::huffman_tree::huffman_node::HuffmanNode;
use crate::huffman_tree::merge::huffman_tree;
use crate::symbol::lawful_symbols;
use crate::huffman_tree::tree_laws::lemma_tree_holds_alphabet;
use bit_vec::BitVec;
use std::collections::HashMap;
use std::hash::Hash;
use vstd::prelude::*;

verus! {

/// A codeword: the bits on the way from the root to a leaf.
pub struct HuffmanCode {
    code: BitVec,
}

impl View for HuffmanCode {
    type V = Seq<bool>;

    /// The bits of the codeword, the bit next to the root first.
    closed spec fn view(&self) -> Seq<bool> {
        bits_of(self.code)
    }
}

impl Clone for HuffmanCode {
    fn clone(&self) -> (copy: Self)
        ensures
            copy@ == self@,
    {
        HuffmanCode { code: bitvec_clone(&self.code) }
    }
}

impl HuffmanCode {
    /// The empty codeword.
    pub fn new() -> (code: HuffmanCode)
        ensures
            code@ == Seq::<bool>::empty(),
    {
        HuffmanCode { code: bitvec_new() }
    }

    /// Puts one more bit at the end of the codeword.
    pub fn append_bit(&mut self, bit: bool)
        requires
            old(self)@.len() < usize::MAX,
        ensures
            final(self)@ == old(self)@.push(bit),
    {
        bitvec_push(&mut self.code, bit);
    }

    /// Puts the bits of the codeword at the end of `bitvec`.
    pub fn append_code_to_bitvec(&self, bitvec: &mut BitVec)
        requires
            bits_of(*old(bitvec)).len() + self@.len() <= usize::MAX,
        ensures
            bits_of(*final(bitvec)) == bits_of(*old(bitvec)) + self@,
    {
        let mut copy = bitvec_clone(&self.code);
        bitvec_append(bitvec, &mut copy);
    }

    /// The number of bits of the codeword.
    pub fn len(&self) -> (n: usize)
        ensures
            n == self@.len(),
    {
        bitvec_len(&self.code)
    }

    /// The bits of the codeword, in a bit vector of their own.
    pub fn to_bitvec(&self) -> (bitvec: BitVec)
        ensures
            bits_of(bitvec) == self@,
    {
        bitvec_clone(&self.code)
    }
}

/// Holds the codeword of each symbol of a tree, and encodes symbol sequences
/// with them.
pub struct HuffmanEncoder<T: Eq + Hash + Clone + Ord> {
    symbols: HashMap<T, HuffmanCode>,
}

impl<T: Eq + Hash + Clone + Ord> View for HuffmanEncoder<T> {
    type V = Map<T, Seq<bool>>;

    /// The codeword of each symbol that has one.
    closed spec fn view(&self) -> Map<T, Seq<bool>> {
        self.symbols@.map_values(|code: HuffmanCode| code@)
    }
}

impl<T: Eq + Hash + Clone + Ord> HuffmanEncoder<T> {
    /// The encoder for the tree that is built from the counts of the symbols
    /// in `symbols`. With no symbols there is no tree and no encoder.
    pub fn from_symbols_iterator(symbols: &[T]) -> (result: Result<
        HuffmanEncoder<T>,
        &'static str,
    >)
        requires
            lawful_symbols::<T>(),
        ensures
            result is Err <==> symbols@.len() == 0,
            result matches Ok(encoder) ==> huffman_tree(tally(symbols@)) matches Some(tree)
                && encoder@ == tree.codes(),
            result matches Err(message) ==> message@ == "One or fewer symbols were provided"@,
    {
        let mut huffman_generator = HuffmanGenerator::new();
        let count = symbols.len();
        proof {
            assert(symbols@.len() == count);
            lemma_tally_bounds(symbols@);
            symbols@.lemma_cardinality_of_set();
            assert forall|symbol: T| count_in(
                tally_onto(huffman_generator@, symbols@),
                symbol,
            ) <= usize::MAX by {
                assert(count_in(tally(symbols@), symbol) <= symbols@.len());
            }
            if symbols@.len() > 0 {
                assert(symbols@.to_set().contains(symbols@[0]));
                lemma_tree_holds_alphabet(tally(symbols@));
            } else {
                assert(tally(symbols@).dom() =~= Set::<T>::empty());
            }
        }
        huffman_generator.add_occurences_from_iterator(symbols);
        match huffman_generator.into_huffman_tree() {
            Some(root) => {
                let tree = HuffmanNode::from(root);
                Ok(HuffmanEncoder::from_tree(&tree))
            },
            None => Err("One or fewer symbols were provided"),
        }
    }

    /// The encoder with the codewords of `tree`: the way to the first child
    /// adds bit `0`, the way to the second adds bit `1`.
    pub fn from_tree(tree: &HuffmanNode<T>) -> (encoder: HuffmanEncoder<T>)
        requires
            lawful_symbols::<T>(),
            tree.height() < usize::MAX,
        ensures
            encoder@ == tree.codes(),
    {
        let mut map: HashMap<T, HuffmanCode> = HashMap::new();
        Self::visit_tree(tree, HuffmanCode::new(), &mut map);
        let encoder = HuffmanEncoder { symbols: map };
        assert(encoder@ =~= tree.codes());
        encoder
    }

    /// Enters the codeword of each leaf under `tree` into `symbols`, where
    /// `current_prefix` is the way to `tree`.
    fn visit_tree(
        tree: &HuffmanNode<T>,
        current_prefix: HuffmanCode,
        symbols: &mut HashMap<T, HuffmanCode>,
    )
        requires
            lawful_symbols::<T>(),
            current_prefix@.len() + tree.height() < usize::MAX,
        ensures
            final(symbols)@.map_values(|code: HuffmanCode| code@) == old(symbols)@.map_values(
                |code: HuffmanCode| code@,
            ).union_prefer_right(tree.codes_under(current_prefix@)),
        decreases *tree,
    {
        broadcast use vstd::std_specs::hash::group_hash_axioms;

        let mut current_prefix = current_prefix;
        match tree {
            HuffmanNode::Leaf(leaf) => {
                let symbol = leaf.symbol.clone();
                assert(cloned::<T>(leaf.symbol, symbol));
                symbols.insert(symbol, current_prefix);
                assert(symbols@.map_values(|code: HuffmanCode| code@) =~= old(
                    symbols,
                )@.map_values(|code: HuffmanCode| code@).union_prefer_right(
                    tree.codes_under(current_prefix@),
                ));
            },
            HuffmanNode::Branch(branch) => {
                let ghost prefix = current_prefix@;
                let mut left_prefix = current_prefix.clone();
                left_prefix.append_bit(false);
                current_prefix.append_bit(true);
                Self::visit_tree(&branch.links.0, left_prefix, symbols);
                Self::visit_tree(&branch.links.1, current_prefix, symbols);
                assert(symbols@.map_values(|code: HuffmanCode| code@) =~= old(
                    symbols,
                )@.map_values(|code: HuffmanCode| code@).union_prefer_right(
                    tree.codes_under(prefix),
                ));
            },
        }
    }

    /// The number of bits that `encode` needs for `symbols`, if a bit vector
    /// can hold that many. Symbols without a codeword count for nothing.
    pub fn bit_count(&self, symbols: &[T]) -> (count: Option<usize>)
        requires
            lawful_symbols::<T>(),
        ensures
            count is Some <==> encoded_len(self@, symbols@) <= usize::MAX,
            count matches Some(n) ==> n == encoded_len(self@, symbols@),
    {
        broadcast use vstd::std_specs::hash::group_hash_axioms;

        let mut total: usize = 0;
        let mut i: usize = 0;
        assert(symbols@.take(0) =~= Seq::<T>::empty());
        while i < symbols.len()
            invariant
                lawful_symbols::<T>(),
                i <= symbols@.len(),
                total == encoded_len(self@, symbols@.take(i as int)),
            decreases symbols@.len() - i,
        {
            proof {
                assert(symbols@.take(i + 1).drop_last() =~= symbols@.take(i as int));
                assert(symbols@.take(i + 1).last() == symbols@[i as int]);
                lemma_encoded_len_grows(self@, symbols@, i + 1);
            }
            if let Some(code) = self.symbols.get(&symbols[i]) {
                let len = code.len();
                if len > usize::MAX - total {
                    return None;
                }
                total = total + len;
            }
            i = i + 1;
        }
        assert(symbols@.take(i as int) =~= symbols@);
        Some(total)
    }

    /// Encodes `symbols`: the codewords of the symbols, one after the other.
    /// The first symbol without a codeword ends the encoding and is handed
    /// back; no bits come back then.
    pub fn encode(&self, symbols: &[T]) -> (result: Result<BitVec, T>)
        requires
            lawful_symbols::<T>(),
            encoded_len(self@, symbols@) <= usize::MAX,
        ensures
            match encode_with(self@, symbols@) {
                Ok(bits) => result matches Ok(bitvec) && bits_of(bitvec) == bits,
                Err(symbol) => result == Err::<BitVec, T>(symbol),
            },
    {
        broadcast use vstd::std_specs::hash::group_hash_axioms;

        let mut bitvec = bitvec_new();
        let mut i: usize = 0;
        assert(symbols@.take(0) =~= Seq::<T>::empty());
        while i < symbols.len()
            invariant
                lawful_symbols::<T>(),
                i <= symbols@.len(),
                encoded_len(self@, symbols@) <= usize::MAX,
                encode_with(self@, symbols@.take(i as int)) == Ok::<Seq<bool>, T>(bits_of(bitvec)),
                bits_of(bitvec).len() == encoded_len(self@, symbols@.take(i as int)),
            decreases symbols@.len() - i,
        {
            let symbol = &symbols[i];
            proof {
                assert(symbols@.take(i + 1).drop_last() =~= symbols@.take(i as int));
                assert(symbols@.take(i + 1).last() == *symbol);
                lemma_encoded_len_grows(self@, symbols@, i + 1);
            }
            if let Some(code) = self.symbols.get(symbol) {
                code.append_code_to_bitvec(&mut bitvec);
            } else {
                let offender = symbol.clone();
                assert(cloned::<T>(*symbol, offender));
                proof {
                    lemma_encode_error_stays(self@, symbols@, i + 1);
                }
                return Err(offender);
            }
            i = i + 1;
        }
        assert(symbols@.take(i as int) =~= symbols@);
        Ok(bitvec)
    }
}

/// A longer start of a symbol sequence takes no fewer bits.
pub proof fn lemma_encoded_len_grows<T>(codes: Map<T, Seq<bool>>, symbols: Seq<T>, n: int)
    requires
        0 <= n <= symbols.len(),
    ensures
        encoded_len(codes, symbols.take(n)) <= encoded_len(codes, symbols),
    decreases symbols.len() - n,
{
    if n == symbols.len() {
        assert(symbols.take(n) =~= symbols);
    } else {
        lemma_encoded_len_grows(codes, symbols, n + 1);
        assert(symbols.take(n + 1).drop_last() =~= symbols.take(n));
    }
}

/// Once a start of a symbol sequence fails to encode, the whole sequence
/// fails with the same symbol.
pub proof fn lemma_encode_error_stays<T>(codes: Map<T, Seq<bool>>, symbols: Seq<T>, n: int)
    requires
        0 <= n <= symbols.len(),
        encode_with(codes, symbols.take(n)) is Err,
    ensures
        encode_with(codes, symbols) == encode_with(codes, symbols.take(n)),
    decreases symbols.len() - n,
{
    if n == symbols.len() {
        assert(symbols.take(n) =~= symbols);
    } else {
        assert(symbols.take(n + 1).drop_last() =~= symbols.take(n));
        lemma_encode_error_stays(codes, symbols, n + 1);
    }
}

} // verus!
