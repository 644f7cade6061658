use crate::bits::{
    bits_of, bitvec_from_bytes, bitvec_len, bitvec_to_bytes, bitvec_truncate, pack_bits,
    unpack_bits,
};
use crate::huffman_tree::coding::encode_with;
use crate::huffman_tree::huffman_decoder::HuffmanDecoder;
use crate::huffman_tree::huffman_encoder::HuffmanEncoder;
use crate::huffman_tree::huffman_generator::{
    count_in, lemma_tally_bounds, tally, tally_onto, HuffmanGenerator,
};
use crate::huffman_tree::huffman_node::HuffmanNode;
use crate::huffman_tree::laws::{
    all_coded, lemma_codes_cover_leaves, lemma_encode_front, lemma_encoded_len_is_len,
};
use crate::huffman_tree::merge::huffman_tree;
use crate::symbol::lawful_symbols;
use crate::huffman_tree::tree_laws::lemma_tree_holds_alphabet;
use bit_vec::BitVec;
use std::hash::Hash;
use vstd::prelude::*;

verus! {

/// Why a container could not be made or read.
#[derive(PartialEq, Eq, Structural, Debug, Clone, Copy)]
pub enum CompressedError {
    /// There was no symbol to build a tree from.
    EmptyAlphabet,
    /// The encoding has more bits than a bit vector can hold.
    TooManyBits,
    /// The bit count is larger than the payload, or the payload is larger
    /// than a bit vector can hold.
    MalformedContainer,
}

/// A compressed symbol sequence that can be restored by itself: the tree, the
/// encoded bits packed into bytes, and the number of bits that count.
pub struct Compressed<T> {
    pub tree: HuffmanNode<T>,
    /// The bits, eight to a byte, most significant bit first, the last byte
    /// padded with zero bits.
    pub data: Vec<u8>,
    /// The number of bits of `data` that belong to the encoding.
    pub data_len: usize,
}

impl<T> Compressed<T> {
    /// The payload holds the counted bits, and a bit vector can hold the
    /// payload.
    pub open spec fn well_formed(self) -> bool {
        self.data_len <= 8 * self.data@.len() <= usize::MAX
    }

    /// The encoded bits: the bits of the payload without the padding.
    pub open spec fn bits(self) -> Seq<bool> {
        unpack_bits(self.data@).take(self.data_len as int)
    }

    /// Packs `bits` and puts them into a container with `tree`.
    pub fn pack(tree: HuffmanNode<T>, bits: &BitVec) -> (container: Compressed<T>)
        ensures
            container.tree == tree,
            container.data@ == pack_bits(bits_of(*bits)),
            container.data_len == bits_of(*bits).len(),
    {
        Compressed { tree, data: bitvec_to_bytes(bits), data_len: bitvec_len(bits) }
    }

    /// The encoded bits of the container, if it is well formed.
    pub fn unpack(&self) -> (bits: Option<BitVec>)
        ensures
            bits is Some <==> self.well_formed(),
            bits matches Some(bitvec) ==> bits_of(bitvec) == self.bits(),
    {
        if self.data.len() > usize::MAX / 8 {
            return None;
        }
        if self.data_len > 8 * self.data.len() {
            return None;
        }
        let mut bitvec = bitvec_from_bytes(self.data.as_slice());
        bitvec_truncate(&mut bitvec, self.data_len);
        assert(bits_of(bitvec) =~= self.bits());
        Some(bitvec)
    }
}

impl<T: Eq + Hash + Clone + Ord> Compressed<T> {
    /// Compresses `symbols`: counts them, builds the tree of the counts,
    /// encodes the symbols with it and packs the bits.
    pub fn compress(symbols: &[T]) -> (result: Result<Compressed<T>, CompressedError>)
        requires
            lawful_symbols::<T>(),
        ensures
            result == Err::<Compressed<T>, CompressedError>(CompressedError::EmptyAlphabet)
                <==> symbols@.len() == 0,
            symbols@.len() > 0 ==> {
                let tree = huffman_tree(tally(symbols@))->Some_0;
                let bits = encode_with(tree.codes(), symbols@)->Ok_0;
                &&& huffman_tree(tally(symbols@)) is Some
                &&& encode_with(tree.codes(), symbols@) is Ok
                &&& result is Ok <==> bits.len() <= usize::MAX
                &&& result matches Ok(container) ==> container.tree == tree && container.data@
                    == pack_bits(bits) && container.data_len == bits.len()
                &&& result matches Err(error) ==> error == CompressedError::TooManyBits
            },
    {
        let mut generator = HuffmanGenerator::new();
        let count = symbols.len();
        proof {
            assert(symbols@.len() == count);
            lemma_tally_bounds(symbols@);
            symbols@.lemma_cardinality_of_set();
            assert forall|symbol: T| count_in(tally_onto(generator@, symbols@), symbol)
                <= usize::MAX by {
                assert(count_in(tally(symbols@), symbol) <= symbols@.len());
            }
            if symbols@.len() > 0 {
                assert(symbols@.to_set().contains(symbols@[0]));
                lemma_tree_holds_alphabet(tally(symbols@));
            } else {
                assert(tally(symbols@).dom() =~= Set::<T>::empty());
            }
        }
        generator.add_occurences_from_iterator(symbols);
        let root = match generator.into_huffman_tree() {
            Some(root) => root,
            None => {
                return Err(CompressedError::EmptyAlphabet);
            },
        };
        let tree = HuffmanNode::from(root);
        let encoder = HuffmanEncoder::from_tree(&tree);
        let fits = encoder.bit_count(symbols).is_some();
        proof {
            lemma_codes_cover_leaves(tree, Seq::empty());
            assert(all_coded(tree.codes(), symbols@)) by {
                assert forall|i: int| 0 <= i < symbols@.len() implies tree.codes().contains_key(
                    #[trigger] symbols@[i],
                ) by {
                    assert(symbols@.to_set().contains(symbols@[i]));
                }
            }
            lemma_encode_front(tree.codes(), symbols@);
            lemma_encoded_len_is_len(tree.codes(), symbols@);
        }
        if !fits {
            return Err(CompressedError::TooManyBits);
        }
        match encoder.encode(symbols) {
            Ok(bits) => Ok(Compressed::pack(tree, &bits)),
            Err(_) => Err(CompressedError::TooManyBits),
        }
    }

    /// Restores the symbols of a container: unpacks the bits and decodes them
    /// with the tree.
    pub fn decompress(self) -> (result: Result<Vec<T>, CompressedError>)
        requires
            lawful_symbols::<T>(),
        ensures
            result is Ok <==> self.well_formed(),
            result matches Ok(symbols) ==> symbols@ == self.tree.decode(self.bits()),
            result matches Err(error) ==> error == CompressedError::MalformedContainer,
    {
        let bits = match self.unpack() {
            Some(bits) => bits,
            None => {
                return Err(CompressedError::MalformedContainer);
            },
        };
        let decoder = HuffmanDecoder::new(self.tree);
        Ok(decoder.decode_unbounded(&bits))
    }
}

} // verus!
