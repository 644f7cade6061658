use crate::bits::{bits_of, bitvec_get, bitvec_len};
use crate::huffman_tree::huffman_node::HuffmanNode;
use crate::symbol::lawful_clone;
use bit_vec::BitVec;
use vstd::prelude::*;

verus! {

/// Decodes bit sequences with the tree it owns. One decoder serves any
/// number of bit sequences.
pub struct HuffmanDecoder<T> {
    root: HuffmanNode<T>,
}

impl<T: Clone> HuffmanDecoder<T> {
    /// The tree that the decoder walks.
    pub closed spec fn tree(&self) -> HuffmanNode<T> {
        self.root
    }

    pub fn new(tree: HuffmanNode<T>) -> (decoder: HuffmanDecoder<T>)
        ensures
            decoder.tree() == tree,
    {
        HuffmanDecoder { root: tree }
    }

    pub fn get_tree(&self) -> (tree: &HuffmanNode<T>)
        ensures
            *tree == self.tree(),
    {
        &self.root
    }

    /// Decodes all bits of `buffer`: walks from the root, one bit for each
    /// branch, gives the symbol of the leaf it reaches, and starts again at
    /// the root. Bits that end in the middle of a codeword give no symbol.
    /// Where the tree is a single leaf, each bit gives that leaf's symbol.
    pub fn decode_unbounded(&self, buffer: &BitVec) -> (symbols: Vec<T>)
        requires
            lawful_clone::<T>(),
        ensures
            symbols@ == self.tree().decode(bits_of(*buffer)),
    {
        let len = bitvec_len(buffer);
        assert(bits_of(*buffer).take(len as int) =~= bits_of(*buffer));
        self.decode(buffer, len)
    }

    /// Decodes the first `bit_count` bits of `buffer` as `decode_unbounded`
    /// decodes all of them. A `bit_count` beyond the end of `buffer` stands
    /// for all its bits.
    pub fn decode(&self, buffer: &BitVec, bit_count: usize) -> (symbols: Vec<T>)
        requires
            lawful_clone::<T>(),
        ensures
            symbols@ == self.tree().decode(counted_bits(bits_of(*buffer), bit_count)),
    {
        let len = bitvec_len(buffer);
        let end = if bit_count < len {
            bit_count
        } else {
            len
        };
        let ghost bits = bits_of(*buffer).take(end as int);
        let mut pos: usize = 0;
        let mut result: Vec<T> = Vec::new();
        assert(bits.skip(0) =~= bits);
        assert(bits =~= counted_bits(bits_of(*buffer), bit_count));
        while pos < end
            invariant
                lawful_clone::<T>(),
                end <= bits_of(*buffer).len(),
                bits == bits_of(*buffer).take(end as int),
                pos <= end,
                result@ + self.root.decode(bits.skip(pos as int)) == self.root.decode(bits),
            decreases end - pos,
        {
            let ghost rest = bits.skip(pos as int);
            match &self.root {
                HuffmanNode::Leaf(leaf) => {
                    let symbol = leaf.symbol.clone();
                    assert(cloned::<T>(leaf.symbol, symbol));
                    result.push(symbol);
                    pos = pos + 1;
                    assert(rest.drop_first() =~= bits.skip(pos as int));
                },
                HuffmanNode::Branch(_) => {
                    match Self::decode_single_symbol(buffer, end, &self.root, &mut pos) {
                        Some(symbol) => {
                            result.push(symbol);
                        },
                        None => {
                            pos = end;
                            assert(self.root.decode(bits.skip(end as int)) =~= Seq::<T>::empty());
                        },
                    }
                },
            }
            assert(result@ + self.root.decode(bits.skip(pos as int)) =~= self.root.decode(bits));
        }
        assert(self.root.decode(bits.skip(pos as int)) =~= Seq::<T>::empty());
        assert(result@ + Seq::<T>::empty() =~= result@);
        result
    }

    /// Walks from `node` along the bits of `buffer` from `pos` up to `end`,
    /// and moves `pos` past each bit it reads. It gives the symbol of the
    /// leaf it reaches, or nothing where the bits end first. At a leaf it
    /// reads no bit, wherever `pos` stands.
    fn decode_single_symbol(
        buffer: &BitVec,
        end: usize,
        node: &HuffmanNode<T>,
        pos: &mut usize,
    ) -> (symbol: Option<T>)
        requires
            lawful_clone::<T>(),
            end <= bits_of(*buffer).len(),
            *node is Branch ==> *old(pos) <= end,
        ensures
            *old(pos) <= *final(pos),
            *old(pos) <= end ==> *final(pos) <= end,
            *node matches HuffmanNode::Leaf(leaf) ==> symbol == Some(leaf.symbol) && *final(pos)
                == *old(pos),
            symbol is Some && *node is Branch ==> *old(pos) < *final(pos),
            *old(pos) <= end ==> match node.walk(
                bits_of(*buffer).take(end as int).skip(*old(pos) as int),
            ) {
                Some((found, rest)) => symbol == Some(found) && rest == bits_of(*buffer).take(
                    end as int,
                ).skip(*final(pos) as int),
                None => symbol is None,
            },
        decreases *node,
    {
        let ghost bits = bits_of(*buffer).take(end as int);
        let ghost start = *pos;
        match node {
            HuffmanNode::Branch(branch) => {
                if *pos >= end {
                    assert(bits.skip(start as int).len() == 0);
                    return None;
                }
                let bit_value = bitvec_get(buffer, *pos);
                let next_node = if bit_value {
                    &branch.links.1
                } else {
                    &branch.links.0
                };
                *pos = *pos + 1;
                assert(bits.skip(start as int)[0] == bit_value);
                assert(bits.skip(start as int).drop_first() =~= bits.skip(start + 1));
                Self::decode_single_symbol(buffer, end, next_node, pos)
            },
            HuffmanNode::Leaf(leaf) => {
                let symbol = leaf.symbol.clone();
                assert(cloned::<T>(leaf.symbol, symbol));
                Some(symbol)
            },
        }
    }
}

/// The first `bit_count` bits of `bits`, or all of them where there are
/// fewer.
pub open spec fn counted_bits(bits: Seq<bool>, bit_count: usize) -> Seq<bool> {
    if bit_count < bits.len() {
        bits.take(bit_count as int)
    } else {
        bits
    }
}

} // verus!
