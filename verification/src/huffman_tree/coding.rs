use crate::huffman_tree::huffman_node::HuffmanNode;
use vstd::prelude::*;

verus! {

impl<T> HuffmanNode<T> {
    /// The child that a bit leads to: the first for `false`, the second for
    /// `true`. A leaf has no child and gives itself.
    pub open spec fn child(self, bit: bool) -> HuffmanNode<T> {
        match self {
            HuffmanNode::Leaf(_) => self,
            HuffmanNode::Branch(branch) => if bit {
                *branch.links.1
            } else {
                *branch.links.0
            },
        }
    }

    /// The number of branches on the longest way from this node to a leaf.
    pub open spec fn height(self) -> nat
        decreases self,
    {
        match self {
            HuffmanNode::Leaf(_) => 0,
            HuffmanNode::Branch(branch) => {
                let first = branch.links.0.height();
                let second = branch.links.1.height();
                1 + if first >= second {
                    first
                } else {
                    second
                }
            },
        }
    }

    /// The codewords of the tree when `prefix` leads to this node: each leaf
    /// gets the bits of the way to it. Where a symbol stands at two leaves,
    /// the later leaf decides.
    pub open spec fn codes_under(self, prefix: Seq<bool>) -> Map<T, Seq<bool>>
        decreases self,
    {
        match self {
            HuffmanNode::Leaf(leaf) => Map::empty().insert(leaf.symbol, prefix),
            HuffmanNode::Branch(branch) => branch.links.0.codes_under(
                prefix.push(false),
            ).union_prefer_right(branch.links.1.codes_under(prefix.push(true))),
        }
    }

    /// The codeword of each symbol of the tree.
    pub open spec fn codes(self) -> Map<T, Seq<bool>> {
        self.codes_under(Seq::empty())
    }

    /// Follows `bits` down from this node. At a leaf it gives the leaf's
    /// symbol and the bits not yet read; where the bits end before a leaf it
    /// gives nothing.
    pub open spec fn walk(self, bits: Seq<bool>) -> Option<(T, Seq<bool>)>
        decreases self,
    {
        match self {
            HuffmanNode::Leaf(leaf) => Some((leaf.symbol, bits)),
            HuffmanNode::Branch(branch) => if bits.len() == 0 {
                None
            } else {
                self.child(bits[0]).walk(bits.drop_first())
            },
        }
    }

    /// The symbols that `bits` decode to with this node as the root. Each
    /// symbol is found by a walk from the root. Bits that end in the middle
    /// of a codeword are dropped. A root that is a leaf reads one bit for
    /// each symbol it gives, so that decoding always comes to an end.
    pub open spec fn decode(self, bits: Seq<bool>) -> Seq<T>
        decreases bits.len(),
    {
        if bits.len() == 0 {
            Seq::empty()
        } else {
            match self {
                HuffmanNode::Leaf(leaf) => seq![leaf.symbol] + self.decode(bits.drop_first()),
                HuffmanNode::Branch(_) => match self.walk(bits) {
                    Some((symbol, rest)) => if rest.len() < bits.len() {
                        seq![symbol] + self.decode(rest)
                    } else {
                        Seq::empty()
                    },
                    None => Seq::empty(),
                },
            }
        }
    }
}

/// The bits that code `symbols` with the codewords `codes`, or the first
/// symbol that has no codeword.
pub open spec fn encode_with<T>(codes: Map<T, Seq<bool>>, symbols: Seq<T>) -> Result<
    Seq<bool>,
    T,
>
    decreases symbols.len(),
{
    if symbols.len() == 0 {
        Ok(Seq::empty())
    } else {
        match encode_with(codes, symbols.drop_last()) {
            Err(symbol) => Err(symbol),
            Ok(bits) => if codes.contains_key(symbols.last()) {
                Ok(bits + codes[symbols.last()])
            } else {
                Err(symbols.last())
            },
        }
    }
}

/// The number of bits that the symbols of `symbols` that have a codeword
/// take together.
pub open spec fn encoded_len<T>(codes: Map<T, Seq<bool>>, symbols: Seq<T>) -> nat
    decreases symbols.len(),
{
    if symbols.len() == 0 {
        0
    } else {
        encoded_len(codes, symbols.drop_last()) + if codes.contains_key(symbols.last()) {
            codes[symbols.last()].len()
        } else {
            0
        }
    }
}

} // verus!
