use crate::huffman_tree::coding::{encode_with, encoded_len};
use crate::bits::{lemma_pack_then_unpack, pack_bits, unpack_bits};
use crate::huffman_tree::huffman_generator::{add_count, lemma_tally_bounds, tally};
use crate::huffman_tree::huffman_node::HuffmanNode;
use crate::huffman_tree::merge::huffman_tree;
use crate::symbol::lawful_order;
use crate::huffman_tree::tree_laws::lemma_tree_holds_alphabet;
use vstd::prelude::*;

verus! {

/// `a` is the start of `b`.
pub open spec fn is_prefix(a: Seq<bool>, b: Seq<bool>) -> bool {
    a.len() <= b.len() && b.take(a.len() as int) == a
}

/// The codewords under a node start with the way to the node, and the rest of
/// each leads from the node to the leaf of its symbol.
pub proof fn lemma_codes_lead_to_leaf<T>(
    tree: HuffmanNode<T>,
    prefix: Seq<bool>,
    symbol: T,
    rest: Seq<bool>,
)
    requires
        tree.codes_under(prefix).contains_key(symbol),
    ensures
        is_prefix(prefix, tree.codes_under(prefix)[symbol]),
        tree.walk(tree.codes_under(prefix)[symbol].skip(prefix.len() as int) + rest) == Some(
            (symbol, rest),
        ),
        tree is Branch ==> tree.codes_under(prefix)[symbol].len() > prefix.len(),
    decreases tree,
{
    let code = tree.codes_under(prefix)[symbol];
    match tree {
        HuffmanNode::Leaf(leaf) => {
            assert(code == prefix);
            assert(prefix.take(prefix.len() as int) =~= prefix);
            assert(code.skip(prefix.len() as int) + rest =~= rest);
        },
        HuffmanNode::Branch(branch) => {
            let first = *branch.links.0;
            let second = *branch.links.1;
            let bit = second.codes_under(prefix.push(true)).contains_key(symbol);
            let child = if bit {
                second
            } else {
                first
            };
            let way = prefix.push(bit);
            assert(child.codes_under(way).contains_key(symbol));
            assert(code == child.codes_under(way)[symbol]);
            lemma_codes_lead_to_leaf(child, way, symbol, rest);
            assert(code.take(way.len() as int) == way);
            assert(code.take(prefix.len() as int) =~= way.take(prefix.len() as int));
            assert(way.take(prefix.len() as int) =~= prefix);
            let tail = code.skip(prefix.len() as int) + rest;
            assert(tail[0] == code[prefix.len() as int]);
            assert(code[prefix.len() as int] == code.take(way.len() as int)[prefix.len() as int]);
            assert(tail[0] == bit);
            assert(tail.drop_first() =~= code.skip(way.len() as int) + rest);
            assert(tree.child(bit) == child);
        },
    }
}

/// The symbols that have a codeword are the symbols at the leaves.
pub proof fn lemma_codes_cover_leaves<T>(tree: HuffmanNode<T>, prefix: Seq<bool>)
    ensures
        tree.codes_under(prefix).dom() == tree.symbols(),
    decreases tree,
{
    match tree {
        HuffmanNode::Leaf(leaf) => {
            assert(tree.leaves() =~= seq![leaf.symbol]);
            assert forall|symbol: T|
                tree.codes_under(prefix).dom().contains(symbol) == tree.symbols().contains(
                    symbol,
                ) by {
                if symbol == leaf.symbol {
                    assert(tree.leaves()[0] == symbol);
                }
            }
            assert(tree.codes_under(prefix).dom() =~= tree.symbols());
        },
        HuffmanNode::Branch(branch) => {
            let first = *branch.links.0;
            let second = *branch.links.1;
            lemma_codes_cover_leaves(first, prefix.push(false));
            lemma_codes_cover_leaves(second, prefix.push(true));
            vstd::seq_lib::seq_to_set_distributes_over_add(first.leaves(), second.leaves());
            assert(tree.codes_under(prefix).dom() =~= tree.symbols());
        },
    }
}

/// No codeword of a tree is the start of the codeword of another symbol, so
/// that a bit sequence can be cut into codewords in one way only.
pub proof fn lemma_prefix_free<T>(tree: HuffmanNode<T>, a: T, b: T)
    requires
        tree.codes().contains_key(a),
        tree.codes().contains_key(b),
        a != b,
    ensures
        !is_prefix(tree.codes()[a], tree.codes()[b]),
{
    let code_a = tree.codes()[a];
    let code_b = tree.codes()[b];
    if is_prefix(code_a, code_b) {
        let rest = code_b.skip(code_a.len() as int);
        lemma_codes_lead_to_leaf(tree, Seq::empty(), a, rest);
        lemma_codes_lead_to_leaf(tree, Seq::empty(), b, Seq::empty());
        assert(code_a.skip(0) =~= code_a);
        assert(code_b.skip(0) =~= code_b);
        assert(code_a + rest =~= code_b);
        assert(code_b + Seq::<bool>::empty() =~= code_b);
    }
}

/// Every symbol of `symbols` has a codeword in `codes`.
pub open spec fn all_coded<T>(codes: Map<T, Seq<bool>>, symbols: Seq<T>) -> bool {
    forall|i: int| 0 <= i < symbols.len() ==> codes.contains_key(#[trigger] symbols[i])
}

/// Where every symbol has a codeword, the encoding succeeds and begins with
/// the codeword of the first symbol, followed by the encoding of the others.
pub proof fn lemma_encode_front<T>(codes: Map<T, Seq<bool>>, symbols: Seq<T>)
    requires
        all_coded(codes, symbols),
    ensures
        encode_with(codes, symbols) is Ok,
        symbols.len() > 0 ==> encode_with(codes, symbols.drop_first()) is Ok && encode_with(
            codes,
            symbols,
        )->Ok_0 == codes[symbols[0]] + encode_with(codes, symbols.drop_first())->Ok_0,
    decreases symbols.len(),
{
    if symbols.len() > 0 {
        let front = symbols.drop_last();
        assert(codes.contains_key(symbols.last()));
        assert(all_coded(codes, front)) by {
            assert forall|i: int| 0 <= i < front.len() implies codes.contains_key(
                #[trigger] front[i],
            ) by {
                assert(front[i] == symbols[i]);
            }
        }
        lemma_encode_front(codes, front);
        let tail = symbols.drop_first();
        if symbols.len() == 1 {
            assert(tail =~= Seq::<T>::empty());
            assert(front =~= Seq::<T>::empty());
            assert(Seq::<bool>::empty() + codes[symbols[0]] =~= codes[symbols[0]]
                + Seq::<bool>::empty());
        } else {
            assert(tail.drop_last() =~= front.drop_first());
            assert(tail.last() == symbols.last());
            assert(front[0] == symbols[0]);
            let inner = encode_with(codes, front.drop_first())->Ok_0;
            assert((codes[symbols[0]] + inner) + codes[symbols.last()] =~= codes[symbols[0]] + (
            inner + codes[symbols.last()]));
        }
    }
}

/// Where every symbol has a codeword, the encoding has as many bits as the
/// codewords of the symbols have together.
pub proof fn lemma_encoded_len_is_len<T>(codes: Map<T, Seq<bool>>, symbols: Seq<T>)
    requires
        all_coded(codes, symbols),
    ensures
        encode_with(codes, symbols) matches Ok(bits) && bits.len() == encoded_len(codes, symbols),
    decreases symbols.len(),
{
    if symbols.len() > 0 {
        let front = symbols.drop_last();
        assert(codes.contains_key(symbols.last()));
        assert(all_coded(codes, front)) by {
            assert forall|i: int| 0 <= i < front.len() implies codes.contains_key(
                #[trigger] front[i],
            ) by {
                assert(front[i] == symbols[i]);
            }
        }
        lemma_encoded_len_is_len(codes, front);
    }
}

/// With a tree of two or more leaves, decoding what was encoded gives back
/// the symbols.
pub proof fn lemma_round_trip<T>(tree: HuffmanNode<T>, symbols: Seq<T>)
    requires
        tree is Branch,
        forall|i: int| 0 <= i < symbols.len() ==> tree.symbols().contains(#[trigger] symbols[i]),
    ensures
        encode_with(tree.codes(), symbols) matches Ok(bits) && tree.decode(bits) == symbols,
    decreases symbols.len(),
{
    let codes = tree.codes();
    lemma_codes_cover_leaves(tree, Seq::empty());
    assert(all_coded(codes, symbols));
    lemma_encode_front(codes, symbols);
    let bits = encode_with(codes, symbols)->Ok_0;
    if symbols.len() == 0 {
        assert(tree.decode(bits) =~= symbols);
    } else {
        let tail = symbols.drop_first();
        assert forall|i: int| 0 <= i < tail.len() implies tree.symbols().contains(
            #[trigger] tail[i],
        ) by {
            assert(tail[i] == symbols[i + 1]);
        }
        lemma_round_trip(tree, tail);
        let rest = encode_with(codes, tail)->Ok_0;
        let code = codes[symbols[0]];
        lemma_codes_lead_to_leaf(tree, Seq::empty(), symbols[0], rest);
        assert(code.skip(0) =~= code);
        assert(bits == code + rest);
        assert(tree.walk(bits) == Some((symbols[0], rest)));
        assert(rest.len() < bits.len());
        assert(seq![symbols[0]] + tail =~= symbols);
    }
}

/// The encoding fails with the first symbol that has no codeword.
pub proof fn lemma_encode_unknown<T>(codes: Map<T, Seq<bool>>, symbols: Seq<T>, at: int)
    requires
        0 <= at < symbols.len(),
        !codes.contains_key(symbols[at]),
        all_coded(codes, symbols.take(at)),
    ensures
        encode_with(codes, symbols) == Err::<Seq<bool>, T>(symbols[at]),
    decreases symbols.len() - at,
{
    lemma_encode_front(codes, symbols.take(at));
    assert(symbols.take(at + 1).drop_last() =~= symbols.take(at));
    assert(symbols.take(at + 1).last() == symbols[at]);
    assert(encode_with(codes, symbols.take(at + 1)) == Err::<Seq<bool>, T>(symbols[at]));
    crate::huffman_tree::huffman_encoder::lemma_encode_error_stays(codes, symbols, at + 1);
}

/// With the tree that is one leaf, a sequence of that leaf's symbol encodes
/// to no bits at all.
pub proof fn lemma_single_leaf_encodes_to_nothing<T>(symbol: T, symbols: Seq<T>)
    requires
        forall|i: int| 0 <= i < symbols.len() ==> symbols[i] == symbol,
    ensures
        encode_with(HuffmanNode::leaf(symbol).codes(), symbols) == Ok::<Seq<bool>, T>(
            Seq::empty(),
        ),
    decreases symbols.len(),
{
    let codes = HuffmanNode::leaf(symbol).codes();
    assert(codes.contains_key(symbol));
    assert(codes[symbol] == Seq::<bool>::empty());
    if symbols.len() > 0 {
        lemma_single_leaf_encodes_to_nothing(symbol, symbols.drop_last());
        assert(symbols.last() == symbol);
        assert(Seq::<bool>::empty() + Seq::<bool>::empty() =~= Seq::<bool>::empty());
    }
}

/// Adding `a` and then `b` occurrences of a symbol gives the table that
/// adding `a + b` occurrences gives.
pub proof fn lemma_add_is_additive<T>(counts: Map<T, nat>, symbol: T, a: nat, b: nat)
    ensures
        add_count(add_count(counts, symbol, a), symbol, b) == add_count(counts, symbol, a + b),
{
    assert(add_count(add_count(counts, symbol, a), symbol, b) =~= add_count(
        counts,
        symbol,
        a + b,
    ));
}

/// The order in which occurrences are added does not matter.
pub proof fn lemma_add_commutes<T>(counts: Map<T, nat>, first: T, a: nat, second: T, b: nat)
    ensures
        add_count(add_count(counts, first, a), second, b) == add_count(
            add_count(counts, second, b),
            first,
            a,
        ),
{
    assert(add_count(add_count(counts, first, a), second, b) =~= add_count(
        add_count(counts, second, b),
        first,
        a,
    ));
}

/// Two tables that hold the same symbols with the same counts have the same
/// tree, however they were filled.
pub proof fn lemma_same_counts_same_tree<T: Ord>(a: Map<T, nat>, b: Map<T, nat>)
    requires
        a.dom() == b.dom(),
        forall|symbol: T| a.contains_key(symbol) ==> a[symbol] == b[symbol],
    ensures
        huffman_tree(a) == huffman_tree(b),
{
    assert(a =~= b);
}

/// The tree built from a table of two or more symbols decodes what it
/// encoded to the symbols again, whatever symbols of the table were encoded.
pub proof fn lemma_built_tree_round_trips<T: Ord>(counts: Map<T, nat>, symbols: Seq<T>)
    requires
        lawful_order::<T>(),
        counts.dom().finite(),
        counts.dom().len() >= 2,
        forall|i: int| 0 <= i < symbols.len() ==> counts.contains_key(#[trigger] symbols[i]),
    ensures
        huffman_tree(counts) matches Some(tree) && encode_with(tree.codes(), symbols) matches Ok(
            bits,
        ) && tree.decode(bits) == symbols,
{
    assert(!counts.dom().is_empty()) by {
        if counts.dom().is_empty() {
            assert(counts.dom().len() == 0);
        }
    }
    lemma_tree_holds_alphabet(counts);
    let tree = huffman_tree(counts)->Some_0;
    assert(tree is Branch) by {
        if tree is Leaf {
            assert(tree.leaves().len() == 1);
        }
    }
    assert forall|i: int| 0 <= i < symbols.len() implies tree.symbols().contains(
        #[trigger] symbols[i],
    ) by {
        assert(counts.dom().contains(symbols[i]));
    }
    lemma_round_trip(tree, symbols);
}

/// Where two or more different symbols occur, the tree of their counts
/// decodes the unpacked payload of the packed encoding to the symbols again.
pub proof fn lemma_container_round_trip<T: Ord>(symbols: Seq<T>)
    requires
        lawful_order::<T>(),
        symbols.to_set().len() >= 2,
    ensures
        huffman_tree(tally(symbols)) matches Some(tree) && encode_with(tree.codes(), symbols)
            matches Ok(bits) && tree.decode(
            unpack_bits(pack_bits(bits)).take(bits.len() as int),
        ) == symbols,
{
    lemma_tally_bounds(symbols);
    let counts = tally(symbols);
    assert(!counts.dom().is_empty()) by {
        if counts.dom().is_empty() {
            assert(counts.dom().len() == 0);
        }
    }
    lemma_tree_holds_alphabet(counts);
    let tree = huffman_tree(counts)->Some_0;
    assert(tree is Branch) by {
        if tree is Leaf {
            assert(tree.leaves().len() == 1);
        }
    }
    assert forall|i: int| 0 <= i < symbols.len() implies tree.symbols().contains(
        #[trigger] symbols[i],
    ) by {
        assert(symbols.to_set().contains(symbols[i]));
    }
    lemma_round_trip(tree, symbols);
    lemma_pack_then_unpack(encode_with(tree.codes(), symbols)->Ok_0);
}

} // verus!
