use bit_vec::BitVec;
use rhuffman::huffman_tree::huffman_decoder::HuffmanDecoder;
use rhuffman::huffman_tree::huffman_generator::HuffmanGenerator;
use rhuffman::huffman_tree::huffman_node::{HuffmanLeaf, HuffmanNode};
use std::fmt::Debug;
use std::hash::Hash;

fn encode_decode<T: Eq + Clone + Hash + Ord + Debug>(gen_codes: &[T], encode: &[T]) -> Vec<T> {
    let mut gen = HuffmanGenerator::new();
    gen.add_occurences_from_iterator(gen_codes);
    let (encoder, decoder) = gen.into_encoder_decoder_pair().unwrap();
    let result = encoder.encode(encode).unwrap();
    decoder.decode_unbounded(&result)
}

#[test]
fn two_symbols_decoding_is_correct1() {
    let literal = ["B", "A"];
    let decoded = encode_decode(&literal, &literal);
    assert_eq!(decoded, literal);
}

#[test]
fn two_symbols_decoding_is_correct2() {
    let literal = ["B", "A", "B", "B", "B", "B", "A"];
    let decoded = encode_decode(&literal, &literal);
    assert_eq!(decoded, literal);
}

#[test]
fn two_symbols_decoding_is_correct3() {
    let literal = ["B", "A", "B", "B", "B", "B", "A", "B"];
    let decoded = encode_decode(&literal, &literal);
    assert_eq!(decoded, literal);
}

#[test]
fn three_symbols_decoding_is_correct3() {
    let literal = ["B", "A", "B", "B", "B", "B", "C", "B", "C", "C", "C"];
    let decoded = encode_decode(&literal, &literal);
    assert_eq!(decoded, literal);
}

#[test]
fn english_symbols_decoding_is_correct() {
    let literal = String::from("Hello there! General Kenobi!!?");
    let literal: Vec<char> = literal.chars().collect();
    let decoded = encode_decode(&literal, &literal);
    assert_eq!(decoded, literal);
}

#[test]
fn decoder_hands_back_its_tree() {
    let tree = HuffmanNode::into_branch(HuffmanNode::into_leaf(1u8), HuffmanNode::into_leaf(2u8));
    let decoder = HuffmanDecoder::new(tree.clone());
    assert_eq!(decoder.get_tree(), &tree);
}

#[test]
fn decoder_can_be_used_again() {
    let tree = HuffmanNode::into_branch(HuffmanNode::into_leaf('a'), HuffmanNode::into_leaf('b'));
    let decoder = HuffmanDecoder::new(tree);
    let mut first = BitVec::new();
    first.push(false);
    first.push(true);
    let mut second = BitVec::new();
    second.push(true);
    assert_eq!(decoder.decode_unbounded(&first), vec!['a', 'b']);
    assert_eq!(decoder.decode_unbounded(&second), vec!['b']);
    assert_eq!(decoder.decode_unbounded(&first), vec!['a', 'b']);
}

#[test]
fn bits_that_end_inside_a_codeword_are_dropped() {
    // codes: a = 0, b = 10, c = 11
    let tree = HuffmanNode::into_branch(
        HuffmanNode::into_leaf('a'),
        HuffmanNode::into_branch(HuffmanNode::into_leaf('b'), HuffmanNode::into_leaf('c')),
    );
    let decoder = HuffmanDecoder::new(tree);
    let mut bits = BitVec::new();
    for bit in [true, true, false, true] {
        bits.push(bit);
    }
    assert_eq!(decoder.decode_unbounded(&bits), vec!['c', 'a']);
}

#[test]
fn no_bits_decode_to_no_symbols() {
    let tree = HuffmanNode::into_branch(HuffmanNode::into_leaf('a'), HuffmanNode::into_leaf('b'));
    let decoder = HuffmanDecoder::new(tree);
    assert_eq!(decoder.decode_unbounded(&BitVec::new()), Vec::<char>::new());
}

#[test]
fn single_leaf_tree_gives_its_symbol_once_for_each_bit() {
    let decoder = HuffmanDecoder::new(HuffmanNode::Leaf(HuffmanLeaf { symbol: 'z' }));
    assert_eq!(decoder.decode_unbounded(&BitVec::new()), Vec::<char>::new());
    let bits = BitVec::from_elem(3, false);
    assert_eq!(decoder.decode_unbounded(&bits), vec!['z', 'z', 'z']);
}

#[test]
fn decode_reads_no_more_than_the_bit_count() {
    // codes: a = 0, b = 10, c = 11
    let tree = HuffmanNode::into_branch(
        HuffmanNode::into_leaf('a'),
        HuffmanNode::into_branch(HuffmanNode::into_leaf('b'), HuffmanNode::into_leaf('c')),
    );
    let decoder = HuffmanDecoder::new(tree);
    let bits = BitVec::from_bytes(&[0b10110000]);
    assert_eq!(decoder.decode(&bits, 0), Vec::<char>::new());
    assert_eq!(decoder.decode(&bits, 2), vec!['b']);
    assert_eq!(decoder.decode(&bits, 3), vec!['b']);
    assert_eq!(decoder.decode(&bits, 4), vec!['b', 'c']);
    assert_eq!(decoder.decode(&bits, 8), vec!['b', 'c', 'a', 'a', 'a', 'a']);
    assert_eq!(decoder.decode(&bits, 100), vec!['b', 'c', 'a', 'a', 'a', 'a']);
}
