use bit_vec::BitVec;
use rhuffman::compressed::{Compressed, CompressedError};
use rhuffman::huffman_tree::huffman_node::HuffmanNode;

#[test]
fn pack_keeps_tree_bytes_and_bit_count() {
    let tree = HuffmanNode::into_branch(HuffmanNode::into_leaf(0u8), HuffmanNode::into_leaf(1u8));
    let mut bits = BitVec::new();
    for bit in [true, false, true, true, false, false, false, false, true, true] {
        bits.push(bit);
    }
    let container = Compressed::pack(tree.clone(), &bits);
    assert_eq!(container.tree, tree);
    assert_eq!(container.data, vec![0b10110000, 0b11000000]);
    assert_eq!(container.data_len, 10);
}

#[test]
fn unpack_strips_the_padding() {
    let tree = HuffmanNode::into_branch(HuffmanNode::into_leaf(0u8), HuffmanNode::into_leaf(1u8));
    let container = Compressed { tree, data: vec![0b10110000, 0b11000000], data_len: 10 };
    let bits = container.unpack().unwrap();
    assert!(bits.eq_vec(&[true, false, true, true, false, false, false, false, true, true]));
}

#[test]
fn unpack_rejects_a_bit_count_beyond_the_payload() {
    let tree = HuffmanNode::into_branch(HuffmanNode::into_leaf(0u8), HuffmanNode::into_leaf(1u8));
    let container = Compressed { tree, data: vec![0xff], data_len: 9 };
    assert!(container.unpack().is_none());
    assert_eq!(container.decompress(), Err(CompressedError::MalformedContainer));
}

#[test]
fn unpack_takes_a_bit_count_that_fills_the_payload() {
    let tree = HuffmanNode::into_branch(HuffmanNode::into_leaf(0u8), HuffmanNode::into_leaf(1u8));
    let container = Compressed { tree, data: vec![0b10100101], data_len: 8 };
    assert_eq!(container.decompress(), Ok(vec![1, 0, 1, 0, 0, 1, 0, 1]));
}

#[test]
fn compress_of_nothing_is_an_empty_alphabet() {
    let input: [u8; 0] = [];
    assert_eq!(Compressed::compress(&input).err(), Some(CompressedError::EmptyAlphabet));
}

#[test]
fn compress_gives_the_golden_bytes() {
    let literal = [
        "A", "B", "B", "A", "C", "D", "A", "A", "B", "A", "A", "B", "A", "A", "B", "C", "D",
        "A",
    ];
    let container = Compressed::compress(&literal).unwrap();
    assert_eq!(container.data, vec![0b01010011, 0b11100010, 0b00100010, 0b11111000]);
    assert_eq!(container.data_len, 31);
}

#[test]
fn compress_then_decompress_restores_bytes() {
    let input: Vec<u8> = b"it was the best of times, it was the worst of times".to_vec();
    let container = Compressed::compress(&input).unwrap();
    assert!(container.data.len() < input.len());
    assert_eq!(container.decompress(), Ok(input));
}

#[test]
fn compress_then_decompress_restores_every_byte_value() {
    let mut input: Vec<u8> = Vec::new();
    for round in 0..3u32 {
        for byte in 0..=255u8 {
            if (byte as u32) % (round + 1) == 0 {
                input.push(byte);
            }
        }
    }
    let container = Compressed::compress(&input).unwrap();
    assert_eq!(container.decompress(), Ok(input));
}

#[test]
fn single_symbol_input_compresses_to_no_bits() {
    let container = Compressed::compress(&[7u8, 7, 7]).unwrap();
    assert_eq!(container.tree, HuffmanNode::into_leaf(7u8));
    assert_eq!(container.data, Vec::<u8>::new());
    assert_eq!(container.data_len, 0);
    assert_eq!(container.decompress(), Ok(Vec::<u8>::new()));
}

#[test]
fn large_alphabet_round_trips() {
    let mut input: Vec<u32> = Vec::new();
    for symbol in 0..20_000u32 {
        for _ in 0..(1 + symbol % 7) {
            input.push(symbol.wrapping_mul(2_654_435_761));
        }
    }
    let container = Compressed::compress(&input).unwrap();
    assert_eq!(container.decompress(), Ok(input));
}

#[test]
fn lopsided_counts_round_trip_through_a_deep_tree() {
    let mut input: Vec<u8> = Vec::new();
    let mut count: usize = 1;
    for symbol in 0..16u8 {
        for _ in 0..count {
            input.push(symbol);
        }
        count *= 2;
    }
    let container = Compressed::compress(&input).unwrap();
    assert_eq!(container.decompress(), Ok(input));
}
