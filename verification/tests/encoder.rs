use rhuffman::huffman_tree::huffman_encoder::HuffmanEncoder;
use rhuffman::huffman_tree::huffman_generator::HuffmanGenerator;
use rhuffman::huffman_tree::huffman_node::HuffmanNode;

#[test]
fn using_unknown_symbol_returns_offending_symbol() {
    let mut gen = HuffmanGenerator::new();
    gen.add_occurences_to_symbol(&String::from("A"), 2);
    gen.add_occurences_to_symbol(&String::from("B"), 2);

    let encoder = HuffmanEncoder::from_tree(&gen.into_huffman_tree().unwrap().into());
    let literal = ["C".to_string()];
    let result = encoder.encode(&literal);
    assert_eq!(Err(String::from("C")), result);
}

#[test]
fn two_symbols_encoding_is_correct() {
    let mut gen = HuffmanGenerator::new();
    gen.add_occurences_to_symbol(&"A", 2);
    gen.add_occurences_to_symbol(&"B", 2);

    let encoder = HuffmanEncoder::from_tree(&gen.into_huffman_tree().unwrap().into());
    let literal = ["B", "A"];
    let result = encoder.encode(&literal);
    assert!(result.unwrap().eq_vec(&[false, true]));
}

#[test]
fn three_symbols_encoding_is_correct() {
    let mut gen = HuffmanGenerator::new();
    gen.add_occurences_to_symbol(&"A", 10);
    gen.add_occurences_to_symbol(&"B", 2);
    gen.add_occurences_to_symbol(&"C", 2);

    let encoder = HuffmanEncoder::from_tree(&gen.into_huffman_tree().unwrap().into());
    let literal = [
        "A", "A", "B", "A", "A", "C", "C", "A", "A", "A", "A", "B", "A",
    ];
    let result = encoder.encode(&literal);
    assert_eq!(result.unwrap().to_bytes(), vec![0b110010, 0b10000011, 0b0]);
}

#[test]
fn four_symbols_encoding_is_correct() {
    let mut gen = HuffmanGenerator::new();
    gen.add_occurences_to_symbol(&"A", 9);
    gen.add_occurences_to_symbol(&"B", 5);
    gen.add_occurences_to_symbol(&"C", 2);
    gen.add_occurences_to_symbol(&"D", 2);

    let encoder = HuffmanEncoder::from_tree(&gen.into_huffman_tree().unwrap().into());
    let literal = [
        "A", "B", "B", "A", "C", "D", "A", "A", "B", "A", "A", "B", "A", "A", "B", "C", "D",
        "A",
    ];
    let result = encoder.encode(&literal);
    assert_eq!(
        result.unwrap().to_bytes(),
        vec![0b01010011, 0b11100010, 0b00100010, 0b11111000]
    );
}

#[test]
fn encoder_from_iterator() {
    let literal = [
        "A", "B", "B", "A", "C", "D", "A", "A", "B", "A", "A", "B", "A", "A", "B", "C", "D",
        "A",
    ];
    let encoder = HuffmanEncoder::from_symbols_iterator(&literal).unwrap();
    let result = encoder.encode(&literal);
    assert_eq!(
        result.unwrap().to_bytes(),
        vec![0b01010011, 0b11100010, 0b00100010, 0b11111000]
    );
}

#[test]
fn huffman_encoder_using_unknown_symbol_returns_offending_symbol() {
    let mut gen = HuffmanGenerator::new();
    gen.add_occurences(&String::from("A"), 2);
    gen.add_occurences(&String::from("B"), 2);

    let encoder = HuffmanEncoder::from_tree(&gen.into_huffman_tree().unwrap().into());
    let literal = ["C".to_string()];
    let result = encoder.encode(&literal);
    assert_eq!(Err(String::from("C")), result);
}

#[test]
fn huffman_encoder_two_symbols_encoding_is_correct() {
    let mut gen = HuffmanGenerator::new();
    gen.add_occurences(&"A", 2);
    gen.add_occurences(&"B", 2);

    let encoder = HuffmanEncoder::from_tree(&gen.into_huffman_tree().unwrap().into());
    let literal = ["B", "A"];
    let result = encoder.encode(&literal);
    assert!(result.unwrap().eq_vec(&[false, true]));
}

#[test]
fn huffman_encoder_three_symbols_encoding_is_correct() {
    let mut gen = HuffmanGenerator::new();
    gen.add_occurences(&"A", 10);
    gen.add_occurences(&"B", 2);
    gen.add_occurences(&"C", 2);

    let encoder = HuffmanEncoder::from_tree(&gen.into_huffman_tree().unwrap().into());
    let literal = [
        "A", "A", "B", "A", "A", "C", "C", "A", "A", "A", "A", "B", "A",
    ];
    let result = encoder.encode(&literal);
    assert_eq!(result.unwrap().to_bytes(), vec![0b110010, 0b10000011, 0b0]);
}

#[test]
fn huffman_encoder_four_symbols_encoding_is_correct() {
    let mut gen = HuffmanGenerator::new();
    gen.add_occurences(&"A", 9);
    gen.add_occurences(&"B", 5);
    gen.add_occurences(&"C", 2);
    gen.add_occurences(&"D", 2);

    let encoder = HuffmanEncoder::from_tree(&gen.into_huffman_tree().unwrap().into());
    let literal = [
        "A", "B", "B", "A", "C", "D", "A", "A", "B", "A", "A", "B", "A", "A", "B", "C", "D",
        "A",
    ];
    let result = encoder.encode(&literal);
    assert_eq!(
        result.unwrap().to_bytes(),
        vec![0b01010011, 0b11100010, 0b00100010, 0b11111000]
    );
}

#[test]
fn huffman_encoder_encoder_from_iterator() {
    let literal = [
        "A", "B", "B", "A", "C", "D", "A", "A", "B", "A", "A", "B", "A", "A", "B", "C", "D",
        "A",
    ];
    let encoder = HuffmanEncoder::from_symbols_iterator(&literal).unwrap();
    let result = encoder.encode(&literal);
    assert_eq!(
        result.unwrap().to_bytes(),
        vec![0b01010011, 0b11100010, 0b00100010, 0b11111000]
    );
}

#[test]
fn encoder_documentation_example() {
    let literal = ["B", "A", "A", "A", "A", "C"];
    let encoder = HuffmanEncoder::from_symbols_iterator(&literal).unwrap();
    let result = encoder.encode(&literal);
    assert_eq!(result.unwrap().to_bytes(), vec![0b11000010]);
}

#[test]
fn encoder_from_no_symbols_fails() {
    let literal: [u8; 0] = [];
    let result = HuffmanEncoder::from_symbols_iterator(&literal);
    assert_eq!(result.err(), Some("One or fewer symbols were provided"));
}

#[test]
fn unknown_symbol_in_the_middle_is_reported_and_halts() {
    let encoder = HuffmanEncoder::from_symbols_iterator(&[1u8, 2, 2, 3]).unwrap();
    assert_eq!(encoder.encode(&[1, 2, 9, 3, 8]), Err(9));
}

#[test]
fn single_symbol_tree_encodes_to_zero_bits() {
    let encoder = HuffmanEncoder::from_symbols_iterator(&['x', 'x', 'x']).unwrap();
    let bits = encoder.encode(&['x', 'x', 'x', 'x']).unwrap();
    assert_eq!(bits.len(), 0);
    assert_eq!(encoder.bit_count(&['x', 'x']), Some(0));
}

#[test]
fn most_frequent_symbol_has_the_shortest_code() {
    let mut gen = HuffmanGenerator::new();
    gen.add_occurences_to_symbol(&"A", 10);
    gen.add_occurences_to_symbol(&"B", 2);
    gen.add_occurences_to_symbol(&"C", 2);
    let tree: HuffmanNode<&str> = gen.into_huffman_tree().unwrap().into();
    let encoder = HuffmanEncoder::from_tree(&tree);
    assert!(encoder.encode(&["A"]).unwrap().eq_vec(&[false]));
    assert!(encoder.encode(&["C"]).unwrap().eq_vec(&[true, false]));
    assert!(encoder.encode(&["B"]).unwrap().eq_vec(&[true, true]));
    assert_eq!(encoder.bit_count(&["A", "B", "C", "Z"]), Some(5));
}

#[test]
fn no_codeword_is_a_prefix_of_another() {
    let text: Vec<char> = "a quick brown fox jumps over the lazy dog".chars().collect();
    let encoder = HuffmanEncoder::from_symbols_iterator(&text).unwrap();
    let mut alphabet = text.clone();
    alphabet.sort();
    alphabet.dedup();
    for a in alphabet.iter() {
        for b in alphabet.iter() {
            if a != b {
                let code_a = encoder.encode(&[*a]).unwrap();
                let code_b = encoder.encode(&[*b]).unwrap();
                let is_prefix = code_a.len() <= code_b.len()
                    && code_a.iter().zip(code_b.iter()).all(|(x, y)| x == y);
                assert!(!is_prefix);
            }
        }
    }
}
