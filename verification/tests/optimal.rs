use rhuffman::huffman_tree::huffman_encoder::HuffmanEncoder;
use rhuffman::huffman_tree::huffman_node::HuffmanNode;

fn leaf(symbol: char) -> HuffmanNode<char> {
    HuffmanNode::into_leaf(symbol)
}

fn pair(first: HuffmanNode<char>, second: HuffmanNode<char>) -> HuffmanNode<char> {
    HuffmanNode::into_branch(first, second)
}

/// Every shape of a tree over four leaves, with the leaves in the given order.
fn shapes(s: [char; 4]) -> Vec<HuffmanNode<char>> {
    vec![
        pair(pair(leaf(s[0]), leaf(s[1])), pair(leaf(s[2]), leaf(s[3]))),
        pair(leaf(s[0]), pair(leaf(s[1]), pair(leaf(s[2]), leaf(s[3])))),
        pair(leaf(s[0]), pair(pair(leaf(s[1]), leaf(s[2])), leaf(s[3]))),
        pair(pair(leaf(s[0]), pair(leaf(s[1]), leaf(s[2]))), leaf(s[3])),
        pair(pair(pair(leaf(s[0]), leaf(s[1])), leaf(s[2])), leaf(s[3])),
    ]
}

fn orders() -> Vec<[char; 4]> {
    let symbols = ['a', 'b', 'c', 'd'];
    let mut all = Vec::new();
    for i in 0..4 {
        for j in 0..4 {
            for k in 0..4 {
                for l in 0..4 {
                    let picked = [i, j, k, l];
                    let mut seen = [false; 4];
                    for p in picked {
                        seen[p] = true;
                    }
                    if seen.iter().all(|x| *x) {
                        all.push([symbols[i], symbols[j], symbols[k], symbols[l]]);
                    }
                }
            }
        }
    }
    all
}

#[test]
fn no_tree_over_four_symbols_needs_fewer_bits() {
    let texts = ["abcd", "aaaabbbccd", "abababcdcd", "ddddddddcab", "aabbccddabcdaaaa", "dcbaa"];
    for text in texts {
        let text: Vec<char> = text.chars().collect();
        let huffman = HuffmanEncoder::from_symbols_iterator(&text).unwrap();
        let best = huffman.bit_count(&text).unwrap();
        let mut least = usize::MAX;
        for order in orders() {
            for tree in shapes(order) {
                let bits = HuffmanEncoder::from_tree(&tree).bit_count(&text).unwrap();
                assert!(best <= bits);
                if bits < least {
                    least = bits;
                }
            }
        }
        assert_eq!(best, least);
    }
}

#[test]
fn encoded_length_is_count_times_depth() {
    // codes: A = 0, C = 10, B = 11
    let literal = [
        "A", "A", "B", "A", "A", "C", "C", "A", "A", "A", "A", "B", "A",
    ];
    let encoder = HuffmanEncoder::from_symbols_iterator(&literal).unwrap();
    assert_eq!(encoder.bit_count(&literal), Some(9 * 1 + 2 * 2 + 2 * 2));
    assert_eq!(encoder.encode(&literal).unwrap().len(), 17);
}

#[test]
fn huffman_beats_a_fixed_length_code_on_skewed_text() {
    let text: Vec<char> = "aaaaaaaaaaaaaaaabbbbcd".chars().collect();
    let huffman = HuffmanEncoder::from_symbols_iterator(&text).unwrap();
    let fixed = HuffmanEncoder::from_tree(&pair(
        pair(leaf('a'), leaf('b')),
        pair(leaf('c'), leaf('d')),
    ));
    assert_eq!(fixed.bit_count(&text), Some(2 * text.len()));
    assert_eq!(huffman.bit_count(&text), Some(16 * 1 + 4 * 2 + 3 + 3));
}
