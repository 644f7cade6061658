use rhuffman::huffman_tree::huffman_element::WeightedHuffmanNode;
use rhuffman::huffman_tree::huffman_generator::HuffmanGenerator;
use rhuffman::huffman_tree::huffman_node::{HuffmanLeaf, HuffmanNode};

#[test]
fn single_invocation_of_add_occurences_adds_single_occurence_correctly() {
    let mut generator = HuffmanGenerator::new();
    generator.add_occurences_to_symbol(&"A", 2);
    generator.add_occurences_to_symbol(&"B", 4);

    assert_eq!(2, generator.occurences_of(&"A").unwrap());
    assert_eq!(4, generator.occurences_of(&"B").unwrap());
}

#[test]
fn multiple_invocations_of_add_occurences_do_add_occurences() {
    let mut generator = HuffmanGenerator::new();
    generator.add_occurences_to_symbol(&"A", 2);
    generator.add_occurences_to_symbol(&"A", 2);

    assert_eq!(4, generator.occurences_of(&"A").unwrap());
}

#[test]
fn empty_generator_generates_empty_huffman_tree() {
    let generator: HuffmanGenerator<&str> = HuffmanGenerator::new();
    let tree = generator.into_huffman_tree();
    assert_eq!(tree, None);
}

#[test]
fn single_symbol_generates_leaf_tree() {
    let mut generator = HuffmanGenerator::new();
    generator.add_occurences_to_symbol(&"A", 2);

    let tree = generator.into_huffman_tree().unwrap();

    assert_eq!(tree, WeightedHuffmanNode::into_leaf("A", 2));
}

#[test]
fn two_symbols_generate_branch_tree() {
    let mut generator = HuffmanGenerator::new();
    generator.add_occurences_to_symbol(&"A", 2);
    generator.add_occurences_to_symbol(&"B", 4);
    generator.add_occurences_to_symbol(&"C", 1);

    let tree_weight = generator.into_huffman_tree().unwrap().get_weight();
    assert_eq!(7, tree_weight)
}

#[test]
fn huffman_generator_single_invocation_of_add_occurences_adds_single_occurence_correctly() {
    let mut generator = HuffmanGenerator::new();
    generator.add_occurences(&"A", 2);
    generator.add_occurences(&"B", 4);

    assert_eq!(2, generator.occurences_of(&"A").unwrap());
    assert_eq!(4, generator.occurences_of(&"B").unwrap());
}

#[test]
fn huffman_generator_multiple_invocations_of_add_occurences_do_add_occurences() {
    let mut generator = HuffmanGenerator::new();
    generator.add_occurences(&"A", 2);
    generator.add_occurences(&"A", 2);

    assert_eq!(4, generator.occurences_of(&"A").unwrap());
}

#[test]
fn huffman_generator_empty_generator_generates_empty_huffman_tree() {
    let generator: HuffmanGenerator<&str> = HuffmanGenerator::new();
    let tree = generator.into_huffman_tree();
    assert_eq!(tree, None);
}

#[test]
fn huffman_generator_single_symbol_generates_leaf_tree() {
    let mut generator = HuffmanGenerator::new();
    generator.add_occurences(&"A", 2);

    let tree = generator.into_huffman_tree().unwrap();

    assert_eq!(tree, WeightedHuffmanNode::into_leaf("A", 2));
}

#[test]
fn huffman_generator_two_symbols_generate_branch_tree() {
    let mut generator = HuffmanGenerator::new();
    generator.add_occurences(&"A", 2);
    generator.add_occurences(&"B", 4);
    generator.add_occurences(&"C", 1);

    let tree_weight = generator.into_huffman_tree().unwrap().get_weight();
    assert_eq!(7, tree_weight)
}

#[test]
fn absent_symbol_has_no_count() {
    let mut generator = HuffmanGenerator::new();
    generator.add_occurences_to_symbol(&7u8, 3);
    assert_eq!(generator.occurences_of(&8u8), None);
    assert_eq!(generator.occurences_of(&7u8), Some(3));
}

#[test]
fn adding_twice_equals_adding_the_sum() {
    let mut two_plus_two = HuffmanGenerator::new();
    two_plus_two.add_occurences_to_symbol(&"A", 2);
    two_plus_two.add_occurences_to_symbol(&"A", 2);

    let mut four = HuffmanGenerator::new();
    four.add_occurences_to_symbol(&"A", 4);

    assert_eq!(two_plus_two, four);
}

#[test]
fn add_occurences_from_iterator_counts_each_occurrence() {
    let mut generator = HuffmanGenerator::new();
    generator.add_occurences_from_iterator(&[1u8, 2, 1, 1, 3]);
    assert_eq!(generator.occurences_of(&1), Some(3));
    assert_eq!(generator.occurences_of(&2), Some(1));
    assert_eq!(generator.occurences_of(&3), Some(1));
    assert_eq!(generator.occurences_of(&4), None);
}

#[test]
fn tree_is_the_same_for_any_insertion_order() {
    let mut first = HuffmanGenerator::new();
    first.add_occurences_to_symbol(&'a', 5);
    first.add_occurences_to_symbol(&'b', 5);
    first.add_occurences_to_symbol(&'c', 2);
    first.add_occurences_to_symbol(&'d', 2);
    first.add_occurences_to_symbol(&'e', 1);

    let mut second = HuffmanGenerator::new();
    second.add_occurences_to_symbol(&'e', 1);
    second.add_occurences_to_symbol(&'d', 1);
    second.add_occurences_to_symbol(&'b', 5);
    second.add_occurences_to_symbol(&'c', 2);
    second.add_occurences_to_symbol(&'a', 5);
    second.add_occurences_to_symbol(&'d', 1);

    assert_eq!(first.into_huffman_tree(), second.into_huffman_tree());
}

#[test]
fn ties_are_broken_by_branch_before_leaf_and_by_symbol() {
    // A:1 and B:1 merge first into a branch of weight 2, which then sorts
    // before the leaf C:2.
    let mut generator = HuffmanGenerator::new();
    generator.add_occurences_to_symbol(&"C", 2);
    generator.add_occurences_to_symbol(&"B", 1);
    generator.add_occurences_to_symbol(&"A", 1);
    let root = generator.into_huffman_tree().unwrap();
    assert_eq!(root.get_weight(), 4);
    let leaf = |symbol: &'static str| HuffmanNode::Leaf(HuffmanLeaf { symbol });
    let expected = HuffmanNode::into_branch(
        leaf("C"),
        HuffmanNode::into_branch(leaf("B"), leaf("A")),
    );
    assert_eq!(HuffmanNode::from(root), expected);
}

#[test]
fn finalize_hands_out_the_counts() {
    let mut generator = HuffmanGenerator::new();
    generator.add_occurences_to_symbol(&"A", 2);
    generator.add_occurences_to_symbol(&"B", 4);
    generator.add_occurences_to_symbol(&"A", 1);
    let counts = generator.finalize();
    assert_eq!(counts.len(), 2);
    assert_eq!(counts.get(&"A"), Some(&3));
    assert_eq!(counts.get(&"B"), Some(&4));
}

#[test]
fn finalize_of_an_empty_table_is_empty() {
    let generator: HuffmanGenerator<u8> = HuffmanGenerator::new();
    assert!(generator.finalize().is_empty());
}
