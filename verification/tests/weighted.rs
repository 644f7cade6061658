use rhuffman::huffman_tree::huffman_element::WeightedHuffmanNode;
use rhuffman::huffman_tree::huffman_node::HuffmanNode;
use rhuffman::huffman_tree::weighted::Weighted;
use std::cmp::Ordering;

#[test]
fn weighted_leaf_keeps_symbol_and_weight() {
    let leaf = Weighted::new_leaf('q', 12);
    assert_eq!(leaf.get_weight(), 12);
    assert_eq!(HuffmanNode::from(leaf), HuffmanNode::into_leaf('q'));
}

#[test]
fn weighted_branch_adds_weights_and_orders_children() {
    let branch = Weighted::new_branch(Weighted::new_leaf('b', 4), Weighted::new_leaf('a', 3));
    assert_eq!(branch.get_weight(), 7);
    assert_eq!(
        HuffmanNode::from(branch),
        HuffmanNode::into_branch(HuffmanNode::into_leaf('b'), HuffmanNode::into_leaf('a'))
    );
}

#[test]
fn weighted_branch_of_largest_weights_does_not_overflow() {
    let branch = Weighted::new_branch(
        Weighted::new_leaf('b', u64::MAX),
        Weighted::new_leaf('a', u64::MAX),
    );
    assert_eq!(branch.get_weight(), 2 * (u64::MAX as u128));
}

#[test]
fn weighted_order_is_weight_then_branch_then_symbol() {
    let light = Weighted::new_leaf('z', 1);
    let a = Weighted::new_leaf('a', 2);
    let b = Weighted::new_leaf('b', 2);
    let branch = Weighted::new_branch(Weighted::new_leaf('y', 1), Weighted::new_leaf('x', 1));
    assert_eq!(light.cmp(&a), Ordering::Less);
    assert_eq!(a.cmp(&light), Ordering::Greater);
    assert_eq!(a.cmp(&b), Ordering::Less);
    assert_eq!(b.cmp(&a), Ordering::Greater);
    assert_eq!(a.cmp(&a), Ordering::Equal);
    assert_eq!(branch.cmp(&a), Ordering::Less);
    assert_eq!(b.cmp(&branch), Ordering::Greater);
}

#[test]
fn weighted_branches_of_one_weight_sort_by_the_weights_of_their_first_children() {
    let x = Weighted::new_branch(Weighted::new_leaf("A", 4), Weighted::new_leaf("B", 2));
    let y = Weighted::new_branch(Weighted::new_leaf("C", 3), Weighted::new_leaf("D", 3));
    assert_eq!(x.get_weight(), 6);
    assert_eq!(y.get_weight(), 6);
    assert_eq!(x.cmp(&y), Ordering::Greater);
    assert_eq!(y.cmp(&x), Ordering::Less);
}

#[test]
fn weighted_leaf_of_two_converts_to_the_plain_leaf() {
    let w = Weighted::new_leaf("A", 2);
    assert_eq!(w.get_weight(), 2);
    assert_eq!(HuffmanNode::from(w), HuffmanNode::into_leaf("A"));
}

#[test]
fn weighted_hands_out_its_node_with_the_weights_of_the_children() {
    let branch = Weighted::new_branch(Weighted::new_leaf('b', 4), Weighted::new_leaf('a', 3));
    let expected = WeightedHuffmanNode::into_branch(
        WeightedHuffmanNode::into_leaf('b', 4),
        WeightedHuffmanNode::into_leaf('a', 3),
    );
    assert_eq!(branch.as_node(), &expected);
}
