use rhuffman::huffman_tree::huffman_element::{WeightedHuffmanBranch, WeightedHuffmanNode};
use rhuffman::huffman_tree::huffman_node::{HuffmanBranch, HuffmanLeaf, HuffmanNode};
use std::cmp::Ordering;

fn leaf(symbol: u8) -> HuffmanNode<u8> {
    HuffmanNode::Leaf(HuffmanLeaf { symbol })
}

#[test]
fn branch_keeps_the_order_of_its_children() {
    let branch = HuffmanBranch::new(leaf(2), leaf(1));
    assert_eq!(*branch.links.0, leaf(2));
    assert_eq!(*branch.links.1, leaf(1));
    assert_eq!(HuffmanNode::into_branch(leaf(2), leaf(1)), HuffmanNode::Branch(branch));
    assert_eq!(HuffmanNode::into_leaf(4u8), leaf(4));
}

#[test]
fn a_branch_sorts_before_a_leaf() {
    let branch = HuffmanNode::into_branch(leaf(9), leaf(8));
    assert_eq!(branch.cmp(&leaf(0)), Ordering::Less);
    assert_eq!(leaf(0).cmp(&branch), Ordering::Greater);
}

#[test]
fn leaves_sort_by_symbol() {
    assert_eq!(leaf(1).cmp(&leaf(2)), Ordering::Less);
    assert_eq!(leaf(2).cmp(&leaf(1)), Ordering::Greater);
    assert_eq!(leaf(2).cmp(&leaf(2)), Ordering::Equal);
}

#[test]
fn branches_sort_by_their_first_children() {
    let low = HuffmanNode::into_branch(leaf(1), leaf(9));
    let high = HuffmanNode::into_branch(leaf(2), leaf(0));
    let deep = HuffmanNode::into_branch(HuffmanNode::into_branch(leaf(7), leaf(7)), leaf(0));
    assert_eq!(low.cmp(&high), Ordering::Less);
    assert_eq!(high.cmp(&low), Ordering::Greater);
    assert_eq!(deep.cmp(&low), Ordering::Less);
    assert_eq!(low.cmp(&deep), Ordering::Greater);
}

#[test]
fn weighted_nodes_sort_by_weight_first() {
    let light = WeightedHuffmanNode::into_leaf(9u8, 1);
    let heavy = WeightedHuffmanNode::into_leaf(0u8, 2);
    assert_eq!(light.cmp(&heavy), Ordering::Less);
    assert_eq!(heavy.cmp(&light), Ordering::Greater);
    assert!(light.precedes(&heavy));
    assert!(!heavy.precedes(&light));
}

#[test]
fn weighted_ties_put_branch_before_leaf_and_lower_symbol_first() {
    let branch = WeightedHuffmanNode::into_branch(
        WeightedHuffmanNode::into_leaf(5u8, 1),
        WeightedHuffmanNode::into_leaf(6u8, 1),
    );
    let leaf_two = WeightedHuffmanNode::into_leaf(0u8, 2);
    assert_eq!(branch.get_weight(), 2);
    assert_eq!(branch.cmp(&leaf_two), Ordering::Less);
    assert_eq!(leaf_two.cmp(&branch), Ordering::Greater);
    let b = WeightedHuffmanNode::into_leaf(1u8, 2);
    assert_eq!(leaf_two.cmp(&b), Ordering::Less);
    assert_eq!(b.cmp(&b), Ordering::Equal);
    assert!(!b.precedes(&b));
}

#[test]
fn weighted_branch_adds_the_weights_and_keeps_them_in_the_children() {
    let branch = WeightedHuffmanBranch::new(
        WeightedHuffmanNode::into_leaf(5u8, 3),
        WeightedHuffmanNode::into_leaf(6u8, 4),
    );
    assert_eq!(branch.weight, 7);
    assert_eq!(*branch.links.0, WeightedHuffmanNode::into_leaf(5u8, 3));
    assert_eq!(*branch.links.1, WeightedHuffmanNode::into_leaf(6u8, 4));
}

#[test]
fn branches_of_one_weight_sort_by_the_weights_of_their_first_children() {
    let x = WeightedHuffmanNode::into_branch(
        WeightedHuffmanNode::into_leaf("A", 4),
        WeightedHuffmanNode::into_leaf("B", 2),
    );
    let y = WeightedHuffmanNode::into_branch(
        WeightedHuffmanNode::into_leaf("C", 3),
        WeightedHuffmanNode::into_leaf("D", 3),
    );
    assert_eq!(x.get_weight(), y.get_weight());
    assert_eq!(x.cmp(&y), Ordering::Greater);
    assert_eq!(y.cmp(&x), Ordering::Less);
    assert!(y.precedes(&x));
    assert!(!x.precedes(&y));
}

#[test]
fn first_children_of_one_weight_sort_by_shape_then_by_their_first_children() {
    let leaf = |symbol: &'static str, weight: usize| WeightedHuffmanNode::into_leaf(symbol, weight);
    // both weigh 8 and have first children of weight 4
    let over_branch = WeightedHuffmanNode::into_branch(
        WeightedHuffmanNode::into_branch(leaf("Z", 3), leaf("Y", 1)),
        leaf("X", 4),
    );
    let over_leaf = WeightedHuffmanNode::into_branch(leaf("A", 4), leaf("B", 4));
    assert_eq!(over_branch.cmp(&over_leaf), Ordering::Less);
    assert_eq!(over_leaf.cmp(&over_branch), Ordering::Greater);
    // first children are branches of weight 4, whose first children weigh 3 and 2
    let heavier_below = WeightedHuffmanNode::into_branch(
        WeightedHuffmanNode::into_branch(leaf("C", 3), leaf("D", 1)),
        leaf("E", 4),
    );
    let lighter_below = WeightedHuffmanNode::into_branch(
        WeightedHuffmanNode::into_branch(leaf("T", 2), leaf("U", 2)),
        leaf("V", 4),
    );
    assert_eq!(lighter_below.cmp(&heavier_below), Ordering::Less);
    assert_eq!(heavier_below.cmp(&lighter_below), Ordering::Greater);
}

#[test]
fn conversion_drops_the_weights() {
    let weighted = WeightedHuffmanNode::into_branch(
        WeightedHuffmanNode::into_leaf(5u8, 3),
        WeightedHuffmanNode::into_leaf(6u8, 4),
    );
    let plain: HuffmanNode<u8> = HuffmanNode::from(weighted);
    assert_eq!(plain, HuffmanNode::into_branch(leaf(5), leaf(6)));
    assert_eq!(HuffmanNode::from(WeightedHuffmanNode::into_leaf(1u8, 9)), leaf(1));
    let deep = WeightedHuffmanNode::into_branch(
        WeightedHuffmanNode::into_branch(
            WeightedHuffmanNode::into_leaf(1u8, 1),
            WeightedHuffmanNode::into_leaf(2u8, 1),
        ),
        WeightedHuffmanNode::into_branch(
            WeightedHuffmanNode::into_leaf(3u8, 1),
            WeightedHuffmanNode::into_leaf(4u8, 1),
        ),
    );
    assert_eq!(deep.get_weight(), 4);
    assert_eq!(
        deep.into_tree(),
        HuffmanNode::into_branch(
            HuffmanNode::into_branch(leaf(1), leaf(2)),
            HuffmanNode::into_branch(leaf(3), leaf(4))
        )
    );
}

#[test]
fn weights_beyond_usize_do_not_overflow() {
    let a = WeightedHuffmanNode::into_leaf(1u8, usize::MAX);
    let b = WeightedHuffmanNode::into_leaf(2u8, usize::MAX);
    let sum = WeightedHuffmanNode::into_branch(a, b);
    assert_eq!(sum.get_weight(), 2 * (usize::MAX as u128));
}

#[test]
fn clone_of_a_tree_equals_the_tree() {
    let tree = HuffmanNode::into_branch(leaf(1), HuffmanNode::into_branch(leaf(2), leaf(3)));
    assert_eq!(tree.clone(), tree);
}

#[test]
fn clone_of_a_leaf_and_of_a_branch_equal_them() {
    let leaf = HuffmanLeaf { symbol: 5u8 };
    assert_eq!(leaf.clone(), leaf);
    let branch = HuffmanBranch::new(HuffmanNode::into_leaf(1u8), HuffmanNode::into_leaf(2u8));
    assert_eq!(branch.clone(), branch);
}
