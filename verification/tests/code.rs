use bit_vec::BitVec;
use rhuffman::huffman_tree::huffman_encoder::HuffmanCode;

#[test]
fn appendbit_modifies_code_correctly() {
    let mut code = HuffmanCode::new();

    code.append_bit(true);

    assert!(code.to_bitvec().eq_vec(&[true]));
}

#[test]
fn multiple_invocations_of_appendbit_result_in_correct_code() {
    let mut code = HuffmanCode::new();
    code.append_bit(false);
    code.append_bit(true);

    assert!(code.to_bitvec().eq_vec(&[false, true]));

    let mut code = HuffmanCode::new();
    code.append_bit(false);
    code.append_bit(false);
    assert!(code.to_bitvec().eq_vec(&[false, false]));

    let mut code = HuffmanCode::new();
    code.append_bit(true);
    code.append_bit(true);
    assert!(code.to_bitvec().eq_vec(&[true, true]));

    let mut code = HuffmanCode::new();
    code.append_bit(true);
    code.append_bit(false);
    code.append_bit(true);
    code.append_bit(true);
    assert!(code.to_bitvec().eq_vec(&[true, false, true, true]));
}

#[test]
fn first_encoded_is_identical() {
    let mut code = HuffmanCode::new();
    code.append_bit(true);
    code.append_bit(true);
    assert!(code.to_bitvec().eq_vec(&[true, true]));

    let mut bitvec = BitVec::new();
    code.append_code_to_bitvec(&mut bitvec);
    assert!(bitvec.eq_vec(&[true, true]));
}

#[test]
fn encoding_behaves_predictably() {
    let mut code1 = HuffmanCode::new();
    code1.append_bit(true);
    code1.append_bit(false);

    let mut code2 = HuffmanCode::new();
    code2.append_bit(false);
    code2.append_bit(true);

    let mut bitvec = BitVec::new();
    code1.append_code_to_bitvec(&mut bitvec);
    code2.append_code_to_bitvec(&mut bitvec);
    assert!(bitvec.eq_vec(&[true, false, false, true]));
}

#[test]
fn new_code_is_empty_and_clone_keeps_bits() {
    let mut code = HuffmanCode::new();
    assert_eq!(code.len(), 0);
    code.append_bit(true);
    code.append_bit(false);
    let copy = code.clone();
    code.append_bit(true);
    assert_eq!(copy.len(), 2);
    assert!(copy.to_bitvec().eq_vec(&[true, false]));
    assert_eq!(code.len(), 3);
}
