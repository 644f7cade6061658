use bit_vec::BitVec;
use vstd::prelude::*;

verus! {

/// The bit vector of the `bit-vec` crate, in which the codec keeps encoded
/// bits. Nothing is known of a value but the bits that `bits_of` names.
#[verifier::external_type_specification]
#[verifier::external_body]
#[verifier::reject_recursive_types(B)]
pub struct ExBitVec<B>(bit_vec::BitVec<B>);

/// The bits that a bit vector holds, first bit first.
pub uninterp spec fn bits_of(v: BitVec) -> Seq<bool>;

/// The byte that packs bits `8 * i .. 8 * i + 8` of `bits`, the first of them
/// in the high-order position, with `false` standing in past the end.
pub open spec fn packed_byte(bits: Seq<bool>, i: int) -> u8 {
    (bit_value(bits, 8 * i, 128) + bit_value(bits, 8 * i + 1, 64) + bit_value(bits, 8 * i + 2, 32)
        + bit_value(bits, 8 * i + 3, 16) + bit_value(bits, 8 * i + 4, 8) + bit_value(
        bits,
        8 * i + 5,
        4,
    ) + bit_value(bits, 8 * i + 6, 2) + bit_value(bits, 8 * i + 7, 1)) as u8
}

/// `weight` if bit `k` of `bits` is present and set, else 0.
pub open spec fn bit_value(bits: Seq<bool>, k: int, weight: int) -> int {
    if 0 <= k < bits.len() && bits[k] {
        weight
    } else {
        0
    }
}

/// The bytes that hold `bits`, eight to a byte, most significant bit first,
/// the last byte padded with zero bits.
pub open spec fn pack_bits(bits: Seq<bool>) -> Seq<u8> {
    Seq::new(((bits.len() + 7) / 8) as nat, |i: int| packed_byte(bits, i))
}

/// Bit `k` of a byte sequence read most significant bit first.
pub open spec fn unpacked_bit(bytes: Seq<u8>, k: int) -> bool {
    (bytes[k / 8] as int / pow2_of(7 - k % 8)) % 2 == 1
}

/// Two to the power `e`, for `e` in `0..8`.
pub open spec fn pow2_of(e: int) -> int {
    if e == 0 {
        1
    } else if e == 1 {
        2
    } else if e == 2 {
        4
    } else if e == 3 {
        8
    } else if e == 4 {
        16
    } else if e == 5 {
        32
    } else if e == 6 {
        64
    } else {
        128
    }
}

/// All bits of a byte sequence, eight per byte, most significant bit first.
pub open spec fn unpack_bits(bytes: Seq<u8>) -> Seq<bool> {
    Seq::new((8 * bytes.len()) as nat, |k: int| unpacked_bit(bytes, k))
}

/// Bit `j` of the byte that packs the bits from `8 * i` on is the bit at
/// `8 * i + j`, and is zero past the end.
pub proof fn lemma_packed_bit(bits: Seq<bool>, i: int, j: int)
    requires
        0 <= i,
        0 <= j < 8,
    ensures
        ((packed_byte(bits, i) as int / pow2_of(7 - j)) % 2 == 1) == (8 * i + j < bits.len()
            && bits[8 * i + j]),
{
    let b0 = bit_value(bits, 8 * i, 128);
    let b1 = bit_value(bits, 8 * i + 1, 64);
    let b2 = bit_value(bits, 8 * i + 2, 32);
    let b3 = bit_value(bits, 8 * i + 3, 16);
    let b4 = bit_value(bits, 8 * i + 4, 8);
    let b5 = bit_value(bits, 8 * i + 5, 4);
    let b6 = bit_value(bits, 8 * i + 6, 2);
    let b7 = bit_value(bits, 8 * i + 7, 1);
    let sum = b0 + b1 + b2 + b3 + b4 + b5 + b6 + b7;
    assert(0 <= sum <= 255);
    assert(packed_byte(bits, i) as int == sum);
}

/// Packing bits into bytes and reading the bytes back gives the bits again,
/// followed by the padding.
pub proof fn lemma_pack_then_unpack(bits: Seq<bool>)
    ensures
        8 * pack_bits(bits).len() >= bits.len(),
        unpack_bits(pack_bits(bits)).take(bits.len() as int) == bits,
{
    let bytes = pack_bits(bits);
    let back = unpack_bits(bytes).take(bits.len() as int);
    assert forall|k: int| 0 <= k < bits.len() implies back[k] == bits[k] by {
        lemma_packed_bit(bits, k / 8, k % 8);
        assert(bytes[k / 8] == packed_byte(bits, k / 8));
    }
    assert(back =~= bits);
}

/// `BitVec::new`: the new vector holds no bits.
#[verifier::external_body]
pub(crate) fn bitvec_new() -> (v: BitVec)
    ensures
        bits_of(v) == Seq::<bool>::empty(),
{
    BitVec::new()
}

/// `BitVec::len`: the number of bits held.
#[verifier::external_body]
pub(crate) fn bitvec_len(v: &BitVec) -> (n: usize)
    ensures
        n == bits_of(*v).len(),
{
    v.len()
}

/// `BitVec::push`: appends one bit at the end. The crate panics when the
/// length would pass `usize::MAX`, which `requires` rules out.
#[verifier::external_body]
pub(crate) fn bitvec_push(v: &mut BitVec, bit: bool)
    requires
        bits_of(*old(v)).len() < usize::MAX,
    ensures
        bits_of(*final(v)) == bits_of(*old(v)).push(bit),
{
    v.push(bit)
}

/// The index operator of `BitVec`: the bit at index `i`. It panics on an
/// index out of bounds, which `requires` rules out.
#[verifier::external_body]
pub(crate) fn bitvec_get(v: &BitVec, i: usize) -> (bit: bool)
    requires
        i < bits_of(*v).len(),
    ensures
        bit == bits_of(*v)[i as int],
{
    v[i]
}

/// `BitVec::clone`: the copy holds the same bits.
#[verifier::external_body]
pub(crate) fn bitvec_clone(v: &BitVec) -> (c: BitVec)
    ensures
        bits_of(c) == bits_of(*v),
{
    v.clone()
}

/// `BitVec::append`: moves every bit of `other` to the end of `v` and leaves
/// `other` empty. The crate adds the two lengths unchecked, so `requires`
/// keeps their sum within `usize`.
#[verifier::external_body]
pub(crate) fn bitvec_append(v: &mut BitVec, other: &mut BitVec)
    requires
        bits_of(*old(v)).len() + bits_of(*old(other)).len() <= usize::MAX,
    ensures
        bits_of(*final(v)) == bits_of(*old(v)) + bits_of(*old(other)),
        bits_of(*final(other)) == Seq::<bool>::empty(),
{
    v.append(other)
}

/// `BitVec::to_bytes`: the first bit becomes the high-order bit of the first
/// byte, and the last byte is filled up with `false`.
#[verifier::external_body]
pub(crate) fn bitvec_to_bytes(v: &BitVec) -> (bytes: Vec<u8>)
    ensures
        bytes@ == pack_bits(bits_of(*v)),
{
    v.to_bytes()
}

/// `BitVec::from_bytes`: each byte becomes eight bits, most significant
/// first. The crate panics when eight times the length overflows, which
/// `requires` rules out.
#[verifier::external_body]
pub(crate) fn bitvec_from_bytes(bytes: &[u8]) -> (v: BitVec)
    requires
        8 * bytes@.len() <= usize::MAX,
    ensures
        bits_of(v) == unpack_bits(bytes@),
{
    BitVec::from_bytes(bytes)
}

/// `BitVec::truncate`: drops the bits from index `len` on; a `len` beyond the
/// current length changes nothing.
#[verifier::external_body]
pub(crate) fn bitvec_truncate(v: &mut BitVec, len: usize)
    ensures
        bits_of(*final(v)) == if len < bits_of(*old(v)).len() {
            bits_of(*old(v)).take(len as int)
        } else {
            bits_of(*old(v))
        },
{
    v.truncate(len)
}

} // verus!
