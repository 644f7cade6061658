use core::cmp::Ordering;
use vstd::std_specs::cmp::{OrdSpec, PartialEqSpec, PartialOrdSpec};
use vstd::prelude::*;

verus! {

/// A clone of a symbol equals the symbol.
pub open spec fn lawful_clone<T: Clone>() -> bool {
    forall|a: T, b: T| cloned::<T>(a, b) ==> a == b
}

/// The order that `Ord` gives the symbols is a total order, and two symbols
/// compare equal exactly when they are the same value.
pub open spec fn lawful_order<T: Ord>() -> bool {
    &&& vstd::laws_cmp::obeys_cmp::<T>()
    &&& vstd::laws_eq::obeys_concrete_eq::<T>()
}

/// What the codec asks of a symbol type: a total order that agrees with
/// equality, clones that equal what was cloned, and hashing that a hash map
/// can rely on.
pub open spec fn lawful_symbols<T: Ord + Clone>() -> bool {
    &&& lawful_order::<T>()
    &&& lawful_clone::<T>()
    &&& vstd::std_specs::hash::obeys_key_model::<T>()
}

/// `a` sorts strictly before `b` in the symbol type's own order.
pub open spec fn symbol_lt<T: Ord>(a: T, b: T) -> bool {
    a.cmp_spec(&b) == Ordering::Less
}

/// Of two symbols exactly one holds: the first sorts before the second, they
/// are the same, or the second sorts before the first.
pub proof fn lemma_symbol_trichotomy<T: Ord>(a: T, b: T)
    requires
        lawful_order::<T>(),
    ensures
        symbol_lt(a, b) || a == b || symbol_lt(b, a),
        !(symbol_lt(a, b) && a == b),
        !(symbol_lt(b, a) && a == b),
        !(symbol_lt(a, b) && symbol_lt(b, a)),
        a.cmp_spec(&b) == Ordering::Equal <==> a == b,
        a.cmp_spec(&b) == Ordering::Greater <==> symbol_lt(b, a),
{
    reveal(vstd::laws_cmp::obeys_cmp_ord);
    reveal(vstd::laws_cmp::obeys_cmp_partial_ord);
    reveal(vstd::laws_cmp::obeys_partial_cmp_spec_properties);
    reveal(vstd::laws_eq::obeys_concrete_eq);
    assert(a.partial_cmp_spec(&b) == Some(a.cmp_spec(&b)));
    assert(b.partial_cmp_spec(&a) == Some(b.cmp_spec(&a)));
    assert(a.eq_spec(&b) <==> a == b);
    assert(b.eq_spec(&a) <==> a == b);
}

/// The symbol order is transitive.
pub proof fn lemma_symbol_lt_transitive<T: Ord>(a: T, b: T, c: T)
    requires
        lawful_order::<T>(),
        symbol_lt(a, b),
        symbol_lt(b, c),
    ensures
        symbol_lt(a, c),
{
    reveal(vstd::laws_cmp::obeys_cmp_ord);
    reveal(vstd::laws_cmp::obeys_partial_cmp_spec_properties);
    assert(a.partial_cmp_spec(&b) == Some(a.cmp_spec(&b)));
    assert(b.partial_cmp_spec(&c) == Some(b.cmp_spec(&c)));
    assert(a.partial_cmp_spec(&c) == Some(a.cmp_spec(&c)));
}

/// Bytes are lawful symbols.
pub proof fn lemma_u8_lawful()
    ensures
        lawful_symbols::<u8>(),
{
    broadcast use vstd::laws_cmp::group_laws_cmp;
    broadcast use vstd::laws_eq::group_laws_eq;
    broadcast use vstd::std_specs::hash::group_hash_axioms;
}

} // verus!
