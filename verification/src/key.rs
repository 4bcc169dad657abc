//! The order on keys.
//!
//! Keys are compared with the operators of `PartialOrd`. What the heap
//! proves holds for key types whose comparison is a total order in the
//! sense of [`lawful`]; vstd shows this for the primitive integers.

use std::cmp::Ordering;
use vstd::prelude::*;
use vstd::std_specs::cmp::PartialEqSpec;
use vstd::std_specs::cmp::PartialOrdSpec;

verus! {

/// Represents a trait for keys within an addressable pairing heap.
///
/// It is implemented for every type that is `Copy`, `PartialOrd` and `Ord`.
pub trait Key: Copy + PartialOrd + Ord {

}

impl<T> Key for T where T: Copy + PartialOrd + Ord {

}

/// The comparison operators of `K` describe a total order.
pub open spec fn lawful<K: Key>() -> bool {
    vstd::laws_cmp::obeys_cmp::<K>()
}

/// `a` is strictly less than `b`: what `a < b` computes.
pub open spec fn key_lt<K: Key>(a: K, b: K) -> bool {
    a.partial_cmp_spec(&b) == Some(Ordering::Less)
}

/// `a` is at most `b`: what `a <= b` computes.
pub open spec fn key_le<K: Key>(a: K, b: K) -> bool {
    a.partial_cmp_spec(&b) == Some(Ordering::Less) || a.partial_cmp_spec(&b) == Some(
        Ordering::Equal,
    )
}

/// In a lawful order the comparison operators go by `partial_cmp_spec`,
/// which always has an answer.
pub proof fn lemma_comparable<K: Key>(a: K, b: K)
    requires
        lawful::<K>(),
    ensures
        K::obeys_partial_cmp_spec(),
        a.partial_cmp_spec(&b) is Some,
{
    reveal(vstd::laws_cmp::obeys_cmp_partial_ord);
    reveal(vstd::laws_cmp::obeys_cmp_ord);
}

/// In a lawful order exactly one of `a < b` and `b <= a` holds.
pub proof fn lemma_lt_or_ge<K: Key>(a: K, b: K)
    requires
        lawful::<K>(),
    ensures
        key_lt(a, b) <==> !key_le(b, a),
{
    reveal(vstd::laws_cmp::obeys_cmp_partial_ord);
    reveal(vstd::laws_cmp::obeys_cmp_ord);
    reveal(vstd::laws_cmp::obeys_partial_cmp_spec_properties);
}

/// Every key is at most itself.
pub proof fn lemma_le_refl<K: Key>(a: K)
    requires
        lawful::<K>(),
    ensures
        key_le(a, a),
{
    reveal(vstd::laws_cmp::obeys_cmp_partial_ord);
    reveal(vstd::laws_cmp::obeys_cmp_ord);
    reveal(vstd::laws_cmp::obeys_partial_cmp_spec_properties);
}

/// `<=` is transitive.
pub proof fn lemma_le_trans<K: Key>(a: K, b: K, c: K)
    requires
        lawful::<K>(),
        key_le(a, b),
        key_le(b, c),
    ensures
        key_le(a, c),
{
    reveal(vstd::laws_cmp::obeys_cmp_partial_ord);
    reveal(vstd::laws_cmp::obeys_cmp_ord);
    reveal(vstd::laws_cmp::obeys_partial_cmp_spec_properties);
    reveal(vstd::laws_eq::obeys_eq_spec_properties);
    let ab = a.partial_cmp_spec(&b);
    let bc = b.partial_cmp_spec(&c);
    let ac = a.partial_cmp_spec(&c);
    let ca = c.partial_cmp_spec(&a);
    let cb = c.partial_cmp_spec(&b);
    let ba = b.partial_cmp_spec(&a);
    if ac == Some(Ordering::Greater) {
        assert(ca == Some(Ordering::Less));
        if ab == Some(Ordering::Less) {
            // c < a < b
            assert(cb == Some(Ordering::Less));
            assert(bc == Some(Ordering::Greater));
        } else {
            // a ~ b
            assert(a.eq_spec(&b));
            if bc == Some(Ordering::Less) {
                // b < c < a
                assert(ba == Some(Ordering::Less));
                assert(ab == Some(Ordering::Greater));
            } else {
                assert(b.eq_spec(&c));
                assert(a.eq_spec(&c));
            }
        }
    }
}

} // verus!
