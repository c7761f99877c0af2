//! The total order that keyed collections rely on.

use vstd::laws_cmp::obeys_cmp;
use vstd::laws_eq::obeys_concrete_eq;
use vstd::prelude::*;
use vstd::std_specs::cmp::{PartialEqSpec, PartialOrdIs, PartialOrdSpec};

verus! {

/// The comparison operators of `K` describe one strict total order, and `==`
/// on `K` is equality of values.
pub open spec fn total_order<K: Ord>() -> bool {
    obeys_cmp::<K>() && obeys_concrete_eq::<K>()
}

/// `a` comes strictly before `b`.
pub open spec fn lt<K: Ord>(a: K, b: K) -> bool {
    a.is_lt(&b)
}

/// `a` comes before `b` or equals it.
pub open spec fn le<K: Ord>(a: K, b: K) -> bool {
    lt(a, b) || a == b
}

/// No value comes before itself.
pub proof fn lemma_lt_irreflexive<K: Ord>(a: K)
    requires
        total_order::<K>(),
    ensures
        !lt(a, a),
{
    reveal(obeys_concrete_eq);
    reveal(vstd::laws_cmp::obeys_partial_cmp_spec_properties);
    reveal(vstd::laws_cmp::obeys_cmp_partial_ord);
    reveal(vstd::laws_cmp::obeys_cmp_ord);
}

/// Of two values never both come before the other.
pub proof fn lemma_lt_asymmetric<K: Ord>(a: K, b: K)
    requires
        total_order::<K>(),
        lt(a, b),
    ensures
        !lt(b, a),
        a != b,
{
    reveal(obeys_concrete_eq);
    reveal(vstd::laws_cmp::obeys_partial_cmp_spec_properties);
    reveal(vstd::laws_cmp::obeys_cmp_partial_ord);
    reveal(vstd::laws_cmp::obeys_cmp_ord);
}

/// The order is transitive.
pub proof fn lemma_lt_transitive<K: Ord>(a: K, b: K, c: K)
    requires
        total_order::<K>(),
        lt(a, b),
        lt(b, c),
    ensures
        lt(a, c),
{
    reveal(obeys_concrete_eq);
    reveal(vstd::laws_cmp::obeys_partial_cmp_spec_properties);
    reveal(vstd::laws_cmp::obeys_cmp_partial_ord);
    reveal(vstd::laws_cmp::obeys_cmp_ord);
}

/// Any two values are equal or one comes before the other.
pub proof fn lemma_lt_total<K: Ord>(a: K, b: K)
    requires
        total_order::<K>(),
    ensures
        lt(a, b) || a == b || lt(b, a),
{
    reveal(obeys_concrete_eq);
    reveal(vstd::laws_cmp::obeys_partial_cmp_spec_properties);
    reveal(vstd::laws_cmp::obeys_cmp_partial_ord);
    reveal(vstd::laws_cmp::obeys_cmp_ord);
}

/// Whether `a` comes strictly before `b`.
pub fn key_lt<K: Ord>(a: &K, b: &K) -> (r: bool)
    requires
        total_order::<K>(),
    ensures
        r == lt(*a, *b),
{
    proof {
        reveal(vstd::laws_cmp::obeys_cmp_partial_ord);
    }
    *a < *b
}

/// Whether `a` and `b` are the same key.
pub fn key_eq<K: Ord>(a: &K, b: &K) -> (r: bool)
    requires
        total_order::<K>(),
    ensures
        r == (*a == *b),
{
    proof {
        reveal(obeys_concrete_eq);
    }
    *a == *b
}

/// Whether `a` comes before `b` or is the same key.
pub fn key_le<K: Ord>(a: &K, b: &K) -> (r: bool)
    requires
        total_order::<K>(),
    ensures
        r == le(*a, *b),
{
    proof {
        reveal(obeys_concrete_eq);
        reveal(vstd::laws_cmp::obeys_partial_cmp_spec_properties);
        reveal(vstd::laws_cmp::obeys_cmp_partial_ord);
        reveal(vstd::laws_cmp::obeys_cmp_ord);
    }
    *a <= *b
}

/// The comparison operators of `T` describe one linear order, in which any
/// two values can be compared, and `==` on `T` is equality of values.
pub open spec fn linear_order<T: PartialOrd>() -> bool {
    &&& vstd::laws_cmp::obeys_cmp_partial_ord::<T>()
    &&& vstd::laws_cmp::obeys_partial_cmp_spec_properties::<T>()
    &&& obeys_concrete_eq::<T>()
    &&& forall|x: T, y: T| before(x, y) || x == y || before(y, x)
}

/// `a` comes strictly before `b`, for values that need not all be
/// comparable.
pub open spec fn before<T: PartialOrd>(a: T, b: T) -> bool {
    a.is_lt(&b)
}

/// `a` comes before `b` or equals it.
pub open spec fn not_behind<T: PartialOrd>(a: T, b: T) -> bool {
    before(a, b) || a == b
}

/// In a linear order no value comes before itself, of two values never
/// both come before the other, and what comes before a value comes before
/// all that the value comes before.
pub proof fn lemma_linear<T: PartialOrd>(a: T, b: T, c: T)
    requires
        linear_order::<T>(),
    ensures
        !before(a, a),
        before(a, b) ==> !before(b, a) && a != b,
        before(a, b) && before(b, c) ==> before(a, c),
        not_behind(a, b) && not_behind(b, c) ==> not_behind(a, c),
        not_behind(a, b) || before(b, a),
        !(not_behind(a, b) && before(b, a)),
{
    reveal(obeys_concrete_eq);
    reveal(vstd::laws_cmp::obeys_partial_cmp_spec_properties);
    reveal(vstd::laws_cmp::obeys_cmp_partial_ord);
}

/// What the comparison operators return on values in a linear order.
pub proof fn lemma_operators<T: PartialOrd>(a: T, b: T)
    requires
        linear_order::<T>(),
    ensures
        T::obeys_eq_spec(),
        T::obeys_partial_cmp_spec(),
        a.eq_spec(&b) == (a == b),
        a.is_le(&b) == not_behind(a, b),
{
    reveal(obeys_concrete_eq);
    reveal(vstd::laws_cmp::obeys_partial_cmp_spec_properties);
    reveal(vstd::laws_cmp::obeys_cmp_partial_ord);
}

} // verus!
