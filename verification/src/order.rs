//! The order on costs and priorities.
//!
//! Costs and priorities are compared with Rust's `<`. The contracts of this
//! crate speak of that comparison through `lt`, and rely on it being a total
//! order in which only identical values compare equal.

use core::cmp::Ordering;
use vstd::prelude::*;
use vstd::std_specs::cmp::{OrdSpec, PartialEqSpec, PartialOrdSpec};

verus! {

/// Whether `<` on `C` is a lawful total order, and `==` on `C` is identity.
///
/// This holds of the primitive integers, and of tuples, options and
/// references built of them.
pub open spec fn total_order<C: Ord>() -> bool {
    &&& vstd::laws_cmp::obeys_cmp::<C>()
    &&& vstd::laws_eq::obeys_concrete_eq::<C>()
}

/// `a` is strictly less than `b`.
pub open spec fn lt<C: Ord>(a: C, b: C) -> bool {
    a.partial_cmp_spec(&b) == Some(Ordering::Less)
}

/// `a` is less than or equal to `b`.
pub open spec fn le<C: Ord>(a: C, b: C) -> bool {
    !lt(b, a)
}

/// Compares two values: `true` exactly when `a` is strictly less than `b`.
pub fn less<C: Ord>(a: &C, b: &C) -> (r: bool)
    requires
        total_order::<C>(),
    ensures
        r == lt(*a, *b),
{
    proof {
        reveal(vstd::laws_cmp::obeys_cmp_partial_ord);
    }
    *a < *b
}

/// Of two values exactly one holds: the first is less, they are identical,
/// or the second is less.
pub proof fn lemma_trichotomy<C: Ord>(a: C, b: C)
    requires
        total_order::<C>(),
    ensures
        lt(a, b) || a == b || lt(b, a),
        !(lt(a, b) && lt(b, a)),
        !(lt(a, b) && a == b),
{
    reveal(vstd::laws_cmp::obeys_cmp_partial_ord);
    reveal(vstd::laws_cmp::obeys_cmp_ord);
    reveal(vstd::laws_cmp::obeys_partial_cmp_spec_properties);
    reveal(vstd::laws_eq::obeys_concrete_eq);
    reveal(vstd::laws_eq::obeys_eq_spec_properties);
    assert(a.partial_cmp_spec(&b) == Some(a.cmp_spec(&b)));
    assert(b.partial_cmp_spec(&a) == Some(b.cmp_spec(&a)));
    assert(a.partial_cmp_spec(&a) == Some(a.cmp_spec(&a)));
    assert(a.eq_spec(&a));
}

/// `<` is transitive.
pub proof fn lemma_lt_transitive<C: Ord>(a: C, b: C, c: C)
    requires
        total_order::<C>(),
        lt(a, b),
        lt(b, c),
    ensures
        lt(a, c),
{
    reveal(vstd::laws_cmp::obeys_partial_cmp_spec_properties);
}

/// `le` is transitive, and strict as soon as one of the two steps is.
pub proof fn lemma_le_transitive<C: Ord>(a: C, b: C, c: C)
    requires
        total_order::<C>(),
        le(a, b),
        le(b, c),
    ensures
        le(a, c),
        lt(a, b) || lt(b, c) ==> lt(a, c),
{
    lemma_trichotomy(a, b);
    lemma_trichotomy(b, c);
    lemma_trichotomy(a, c);
    if lt(a, b) && lt(b, c) {
        lemma_lt_transitive(a, b, c);
    }
    if lt(c, a) {
        if lt(a, b) {
            lemma_lt_transitive(c, a, b);
        } else if lt(b, c) {
            lemma_lt_transitive(b, c, a);
        }
    }
}

} // verus!
