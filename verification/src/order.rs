//! The total order on labels that every other module relies on.

use std::cmp::Ordering;
use vstd::prelude::*;
use vstd::std_specs::cmp::OrdSpec;

verus! {

/// Outcome of comparing a first label with a second one.
#[derive(Clone, Copy, Debug, PartialEq, Eq, Structural)]
pub enum Side {
    /// The first label sorts before the second.
    Below,
    /// The two labels are the same label.
    Same,
    /// The first label sorts after the second.
    Above,
}

/// `L`'s `Ord` implementation is a total order whose notion of equality is
/// plain equality of values.
pub open spec fn total_order<L: Ord>() -> bool {
    &&& vstd::laws_cmp::obeys_cmp::<L>()
    &&& vstd::laws_eq::obeys_concrete_eq::<L>()
}

/// `a` sorts strictly before `b`.
pub open spec fn lt<L: Ord>(a: L, b: L) -> bool {
    a.cmp_spec(&b) == Ordering::Less
}

/// The side of `b` on which `a` lies.
pub open spec fn side_of<L: Ord>(a: L, b: L) -> Side {
    if lt(a, b) {
        Side::Below
    } else if a == b {
        Side::Same
    } else {
        Side::Above
    }
}

/// Exactly one of `a < b`, `a == b`, `b < a` holds.
pub proof fn lemma_trichotomy<L: Ord>(a: L, b: L)
    requires
        total_order::<L>(),
    ensures
        lt(a, b) || a == b || lt(b, a),
        !(lt(a, b) && a == b),
        !(lt(b, a) && a == b),
        !(lt(a, b) && lt(b, a)),
{
    reveal(vstd::laws_cmp::obeys_cmp_partial_ord);
    reveal(vstd::laws_cmp::obeys_cmp_ord);
    reveal(vstd::laws_cmp::obeys_partial_cmp_spec_properties);
    reveal(vstd::laws_eq::obeys_concrete_eq);
    reveal(vstd::laws_eq::obeys_eq_spec_properties);
}

/// `<` is transitive.
pub proof fn lemma_lt_transitive<L: Ord>(a: L, b: L, c: L)
    requires
        total_order::<L>(),
        lt(a, b),
        lt(b, c),
    ensures
        lt(a, c),
{
    reveal(vstd::laws_cmp::obeys_cmp_partial_ord);
    reveal(vstd::laws_cmp::obeys_cmp_ord);
    reveal(vstd::laws_cmp::obeys_partial_cmp_spec_properties);
}

proof fn lemma_outcomes<L: Ord>(a: L, b: L)
    requires
        total_order::<L>(),
    ensures
        L::obeys_cmp_spec(),
        a.cmp_spec(&b) == Ordering::Equal <==> a == b,
        a.cmp_spec(&b) == Ordering::Greater <==> lt(b, a),
{
    reveal(vstd::laws_cmp::obeys_cmp_partial_ord);
    reveal(vstd::laws_cmp::obeys_cmp_ord);
    reveal(vstd::laws_cmp::obeys_partial_cmp_spec_properties);
    reveal(vstd::laws_eq::obeys_concrete_eq);
}

/// Compares two labels.
pub fn compare<L: Ord>(a: &L, b: &L) -> (r: Side)
    requires
        total_order::<L>(),
    ensures
        r == side_of(*a, *b),
{
    proof {
        lemma_outcomes(*a, *b);
    }
    match a.cmp(b) {
        Ordering::Less => Side::Below,
        Ordering::Equal => Side::Same,
        Ordering::Greater => Side::Above,
    }
}

} // verus!
