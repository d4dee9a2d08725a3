//! Total orders: what sorting and the removal of duplicates ask of the
//! comparisons of a type.

use vstd::prelude::*;
use vstd::std_specs::cmp::{OrdSpec, PartialEqSpec, PartialOrdSpec};

verus! {

/// `a` comes strictly before `b`.
pub open spec fn less<T: Ord>(a: T, b: T) -> bool {
    a.cmp_spec(&b) is Less
}

/// `a` and `b` compare as equal.
pub open spec fn alike<T: Ord>(a: T, b: T) -> bool {
    a.cmp_spec(&b) is Equal
}

/// `a` does not come after `b`.
pub open spec fn at_most<T: Ord>(a: T, b: T) -> bool {
    less(a, b) || alike(a, b)
}

/// The comparisons of `T` say what their specifications say, they agree
/// with each other, and they order the values of `T` totally.
pub open spec fn is_total_order<T: Ord>() -> bool {
    &&& T::obeys_eq_spec()
    &&& T::obeys_partial_cmp_spec()
    &&& T::obeys_cmp_spec()
    &&& forall|a: T, b: T| #[trigger] a.partial_cmp_spec(&b) == Some(a.cmp_spec(&b))
    &&& forall|a: T, b: T| #[trigger] a.eq_spec(&b) <==> alike(a, b)
    &&& forall|a: T| #[trigger] alike(a, a)
    &&& forall|a: T, b: T| #[trigger] alike(a, b) ==> alike(b, a)
    &&& forall|a: T, b: T| #[trigger] less(a, b) <==> b.cmp_spec(&a) is Greater
    &&& forall|a: T, b: T, c: T|
        #![trigger at_most(a, b), at_most(b, c)]
        at_most(a, b) && at_most(b, c) ==> at_most(a, c)
    &&& forall|a: T, b: T, c: T|
        #![trigger less(a, b), at_most(b, c)]
        less(a, b) && at_most(b, c) ==> less(a, c)
    &&& forall|a: T, b: T, c: T|
        #![trigger at_most(a, b), less(b, c)]
        at_most(a, b) && less(b, c) ==> less(a, c)
}

/// Of two values one comes before the other, or they compare as equal; and
/// only one of the three holds.
pub proof fn lemma_one_of_three<T: Ord>(a: T, b: T)
    requires
        is_total_order::<T>(),
    ensures
        less(a, b) || alike(a, b) || less(b, a),
        !(less(a, b) && alike(a, b)),
        !(less(a, b) && less(b, a)),
        !(less(b, a) && alike(a, b)),
        at_most(a, b) <==> !less(b, a),
{
    assert(less(b, a) <==> a.cmp_spec(&b) is Greater);
    assert(less(a, b) <==> b.cmp_spec(&a) is Greater);
    assert(alike(a, b) ==> alike(b, a));
    assert(alike(b, a) ==> alike(a, b));
}

/// The integers of the machine are totally ordered by their comparisons.
pub proof fn lemma_integers_are_totally_ordered()
    ensures
        is_total_order::<i32>(),
        is_total_order::<u8>(),
        is_total_order::<u64>(),
        is_total_order::<usize>(),
{
}

/// Whether `a` comes strictly before `b`.
pub fn is_less<T: Ord>(a: &T, b: &T) -> (r: bool)
    ensures
        is_total_order::<T>() ==> r == less(*a, *b),
{
    proof {
        if is_total_order::<T>() {
            assert(a.partial_cmp_spec(b) == Some(a.cmp_spec(b)));
        }
    }
    *a < *b
}

/// Whether `a` and `b` compare as equal.
pub fn is_alike<T: Ord>(a: &T, b: &T) -> (r: bool)
    ensures
        is_total_order::<T>() ==> r == alike(*a, *b),
{
    proof {
        if is_total_order::<T>() {
            assert(a.eq_spec(b) <==> alike(*a, *b));
        }
    }
    *a == *b
}

} // verus!
