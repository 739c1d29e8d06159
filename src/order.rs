//! The order that the sorting and searching functions rely on.
use std::cmp::Ordering;
use vstd::prelude::*;
use vstd::std_specs::cmp::PartialOrdSpec;

verus! {

/// `x > y`, as `PartialOrd` reports it.
pub open spec fn greater<T: PartialOrd>(x: T, y: T) -> bool {
    x.partial_cmp_spec(&y) == Some(Ordering::Greater)
}

/// `x < y`, as `PartialOrd` reports it.
pub open spec fn less<T: PartialOrd>(x: T, y: T) -> bool {
    x.partial_cmp_spec(&y) == Some(Ordering::Less)
}

/// The comparison operators of `T` follow `partial_cmp`, which orders all
/// values of `T` totally: `x < y` exactly when `y > x`, and "not greater"
/// is transitive. The primitive integer types order their values so
/// (`lemma_integers_total_order`).
pub open spec fn total_order<T: PartialOrd>() -> bool {
    &&& T::obeys_partial_cmp_spec()
    &&& forall|x: T, y: T| #[trigger] less(x, y) <==> greater(y, x)
    &&& forall|x: T, y: T, z: T|
        #![trigger greater(x, y), greater(y, z)]
        #![trigger greater(x, y), greater(x, z)]
        #![trigger greater(y, z), greater(x, z)]
        !greater(x, y) && !greater(y, z) ==> !greater(x, z)
}

/// No value of `s` is greater than one that comes after it.
pub open spec fn sorted<T: PartialOrd>(s: Seq<T>) -> bool {
    forall|i: int, j: int| 0 <= i < j < s.len() ==> !greater(#[trigger] s[i], #[trigger] s[j])
}

/// "Not greater" is transitive under a total order.
pub proof fn lemma_not_greater_transitive<T: PartialOrd>(x: T, y: T, z: T)
    requires
        total_order::<T>(),
        !greater(x, y),
        !greater(y, z),
    ensures
        !greater(x, z),
{
}

/// Under a total order a value greater than another is not also below it.
pub proof fn lemma_greater_asymmetric<T: PartialOrd>(x: T, y: T)
    requires
        total_order::<T>(),
        greater(x, y),
    ensures
        !greater(y, x),
        less(y, x),
{
    assert(less(y, x) <==> greater(x, y));
    assert(less(x, y) <==> greater(y, x));
}

/// Under a total order no value is greater than itself.
pub proof fn lemma_not_greater_reflexive<T: PartialOrd>(x: T)
    requires
        total_order::<T>(),
    ensures
        !greater(x, x),
{
    assert(less(x, x) <==> greater(x, x));
}

/// The primitive integer types are totally ordered in the sense above.
pub proof fn lemma_integers_total_order()
    ensures
        total_order::<u8>(),
        total_order::<u16>(),
        total_order::<u32>(),
        total_order::<u64>(),
        total_order::<usize>(),
        total_order::<i8>(),
        total_order::<i16>(),
        total_order::<i32>(),
        total_order::<i64>(),
        total_order::<isize>(),
{
}

} // verus!
