use vstd::prelude::*;

use core::cmp::Ordering;

verus! {

/// Whether `compare` never answers `Greater` on `(a, b)`.
pub open spec fn cmp_le<A, F: FnMut(&A, &A) -> Ordering>(compare: F, a: A, b: A) -> bool {
    forall|o: Ordering| #[trigger] compare.ensures((&a, &b), o) ==> o != Ordering::Greater
}

/// Whether `compare` behaves as a total order: one answer for each pair,
/// `a > b` only where `b <= a`, and `<=` transitive.
pub open spec fn is_consistent_order<A, F: FnMut(&A, &A) -> Ordering>(compare: F) -> bool {
    &&& forall|a: A, b: A, o1: Ordering, o2: Ordering|
        #[trigger] compare.ensures((&a, &b), o1) && #[trigger] compare.ensures((&a, &b), o2) ==> o1
            == o2
    &&& forall|a: A, b: A|
        #[trigger] compare.ensures((&a, &b), Ordering::Greater) ==> cmp_le(compare, b, a)
    &&& forall|a: A, b: A, c: A|
        #[trigger] cmp_le(compare, a, b) && #[trigger] cmp_le(compare, b, c) ==> cmp_le(
            compare,
            a,
            c,
        )
}

/// Whether `s` is in ascending order under `compare`.
pub open spec fn is_sorted_by<A, F: FnMut(&A, &A) -> Ordering>(compare: F, s: Seq<A>) -> bool {
    forall|i: int, j: int| 0 <= i < j < s.len() ==> #[trigger] cmp_le(compare, s[i], s[j])
}

} // verus!
