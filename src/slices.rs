use vstd::prelude::*;

use core::slice::IterMut;

verus! {

/// The iterator of mutable references that `slice::iter_mut` returns.
#[verifier::external_type_specification]
#[verifier::external_body]
#[verifier::reject_recursive_types(T)]
pub struct ExIterMut<'a, T: 'a>(IterMut<'a, T>);

/// Relies on `slice::iter_mut`: an iterator over mutable references to the
/// items of `s`; it can change items but never the number of them.
#[verifier::external_body]
pub(crate) fn slice_iter_mut<'a, A>(s: &'a mut [A]) -> (r: IterMut<'a, A>)
    ensures
        final(s)@.len() == old(s)@.len(),
{
    s.iter_mut()
}

} // verus!
