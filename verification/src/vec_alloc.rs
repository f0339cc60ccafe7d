//! Allocation queries and fallible reservations on `Vec`, whose outcome is
//! the allocator's.

use vstd::prelude::*;

verus! {

/// `Vec::capacity`: the number of elements the vector holds room for. The
/// standard library documents it as never below the length, and never
/// above `isize::MAX` bytes of elements. The exact value is the allocator's.
#[verifier::external_body]
pub(crate) fn vec_capacity<T>(values: &Vec<T>) -> (capacity: usize)
    ensures
        capacity >= values.len(),
        capacity * vstd::layout::size_of::<T>() <= isize::MAX,
{
    values.capacity()
}

/// `Vec::try_reserve_exact`: reserves room for `additional` more elements.
/// Success or failure is the allocator's decision; either way the contents
/// are unchanged.
#[verifier::external_body]
pub(crate) fn try_reserve_exact<T>(values: &mut Vec<T>, additional: usize) -> (reserved: bool)
    ensures
        final(values)@ == old(values)@,
{
    values.try_reserve_exact(additional).is_ok()
}

} // verus!
