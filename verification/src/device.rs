//! Device-memory abstraction: character cells whose accesses must reach the
//! device on every read and write. Cells are held behind `volatile::Volatile`
//! so the compiler can never elide, reorder, or coalesce an access; the small
//! trusted wrappers below are the only way the rest of the library touches
//! them.

use vstd::prelude::*;
use volatile::Volatile;

verus! {

#[verifier::external_type_specification]
#[verifier::external_body]
#[verifier::reject_recursive_types(T)]
pub struct ExVolatile<T: Copy>(Volatile<T>);

/// The character-cell value a volatile slot currently holds.
pub uninterp spec fn cell_value(c: Volatile<u16>) -> u16;

/// Relies on `volatile::Volatile::new`: wraps the given value.
#[verifier::external_body]
pub(crate) fn cell_new(value: u16) -> (c: Volatile<u16>)
    ensures
        cell_value(c) == value,
{
    Volatile::new(value)
}

/// Relies on `volatile::Volatile::read`: a volatile read returns a copy of
/// the contained value.
#[verifier::external_body]
pub(crate) fn cell_read(cells: &Vec<Volatile<u16>>, i: usize) -> (r: u16)
    requires
        i < cells@.len(),
    ensures
        r == cell_value(cells@[i as int]),
{
    cells[i].read()
}

/// Relies on `volatile::Volatile::write`: a volatile write sets the contained
/// value and touches nothing else.
#[verifier::external_body]
pub(crate) fn cell_write(cells: &mut Vec<Volatile<u16>>, i: usize, value: u16)
    requires
        i < old(cells)@.len(),
    ensures
        final(cells)@.len() == old(cells)@.len(),
        cell_value(final(cells)@[i as int]) == value,
        forall|j: int|
            0 <= j < old(cells)@.len() && j != i ==> final(cells)@[j] == old(cells)@[j],
{
    cells[i].write(value)
}

} // verus!
