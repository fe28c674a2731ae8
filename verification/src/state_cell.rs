//! The cell that holds the state of a reader cursor.

use crate::protocol::ReaderState;
use atomic::Atomic;
use vstd::prelude::*;

verus! {

/// `atomic::Atomic`, carried as an opaque cell.
#[verifier::external_type_specification]
#[verifier::external_body]
#[verifier::reject_recursive_types(T)]
pub struct ExAtomic<T>(Atomic<T>);

/// The state that a cell holds.
pub uninterp spec fn held_state(cell: Atomic<ReaderState>) -> ReaderState;

/// `Atomic::new`: a cell that holds `state`.
#[verifier::external_body]
pub(crate) fn new_state(state: ReaderState) -> (cell: Atomic<ReaderState>)
    ensures
        held_state(cell) == state,
{
    Atomic::new(state)
}

/// `Atomic::load` with acquire ordering: the state in the cell. The cell is
/// only ever written through `store_state`, which takes it exclusively, so
/// the load sees the last state stored.
#[verifier::external_body]
pub(crate) fn load_state(cell: &Atomic<ReaderState>) -> (state: ReaderState)
    ensures
        state == held_state(*cell),
{
    cell.load(atomic::Ordering::Acquire)
}

/// `Atomic::store` with release ordering: afterwards the cell holds `state`.
#[verifier::external_body]
pub(crate) fn store_state(cell: &mut Atomic<ReaderState>, state: ReaderState)
    ensures
        held_state(*final(cell)) == state,
{
    cell.store(state, atomic::Ordering::Release)
}

} // verus!
