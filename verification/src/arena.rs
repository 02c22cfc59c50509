//! Arena allocation.

use bumpalo::Bump;
use vstd::prelude::*;

verus! {

/// `bumpalo::Bump`: an arena, which frees what it holds all at once.
#[verifier::external_type_specification]
#[verifier::external_body]
pub struct ExBump<const MIN_ALIGN: usize>(bumpalo::Bump<MIN_ALIGN>);

/// `Bump::new`: an arena that holds nothing.
#[verifier::external_body]
pub(crate) fn new_arena() -> Bump {
    Bump::new()
}

/// `Bump::alloc_slice_fill_iter`: the items in order, in memory of the arena.
#[verifier::external_body]
pub(crate) fn alloc_items<'a, T>(arena: &'a Bump, items: Vec<T>) -> (slice: &'a mut [T])
    ensures
        slice@ == items@,
{
    arena.alloc_slice_fill_iter(items)
}

/// `Bump::allocated_bytes`: how much memory the arena has taken. It depends on the allocator, so
/// any number may come.
#[verifier::external_body]
pub(crate) fn arena_bytes(arena: &Bump) -> usize {
    arena.allocated_bytes()
}

} // verus!
