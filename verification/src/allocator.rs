//! The kernel heap's allocator, the outside crate `linked_list_allocator`:
//! what the library reads of it. The heap sits behind a spin lock and
//! changes with every allocation, so what a reading returns depends on the
//! moment and nothing is promised of it.
use vstd::prelude::*;

verus! {

#[verifier::external_type_specification]
#[verifier::external_body]
pub struct ExLockedHeap(linked_list_allocator::LockedHeap);

/// `LockedHeap::lock` then `Heap::used`: the bytes the heap has handed out
/// and not taken back, at the moment of the call. Nothing is stated of the
/// result: it changes with every allocation.
#[verifier::external_body]
pub(crate) fn used(heap: &linked_list_allocator::LockedHeap) -> usize {
    heap.lock().used()
}

/// `LockedHeap::lock` then `Heap::free`: the heap's size less its used
/// bytes, at the moment of the call. Nothing is stated of the result.
#[verifier::external_body]
pub(crate) fn free(heap: &linked_list_allocator::LockedHeap) -> usize {
    heap.lock().free()
}

} // verus!
