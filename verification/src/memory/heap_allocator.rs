use vstd::prelude::*;

verus! {

/// The address at which the kernel's heap starts.
pub const HEAP_START: u64 = 0o_000_001_000_000_0000;

/// The size of the kernel's heap, in bytes: 80 pages.
pub const HEAP_SIZE: u64 = 0x5_0000;

/// The number of the first page of the heap.
pub const HEAP_FIRST_PAGE: u64 = 0x4_0000;

/// The number of the last page of the heap.
pub const HEAP_LAST_PAGE: u64 = 0x4_004f;

/// The heap takes up the pages from `HEAP_FIRST_PAGE` to `HEAP_LAST_PAGE`.
pub proof fn lemma_heap_pages()
    ensures
        HEAP_START / 4096 == HEAP_FIRST_PAGE,
        (HEAP_START + HEAP_SIZE - 1) / 4096 == HEAP_LAST_PAGE,
        HEAP_SIZE == 80 * 4096,
        HEAP_LAST_PAGE - HEAP_FIRST_PAGE + 1 == 80,
{
}

} // verus!
