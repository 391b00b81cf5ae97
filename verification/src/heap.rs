//! The heap that serves the blocks of one map.
//!
//! A heap is a [`linked_list_allocator::Heap`]. What it does is not proved here: the contracts of
//! the functions in this file state what its source does, over two names. [`heap_free`] is the
//! set of the addresses that it can still hand out, and [`heap_size`] is the number of bytes that
//! it manages, handed out or not.

use core::mem::MaybeUninit;
use linked_list_allocator::Heap;
use vstd::prelude::*;

verus! {

/// Declares the heap of `linked_list_allocator`, of which nothing is known but what the
/// functions below say.
#[verifier::external_type_specification]
#[verifier::external_body]
pub struct ExHeap(linked_list_allocator::Heap);

/// The addresses of the bytes that lie in the holes of a heap.
pub uninterp spec fn heap_free(heap: Heap) -> Set<int>;

/// The number of bytes that a heap manages.
pub uninterp spec fn heap_size(heap: Heap) -> nat;

/// The length of a machine word in bytes, to which a heap rounds.
pub open spec fn word() -> int {
    usize::BITS as int / 8
}

/// The number of bytes that a heap sets aside for a block of `size` bytes: whole words, and at
/// least two, so that a hole can later stand in its place.
pub open spec fn block_size(size: int) -> int {
    crate::request::round_up(
        if size < 2 * word() {
            2 * word()
        } else {
            size
        },
        word(),
    )
}

/// Whether the `len` bytes at `addr` are a hole: free bytes with none before or behind them.
pub open spec fn is_hole(free: Set<int>, addr: int, len: int) -> bool {
    &&& 0 < addr
    &&& 0 < len
    &&& vstd::set_lib::set_int_range(addr, addr + len).subset_of(free)
    &&& !free.contains(addr - 1)
    &&& !free.contains(addr + len)
}

/// Where a block stands in a hole: at its beginning if that is aligned, else behind a smaller hole.
pub open spec fn placement(addr: int, align: int) -> int {
    if addr % align == 0 {
        addr
    } else {
        crate::request::round_up(addr + 2 * word(), align)
    }
}

/// Whether a hole has room for a block: it is used up, or keeps enough for a hole behind the block.
pub open spec fn takes(addr: int, len: int, size: int, align: int) -> bool {
    let end = placement(addr, align) + block_size(size);
    end == addr + len || end + 2 * word() <= addr + len
}

/// Whether the hole at `addr` is the lowest one that has room for a block.
pub open spec fn takes_first(free: Set<int>, addr: int, len: int, size: int, align: int) -> bool {
    &&& is_hole(free, addr, len)
    &&& takes(addr, len, size, align)
    &&& forall|a: int, l: int| #[trigger] is_hole(free, a, l) && takes(a, l, size, align) ==> addr <= a
}

/// Whether the bytes that are set aside for a block are still the size of a memory layout.
pub open spec fn can_lay_out(size: int, align: int) -> bool {
    crate::request::round_up(block_size(size), align) <= isize::MAX
}

/// Where a block is found among free bytes: in the lowest hole that has room for it.
pub open spec fn first_fit(free: Set<int>, size: int, align: int) -> Option<usize> {
    if can_lay_out(size, align) && exists|addr: int, len: int|
        takes_first(free, addr, len, size, align) {
        let (addr, len) = choose|addr: int, len: int| takes_first(free, addr, len, size, align);
        Some(placement(addr, align) as usize)
    } else {
        None
    }
}

/// Whether the end of a block in a hole, or of the hole behind it, lies beyond the last address.
pub open spec fn overruns(addr: int, len: int, size: int, align: int) -> bool {
    let end = placement(addr, align) + block_size(size);
    &&& block_size(size) <= len
    &&& end > usize::MAX || (end < addr + len && end + 2 * word() > usize::MAX)
}

/// Whether the search for room ends before it comes to a hole where it overruns.
pub open spec fn searchable(free: Set<int>, size: int, align: int) -> bool {
    can_lay_out(size, align) ==> forall|addr: int, len: int| #[trigger]
        is_hole(free, addr, len) && overruns(addr, len, size, align) ==> exists|a: int, l: int|
            a < addr && #[trigger] is_hole(free, a, l) && takes(a, l, size, align)
}

/// The lowest hole that has room is where a block is found.
pub(crate) proof fn lemma_first_fit(free: Set<int>, addr: int, len: int, size: int, align: int)
    requires
        can_lay_out(size, align),
        takes_first(free, addr, len, size, align),
    ensures
        first_fit(free, size, align) == Some(placement(addr, align) as usize),
{
    let (a, l) = choose|a: int, l: int| takes_first(free, a, l, size, align);
    assert(takes_first(free, a, l, size, align));
    assert(a == addr);
}

/// If a hole has room, there is a lowest one that has.
pub(crate) proof fn lemma_lowest_hole(free: Set<int>, addr: int, len: int, size: int, align: int)
    requires
        is_hole(free, addr, len),
        takes(addr, len, size, align),
    ensures
        exists|a: int, l: int| takes_first(free, a, l, size, align),
    decreases addr,
{
    if exists|a: int, l: int|
        a < addr && #[trigger] is_hole(free, a, l) && takes(a, l, size, align) {
        let (a, l) = choose|a: int, l: int|
            a < addr && #[trigger] is_hole(free, a, l) && takes(a, l, size, align);
        lemma_lowest_hole(free, a, l, size, align);
    } else {
        assert(takes_first(free, addr, len, size, align));
    }
}

/// The first address of a region that a heap uses.
pub open spec fn usable_from(base: int) -> int {
    crate::request::round_up(base, word())
}

/// The end of the part of a region that a heap uses.
pub open spec fn usable_to(base: int, len: int) -> int {
    crate::request::round_down(base + len, word())
}

/// Calls `Heap::from_slice` and hands out the address of the region with the heap.
///
/// Claimed: the region is not at the null address and does not wrap around the end of the address
/// space, as no slice does. The heap manages the whole words of the region, and they are all free.
/// Where the region lies is left open.
#[verifier::external_body]
pub(crate) fn heap_from_slice(region: &'static mut [MaybeUninit<u8>]) -> (made: (usize, Heap))
    requires
        region@.len() >= 24,
    ensures
        made.0 > 0,
        made.0 + old(region)@.len() <= usize::MAX,
        heap_size(made.1) == usable_to(made.0 as int, old(region)@.len() as int) - usable_from(
            made.0 as int,
        ),
        heap_free(made.1) == vstd::set_lib::set_int_range(
            usable_from(made.0 as int),
            usable_to(made.0 as int, old(region)@.len() as int),
        ),
{
    (region.as_ptr() as usize, Heap::from_slice(region))
}

/// Calls `Heap::allocate_first_fit` with the layout of that size and alignment.
///
/// Claimed: a block is found in the lowest hole that has room for it, at the place that
/// [`placement`] says, and just the bytes that are set aside for it are free no more. None is found
/// only where no hole has room, or where no layout of the bytes to be set aside exists, and then the
/// heap stays as it was.
///
/// The search computes addresses without a check for overflow. So it must find room before it
/// comes to a hole where that happens.
#[verifier::external_body]
pub(crate) fn heap_allocate(heap: &mut Heap, size: usize, align: usize) -> (found: Option<usize>)
    requires
        (crate::request::RequestView { size, align }).valid(),
        searchable(heap_free(*old(heap)), size as int, align as int),
    ensures
        heap_size(*final(heap)) == heap_size(*old(heap)),
        found matches Some(block) ==> {
            &&& can_lay_out(size as int, align as int)
            &&& exists|addr: int, len: int| #[trigger]
                takes_first(heap_free(*old(heap)), addr, len, size as int, align as int) && block
                    == placement(addr, align as int)
            &&& heap_free(*final(heap)) == heap_free(*old(heap)).difference(
                vstd::set_lib::set_int_range(block as int, block + block_size(size as int)),
            )
        },
        found is None ==> {
            &&& can_lay_out(size as int, align as int) ==> forall|addr: int, len: int| #[trigger]
                is_hole(heap_free(*old(heap)), addr, len) ==> !takes(
                    addr,
                    len,
                    size as int,
                    align as int,
                )
            &&& heap_free(*final(heap)) == heap_free(*old(heap))
        },
{
    let layout = core::alloc::Layout::from_size_align(size, align).unwrap();
    match heap.allocate_first_fit(layout) {
        Ok(block) => Some(block.as_ptr() as usize),
        Err(()) => None,
    }
}

/// Calls `Heap::used`.
///
/// Claimed: this is the number of the bytes that the heap manages and that are not free.
#[verifier::external_body]
pub(crate) fn heap_used(heap: &Heap) -> (used: usize)
    ensures
        used == heap_size(*heap) - heap_free(*heap).len(),
{
    heap.used()
}

/// Calls `Heap::free`.
///
/// Claimed: this is the number of the free bytes.
#[verifier::external_body]
pub(crate) fn heap_free_len(heap: &Heap) -> (free: usize)
    ensures
        free == heap_free(*heap).len(),
{
    heap.free()
}

} // verus!
