//! One map of the file, from the first attempt to establish it.

use crate::heap::{heap_allocate, heap_free_len, heap_from_slice, heap_used};
use crate::request::Request;
use core::mem::MaybeUninit;
use linked_list_allocator::Heap;
use vstd::prelude::*;

verus! {

/// No less than a heap can need behind a block for the rounding of its size and for a hole.
pub const HEADROOM: usize = 32;

/// A stretch of memory that is mapped into the process.
#[derive(Clone, Copy, Debug, PartialEq, Eq, Structural)]
pub struct Region {
    pub addr: usize,
    pub len: usize,
}

/// The contents of a [`Mapping`].
#[verifier::ext_equal]
pub struct MappingView {
    /// Where the map lies in memory.
    pub base: int,
    /// The length of the map.
    pub len: int,
    /// The number of bytes that the heap of the map manages.
    pub size: nat,
    /// The addresses that the heap of the map can hand out.
    pub free: Set<int>,
}

impl MappingView {
    /// Where the part of the map begins that its heap manages.
    pub open spec fn bottom(self) -> int {
        crate::heap::usable_from(self.base)
    }

    /// Where the part of the map ends that its heap manages.
    pub open spec fn top(self) -> int {
        crate::heap::usable_to(self.base, self.len)
    }

    /// Whether the heap manages the whole words of the map.
    pub open spec fn valid(self) -> bool {
        &&& 0 < self.base
        &&& self.base + self.len <= usize::MAX
        &&& self.base <= self.bottom() <= self.top() <= self.base + self.len
        &&& self.size == self.top() - self.bottom()
        &&& self.free.subset_of(vstd::set_lib::set_int_range(self.bottom(), self.top()))
    }

    /// Whether the address lies in the map.
    pub open spec fn holds(self, addr: int) -> bool {
        self.base <= addr < self.base + self.len
    }

    /// Whether the map shares no memory with another.
    pub open spec fn apart_from(self, other: MappingView) -> bool {
        self.base + self.len <= other.base || other.base + other.len <= self.base
    }

    /// The bytes that are set aside for a block of `size` bytes at `addr`.
    pub open spec fn block(addr: int, size: int) -> Set<int> {
        vstd::set_lib::set_int_range(addr, addr + crate::heap::block_size(size))
    }

    /// Where the map has room for a request, if it has.
    pub open spec fn fit(self, request: crate::request::RequestView) -> Option<usize> {
        crate::heap::first_fit(self.free, request.size as int, request.align as int)
    }

    /// Whether the search for room keeps to the address space.
    pub open spec fn searchable(self, request: crate::request::RequestView) -> bool {
        crate::heap::searchable(self.free, request.size as int, request.align as int)
    }

    /// Whether the map is so far from the last address that every search keeps to the address
    /// space.
    pub open spec fn clears(self, request: crate::request::RequestView) -> bool {
        crate::request::round_up(self.base + self.len, request.align as int) + request.size
            + HEADROOM <= usize::MAX
    }

    /// The map after a request was served.
    pub open spec fn served(self, request: crate::request::RequestView) -> MappingView {
        match self.fit(request) {
            Some(addr) => MappingView {
                free: self.free.difference(Self::block(addr as int, request.size as int)),
                ..self
            },
            None => self,
        }
    }

    /// The map as it is when a region of memory has just been mapped at `base`.
    pub open spec fn fresh(base: int, len: int) -> MappingView {
        MappingView {
            base,
            len,
            size: (crate::heap::usable_to(base, len) - crate::heap::usable_from(base)) as nat,
            free: vstd::set_lib::set_int_range(
                crate::heap::usable_from(base),
                crate::heap::usable_to(base, len),
            ),
        }
    }
}

/// The free bytes of a map lie in it, and are no more than its heap manages.
pub(crate) proof fn lemma_free_bytes(map: MappingView)
    requires
        map.valid(),
    ensures
        map.free.finite(),
        map.free.len() <= map.size <= map.len,
        map.free.subset_of(vstd::set_lib::set_int_range(map.base, map.base + map.len)),
{
    let managed = vstd::set_lib::set_int_range(map.bottom(), map.top());
    vstd::set_lib::lemma_int_range(map.bottom(), map.top());
    vstd::set_lib::lemma_len_subset(map.free, managed);
}

/// At least two words and no fewer bytes than asked for are set aside for a block, and no more than
/// two words beyond that.
pub(crate) proof fn lemma_block_size(size: int)
    requires
        0 <= size,
    ensures
        size <= crate::heap::block_size(size) <= size + 2 * crate::heap::word(),
        2 * crate::heap::word() <= crate::heap::block_size(size),
        crate::heap::block_size(size) % crate::heap::word() == 0,
        crate::heap::word() == 4 || crate::heap::word() == 8,
{
    let word = crate::heap::word();
    assert(word == 4 || word == 8);
    crate::request::lemma_round_up(
        if size < 2 * word {
            2 * word
        } else {
            size
        },
        word,
    );
}

/// A block stands in its hole, on a multiple of the alignment.
pub(crate) proof fn lemma_placement(addr: int, len: int, size: int, align: int)
    requires
        0 < addr,
        0 <= size,
        0 < align,
        crate::heap::takes(addr, len, size, align),
    ensures
        addr <= crate::heap::placement(addr, align),
        crate::heap::placement(addr, align) % align == 0,
        crate::heap::placement(addr, align) + crate::heap::block_size(size) <= addr + len,
{
    lemma_block_size(size);
    if addr % align != 0 {
        crate::request::lemma_round_up(addr + 2 * crate::heap::word(), align);
    }
}

/// A place that a map has for a request is aligned as asked and takes up free bytes only.
pub(crate) proof fn lemma_fit(map: MappingView, request: crate::request::RequestView)
    requires
        map.valid(),
        request.valid(),
        map.fit(request) is Some,
    ensures
        ({
            let addr = map.fit(request)->0 as int;
            &&& addr > 0
            &&& addr % request.align as int == 0
            &&& MappingView::block(addr, request.size as int).subset_of(map.free)
            &&& map.bottom() <= addr
            &&& addr + crate::heap::block_size(request.size as int) <= map.top()
        }),
{
    let size = request.size as int;
    let align = request.align as int;
    let (addr, len) = choose|addr: int, len: int|
        crate::heap::takes_first(map.free, addr, len, size, align);
    crate::request::lemma_align_positive(request);
    lemma_placement(addr, len, size, align);
    lemma_block_size(size);
    let hole = vstd::set_lib::set_int_range(addr, addr + len);
    assert(hole.contains(addr));
    assert(hole.contains(addr + len - 1));
    assert(map.free.contains(addr + len - 1));
    assert(map.free.contains(addr));
}

/// A map that serves a request is still one that its heap manages.
pub(crate) proof fn lemma_served_map_is_valid(
    map: MappingView,
    request: crate::request::RequestView,
)
    requires
        map.valid(),
    ensures
        map.served(request).valid(),
{
}

/// In a map that is far enough from the last address no search overruns.
pub(crate) proof fn lemma_clear_map_is_searchable(
    map: MappingView,
    request: crate::request::RequestView,
)
    requires
        map.valid(),
        request.valid(),
        map.clears(request),
    ensures
        map.searchable(request),
{
    let size = request.size as int;
    let align = request.align as int;
    let end = map.base + map.len;
    crate::request::lemma_align_positive(request);
    crate::request::lemma_round_up(end, align);
    lemma_block_size(size);
    assert forall|addr: int, len: int| #[trigger]
        crate::heap::is_hole(map.free, addr, len) implies !crate::heap::overruns(
        addr,
        len,
        size,
        align,
    ) by {
        let hole = vstd::set_lib::set_int_range(addr, addr + len);
        assert(hole.contains(addr + len - 1));
        assert(map.free.contains(addr + len - 1));
        if crate::heap::block_size(size) <= len && addr % align != 0 {
            crate::request::lemma_round_up_is_ordered(
                addr + 2 * crate::heap::word(),
                end,
                align,
            );
        }
    }
}

/// A mapped stretch of the file, and the heap that lives in it.
pub struct Mapping {
    base: usize,
    len: usize,
    heap: Heap,
}

impl View for Mapping {
    type V = MappingView;

    closed spec fn view(&self) -> MappingView {
        MappingView {
            base: self.base as int,
            len: self.len as int,
            size: crate::heap::heap_size(self.heap),
            free: crate::heap::heap_free(self.heap),
        }
    }
}

impl Mapping {
    /// The map that lives in a region of memory.
    pub fn new(region: &'static mut [MaybeUninit<u8>]) -> (mapping: Mapping)
        requires
            region@.len() >= 24,
        ensures
            mapping@ == MappingView::fresh(mapping@.base, old(region)@.len() as int),
            mapping@.valid(),
            mapping@.len == old(region)@.len(),
    {
        let len: usize = region.len();
        let (base, heap) = heap_from_slice(region);
        let mapping = Mapping { base, len, heap };
        proof {
            crate::request::lemma_round_up(base as int, crate::heap::word());
            crate::request::lemma_round_down(base + len, crate::heap::word());
            vstd::set_lib::lemma_int_range(
                crate::heap::usable_from(base as int),
                crate::heap::usable_to(base as int, len as int),
            );
        }
        mapping
    }

    /// Takes room for a request out of the heap, if there is any, and says where.
    pub fn allocate(&mut self, request: &Request) -> (found: Option<usize>)
        requires
            old(self)@.valid(),
            old(self)@.searchable(request@),
        ensures
            found == old(self)@.fit(request@),
            final(self)@ == old(self)@.served(request@),
            final(self)@.valid(),
    {
        let size: usize = request.size();
        let align: usize = request.align();
        let found = heap_allocate(&mut self.heap, size, align);
        proof {
            let free = old(self)@.free;
            if let Some(block) = found {
                let (addr, len) = choose|addr: int, len: int| #[trigger]
                    crate::heap::takes_first(free, addr, len, size as int, align as int) && block
                        == crate::heap::placement(addr, align as int);
                crate::heap::lemma_first_fit(free, addr, len, size as int, align as int);
            }
        }
        found
    }

    /// Whether the map is so far from the last address that every search keeps to the address
    /// space.
    pub fn clears(&self, request: &Request) -> (answer: bool)
        requires
            self@.valid(),
        ensures
            answer == self@.clears(request@),
    {
        let size: usize = request.size();
        let align: usize = request.align();
        let end: usize = self.base + self.len;
        proof {
            crate::request::lemma_align_positive(request@);
            crate::request::lemma_padding(end as int, align as int);
        }
        let rest: usize = end % align;
        let padding: usize = if rest == 0 {
            0
        } else {
            align - rest
        };
        let above: usize = usize::MAX - end;
        padding <= above && size <= above - padding && HEADROOM <= above - padding - size
    }

    /// The number of bytes that are handed out.
    pub fn used(&self) -> (used: usize)
        requires
            self@.valid(),
        ensures
            used == self@.size - self@.free.len(),
    {
        heap_used(&self.heap)
    }

    /// The number of bytes that can be handed out.
    pub fn free(&self) -> (free: usize)
        requires
            self@.valid(),
        ensures
            free == self@.free.len(),
    {
        heap_free_len(&self.heap)
    }

    /// Where the map lies in memory.
    pub fn region(&self) -> (region: Region)
        ensures
            region.addr == self@.base,
            region.len == self@.len,
    {
        Region { addr: self.base, len: self.len }
    }

    /// The heap of the map.
    pub fn heap_mut(&mut self) -> (heap: &mut Heap)
        ensures
            crate::heap::heap_free(*heap) == old(self)@.free,
            crate::heap::heap_size(*heap) == old(self)@.size,
            final(self)@ == (MappingView {
                size: crate::heap::heap_size(*final(heap)),
                free: crate::heap::heap_free(*final(heap)),
                ..old(self)@
            }),
    {
        &mut self.heap
    }
}

/// The contents of a [`Slot`].
pub enum SlotView {
    Untried,
    Failed,
    Mapped(MappingView),
}

impl SlotView {
    /// The number of bytes that are handed out from the map.
    pub open spec fn used(self) -> int {
        match self {
            SlotView::Mapped(m) => m.size - m.free.len(),
            _ => 0,
        }
    }

    /// The number of bytes that the map can hand out.
    pub open spec fn free_len(self) -> int {
        match self {
            SlotView::Mapped(m) => m.free.len() as int,
            _ => 0,
        }
    }
}

/// The place of one map in the arena.
pub enum Slot {
    /// No attempt was made to establish the map.
    Untried,
    /// The attempt to establish the map failed, which is terminal.
    Failed,
    /// The map is established.
    Mapped(Mapping),
}

impl View for Slot {
    type V = SlotView;

    open spec fn view(&self) -> SlotView {
        match *self {
            Slot::Untried => SlotView::Untried,
            Slot::Failed => SlotView::Failed,
            Slot::Mapped(mapping) => SlotView::Mapped(mapping@),
        }
    }
}

} // verus!
