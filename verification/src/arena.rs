//! The arena: which maps exist, and which of them serves a request.

use crate::diagnostics::{Diagnostics, MASK_MMAP, MASK_TRUNCATE};
use crate::error::MemfdSecretFailed;
use crate::geometry::{MapIndexForPot, MAP_COUNT, MIN_SZ_POT2};
use crate::mapping::{Mapping, Region, Slot, SlotView};
use crate::model::{Allocation, ArenaView, Expansion, Step, SystemCall};
use crate::request::Request;
use core::mem::MaybeUninit;
use linked_list_allocator::Heap;
use vstd::prelude::*;

verus! {

/// An arena allocator, backed by a `memfd_secret`.
pub struct SecretArena {
    fd: i32,
    len_limit: usize,
    maps: [Slot; MAP_COUNT],
    truncates: Option<bool>,
    diagnostics: Diagnostics,
}

impl View for SecretArena {
    type V = ArenaView;

    closed spec fn view(&self) -> ArenaView {
        ArenaView {
            fd: self.fd,
            len_limit: self.len_limit,
            maps: Seq::new(MAP_COUNT as nat, |i: int| self.maps@[i]@),
            truncates: self.truncates,
            diagnostics: self.diagnostics@,
        }
    }
}

impl SecretArena {
    /// How long a file can be, as the limit on locked memory says.
    ///
    /// `status` is what `getrlimit` returned for that limit, and `rlim_cur` the soft limit that
    /// it wrote.
    pub fn size_limit(status: i32, rlim_cur: u64) -> (limit: Result<usize, MemfdSecretFailed>)
        ensures
            match limit {
                Ok(size) => status >= 0 && size == if rlim_cur <= usize::MAX {
                    rlim_cur as int
                } else {
                    usize::MAX as int
                },
                Err(failure) => status < 0 && failure.is_init(),
            },
    {
        if 0 > status {
            return Err(MemfdSecretFailed::init());
        }
        if rlim_cur <= usize::MAX as u64 {
            Ok(rlim_cur as usize)
        } else {
            Ok(usize::MAX)
        }
    }

    /// The arena of a `memfd_secret` that is as long as the limit on locked memory allows.
    ///
    /// `status` and `rlim_cur` are those of [`Self::size_limit`], and `res` is that of
    /// [`Self::with_size_limit`]. Open the file only where the former is `Ok`.
    pub fn new(status: i32, rlim_cur: u64, res: i64) -> (arena: Result<
        SecretArena,
        MemfdSecretFailed,
    >)
        ensures
            match arena {
                Ok(arena) => {
                    &&& status >= 0
                    &&& res >= 0
                    &&& arena@ == ArenaView::new(
                        res as i32,
                        if rlim_cur <= usize::MAX {
                            rlim_cur as usize
                        } else {
                            usize::MAX
                        },
                    )
                    &&& arena@.valid()
                },
                Err(failure) => (status < 0 || res < 0) && failure.is_init(),
            },
    {
        match Self::size_limit(status, rlim_cur) {
            Ok(size) => Self::with_size_limit(size, res),
            Err(failure) => Err(failure),
        }
    }

    /// The arena of a `memfd_secret` with a pre-determined size.
    ///
    /// `res` is what the call of `memfd_secret` returned. Using a size larger than the limit on
    /// locked memory will appear to work but may fail when pages of the file are mapped.
    pub fn with_size_limit(size: usize, res: i64) -> (arena: Result<SecretArena, MemfdSecretFailed>)
        ensures
            match arena {
                Ok(arena) => res >= 0 && arena@ == ArenaView::new(res as i32, size)
                    && arena@.valid(),
                Err(failure) => res < 0 && failure.is_init(),
            },
    {
        if 0 > res {
            return Err(MemfdSecretFailed::init());
        }
        let arena = SecretArena {
            fd: #[verifier::truncate] (res as i32),
            len_limit: size,
            maps: [
                Slot::Untried, Slot::Untried, Slot::Untried, Slot::Untried,
                Slot::Untried, Slot::Untried, Slot::Untried, Slot::Untried,
                Slot::Untried, Slot::Untried, Slot::Untried, Slot::Untried,
                Slot::Untried, Slot::Untried, Slot::Untried, Slot::Untried,
                Slot::Untried, Slot::Untried, Slot::Untried, Slot::Untried,
                Slot::Untried, Slot::Untried, Slot::Untried, Slot::Untried,
                Slot::Untried, Slot::Untried, Slot::Untried, Slot::Untried,
                Slot::Untried, Slot::Untried, Slot::Untried, Slot::Untried,
                Slot::Untried, Slot::Untried, Slot::Untried, Slot::Untried,
                Slot::Untried, Slot::Untried, Slot::Untried, Slot::Untried,
                Slot::Untried, Slot::Untried, Slot::Untried, Slot::Untried,
                Slot::Untried, Slot::Untried, Slot::Untried, Slot::Untried,
            ],
            truncates: None,
            diagnostics: Diagnostics::default(),
        };
        proof {
            assert(arena@.maps =~= ArenaView::new(res as i32, size).maps);
            crate::model::lemma_new_is_valid(res as i32, size);
        }
        Ok(arena)
    }
}

impl SecretArena {
    /// Goes as far in establishing a map as is possible without a call to the system.
    ///
    /// All the smaller maps have to be established. This ensures that the file only grows while
    /// the arena is alive, otherwise the maps that are there might get invalidated together with
    /// anything that was allocated in them.
    pub fn expand_mapping(&mut self, idx: MapIndexForPot) -> (expansion: Expansion)
        requires
            old(self)@.valid(),
            idx.0 <= old(self)@.frontier(),
        ensures
            expansion == old(self)@.expansion(idx.0 as int),
            final(self)@ == old(self)@.expanded(idx.0 as int),
            final(self)@.valid(),
    {
        proof {
            crate::model::lemma_expanded_is_valid(self@, idx.0 as int);
        }
        let newpot: usize = idx.0 as usize;
        if newpot >= MAP_COUNT || newpot as u32 + MIN_SZ_POT2 as u32 + 1 >= usize::BITS {
            return Expansion::Settled(false);
        }
        let (offset, len) = Self::offset_and_len_for(idx);
        if offset + len > self.len_limit {
            return Expansion::Settled(false);
        }
        let fd: i32 = self.fd;
        match self.truncates {
            None => Expansion::Pending(
                SystemCall::Truncate { fd, len: #[verifier::truncate] (self.len_limit as i64) },
            ),
            Some(false) => {
                self.diagnostics.truncate_failed(self.len_limit);
                Expansion::Settled(false)
            },
            Some(true) => {
                assert(self@.maps[newpot as int] == self.maps@[newpot as int]@);
                match &self.maps[newpot] {
                    Slot::Untried => Expansion::Pending(
                        SystemCall::MapAt {
                            fd,
                            index: idx,
                            offset: #[verifier::truncate] (offset as i64),
                            len,
                        },
                    ),
                    Slot::Failed => Expansion::Settled(false),
                    Slot::Mapped(_) => Expansion::Settled(true),
                }
            },
        }
    }

    /// Takes note of whether the file could be given its length. The first attempt counts.
    pub fn truncated(&mut self, done: bool)
        requires
            old(self)@.valid(),
        ensures
            final(self)@ == old(self)@.after_truncate(done),
            final(self)@.valid(),
    {
        proof {
            crate::model::lemma_after_truncate_is_valid(self@, done);
        }
        if self.truncates.is_none() {
            self.truncates = Some(done);
        }
    }

    /// Takes note of the outcome of the attempt to map a part of the file: the memory that the
    /// map lies in, or `None` where the attempt failed.
    pub fn mapped(&mut self, index: MapIndexForPot, region: Option<&'static mut [MaybeUninit<u8>]>)
        requires
            old(self)@.valid(),
            index.0 == old(self)@.frontier(),
            old(self)@.expansion(index.0 as int) matches Expansion::Pending(call) && call is MapAt,
            region matches Some(memory) ==> memory@.len() == crate::geometry::map_len(
                index.0 as int,
            ),
        ensures
            final(self)@.valid(),
            region is None ==> final(self)@ == old(self)@.after_failed_map(index.0 as int),
            region is Some ==> {
                &&& final(self)@.maps[index.0 as int] is Mapped
                &&& final(self)@ == old(self)@.after_map(
                    index.0 as int,
                    final(self)@.maps[index.0 as int]->Mapped_0.base,
                )
            },
    {
        let slot: usize = index.0 as usize;
        match region {
            None => {
                proof {
                    crate::model::lemma_after_failed_map_is_valid(self@);
                }
                self.maps[slot] = Slot::Failed;
                self.diagnostics.mmap_failed();
                assert(self@.maps =~= old(self)@.after_failed_map(slot as int).maps);
            },
            Some(memory) => {
                let len: usize = memory.len();
                proof {
                    crate::geometry::law_maps_double_in_length(slot as int);
                }
                let mapping = Mapping::new(memory);
                proof {
                    crate::model::lemma_after_map_is_valid(self@, mapping@.base);
                }
                let ghost base = mapping@.base;
                self.maps[slot] = Slot::Mapped(mapping);
                self.diagnostics.mapped_memory(len);
                assert(self@.maps =~= old(self)@.after_map(slot as int, base).maps);
            },
        }
    }
}

impl SecretArena {
    /// Goes as far as is possible without a call to the system in establishing the first map that
    /// is asked for room, and all the smaller ones before it.
    pub fn pre_ensure_size(&mut self, target: &Request) -> (expansion: Expansion)
        requires
            old(self)@.valid(),
        ensures
            expansion == old(self)@.pre_ensured(target@),
            final(self)@ == old(self)@.after_pre_ensure(target@),
            final(self)@.valid(),
    {
        if target.size() == 0 {
            return Expansion::Settled(true);
        }
        let pot = Self::to_minimum_map_index(target.padded());
        // Will fail to allocate later, okay.
        if pot.0 as usize > MAP_COUNT {
            return Expansion::Settled(false);
        }
        proof {
            crate::model::lemma_frontier(self@);
        }
        let mut newpot: u8 = 0;
        while newpot <= pot.0
            invariant
                self@ == old(self)@,
                self@.valid(),
                newpot <= self@.frontier(),
                newpot <= pot.0 + 1,
                pot.0 == target@.first_map(),
                pot.0 <= MAP_COUNT,
                target@.size > 0,
            decreases pot.0 + 1 - newpot,
        {
            let ghost before = self@;
            let expansion = self.expand_mapping(MapIndexForPot(newpot));
            proof {
                crate::model::lemma_frontier(before);
            }
            match expansion {
                Expansion::Settled(true) => {},
                _ => {
                    return expansion;
                },
            }
            newpot = newpot + 1;
        }
        Expansion::Settled(true)
    }

    /// Asks the maps from index `start` on for room, one after the other, and goes as far as is
    /// possible without a call to the system in establishing the next one when none has any.
    fn search(&mut self, layout: &Request, start: MapIndexForPot) -> (step: Step)
        requires
            old(self)@.valid(),
            layout@.size > 0,
            layout@.first_map() <= start.0,
            start.0 == layout@.first_map() || start.0 <= old(self)@.frontier(),
            old(self)@.searchable(layout@, start.0 as int),
        ensures
            final(self)@.valid(),
            old(self)@.frontier() > layout@.first_map() ==> {
                &&& step == old(self)@.allocated_from(layout@, start.0 as int)
                &&& final(self)@ == old(self)@.after_allocation_from(layout@, start.0 as int)
            },
            old(self)@.frontier() <= layout@.first_map() ==> step == Step::Done(None)
                && final(self)@ == old(self)@,
    {
        let first_try = Self::to_minimum_map_index(layout.padded());
        proof {
            crate::model::lemma_frontier(self@);
            crate::model::lemma_not_served(self@, layout@, self@.frontier());
            if self@.frontier() <= start.0 {
                crate::model::lemma_not_served(self@, layout@, start.0 as int);
            }
        }
        let mut map_idx: usize = start.0 as usize;
        while map_idx < MAP_COUNT
            invariant
                self@ == old(self)@,
                self@.valid(),
                layout@.size > 0,
                first_try.0 == layout@.first_map(),
                first_try.0 <= start.0 <= map_idx,
                map_idx == first_try.0 || map_idx <= self@.frontier(),
                map_idx <= MAP_COUNT || map_idx == start.0,
                self@.served_by(layout@, map_idx as int) == self@.served_by(
                    layout@,
                    start.0 as int,
                ),
                self@.served_by(layout@, self@.frontier()) is None,
                self@.searchable(layout@, start.0 as int),
            decreases MAP_COUNT - map_idx,
        {
            proof {
                crate::model::lemma_frontier(self@);
            }
            if map_idx != first_try.0 as usize {
                let expansion = self.expand_mapping(MapIndexForPot(map_idx as u8));
                match expansion {
                    Expansion::Settled(true) => {},
                    Expansion::Settled(false) => {
                        return Step::Done(None);
                    },
                    Expansion::Pending(call) => {
                        return Step::Pending(call);
                    },
                }
            }
            assert(self@.maps[map_idx as int] == self.maps@[map_idx as int]@);
            proof {
                crate::model::lemma_served_by(self@, layout@, map_idx as int);
                if self@.maps[map_idx as int] is Mapped {
                    assert(self@.asks(layout@, start.0 as int, map_idx as int));
                }
            }
            let found = match &mut self.maps[map_idx] {
                Slot::Mapped(map) => Some(map.allocate(layout)),
                _ => None,
            };
            let Some(found) = found else {
                assert(self@.maps =~= old(self)@.maps);
                return Step::Done(None);
            };
            proof {
                let map = old(self)@.maps[map_idx as int]->Mapped_0;
                assert(self@.maps =~= old(self)@.maps.update(
                    map_idx as int,
                    SlotView::Mapped(map.served(layout@)),
                ));
                crate::model::lemma_served_is_valid(
                    old(self)@,
                    map_idx as int,
                    map.served(layout@),
                );
            }
            if let Some(addr) = found {
                return Step::Done(Some(Allocation { addr, len: layout.size() }));
            }
            assert(self@.maps =~= old(self)@.maps);
            map_idx = map_idx + 1;
        }
        Step::Done(None)
    }
}

impl SecretArena {
    /// Goes as far with an allocation as is possible without a call to the system.
    ///
    /// Where a call is pending, make it, take note of its outcome, and go on with
    /// [`Self::alloc_optional`] after a truncation, with [`Self::resume`] after a mapping.
    ///
    /// No map that is asked may lie so close to the last address that the search overruns it.
    /// [`Self::alloc_checked`] does not need that.
    pub fn alloc_optional(&mut self, layout: &Request) -> (step: Step)
        requires
            old(self)@.valid(),
            old(self)@.searchable(layout@, layout@.first_map()),
        ensures
            step == old(self)@.allocated(layout@),
            final(self)@ == old(self)@.after_allocation(layout@),
            final(self)@.valid(),
    {
        if layout.size() == 0 {
            return Step::Done(Some(Allocation { addr: layout.align(), len: 0 }));
        }
        let ghost before = self@;
        proof {
            crate::model::lemma_frontier(before);
            crate::model::lemma_expanded_is_valid(before, before.frontier());
            if before.frontier() <= layout@.first_map() {
                crate::model::lemma_not_served(before, layout@, layout@.first_map());
            }
            crate::geometry::law_minimum_index_is_least(layout@.padded());
        }
        if let Expansion::Pending(call) = self.pre_ensure_size(layout) {
            return Step::Pending(call);
        }
        let first_try = Self::to_minimum_map_index(layout.padded());
        assert forall|i: int| #[trigger]
            self@.asks(layout@, first_try.0 as int, i) implies self@.maps[i]->Mapped_0.searchable(
            layout@,
        ) by {
            assert(before.asks(layout@, first_try.0 as int, i));
        }
        self.search(layout, first_try)
    }

    /// Goes on with an allocation that waited for the map at `index`.
    ///
    /// What [`Self::alloc_optional`] needs of the maps, this needs too, and
    /// [`Self::resume_checked`] does not.
    pub fn resume(&mut self, layout: &Request, index: MapIndexForPot) -> (step: Step)
        requires
            old(self)@.valid(),
            index.0 <= old(self)@.frontier(),
            old(self)@.searchable(layout@, ArenaView::resume_at(layout@, index.0 as int)),
        ensures
            step == old(self)@.allocated_from(
                layout@,
                ArenaView::resume_at(layout@, index.0 as int),
            ),
            final(self)@ == old(self)@.after_allocation_from(
                layout@,
                ArenaView::resume_at(layout@, index.0 as int),
            ),
            final(self)@.valid(),
    {
        let first_try = Self::to_minimum_map_index(layout.padded());
        if layout.size() == 0 || index.0 <= first_try.0 {
            return self.alloc_optional(layout);
        }
        proof {
            crate::model::lemma_frontier(self@);
        }
        self.search(layout, index)
    }

    /// Whether all established maps from index `start` on are so far from the last address that
    /// every search keeps to the address space.
    fn clears(&self, layout: &Request, start: MapIndexForPot) -> (answer: bool)
        requires
            self@.valid(),
        ensures
            answer == self@.clears(layout@, start.0 as int),
    {
        let mut i: usize = start.0 as usize;
        while i < MAP_COUNT
            invariant
                self@.valid(),
                start.0 <= i,
                forall|j: int|
                    start.0 <= j < i && j < MAP_COUNT && #[trigger] self@.maps[j] is Mapped
                        ==> self@.maps[j]->Mapped_0.clears(layout@),
            decreases MAP_COUNT - i,
        {
            assert(self@.maps[i as int] == self.maps@[i as int]@);
            if let Slot::Mapped(map) = &self.maps[i] {
                if !map.clears(layout) {
                    return false;
                }
            }
            i = i + 1;
        }
        true
    }

    /// Goes as far with an allocation as [`Self::alloc_optional`], or does nothing and returns
    /// `None` where an established map lies so close to the last address that the search might
    /// overrun it.
    pub fn alloc_checked(&mut self, layout: &Request) -> (step: Option<Step>)
        requires
            old(self)@.valid(),
        ensures
            step is Some <==> layout@.size == 0 || old(self)@.clears(layout@, layout@.first_map()),
            step matches Some(step) ==> {
                &&& step == old(self)@.allocated(layout@)
                &&& final(self)@ == old(self)@.after_allocation(layout@)
            },
            step is None ==> final(self)@ == old(self)@,
            final(self)@.valid(),
    {
        let first_try = Self::to_minimum_map_index(layout.padded());
        if layout.size() > 0 && !self.clears(layout, first_try) {
            return None;
        }
        proof {
            if layout@.size > 0 {
                crate::laws::law_clear_arena_is_searchable(
                    self@,
                    layout@,
                    layout@.first_map(),
                );
            }
        }
        Some(self.alloc_optional(layout))
    }

    /// Goes on with an allocation as [`Self::resume`] does, or does nothing and returns `None` where
    /// an established map lies so close to the last address that the search might overrun it.
    pub fn resume_checked(&mut self, layout: &Request, index: MapIndexForPot) -> (step: Option<
        Step,
    >)
        requires
            old(self)@.valid(),
            index.0 <= old(self)@.frontier(),
        ensures
            step is Some <==> layout@.size == 0 || old(self)@.clears(
                layout@,
                ArenaView::resume_at(layout@, index.0 as int),
            ),
            step matches Some(step) ==> {
                let at = ArenaView::resume_at(layout@, index.0 as int);
                &&& step == old(self)@.allocated_from(layout@, at)
                &&& final(self)@ == old(self)@.after_allocation_from(layout@, at)
            },
            step is None ==> final(self)@ == old(self)@,
            final(self)@.valid(),
    {
        let first_try = Self::to_minimum_map_index(layout.padded());
        let at = if index.0 <= first_try.0 {
            first_try
        } else {
            index
        };
        if layout.size() > 0 && !self.clears(layout, at) {
            return None;
        }
        proof {
            if layout@.size > 0 {
                crate::laws::law_clear_arena_is_searchable(self@, layout@, at.0 as int);
            }
        }
        Some(self.resume(layout, index))
    }

    /// The heap that a block goes back to: the one that lives in the map that the block lies in.
    ///
    /// There is none for a block of size zero, which was never taken from a heap, and none for an
    /// address that was not handed out for such a request.
    pub fn dealloc(&mut self, addr: usize, layout: &Request) -> (heap: Option<&mut Heap>)
        requires
            old(self)@.valid(),
            layout@.size > 0 ==> layout@.first_map() <= MAP_COUNT,
        ensures
            match heap {
                Some(heap) => {
                    &&& old(self)@.owner(layout@, addr as int) is Some
                    &&& old(self)@.lends(layout@, addr as int, *heap)
                    &&& final(self)@ == old(self)@.given_back(layout@, addr as int, *final(heap))
                },
                None => {
                    &&& old(self)@.owner(layout@, addr as int) is None
                    &&& final(self)@ == old(self)@
                },
            },
    {
        proof {
            crate::geometry::law_minimum_index_is_least(layout@.padded());
            crate::model::lemma_owner_from(self@, addr as int, layout@.first_map());
        }
        match self.owner(addr, layout) {
            Some(map_idx) => match &mut self.maps[map_idx] {
                Slot::Mapped(map) => Some(map.heap_mut()),
                _ => None,
            },
            None => None,
        }
    }

    /// The index of the map that a block goes back to.
    pub fn owner(&self, addr: usize, layout: &Request) -> (owner: Option<usize>)
        requires
            self@.valid(),
            layout@.size > 0 ==> layout@.first_map() <= MAP_COUNT,
        ensures
            match owner {
                Some(i) => self@.owner(layout@, addr as int) == Some(i as int),
                None => self@.owner(layout@, addr as int) is None,
            },
    {
        if layout.size() == 0 {
            // Nothing to do, this was allocated as dangling.
            return None;
        }
        let first_try = Self::to_minimum_map_index(layout.padded());
        let mut map_idx: usize = first_try.0 as usize;
        while map_idx < MAP_COUNT
            invariant
                self@.valid(),
                map_idx <= MAP_COUNT,
                self@.owner(layout@, addr as int) == self@.owner_from(addr as int, map_idx as int),
            decreases MAP_COUNT - map_idx,
        {
            assert(self@.maps[map_idx as int] == self.maps@[map_idx as int]@);
            if let Slot::Mapped(map) = &self.maps[map_idx] {
                let region = map.region();
                let byte_offset: usize = addr.wrapping_sub(region.addr);
                // Can't have zero-length allocations, anything on the boundary belongs to
                // another map if any.
                if byte_offset < region.len {
                    return Some(map_idx);
                }
            }
            map_idx = map_idx + 1;
        }
        None
    }
}

impl SecretArena {
    /// The memory of each map that is established.
    ///
    /// When the arena is given up, this has to be unmapped, and the file has to be closed.
    pub fn regions(&self) -> (regions: [Option<Region>; MAP_COUNT])
        requires
            self@.valid(),
        ensures
            forall|i: int| 0 <= i < MAP_COUNT ==> #[trigger] regions@[i] == self@.region(i),
    {
        let mut regions: [Option<Region>; MAP_COUNT] = [None; MAP_COUNT];
        let mut i: usize = 0;
        while i < MAP_COUNT
            invariant
                self@.valid(),
                i <= MAP_COUNT,
                forall|j: int| 0 <= j < i ==> #[trigger] regions@[j] == self@.region(j),
                forall|j: int| i <= j < MAP_COUNT ==> #[trigger] regions@[j] is None,
            decreases MAP_COUNT - i,
        {
            assert(self@.maps[i as int] == self.maps@[i as int]@);
            if let Slot::Mapped(map) = &self.maps[i] {
                regions[i] = Some(map.region());
            }
            i = i + 1;
        }
        regions
    }

    /// Resets the arena, and hands out the memory that has to be unmapped for it.
    ///
    /// You should assume that this drops the value passed in, implying also that any allocations
    /// that were allocated from it are no longer considered live after this. Note that the file
    /// size, [`Self::memfd_len`], will be unaffected and can not be changed.
    pub fn unmap(this: Self) -> (reset: (Self, [Option<Region>; MAP_COUNT]))
        requires
            this@.valid(),
        ensures
            reset.0@ == this@.unmapped(),
            reset.0@.valid(),
            forall|i: int| 0 <= i < MAP_COUNT ==> #[trigger] reset.1@[i] == this@.region(i),
    {
        let regions = this.regions();
        let ghost before = this@;
        let mut this = this;
        let mut i: usize = 0;
        while i < MAP_COUNT
            invariant
                i <= MAP_COUNT,
                this@.fd == before.fd,
                this@.len_limit == before.len_limit,
                this@.truncates == before.truncates,
                forall|j: int| 0 <= j < i ==> #[trigger] this.maps@[j] is Untried,
            decreases MAP_COUNT - i,
        {
            this.maps[i] = Slot::Untried;
            i = i + 1;
        }
        this.diagnostics.reset();
        proof {
            assert(this@.maps =~= before.unmapped().maps);
            crate::model::lemma_unmapped_is_valid(before);
        }
        (this, regions)
    }

    /// The length of the underlying file.
    ///
    /// This does not reflect the *current* usage of the budget of locked memory, only the
    /// potential usage.
    pub fn memfd_len(&self) -> (len: usize)
        ensures
            len == self@.len_limit,
    {
        self.len_limit
    }

    /// The descriptor of the underlying file.
    pub fn fd(&self) -> (fd: i32)
        ensures
            fd == self@.fd,
    {
        self.fd
    }

    /// The number of mapped bytes from the file. It never exceeds [`Self::memfd_len`].
    pub fn mapped_memory(&self) -> (mapped: usize)
        requires
            self@.valid(),
        ensures
            mapped == self@.diagnostics.mapped_memory,
            mapped <= self@.len_limit,
    {
        proof {
            crate::model::lemma_frontier_within_limit(self@);
        }
        self.diagnostics.get_mapped_memory()
    }

    /// Did the attempt to set the length of the file fail?
    ///
    /// That is not fatal but essentially leaves this allocator without any resources. That is,
    /// only zero-sized allocations can be served.
    pub fn failed_truncate(&self) -> (failed: bool)
        ensures
            failed == self@.diagnostics.truncate_failed(),
    {
        self.diagnostics.get_failure_value() & MASK_TRUNCATE != 0
    }

    /// Did the attempt to map a part of the file fail?
    ///
    /// That is not fatal but leaves this allocator with limited resources. The total amount of
    /// memory that can be served is fixed after this point.
    pub fn failed_mmap(&self) -> (failed: bool)
        ensures
            failed == self@.diagnostics.mmap_failed(),
    {
        self.diagnostics.get_failure_value() & MASK_MMAP != 0
    }

    /// The amount of memory used.
    pub fn mem_used(&self) -> (total: usize)
        requires
            self@.valid(),
        ensures
            total == self@.mem_used(),
    {
        let mut total: usize = 0;
        let mut i: usize = 0;
        proof {
            crate::model::lemma_frontier(self@);
            crate::model::lemma_frontier_within_limit(self@);
        }
        while i < MAP_COUNT
            invariant
                self@.valid(),
                i <= self@.frontier() <= MAP_COUNT,
                total == self@.used_below(i as int),
                crate::geometry::map_offset(self@.frontier()) <= self@.len_limit,
            ensures
                i == self@.frontier(),
                total == self@.used_below(i as int),
            decreases MAP_COUNT - i,
        {
            assert(self@.maps[i as int] == self.maps@[i as int]@);
            proof {
                crate::model::lemma_frontier(self@);
            }
            let Slot::Mapped(map) = &self.maps[i] else {
                break;
            };
            proof {
                crate::model::lemma_sums_below(self@, i + 1);
                if i + 1 < self@.frontier() {
                    crate::geometry::lemma_map_len_increases(i + 1, self@.frontier());
                }
            }
            total = total + map.used();
            i = i + 1;
        }
        proof {
            crate::model::lemma_sums_end_at_frontier(self@, MAP_COUNT as int);
        }
        total
    }

    /// The amount of memory free.
    ///
    /// This only includes memory from the file that was already mapped. It is generally smaller
    /// than [`Self::mapped_memory`].
    pub fn mem_free(&self) -> (total: usize)
        requires
            self@.valid(),
        ensures
            total == self@.mem_free(),
    {
        let mut total: usize = 0;
        let mut i: usize = 0;
        proof {
            crate::model::lemma_frontier(self@);
            crate::model::lemma_frontier_within_limit(self@);
        }
        while i < MAP_COUNT
            invariant
                self@.valid(),
                i <= self@.frontier() <= MAP_COUNT,
                total == self@.free_below(i as int),
                crate::geometry::map_offset(self@.frontier()) <= self@.len_limit,
            ensures
                i == self@.frontier(),
                total == self@.free_below(i as int),
            decreases MAP_COUNT - i,
        {
            assert(self@.maps[i as int] == self.maps@[i as int]@);
            proof {
                crate::model::lemma_frontier(self@);
            }
            let Slot::Mapped(map) = &self.maps[i] else {
                break;
            };
            proof {
                crate::model::lemma_sums_below(self@, i + 1);
                if i + 1 < self@.frontier() {
                    crate::geometry::lemma_map_len_increases(i + 1, self@.frontier());
                }
            }
            total = total + map.free();
            i = i + 1;
        }
        proof {
            crate::model::lemma_sums_end_at_frontier(self@, MAP_COUNT as int);
        }
        total
    }
}

} // verus!
