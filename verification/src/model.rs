//! What an arena is, and what it does for a request.

use crate::diagnostics::DiagnosticsView;
use crate::geometry::{MapIndexForPot, MAP_COUNT};
use crate::mapping::{MappingView, Region, SlotView};
use crate::request::RequestView;
use linked_list_allocator::Heap;
use vstd::prelude::*;

verus! {

/// A block of memory that was handed out.
#[derive(Clone, Copy, Debug, PartialEq, Eq, Structural)]
pub struct Allocation {
    pub addr: usize,
    pub len: usize,
}

/// A call to the system that the arena waits for.
#[allow(inconsistent_fields)]
#[derive(Clone, Copy, Debug, PartialEq, Eq, Structural)]
pub enum SystemCall {
    /// Set the length of the file, and hand the outcome to [`truncated`](crate::SecretArena::truncated).
    Truncate { fd: i32, len: i64 },
    /// Map a part of the file, and hand the outcome to [`mapped`](crate::SecretArena::mapped).
    MapAt { fd: i32, index: MapIndexForPot, offset: i64, len: usize },
}

/// How far the attempt to establish a map has come.
#[derive(Clone, Copy, Debug, PartialEq, Eq, Structural)]
pub enum Expansion {
    /// Whether the map is there.
    Settled(bool),
    /// The call that has to be made next.
    Pending(SystemCall),
}

/// How far an allocation has come.
#[derive(Clone, Copy, Debug, PartialEq, Eq, Structural)]
pub enum Step {
    /// The call that has to be made next.
    Pending(SystemCall),
    /// The block that was found, if any.
    Done(Option<Allocation>),
}

/// The contents of a [`SecretArena`](crate::SecretArena).
#[verifier::ext_equal]
pub struct ArenaView {
    /// The descriptor of the file.
    pub fd: i32,
    /// The length that the file is given.
    pub len_limit: usize,
    /// The maps, by their index.
    pub maps: Seq<SlotView>,
    /// Whether the file could be given its length, once that was tried.
    pub truncates: Option<bool>,
    /// What is on record of the calls to the system.
    pub diagnostics: DiagnosticsView,
}

impl ArenaView {
    /// The first index from `i` on whose map is not established.
    pub open spec fn unmapped_from(self, i: int) -> int
        decreases self.maps.len() - i,
    {
        if 0 <= i < self.maps.len() && self.maps[i] is Mapped {
            self.unmapped_from(i + 1)
        } else {
            i
        }
    }

    /// The number of maps that are established.
    pub open spec fn frontier(self) -> int {
        self.unmapped_from(0)
    }

    /// What holds of an arena at all times.
    pub open spec fn valid(self) -> bool {
        &&& self.maps.len() == MAP_COUNT
        // A map is tried only in a file that has its length, and within that length.
        &&& forall|i: int|
            0 <= i < MAP_COUNT && !(#[trigger] self.maps[i] is Untried) ==> {
                &&& crate::geometry::addressable(i)
                &&& crate::geometry::map_end(i) <= self.len_limit
                &&& self.truncates == Some(true)
            }
        // A map is tried only when all the smaller ones are there.
        &&& forall|i: int, j: int|
            0 <= i < j < MAP_COUNT && !(#[trigger] self.maps[j] is Untried)
                ==> #[trigger] self.maps[i] is Mapped
        &&& forall|i: int|
            0 <= i < MAP_COUNT ==> (#[trigger] self.maps[i] matches SlotView::Mapped(m) ==> {
                &&& m.valid()
                &&& m.len == crate::geometry::map_len(i)
            })
        // The record agrees with the maps.
        &&& self.diagnostics.mapped_memory == crate::geometry::map_offset(self.frontier())
        &&& self.diagnostics.mmap_failed() <==> self.frontier() < MAP_COUNT
            && self.maps[self.frontier()] is Failed
        &&& self.diagnostics.truncate_failed() ==> self.truncates == Some(false)
    }

    /// Whether map `i` lies within the length of the file.
    pub open spec fn within_limit(self, i: int) -> bool {
        crate::geometry::addressable(i) && crate::geometry::map_end(i) <= self.len_limit
    }

    /// What is still to be done to establish map `i`.
    pub open spec fn expansion(self, i: int) -> Expansion {
        if !self.within_limit(i) {
            Expansion::Settled(false)
        } else {
            match self.truncates {
                None => Expansion::Pending(
                    SystemCall::Truncate { fd: self.fd, len: self.len_limit as i64 },
                ),
                Some(false) => Expansion::Settled(false),
                Some(true) => match self.maps[i] {
                    SlotView::Untried => Expansion::Pending(
                        SystemCall::MapAt {
                            fd: self.fd,
                            index: MapIndexForPot(i as u8),
                            offset: crate::geometry::map_offset(i) as i64,
                            len: crate::geometry::map_len(i) as usize,
                        },
                    ),
                    SlotView::Failed => Expansion::Settled(false),
                    SlotView::Mapped(_) => Expansion::Settled(true),
                },
            }
        }
    }

    /// The arena after the attempt to establish map `i` went as far as it can without a call:
    /// that the file does not have its length is put on record.
    pub open spec fn expanded(self, i: int) -> ArenaView {
        if self.within_limit(i) && self.truncates == Some(false) {
            ArenaView { diagnostics: self.diagnostics.with_truncate_failed(), ..self }
        } else {
            self
        }
    }
}

impl ArenaView {
    /// The arena with another map at index `i`.
    pub open spec fn with_map(self, i: int, map: SlotView) -> ArenaView {
        ArenaView { maps: self.maps.update(i, map), ..self }
    }

    /// The first established map from index `i` on, without a gap, that has room for a request.
    pub open spec fn served_by(self, request: RequestView, i: int) -> Option<int>
        decreases self.maps.len() - i,
    {
        if 0 <= i < self.maps.len() {
            match self.maps[i] {
                SlotView::Mapped(m) => if m.fit(request) is Some {
                    Some(i)
                } else {
                    self.served_by(request, i + 1)
                },
                _ => None,
            }
        } else {
            None
        }
    }

    /// How an allocation goes on when no established map has room: with the next map.
    pub open spec fn next_map(self) -> Step {
        match self.expansion(self.frontier()) {
            Expansion::Pending(call) => Step::Pending(call),
            Expansion::Settled(_) => Step::Done(None),
        }
    }

    /// How far an allocation comes without a call to the system, when the maps from index `start`
    /// on are asked for room.
    pub open spec fn allocated_from(self, request: RequestView, start: int) -> Step {
        if request.size == 0 {
            Step::Done(Some(Allocation { addr: request.align, len: 0 }))
        } else if request.first_map() > MAP_COUNT {
            Step::Done(None)
        } else {
            match self.served_by(request, start) {
                Some(i) => Step::Done(
                    Some(
                        Allocation {
                            addr: self.maps[i]->Mapped_0.fit(request)->0,
                            len: request.size,
                        },
                    ),
                ),
                None => self.next_map(),
            }
        }
    }

    /// The arena when an allocation has come that far.
    pub open spec fn after_allocation_from(self, request: RequestView, start: int) -> ArenaView {
        if request.size == 0 || request.first_map() > MAP_COUNT {
            self
        } else {
            match self.served_by(request, start) {
                Some(i) => self.with_map(
                    i,
                    SlotView::Mapped(self.maps[i]->Mapped_0.served(request)),
                ),
                None => self.expanded(self.frontier()),
            }
        }
    }

    /// How far an allocation comes without a call to the system.
    pub open spec fn allocated(self, request: RequestView) -> Step {
        self.allocated_from(request, request.first_map())
    }

    /// The arena when an allocation has come that far.
    pub open spec fn after_allocation(self, request: RequestView) -> ArenaView {
        self.after_allocation_from(request, request.first_map())
    }

    /// Where an allocation goes on that waited for map `index`.
    pub open spec fn resume_at(request: RequestView, index: int) -> int {
        if index <= request.first_map() {
            request.first_map()
        } else {
            index
        }
    }

    /// Whether map `i` is asked for room when the maps from index `start` on are.
    pub open spec fn asks(self, request: RequestView, start: int, i: int) -> bool {
        &&& start <= i < self.frontier()
        &&& self.served_by(request, start) matches Some(j) ==> i <= j
    }

    /// Whether the search for room keeps to the address space in all maps that are asked.
    pub open spec fn searchable(self, request: RequestView, start: int) -> bool {
        request.size > 0 ==> forall|i: int| #[trigger]
            self.asks(request, start, i) ==> self.maps[i]->Mapped_0.searchable(request)
    }

    /// Whether all established maps from index `start` on are so far from the last address that
    /// every search keeps to the address space.
    pub open spec fn clears(self, request: RequestView, start: int) -> bool {
        forall|i: int|
            0 <= i < self.maps.len() && start <= i && #[trigger] self.maps[i] is Mapped
                ==> self.maps[i]->Mapped_0.clears(request)
    }

    /// What is still to be done before a request can be looked for in its first map.
    pub open spec fn pre_ensured(self, request: RequestView) -> Expansion {
        if request.size == 0 {
            Expansion::Settled(true)
        } else if request.first_map() > MAP_COUNT {
            Expansion::Settled(false)
        } else if self.frontier() > request.first_map() {
            Expansion::Settled(true)
        } else {
            self.expansion(self.frontier())
        }
    }

    /// The arena when that was attempted.
    pub open spec fn after_pre_ensure(self, request: RequestView) -> ArenaView {
        if request.size == 0 || request.first_map() > MAP_COUNT || self.frontier()
            > request.first_map() {
            self
        } else {
            self.expanded(self.frontier())
        }
    }

    /// The arena after the attempt to set the length of the file.
    pub open spec fn after_truncate(self, done: bool) -> ArenaView {
        match self.truncates {
            None => ArenaView { truncates: Some(done), ..self },
            Some(_) => self,
        }
    }

    /// The arena after map `i` could not be mapped.
    pub open spec fn after_failed_map(self, i: int) -> ArenaView {
        ArenaView {
            diagnostics: self.diagnostics.with_mmap_failed(),
            ..self.with_map(i, SlotView::Failed)
        }
    }

    /// The arena after map `i` was mapped at `base`.
    pub open spec fn after_map(self, i: int, base: int) -> ArenaView {
        let len = crate::geometry::map_len(i);
        ArenaView {
            diagnostics: DiagnosticsView {
                mapped_memory: (self.diagnostics.mapped_memory + len) as usize,
                ..self.diagnostics
            },
            ..self.with_map(i, SlotView::Mapped(MappingView::fresh(base, len)))
        }
    }

    /// The arena with nothing mapped and no failures on record. The file stays as it is.
    pub open spec fn unmapped(self) -> ArenaView {
        ArenaView { truncates: self.truncates, ..ArenaView::new(self.fd, self.len_limit) }
    }

    /// The memory of map `i`, if it is established.
    pub open spec fn region(self, i: int) -> Option<Region> {
        match self.maps[i] {
            SlotView::Mapped(m) => Some(Region { addr: m.base as usize, len: m.len as usize }),
            _ => None,
        }
    }

    /// The number of bytes that are handed out from the first `n` maps.
    pub open spec fn used_below(self, n: int) -> int
        decreases n,
    {
        if n <= 0 {
            0
        } else {
            self.used_below(n - 1) + self.maps[n - 1].used()
        }
    }

    /// The number of bytes that the first `n` maps can hand out.
    pub open spec fn free_below(self, n: int) -> int
        decreases n,
    {
        if n <= 0 {
            0
        } else {
            self.free_below(n - 1) + self.maps[n - 1].free_len()
        }
    }

    /// The number of bytes that are handed out.
    pub open spec fn mem_used(self) -> int {
        self.used_below(MAP_COUNT as int)
    }

    /// The number of bytes that can be handed out from the maps that are established.
    pub open spec fn mem_free(self) -> int {
        self.free_below(MAP_COUNT as int)
    }

    /// The first established map from index `i` on that holds an address.
    pub open spec fn owner_from(self, addr: int, i: int) -> Option<int>
        decreases self.maps.len() - i,
    {
        if 0 <= i < self.maps.len() {
            if self.maps[i] is Mapped && self.maps[i]->Mapped_0.holds(addr) {
                Some(i)
            } else {
                self.owner_from(addr, i + 1)
            }
        } else {
            None
        }
    }

    /// Whether no two established maps share memory.
    pub open spec fn separated(self) -> bool {
        forall|i: int, j: int|
            #![trigger self.maps[i], self.maps[j]]
            0 <= i < j < self.maps.len() && self.maps[i] is Mapped && self.maps[j] is Mapped
                ==> self.maps[i]->Mapped_0.apart_from(self.maps[j]->Mapped_0)
    }

    /// Whether a region of memory is apart from all established maps.
    pub open spec fn apart_from(self, base: int, len: int) -> bool {
        forall|i: int|
            0 <= i < self.maps.len() && #[trigger] self.maps[i] is Mapped
                ==> self.maps[i]->Mapped_0.apart_from(MappingView::fresh(base, len))
    }

    /// Whether all established maps begin on a word boundary.
    pub open spec fn on_word_boundaries(self) -> bool {
        forall|i: int|
            0 <= i < self.maps.len() && #[trigger] self.maps[i] is Mapped
                ==> self.maps[i]->Mapped_0.base % crate::heap::word() == 0
    }

    /// Whether none of the bytes can be handed out.
    pub open spec fn withholds(self, addr: int, len: int) -> bool {
        forall|i: int, a: int|
            #![trigger self.maps[i]->Mapped_0.free.contains(a)]
            0 <= i < self.maps.len() && self.maps[i] is Mapped && addr <= a < addr + len
                ==> !self.maps[i]->Mapped_0.free.contains(a)
    }

    /// The number of bytes in the regions of the first `n` maps.
    pub open spec fn regions_below(self, n: int) -> int
        decreases n,
    {
        if n <= 0 {
            0
        } else {
            self.regions_below(n - 1) + match self.region(n - 1) {
                Some(region) => region.len as int,
                None => 0,
            }
        }
    }

    /// An upper bound on the calls to the system that the arena can still ask for.
    pub open spec fn calls_left(self) -> int {
        (if self.truncates is None {
            1int
        } else {
            0
        }) + if self.diagnostics.mmap_failed() {
            0
        } else {
            MAP_COUNT - self.frontier()
        }
    }

    /// Whether all that was settled in this arena is still so in a later one.
    pub open spec fn kept_in(self, later: ArenaView) -> bool {
        &&& later.fd == self.fd
        &&& later.len_limit == self.len_limit
        &&& self.truncates is Some ==> later.truncates == self.truncates
        &&& later.maps.len() == self.maps.len()
        &&& forall|i: int|
            0 <= i < self.maps.len() ==> match #[trigger] self.maps[i] {
                SlotView::Untried => true,
                SlotView::Failed => later.maps[i] is Failed,
                SlotView::Mapped(m) => {
                    &&& later.maps[i] is Mapped
                    &&& later.maps[i]->Mapped_0.base == m.base
                    &&& later.maps[i]->Mapped_0.len == m.len
                },
            }
    }

    /// The map that a block of that request goes back to.
    pub open spec fn owner(self, request: RequestView, addr: int) -> Option<int> {
        if request.size == 0 {
            None
        } else {
            self.owner_from(addr, request.first_map())
        }
    }

    /// Whether `heap` is that of the map that a block goes back to.
    pub open spec fn lends(self, request: RequestView, addr: int, heap: Heap) -> bool {
        let map = self.maps[self.owner(request, addr)->0]->Mapped_0;
        &&& map.free == crate::heap::heap_free(heap)
        &&& map.size == crate::heap::heap_size(heap)
    }

    /// The arena when the heap of the map that a block goes back to has become `heap`.
    pub open spec fn given_back(self, request: RequestView, addr: int, heap: Heap) -> ArenaView {
        let i = self.owner(request, addr)->0;
        let map = MappingView {
            size: crate::heap::heap_size(heap),
            free: crate::heap::heap_free(heap),
            ..self.maps[i]->Mapped_0
        };
        self.with_map(i, SlotView::Mapped(map))
    }
}

impl ArenaView {
    /// An arena that has made no calls.
    pub open spec fn new(fd: i32, len_limit: usize) -> ArenaView {
        ArenaView {
            fd,
            len_limit,
            maps: Seq::new(MAP_COUNT as nat, |i: int| SlotView::Untried),
            truncates: None,
            diagnostics: DiagnosticsView::empty(),
        }
    }
}

pub(crate) proof fn lemma_new_is_valid(fd: i32, len_limit: usize)
    ensures
        ArenaView::new(fd, len_limit).valid(),
{
    let arena = ArenaView::new(fd, len_limit);
    assert(arena.frontier() == 0);
    crate::diagnostics::law_failures_are_independent(arena.diagnostics);
}

pub(crate) proof fn lemma_unmapped_from(arena: ArenaView, i: int)
    requires
        0 <= i <= arena.maps.len(),
    ensures
        i <= arena.unmapped_from(i) <= arena.maps.len(),
        forall|j: int| i <= j < arena.unmapped_from(i) ==> #[trigger] arena.maps[j] is Mapped,
        arena.unmapped_from(i) < arena.maps.len() ==> !(arena.maps[arena.unmapped_from(i)] is Mapped),
    decreases arena.maps.len() - i,
{
    if i < arena.maps.len() && arena.maps[i] is Mapped {
        lemma_unmapped_from(arena, i + 1);
    }
}

/// The maps in front of the frontier are established, and those behind it were never tried.
pub(crate) proof fn lemma_frontier(arena: ArenaView)
    requires
        arena.valid(),
    ensures
        0 <= arena.frontier() <= MAP_COUNT,
        forall|j: int| 0 <= j < arena.frontier() ==> #[trigger] arena.maps[j] is Mapped,
        forall|j: int| arena.frontier() < j < MAP_COUNT ==> #[trigger] arena.maps[j] is Untried,
        arena.frontier() < MAP_COUNT ==> !(arena.maps[arena.frontier()] is Mapped),
{
    lemma_unmapped_from(arena, 0);
}

/// The frontier is the one index with established maps in front of it and none at it.
pub(crate) proof fn lemma_unmapped_from_is(arena: ArenaView, i: int, k: int)
    requires
        0 <= i <= k <= arena.maps.len(),
        forall|j: int| i <= j < k ==> #[trigger] arena.maps[j] is Mapped,
        k < arena.maps.len() ==> !(arena.maps[k] is Mapped),
    ensures
        arena.unmapped_from(i) == k,
    decreases k - i,
{
    if i < k {
        assert(arena.maps[i] is Mapped);
        lemma_unmapped_from_is(arena, i + 1, k);
    }
}

pub(crate) proof fn lemma_expanded_is_valid(arena: ArenaView, i: int)
    requires
        arena.valid(),
    ensures
        arena.expanded(i).valid(),
        arena.expanded(i).frontier() == arena.frontier(),
{
    lemma_frontier(arena);
    lemma_unmapped_from_is(arena.expanded(i), 0, arena.frontier());
    crate::diagnostics::law_failures_are_independent(arena.diagnostics);
}

pub(crate) proof fn lemma_after_truncate_is_valid(arena: ArenaView, done: bool)
    requires
        arena.valid(),
    ensures
        arena.after_truncate(done).valid(),
        arena.after_truncate(done).frontier() == arena.frontier(),
{
    lemma_frontier(arena);
    lemma_unmapped_from_is(arena.after_truncate(done), 0, arena.frontier());
}

pub(crate) proof fn lemma_after_failed_map_is_valid(arena: ArenaView)
    requires
        arena.valid(),
        arena.expansion(arena.frontier()) matches Expansion::Pending(call) && call is MapAt,
    ensures
        arena.after_failed_map(arena.frontier()).valid(),
        arena.after_failed_map(arena.frontier()).frontier() == arena.frontier(),
{
    lemma_frontier(arena);
    let after = arena.after_failed_map(arena.frontier());
    lemma_unmapped_from_is(after, 0, arena.frontier());
    crate::diagnostics::law_failures_are_independent(arena.diagnostics);
}

pub(crate) proof fn lemma_after_map_is_valid(arena: ArenaView, base: int)
    requires
        arena.valid(),
        arena.expansion(arena.frontier()) matches Expansion::Pending(call) && call is MapAt,
        MappingView::fresh(base, crate::geometry::map_len(arena.frontier())).valid(),
    ensures
        arena.after_map(arena.frontier(), base).valid(),
        arena.after_map(arena.frontier(), base).frontier() == arena.frontier() + 1,
{
    lemma_frontier(arena);
    crate::geometry::law_maps_double_in_length(arena.frontier());
    let after = arena.after_map(arena.frontier(), base);
    lemma_unmapped_from_is(after, 0, arena.frontier() + 1);
}

pub(crate) proof fn lemma_served_is_valid(arena: ArenaView, i: int, map: MappingView)
    requires
        arena.valid(),
        0 <= i < MAP_COUNT,
        arena.maps[i] matches SlotView::Mapped(m) && m.len == map.len,
        map.valid(),
    ensures
        arena.with_map(i, SlotView::Mapped(map)).valid(),
        arena.with_map(i, SlotView::Mapped(map)).frontier() == arena.frontier(),
{
    lemma_frontier(arena);
    lemma_unmapped_from_is(arena.with_map(i, SlotView::Mapped(map)), 0, arena.frontier());
}

pub(crate) proof fn lemma_unmapped_is_valid(arena: ArenaView)
    ensures
        arena.unmapped().valid(),
        arena.unmapped().frontier() == 0,
{
    crate::diagnostics::law_failures_are_independent(arena.diagnostics);
}

/// A map that serves a request is established, is not in front of the first that was asked, and
/// has room.
pub(crate) proof fn lemma_served_by(arena: ArenaView, request: RequestView, i: int)
    requires
        0 <= i,
    ensures
        arena.served_by(request, i) matches Some(j) ==> {
            &&& i <= j < arena.maps.len()
            &&& arena.maps[j] is Mapped
            &&& arena.maps[j]->Mapped_0.fit(request) is Some
        },
    decreases arena.maps.len() - i,
{
    if i < arena.maps.len() && arena.maps[i] is Mapped && arena.maps[i]->Mapped_0.fit(request) is None {
        lemma_served_by(arena, request, i + 1);
    }
}

/// No map serves a request when there is none to be asked.
pub(crate) proof fn lemma_not_served(arena: ArenaView, request: RequestView, i: int)
    requires
        arena.valid(),
        arena.frontier() <= i,
    ensures
        arena.served_by(request, i) is None,
{
    lemma_frontier(arena);
    lemma_served_by(arena, request, i);
}

/// What the first maps hold is no more than their length, which is where the next one begins.
pub(crate) proof fn lemma_sums_below(arena: ArenaView, n: int)
    requires
        arena.valid(),
        0 <= n <= arena.frontier(),
    ensures
        0 <= arena.used_below(n),
        0 <= arena.free_below(n),
        arena.used_below(n) + arena.free_below(n) <= crate::geometry::map_offset(n),
    decreases n,
{
    lemma_frontier(arena);
    if n > 0 {
        lemma_sums_below(arena, n - 1);
        crate::geometry::law_maps_double_in_length(n - 1);
        assert(arena.maps[n - 1] is Mapped);
        crate::mapping::lemma_free_bytes(arena.maps[n - 1]->Mapped_0);
    }
}

/// The maps behind the frontier add nothing to the sums.
pub(crate) proof fn lemma_sums_end_at_frontier(arena: ArenaView, n: int)
    requires
        arena.valid(),
        arena.frontier() <= n <= MAP_COUNT,
    ensures
        arena.used_below(n) == arena.used_below(arena.frontier()),
        arena.free_below(n) == arena.free_below(arena.frontier()),
    decreases n,
{
    lemma_frontier(arena);
    if n > arena.frontier() {
        lemma_sums_end_at_frontier(arena, n - 1);
        assert(!(arena.maps[n - 1] is Mapped));
    }
}

/// Another map at index `i` changes the sums by what it holds more or less than the one before.
pub(crate) proof fn lemma_sums_change(before: ArenaView, after: ArenaView, i: int, n: int)
    requires
        0 <= i < before.maps.len(),
        0 <= n <= before.maps.len(),
        after.maps == before.maps.update(i, after.maps[i]),
    ensures
        after.used_below(n) == before.used_below(n) + if i < n {
            after.maps[i].used() - before.maps[i].used()
        } else {
            0
        },
        after.free_below(n) == before.free_below(n) + if i < n {
            after.maps[i].free_len() - before.maps[i].free_len()
        } else {
            0
        },
    decreases n,
{
    if n > 0 {
        lemma_sums_change(before, after, i, n - 1);
        if i != n - 1 {
            assert(after.maps[n - 1] == before.maps[n - 1]);
        }
    }
}

/// The maps that are established end within the file.
pub(crate) proof fn lemma_frontier_within_limit(arena: ArenaView)
    requires
        arena.valid(),
    ensures
        crate::geometry::map_offset(arena.frontier()) <= arena.len_limit,
{
    lemma_frontier(arena);
    crate::geometry::law_maps_double_in_length(0);
    if arena.frontier() > 0 {
        crate::geometry::law_maps_double_in_length(arena.frontier() - 1);
        assert(arena.maps[arena.frontier() - 1] is Mapped);
    }
}

/// The map that owns an address holds it, and no established map between `i` and it does.
pub(crate) proof fn lemma_owner_from(arena: ArenaView, addr: int, i: int)
    requires
        0 <= i,
    ensures
        match arena.owner_from(addr, i) {
            Some(j) => {
                &&& i <= j < arena.maps.len()
                &&& arena.maps[j] is Mapped
                &&& arena.maps[j]->Mapped_0.holds(addr)
                &&& forall|k: int|
                    i <= k < j && #[trigger] arena.maps[k] is Mapped
                        ==> !arena.maps[k]->Mapped_0.holds(addr)
            },
            None => forall|k: int|
                i <= k < arena.maps.len() && #[trigger] arena.maps[k] is Mapped
                    ==> !arena.maps[k]->Mapped_0.holds(addr),
        },
    decreases arena.maps.len() - i,
{
    if i < arena.maps.len() && !(arena.maps[i] is Mapped && arena.maps[i]->Mapped_0.holds(addr)) {
        lemma_owner_from(arena, addr, i + 1);
    }
}

} // verus!
