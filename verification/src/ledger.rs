//! The blocks that are in the hands of callers, over all that can happen to an arena.

use crate::geometry::MAP_COUNT;
use crate::mapping::MappingView;
use crate::model::{ArenaView, Expansion, Step};
use crate::request::RequestView;
use linked_list_allocator::Heap;
use vstd::prelude::*;

verus! {

/// A block that was handed out and did not go back.
pub struct LiveBlock {
    /// What was asked for.
    pub request: RequestView,
    /// Where the block begins.
    pub addr: int,
    /// The map that the block was taken from.
    pub map: int,
}

impl LiveBlock {
    /// The number of bytes that are set aside for the block.
    pub open spec fn set_aside(self) -> int {
        crate::heap::block_size(self.request.size as int)
    }

    /// The end of the bytes that are set aside for the block.
    pub open spec fn end(self) -> int {
        self.addr + self.set_aside()
    }

    /// Whether the blocks share no byte that is set aside.
    pub open spec fn apart_from(self, other: LiveBlock) -> bool {
        self.end() <= other.addr || other.end() <= self.addr
    }

    /// Whether the block lies in its map, as it was asked for, and none of it can be handed out.
    pub open spec fn lives_in(self, arena: ArenaView) -> bool {
        &&& self.request.valid()
        &&& self.request.size > 0
        &&& crate::heap::can_lay_out(self.request.size as int, self.request.align as int)
        &&& self.addr % self.request.align as int == 0
        &&& self.addr % crate::heap::word() == 0
        &&& 0 <= self.map < MAP_COUNT
        &&& self.request.first_map() <= self.map
        &&& arena.maps[self.map] is Mapped
        &&& arena.maps[self.map]->Mapped_0.bottom() <= self.addr
        &&& self.end() <= arena.maps[self.map]->Mapped_0.top()
        &&& arena.withholds(self.addr, self.set_aside())
    }
}

/// The number of bytes that are set aside for the blocks.
pub open spec fn set_aside_for(live: Seq<LiveBlock>) -> int
    decreases live.len(),
{
    if live.len() == 0 {
        0
    } else {
        set_aside_for(live.drop_last()) + live.last().set_aside()
    }
}

/// The number of bytes that the blocks were asked to have.
pub open spec fn asked_for(live: Seq<LiveBlock>) -> int
    decreases live.len(),
{
    if live.len() == 0 {
        0
    } else {
        asked_for(live.drop_last()) + live.last().request.size
    }
}

/// What can happen to an arena.
pub enum Event {
    /// The maps from index `start` on are asked for room.
    Asked { request: RequestView, start: int },
    /// The first map of a request is asked for.
    Prepared { request: RequestView },
    /// The attempt to set the length of the file came to an end.
    Truncated { done: bool },
    /// The next map could not be mapped.
    MapFailed,
    /// The next map was mapped at `base`.
    MapEstablished { base: int },
    /// The live block at index `k` goes back, and the heap of its map becomes `heap`.
    GivenBack { k: int, heap: Heap },
    /// All maps are taken away.
    Unmapped,
}

/// An arena and the blocks of it that are in the hands of callers.
pub struct Ledger {
    pub arena: ArenaView,
    pub live: Seq<LiveBlock>,
}

impl Ledger {
    /// A new arena, of which nothing was handed out.
    pub open spec fn new(fd: i32, len_limit: usize) -> Ledger {
        Ledger { arena: ArenaView::new(fd, len_limit), live: Seq::empty() }
    }

    /// Whether the heaps of all established maps have whole holes only.
    pub open spec fn whole_holes(self) -> bool {
        forall|i: int|
            0 <= i < self.arena.maps.len() && #[trigger] self.arena.maps[i] is Mapped
                ==> crate::holes::whole_holes(self.arena.maps[i]->Mapped_0.free)
    }

    /// Whether the arena is as it should be, the live blocks lie in it apart from each other, and
    /// they are all that is handed out.
    pub open spec fn sound(self) -> bool {
        &&& self.arena.valid()
        &&& self.arena.separated()
        &&& self.whole_holes()
        &&& forall|k: int|
            0 <= k < self.live.len() ==> (#[trigger] self.live[k]).lives_in(self.arena)
        &&& forall|j: int, k: int|
            0 <= j < k < self.live.len() ==> (#[trigger] self.live[j]).apart_from(
                #[trigger] self.live[k],
            )
        &&& self.arena.mem_used() == set_aside_for(self.live)
    }

    /// Whether the arena waits for its next map.
    pub open spec fn awaits_map(self) -> bool {
        self.arena.expansion(self.arena.frontier()) matches Expansion::Pending(call)
            && call is MapAt
    }

    /// Whether the event can happen: requests are layouts, the system maps what was asked for, apart
    /// from the maps that are there, and a heap that takes a block back gains the bytes that were set
    /// aside for it.
    pub open spec fn admits(self, event: Event) -> bool {
        match event {
            Event::Asked { request, start } => request.valid() && request.first_map() <= start,
            Event::Prepared { request } => request.valid(),
            Event::Truncated { done } => true,
            Event::MapFailed => self.awaits_map(),
            Event::MapEstablished { base } => {
                let len = crate::geometry::map_len(self.arena.frontier());
                &&& self.awaits_map()
                &&& MappingView::fresh(base, len).valid()
                &&& self.arena.apart_from(base, len)
            },
            Event::GivenBack { k, heap } => {
                let map = self.arena.maps[self.live[k].map]->Mapped_0;
                &&& 0 <= k < self.live.len()
                &&& crate::heap::heap_size(heap) == map.size
                &&& crate::heap::heap_free(heap) == map.free.union(
                    MappingView::block(self.live[k].addr, self.live[k].request.size as int),
                )
            },
            Event::Unmapped => true,
        }
    }

    /// The arena and the live blocks after an event.
    pub open spec fn after(self, event: Event) -> Ledger {
        let arena = self.arena;
        match event {
            Event::Asked { request, start } => Ledger {
                arena: arena.after_allocation_from(request, start),
                live: match arena.allocated_from(request, start) {
                    Step::Done(Some(block)) if request.size > 0 => self.live.push(
                        LiveBlock {
                            request,
                            addr: block.addr as int,
                            map: arena.served_by(request, start)->0,
                        },
                    ),
                    _ => self.live,
                },
            },
            Event::Prepared { request } => Ledger {
                arena: arena.after_pre_ensure(request),
                ..self
            },
            Event::Truncated { done } => Ledger { arena: arena.after_truncate(done), ..self },
            Event::MapFailed => Ledger {
                arena: arena.after_failed_map(arena.frontier()),
                ..self
            },
            Event::MapEstablished { base } => Ledger {
                arena: arena.after_map(arena.frontier(), base),
                ..self
            },
            Event::GivenBack { k, heap } => Ledger {
                arena: arena.given_back(self.live[k].request, self.live[k].addr, heap),
                live: self.live.remove(k),
            },
            Event::Unmapped => Ledger { arena: arena.unmapped(), live: Seq::empty() },
        }
    }

    /// The arena and the live blocks after the first `n` events.
    pub open spec fn after_first(self, events: Seq<Event>, n: int) -> Ledger
        decreases n,
    {
        if n <= 0 {
            self
        } else {
            self.after_first(events, n - 1).after(events[n - 1])
        }
    }

    /// Whether the events can happen one after the other.
    pub open spec fn admits_all(self, events: Seq<Event>) -> bool {
        forall|n: int|
            0 <= n < events.len() ==> self.after_first(events, n).admits(#[trigger] events[n])
    }
}

/// A new arena is sound: nothing of it is handed out.
pub proof fn law_new_ledger_is_sound(fd: i32, len_limit: usize)
    ensures
        Ledger::new(fd, len_limit).sound(),
{
    let arena = ArenaView::new(fd, len_limit);
    crate::model::lemma_new_is_valid(fd, len_limit);
    crate::model::lemma_sums_end_at_frontier(arena, MAP_COUNT as int);
}

/// A block that lies in its map goes back to it.
pub proof fn law_live_block_goes_back_to_its_map(ledger: Ledger, k: int)
    requires
        ledger.sound(),
        0 <= k < ledger.live.len(),
    ensures
        ledger.arena.owner(ledger.live[k].request, ledger.live[k].addr) == Some(ledger.live[k].map),
{
    let arena = ledger.arena;
    let block = ledger.live[k];
    let first = block.request.first_map();
    assert(block.lives_in(arena));
    crate::request::lemma_align_positive(block.request);
    crate::geometry::law_minimum_index_is_least(block.request.padded());
    crate::mapping::lemma_block_size(block.request.size as int);
    crate::model::lemma_owner_from(arena, block.addr, first);
    assert(arena.maps[block.map]->Mapped_0.valid());
    assert(arena.maps[block.map]->Mapped_0.holds(block.addr));
    let i = arena.owner_from(block.addr, first)->0;
    if i < block.map {
        assert(arena.maps[i]->Mapped_0.apart_from(arena.maps[block.map]->Mapped_0));
    }
}

/// A block lives on in an arena whose map for it lies where it did and gained none of its bytes.
proof fn lemma_block_lives_on(block: LiveBlock, before: ArenaView, after: ArenaView)
    requires
        block.lives_in(before),
        after.maps[block.map] is Mapped,
        after.maps[block.map]->Mapped_0.base == before.maps[block.map]->Mapped_0.base,
        after.maps[block.map]->Mapped_0.len == before.maps[block.map]->Mapped_0.len,
        after.withholds(block.addr, block.set_aside()),
    ensures
        block.lives_in(after),
{
}

/// An event that leaves the maps as they are leaves all blocks as they are.
proof fn lemma_same_maps(ledger: Ledger, after: ArenaView)
    requires
        ledger.sound(),
        after.valid(),
        after.maps == ledger.arena.maps,
    ensures
        (Ledger { arena: after, ..ledger }).sound(),
{
    let before = ledger.arena;
    assert(after.maps =~= before.maps.update(0, after.maps[0]));
    crate::model::lemma_sums_change(before, after, 0, MAP_COUNT as int);
    assert forall|k: int| 0 <= k < ledger.live.len() implies (#[trigger] ledger.live[k]).lives_in(
        after,
    ) by {
        let block = ledger.live[k];
        assert(block.lives_in(before));
        assert(after.withholds(block.addr, block.set_aside()));
        lemma_block_lives_on(block, before, after);
    }
}

proof fn lemma_after_allocation(ledger: Ledger, request: RequestView, start: int)
    requires
        ledger.sound(),
        request.valid(),
        request.size > 0,
        request.first_map() <= start,
        ledger.arena.allocated_from(request, start) matches Step::Done(Some(_)),
    ensures
        ledger.after(Event::Asked { request, start }).sound(),
{
    let arena = ledger.arena;
    let after = arena.after_allocation_from(request, start);
    let block = arena.allocated_from(request, start)->Done_0->0;
    let i = arena.served_by(request, start)->0;
    let map = arena.maps[i]->Mapped_0;
    let size = request.size as int;
    let align = request.align as int;
    let live = ledger.live;
    let new = LiveBlock { request, addr: block.addr as int, map: i };
    let ledger_after = ledger.after(Event::Asked { request, start });
    crate::request::lemma_align_positive(request);
    crate::geometry::law_minimum_index_is_least(request.padded());
    crate::laws::law_block_lies_in_its_map(arena, request, start, block);
    crate::laws::law_block_is_withheld(arena, request, start, block);
    crate::laws::law_allocation_moves_memory(arena, request, start, block);
    crate::mapping::lemma_block_size(size);
    // The holes.
    crate::model::lemma_served_by(arena, request, start);
    let (addr, len) = choose|addr: int, len: int|
        crate::heap::takes_first(map.free, addr, len, size, align);
    crate::holes::lemma_taking_keeps_holes_whole(map.free, addr, len, size, align);
    crate::mapping::lemma_placement(addr, len, size, align);
    crate::holes::lemma_placement_is_whole(addr, align);
    let hole = vstd::set_lib::set_int_range(addr, addr + len);
    assert(hole.contains(addr + len - 1));
    assert(map.free.contains(addr + len - 1));
    assert(block.addr == crate::heap::placement(addr, align));
    // The blocks.
    assert(ledger_after.live == live.push(new));
    assert forall|k: int| 0 <= k < live.len() implies (#[trigger] live[k]).lives_in(after)
        && live[k].apart_from(new) by {
        let old_block = live[k];
        assert(old_block.lives_in(arena));
        crate::mapping::lemma_block_size(old_block.request.size as int);
        crate::laws::law_withheld_bytes_stay_withheld(
            arena,
            old_block.addr,
            old_block.set_aside(),
            request,
            start,
            true,
            0,
        );
        lemma_block_lives_on(old_block, arena, after);
        crate::laws::law_blocks_do_not_overlap(
            arena,
            old_block.addr,
            old_block.set_aside(),
            request,
            start,
            block,
        );
    }
    assert(new.lives_in(after));
    assert(live.push(new).drop_last() =~= live);
}

proof fn lemma_after_map(ledger: Ledger, base: int)
    requires
        ledger.sound(),
        ledger.admits(Event::MapEstablished { base }),
    ensures
        ledger.after(Event::MapEstablished { base }).sound(),
{
    let arena = ledger.arena;
    let i = arena.frontier();
    let len = crate::geometry::map_len(i);
    let map = MappingView::fresh(base, len);
    let after = arena.after_map(i, base);
    let word = crate::heap::word();
    assert(word == 4 || word == 8);
    crate::model::lemma_frontier(arena);
    crate::model::lemma_after_map_is_valid(arena, base);
    crate::laws::law_maps_stay_separated(
        arena,
        RequestView { size: 0, align: 1 },
        0,
        true,
        base,
    );
    crate::geometry::law_maps_double_in_length(i);
    crate::geometry::law_maps_double_in_length(0);
    if i > 0 {
        crate::geometry::lemma_map_len_increases(0, i);
    }
    crate::request::lemma_round_up(base, word);
    crate::request::lemma_round_down(base + len, word);
    crate::holes::lemma_run_is_whole(map.bottom(), map.top());
    vstd::set_lib::lemma_int_range(map.bottom(), map.top());
    crate::model::lemma_sums_change(arena, after, i, MAP_COUNT as int);
    assert forall|k: int| 0 <= k < ledger.live.len() implies (#[trigger] ledger.live[k]).lives_in(
        after,
    ) by {
        let block = ledger.live[k];
        assert(block.lives_in(arena));
        assert(arena.maps[block.map]->Mapped_0.valid());
        assert(arena.maps[block.map]->Mapped_0.apart_from(map));
        crate::laws::law_withheld_bytes_stay_withheld(
            arena,
            block.addr,
            block.set_aside(),
            RequestView { size: 0, align: 1 },
            0,
            true,
            base,
        );
        lemma_block_lives_on(block, arena, after);
    }
}

proof fn lemma_after_failed_map(ledger: Ledger)
    requires
        ledger.sound(),
        ledger.awaits_map(),
    ensures
        ledger.after(Event::MapFailed).sound(),
{
    let arena = ledger.arena;
    let i = arena.frontier();
    let after = arena.after_failed_map(i);
    crate::model::lemma_frontier(arena);
    crate::model::lemma_after_failed_map_is_valid(arena);
    crate::model::lemma_sums_change(arena, after, i, MAP_COUNT as int);
    assert forall|k: int| 0 <= k < ledger.live.len() implies (#[trigger] ledger.live[k]).lives_in(
        after,
    ) by {
        let block = ledger.live[k];
        assert(block.lives_in(arena));
        crate::laws::law_withheld_bytes_stay_withheld(
            arena,
            block.addr,
            block.set_aside(),
            RequestView { size: 0, align: 1 },
            0,
            true,
            0,
        );
        lemma_block_lives_on(block, arena, after);
    }
}

proof fn lemma_after_giving_back(ledger: Ledger, k: int, heap: Heap)
    requires
        ledger.sound(),
        ledger.admits(Event::GivenBack { k, heap }),
    ensures
        ledger.after(Event::GivenBack { k, heap }).sound(),
{
    let arena = ledger.arena;
    let live = ledger.live;
    let gone = live[k];
    let i = gone.map;
    let map = arena.maps[i]->Mapped_0;
    let set_aside = MappingView::block(gone.addr, gone.request.size as int);
    let after = arena.given_back(gone.request, gone.addr, heap);
    let left = live.remove(k);
    assert(gone.lives_in(arena));
    law_live_block_goes_back_to_its_map(ledger, k);
    crate::request::lemma_align_positive(gone.request);
    crate::geometry::law_minimum_index_is_least(gone.request.padded());
    crate::mapping::lemma_block_size(gone.request.size as int);
    assert(map.valid());
    crate::laws::law_giving_back_keeps_arena_valid(arena, gone.request, gone.addr, heap);
    crate::laws::law_giving_back_moves_memory(arena, gone.request, gone.addr, heap);
    assert(after.separated());
    assert forall|a: int| map.free.contains(a) implies !set_aside.contains(a) by {
        if set_aside.contains(a) {
            assert(!arena.maps[i]->Mapped_0.free.contains(a));
        }
    }
    crate::holes::lemma_giving_keeps_holes_whole(map.free, gone.addr, gone.set_aside());
    assert forall|j: int| 0 <= j < left.len() implies (#[trigger] left[j]).lives_in(after) by {
        let at = if j < k {
            j
        } else {
            j + 1
        };
        let block = live[at];
        assert(left[j] == block);
        assert(block.lives_in(arena));
        if at < k {
            assert(live[at].apart_from(live[k]));
        } else {
            assert(live[k].apart_from(live[at]));
        }
        crate::laws::law_withheld_bytes_survive_giving_back(
            arena,
            block.addr,
            block.set_aside(),
            gone.request,
            gone.addr,
            heap,
        );
        lemma_block_lives_on(block, arena, after);
    }
    assert forall|m: int, n: int| 0 <= m < n < left.len() implies (#[trigger] left[m]).apart_from(
        #[trigger] left[n],
    ) by {
        let a = if m < k {
            m
        } else {
            m + 1
        };
        let b = if n < k {
            n
        } else {
            n + 1
        };
        assert(live[a].apart_from(live[b]));
    }
    lemma_sum_without(live, k);
}

/// A block that is taken out of the sum leaves the rest.
proof fn lemma_sum_without(live: Seq<LiveBlock>, k: int)
    requires
        0 <= k < live.len(),
    ensures
        set_aside_for(live.remove(k)) == set_aside_for(live) - live[k].set_aside(),
    decreases live.len(),
{
    if k == live.len() - 1 {
        assert(live.remove(k) =~= live.drop_last());
    } else {
        assert(live.remove(k).drop_last() =~= live.drop_last().remove(k));
        assert(live.remove(k).last() == live.last());
        lemma_sum_without(live.drop_last(), k);
    }
}

/// Whatever can happen to an arena, it stays as it should be, and its live blocks go on to lie in it
/// apart from each other and to be all that is handed out.
pub proof fn law_events_keep_ledger_sound(ledger: Ledger, event: Event)
    requires
        ledger.sound(),
        ledger.admits(event),
    ensures
        ledger.after(event).sound(),
{
    let arena = ledger.arena;
    match event {
        Event::Asked { request, start } => {
            crate::request::lemma_align_positive(request);
            crate::geometry::law_minimum_index_is_least(request.padded());
            if request.size > 0 && arena.allocated_from(request, start) matches Step::Done(
                Some(_),
            ) {
                lemma_after_allocation(ledger, request, start);
            } else {
                crate::model::lemma_expanded_is_valid(arena, arena.frontier());
                lemma_same_maps(ledger, arena.after_allocation_from(request, start));
            }
        },
        Event::Prepared { request } => {
            crate::model::lemma_expanded_is_valid(arena, arena.frontier());
            lemma_same_maps(ledger, arena.after_pre_ensure(request));
        },
        Event::Truncated { done } => {
            crate::model::lemma_after_truncate_is_valid(arena, done);
            lemma_same_maps(ledger, arena.after_truncate(done));
        },
        Event::MapFailed => {
            lemma_after_failed_map(ledger);
        },
        Event::MapEstablished { base } => {
            lemma_after_map(ledger, base);
        },
        Event::GivenBack { k, heap } => {
            lemma_after_giving_back(ledger, k, heap);
        },
        Event::Unmapped => {
            crate::laws::law_unmapping_resets(arena);
        },
    }
}

/// Whatever happens to an arena one after the other, its live blocks share no byte at the end, and are
/// all that is handed out.
pub proof fn law_histories_keep_ledger_sound(ledger: Ledger, events: Seq<Event>)
    requires
        ledger.sound(),
        ledger.admits_all(events),
    ensures
        ledger.after_first(events, events.len() as int).sound(),
{
    lemma_first_events(ledger, events, events.len() as int);
}

proof fn lemma_first_events(ledger: Ledger, events: Seq<Event>, n: int)
    requires
        ledger.sound(),
        ledger.admits_all(events),
        0 <= n <= events.len(),
    ensures
        ledger.after_first(events, n).sound(),
    decreases n,
{
    if n > 0 {
        lemma_first_events(ledger, events, n - 1);
        let before = ledger.after_first(events, n - 1);
        assert(before.admits(events[n - 1]));
        law_events_keep_ledger_sound(before, events[n - 1]);
    }
}

/// No two live blocks share a byte.
pub proof fn law_live_blocks_share_no_byte(ledger: Ledger, j: int, k: int)
    requires
        ledger.sound(),
        0 <= j < ledger.live.len(),
        0 <= k < ledger.live.len(),
        j != k,
    ensures
        ({
            let a = ledger.live[j];
            let b = ledger.live[k];
            a.addr + a.request.size <= b.addr || b.addr + b.request.size <= a.addr
        }),
{
    crate::mapping::lemma_block_size(ledger.live[j].request.size as int);
    crate::mapping::lemma_block_size(ledger.live[k].request.size as int);
    if j < k {
        assert(ledger.live[j].apart_from(ledger.live[k]));
    } else {
        assert(ledger.live[k].apart_from(ledger.live[j]));
    }
}

/// What is handed out covers what the live blocks were asked to have, and is nothing just when there
/// are none.
pub proof fn law_used_memory_covers_live_blocks(ledger: Ledger)
    requires
        ledger.sound(),
    ensures
        asked_for(ledger.live) <= ledger.arena.mem_used(),
        ledger.arena.mem_used() == 0 <==> ledger.live.len() == 0,
{
    lemma_sums_of_blocks(ledger.live);
}

proof fn lemma_sums_of_blocks(live: Seq<LiveBlock>)
    ensures
        0 <= asked_for(live) <= set_aside_for(live),
        set_aside_for(live) == 0 <==> live.len() == 0,
    decreases live.len(),
{
    if live.len() > 0 {
        lemma_sums_of_blocks(live.drop_last());
        crate::mapping::lemma_block_size(live.last().request.size as int);
    }
}

/// When a live block goes back, whatever happened since it was handed out, what was set aside for it
/// moves from what is handed out to what can be handed out, and another request like it is served
/// with no call to the system and nothing more mapped.
pub proof fn law_freed_memory_is_served_again(ledger: Ledger, k: int, heap: Heap)
    requires
        ledger.sound(),
        ledger.admits(Event::GivenBack { k, heap }),
    ensures
        ({
            let after = ledger.after(Event::GivenBack { k, heap }).arena;
            let gone = ledger.live[k];
            let served = after.after_allocation(gone.request);
            &&& after.mem_used() == ledger.arena.mem_used() - gone.set_aside()
            &&& after.mem_free() == ledger.arena.mem_free() + gone.set_aside()
            &&& after.diagnostics == ledger.arena.diagnostics
            &&& after.allocated(gone.request) matches Step::Done(Some(block)) && block.len
                == gone.request.size
            &&& served.diagnostics == ledger.arena.diagnostics
            &&& served.mem_used() == ledger.arena.mem_used()
            &&& served.mem_free() == ledger.arena.mem_free()
        }),
{
    let arena = ledger.arena;
    let gone = ledger.live[k];
    let request = gone.request;
    let size = request.size as int;
    let align = request.align as int;
    let i = gone.map;
    let map = arena.maps[i]->Mapped_0;
    let set_aside = MappingView::block(gone.addr, size);
    let after = ledger.after(Event::GivenBack { k, heap }).arena;
    assert(gone.lives_in(arena));
    law_live_block_goes_back_to_its_map(ledger, k);
    law_events_keep_ledger_sound(ledger, Event::GivenBack { k, heap });
    crate::request::lemma_align_positive(request);
    crate::geometry::law_minimum_index_is_least(request.padded());
    crate::laws::law_giving_back_moves_memory(arena, request, gone.addr, heap);
    assert(map.valid());
    assert forall|a: int| map.free.contains(a) implies !set_aside.contains(a) by {
        if set_aside.contains(a) {
            assert(!arena.maps[i]->Mapped_0.free.contains(a));
        }
    }
    crate::holes::lemma_given_block_makes_room(
        map.free,
        map.bottom(),
        map.top(),
        gone.addr,
        size,
        align,
    );
    let joined = map.free.union(set_aside);
    let (addr, len) = choose|addr: int, len: int| #[trigger]
        crate::heap::is_hole(joined, addr, len) && crate::heap::takes(addr, len, size, align);
    assert(after.maps[i]->Mapped_0.free == joined);
    crate::laws::law_room_is_found(after.maps[i]->Mapped_0, request, addr, len);
    crate::model::lemma_frontier(after);
    assert(i < after.frontier()) by {
        assert(after.maps[i] is Mapped);
    }
    crate::laws::law_established_room_serves(after, request, request.first_map(), i);
    let block = after.allocated(request)->Done_0->0;
    crate::laws::law_allocation_moves_memory(after, request, request.first_map(), block);
}

} // verus!
