//! Arenas in a process that may lock a limited amount of memory.
//!
//! What the system does is not proved anywhere: it is what the laws of this file take for granted.
//! It gives a file its length, and it maps a part of a file as long as what is mapped stays within
//! the limit on locked memory.

use crate::geometry::MAP_COUNT;
use crate::mapping::MappingView;
use crate::model::{Allocation, ArenaView, Step, SystemCall};
use crate::request::RequestView;
use vstd::prelude::*;

verus! {

/// An arena, and what its process has left of the memory that it may lock.
pub struct Process {
    pub arena: ArenaView,
    /// The number of bytes that can still be locked.
    pub room: int,
    /// Where the system puts each map.
    pub base: spec_fn(int) -> int,
}

impl Process {
    /// Whether the system puts map `i` on a page boundary within the address space.
    pub open spec fn can_place(self, i: int) -> bool {
        &&& 0 < (self.base)(i)
        &&& (self.base)(i) + crate::geometry::map_len(i) <= usize::MAX
        &&& (self.base)(i) % crate::geometry::map_len(0) == 0
    }

    /// Whether the system puts all maps on page boundaries within the address space.
    pub open spec fn places_maps(self) -> bool {
        forall|i: int| crate::geometry::addressable(i) ==> #[trigger] self.can_place(i)
    }

    /// The process when the system has made a call for the arena.
    pub open spec fn answered(self, call: SystemCall) -> Process {
        match call {
            SystemCall::Truncate { .. } => Process {
                arena: self.arena.after_truncate(true),
                ..self
            },
            SystemCall::MapAt { index, len, .. } => if len <= self.room {
                Process {
                    arena: self.arena.after_map(index.0 as int, (self.base)(index.0 as int)),
                    room: self.room - len,
                    ..self
                }
            } else {
                Process { arena: self.arena.after_failed_map(index.0 as int), ..self }
            },
        }
    }

    /// The process after an allocation that took up to that many calls, and the block that was
    /// found.
    pub open spec fn settled_within(self, request: RequestView, calls: nat) -> (
        Process,
        Option<Allocation>,
    )
        decreases calls,
    {
        let after = Process { arena: self.arena.after_allocation(request), ..self };
        match self.arena.allocated(request) {
            Step::Done(found) => (after, found),
            Step::Pending(call) => if calls == 0 {
                (after, None)
            } else {
                after.answered(call).settled_within(request, (calls - 1) as nat)
            },
        }
    }

    /// The process after an allocation that took all the calls it asked for, and the block that was
    /// found.
    pub open spec fn settled(self, request: RequestView) -> (Process, Option<Allocation>) {
        self.settled_within(request, self.arena.calls_left() as nat)
    }
}

/// Whether the first map that is asked serves a request when it is empty: a page is aligned enough,
/// and what the map keeps behind the block is nothing or enough for a hole.
pub open spec fn suits_its_map(request: RequestView) -> bool {
    let set_aside = crate::heap::block_size(request.size as int);
    let len = crate::geometry::map_len(request.first_map());
    &&& request.align <= crate::geometry::map_len(0)
    &&& set_aside == len || set_aside + 2 * crate::heap::word() <= len
}

/// What an arena asks for leaves it as it was, and the answer brings it closer to where it asks for
/// nothing.
proof fn lemma_answer(process: Process, request: RequestView)
    requires
        process.arena.valid(),
        request.valid(),
        process.places_maps(),
        process.arena.allocated(request) is Pending,
    ensures
        process.arena.after_allocation(request) == process.arena,
        ({
            let call = process.arena.allocated(request)->Pending_0;
            let next = process.answered(call);
            &&& next.arena.valid()
            &&& next.places_maps()
            &&& 0 <= next.arena.calls_left() < process.arena.calls_left()
        }),
{
    let arena = process.arena;
    let n = arena.frontier();
    let call = arena.allocated(request)->Pending_0;
    let base = (process.base)(n);
    crate::request::lemma_align_positive(request);
    crate::geometry::law_minimum_index_is_least(request.padded());
    crate::laws::law_calls_come_in_order(arena, request, request.first_map());
    crate::laws::law_calls_are_bounded(arena, request, request.first_map(), base);
    assert(arena.expanded(n) == arena);
    match call {
        SystemCall::Truncate { .. } => {
            crate::model::lemma_after_truncate_is_valid(arena, true);
            crate::laws::law_calls_are_bounded(
                arena.after_truncate(true),
                request,
                request.first_map(),
                base,
            );
        },
        SystemCall::MapAt { .. } => {
            crate::laws::law_map_call_is_within_file(arena, n);
            crate::model::lemma_after_failed_map_is_valid(arena);
            crate::laws::law_calls_are_bounded(
                arena.after_failed_map(n),
                request,
                request.first_map(),
                base,
            );
            assert(process.can_place(n));
            lemma_placed_map_is_valid(base, n);
            crate::model::lemma_after_map_is_valid(arena, base);
            crate::laws::law_calls_are_bounded(
                arena.after_map(n, base),
                request,
                request.first_map(),
                base,
            );
        },
    }
    assert forall|i: int| crate::geometry::addressable(i) implies #[trigger] process.answered(
        call,
    ).can_place(i) by {
        assert(process.can_place(i));
    }
}

/// A map on a page boundary is one that its heap manages.
proof fn lemma_placed_map_is_valid(base: int, i: int)
    requires
        0 < base,
        crate::geometry::addressable(i),
        base + crate::geometry::map_len(i) <= usize::MAX,
        base % crate::geometry::map_len(0) == 0,
    ensures
        MappingView::fresh(base, crate::geometry::map_len(i)).valid(),
{
    crate::laws::law_page_is_all_usable(base, i);
    crate::geometry::law_maps_double_in_length(i);
}

/// An allocation takes no more calls than the arena can ask for: with more it comes to the same.
pub proof fn law_calls_are_enough(process: Process, request: RequestView, calls: nat)
    requires
        process.arena.valid(),
        request.valid(),
        process.places_maps(),
        process.arena.calls_left() <= calls,
    ensures
        process.settled_within(request, calls) == process.settled(request),
    decreases calls,
{
    crate::request::lemma_align_positive(request);
    crate::geometry::law_minimum_index_is_least(request.padded());
    crate::laws::law_calls_are_bounded(process.arena, request, request.first_map(), 0);
    if process.arena.allocated(request) is Pending {
        let call = process.arena.allocated(request)->Pending_0;
        let next = process.answered(call);
        lemma_answer(process, request);
        law_calls_are_enough(next, request, (calls - 1) as nat);
        law_calls_are_enough(next, request, (process.arena.calls_left() - 1) as nat);
    }
}

/// An allocation is carried on from the answer to its first call.
proof fn lemma_settled_step(process: Process, request: RequestView)
    requires
        process.arena.valid(),
        request.valid(),
        process.places_maps(),
        process.arena.allocated(request) is Pending,
    ensures
        process.settled(request) == process.answered(
            process.arena.allocated(request)->Pending_0,
        ).settled(request),
{
    lemma_answer(process, request);
    law_calls_are_enough(
        process.answered(process.arena.allocated(request)->Pending_0),
        request,
        (process.arena.calls_left() - 1) as nat,
    );
}

/// An allocation leaves the arena as it should be and locks just what it maps. A block that is found
/// has the size and the alignment that were asked for, and is never at the null address. So an
/// address of null tells a caller just what an error does: that no block was found.
pub proof fn law_null_means_refused(process: Process, request: RequestView)
    requires
        process.arena.valid(),
        request.valid(),
        process.places_maps(),
    ensures
        ({
            let (after, found) = process.settled(request);
            &&& after.arena.valid()
            &&& after.room + after.arena.diagnostics.mapped_memory == process.room
                + process.arena.diagnostics.mapped_memory
            &&& 0 <= process.room ==> 0 <= after.room
            &&& found matches Some(block) ==> {
                &&& block.addr != 0
                &&& block.len == request.size
                &&& block.addr as int % request.align as int == 0
            }
        }),
    decreases process.arena.calls_left(),
{
    let arena = process.arena;
    let first = request.first_map();
    crate::request::lemma_align_positive(request);
    crate::geometry::law_minimum_index_is_least(request.padded());
    crate::laws::law_calls_are_bounded(arena, request, first, 0);
    match arena.allocated(request) {
        Step::Pending(call) => {
            lemma_answer(process, request);
            lemma_settled_step(process, request);
            crate::laws::law_calls_come_in_order(arena, request, first);
            if call is MapAt {
                crate::laws::law_map_call_is_within_file(arena, arena.frontier());
                crate::model::lemma_after_failed_map_is_valid(arena);
                lemma_mapped_length(arena, (process.base)(arena.frontier()));
            }
            law_null_means_refused(process.answered(call), request);
        },
        Step::Done(Some(block)) if request.size > 0 => {
            crate::laws::law_block_lies_in_its_map(arena, request, first, block);
            let i = arena.served_by(request, first)->0;
            let map = arena.maps[i]->Mapped_0;
            crate::mapping::lemma_served_map_is_valid(map, request);
            crate::model::lemma_served_is_valid(arena, i, map.served(request));
        },
        Step::Done(_) => {
            crate::model::lemma_expanded_is_valid(arena, arena.frontier());
            if request.size == 0 {
                crate::laws::law_empty_requests_are_served(arena, request);
            }
        },
    }
}

/// A map that is added makes the mapped bytes more by its length.
proof fn lemma_mapped_length(arena: ArenaView, base: int)
    requires
        arena.valid(),
        arena.within_limit(arena.frontier()),
    ensures
        arena.after_map(arena.frontier(), base).diagnostics.mapped_memory
            == arena.diagnostics.mapped_memory + crate::geometry::map_len(arena.frontier()),
{
    crate::geometry::law_maps_double_in_length(arena.frontier());
}

/// Two arenas in the same state whose calls are answered alike serve a request alike and are left
/// in the same state, whether a caller is told of the outcome by an address, null where there is no
/// block, or by a block or an error.
pub proof fn law_callers_are_served_alike(first: Process, second: Process, request: RequestView)
    requires
        first.arena.valid(),
        request.valid(),
        first.places_maps(),
        first.arena == second.arena,
        first.room == second.room,
        first.base == second.base,
    ensures
        ({
            let (after_first, block) = first.settled(request);
            let (after_second, found) = second.settled(request);
            let addr = match found {
                Some(other) => other.addr,
                None => 0usize,
            };
            &&& block is None <==> addr == 0
            &&& block matches Some(block) ==> block.addr == addr && block.len == request.size
            &&& after_first.arena == after_second.arena
            &&& after_first.room == after_second.room
        }),
{
    assert(first == second);
    law_null_means_refused(first, request);
}

/// An arena that was unmapped starts over: a request that its file has room for asks for the first
/// map, and the length of the file is not set again.
pub proof fn law_unmapped_arena_starts_over(arena: ArenaView, request: RequestView)
    requires
        arena.valid(),
        arena.truncates == Some(true),
        request.valid(),
        request.size > 0,
        arena.within_limit(request.first_map()),
    ensures
        arena.unmapped().allocated(request) == Step::Pending(
            SystemCall::MapAt {
                fd: arena.fd,
                index: crate::geometry::MapIndexForPot(0),
                offset: 0,
                len: crate::geometry::map_len(0) as usize,
            },
        ),
{
    let reset = arena.unmapped();
    let first = request.first_map();
    crate::model::lemma_unmapped_is_valid(arena);
    crate::request::lemma_align_positive(request);
    crate::geometry::law_minimum_index_is_least(request.padded());
    crate::model::lemma_not_served(reset, request, first);
    crate::geometry::law_maps_double_in_length(0);
    if first > 0 {
        crate::geometry::lemma_map_len_increases(0, first);
    }
}

/// An arena without maps refuses a request unless its file and the memory that can be locked have
/// room for all the maps up to the first that is asked. A failure to lock goes on record. A request
/// that suits its map is else served, and just these maps are locked.
pub proof fn law_reservation_takes_its_maps(process: Process, request: RequestView)
    requires
        process.arena.valid(),
        process.arena.frontier() == 0,
        process.arena.truncates != Some(false),
        !process.arena.diagnostics.mmap_failed(),
        process.places_maps(),
        request.valid(),
        request.size > 0,
    ensures
        ({
            let (after, found) = process.settled(request);
            let needed = crate::geometry::map_end(request.first_map());
            let within_file = process.arena.within_limit(request.first_map());
            if within_file && needed <= process.room {
                suits_its_map(request) ==> {
                    &&& found is Some
                    &&& after.arena.diagnostics.mapped_memory == needed
                    &&& after.room == process.room - needed
                }
            } else {
                &&& found is None
                &&& within_file ==> after.arena.diagnostics.mmap_failed()
            }
        }),
{
    let arena = process.arena;
    let first = request.first_map();
    crate::request::lemma_align_positive(request);
    crate::geometry::law_minimum_index_is_least(request.padded());
    crate::geometry::law_maps_double_in_length(0);
    if arena.truncates is None && arena.allocated(request) is Pending {
        crate::laws::law_calls_come_in_order(arena, request, first);
        lemma_answer(process, request);
        lemma_settled_step(process, request);
        crate::model::lemma_after_truncate_is_valid(arena, true);
        lemma_maps_one_by_one(
            process.answered(arena.allocated(request)->Pending_0),
            request,
        );
    } else {
        lemma_maps_one_by_one(process, request);
    }
}

/// What is left to map of an allocation that waits for its first map.
proof fn lemma_maps_one_by_one(process: Process, request: RequestView)
    requires
        process.arena.valid(),
        process.arena.frontier() <= request.first_map(),
        process.arena.truncates == Some(true) || process.arena.allocated(request) is Done,
        process.arena.truncates != Some(false),
        !process.arena.diagnostics.mmap_failed(),
        process.places_maps(),
        request.valid(),
        request.size > 0,
    ensures
        ({
            let (after, found) = process.settled(request);
            let first = request.first_map();
            let needed = crate::geometry::map_end(first) - crate::geometry::map_offset(
                process.arena.frontier(),
            );
            if process.arena.within_limit(first) && needed <= process.room {
                suits_its_map(request) ==> {
                    &&& found is Some
                    &&& after.arena.diagnostics.mapped_memory == crate::geometry::map_end(first)
                    &&& after.room == process.room - needed
                }
            } else {
                &&& found is None
                &&& process.arena.within_limit(first) ==> after.arena.diagnostics.mmap_failed()
            }
        }),
    decreases process.arena.calls_left(),
{
    let arena = process.arena;
    let n = arena.frontier();
    let first = request.first_map();
    crate::model::lemma_frontier(arena);
    crate::request::lemma_align_positive(request);
    crate::geometry::law_minimum_index_is_least(request.padded());
    crate::model::lemma_not_served(arena, request, first);
    crate::laws::law_calls_are_bounded(arena, request, first, 0);
    crate::geometry::law_maps_double_in_length(n);
    crate::geometry::law_maps_double_in_length(first);
    if n < first {
        crate::geometry::lemma_map_len_increases(n, first);
    }
    if arena.within_limit(n) && first <= MAP_COUNT {
        let base = (process.base)(n);
        let call = arena.allocated(request)->Pending_0;
        let next = process.answered(call);
        assert(arena.maps[n] is Untried);
        assert(arena.allocated(request) is Pending);
        crate::laws::law_calls_come_in_order(arena, request, first);
        crate::laws::law_map_call_is_within_file(arena, n);
        lemma_answer(process, request);
        lemma_settled_step(process, request);
        if crate::geometry::map_len(n) <= process.room {
            assert(process.can_place(n));
            lemma_placed_map_is_valid(base, n);
            crate::model::lemma_after_map_is_valid(arena, base);
            crate::diagnostics::law_failures_are_independent(arena.diagnostics);
            lemma_mapped_length(arena, base);
            if n == first {
                if suits_its_map(request) {
                    crate::laws::law_fresh_map_serves(base, n, request);
                    crate::laws::law_awaited_map_serves(arena, request, base);
                }
            } else {
                crate::model::lemma_frontier(next.arena);
                lemma_maps_one_by_one(next, request);
            }
        } else {
            crate::model::lemma_after_failed_map_is_valid(arena);
            crate::model::lemma_not_served(next.arena, request, first);
            crate::diagnostics::law_failures_are_independent(arena.diagnostics);
        }
    }
}

/// Two arenas of one process that are unmapped hand out all the memory that either had mapped, so
/// all that the process may lock can be locked again. Neither knows of a failure to map, and each asks
/// for its maps again from the first on, with no call to set the length of its file.
pub proof fn law_unmapping_returns_the_budget(
    first: ArenaView,
    second: ArenaView,
    limit: int,
    request: RequestView,
)
    requires
        first.valid(),
        second.valid(),
        request.valid(),
        request.size > 0,
        first.diagnostics.mapped_memory + second.diagnostics.mapped_memory <= limit,
    ensures
        first.regions_below(MAP_COUNT as int) + second.regions_below(MAP_COUNT as int)
            == first.diagnostics.mapped_memory + second.diagnostics.mapped_memory,
        first.unmapped().diagnostics.mapped_memory
            + second.unmapped().diagnostics.mapped_memory == 0,
        limit - first.diagnostics.mapped_memory - second.diagnostics.mapped_memory
            + first.regions_below(MAP_COUNT as int) + second.regions_below(MAP_COUNT as int)
            == limit,
        !first.unmapped().diagnostics.mmap_failed(),
        !second.unmapped().diagnostics.mmap_failed(),
        first.unmapped().truncates == first.truncates,
        second.unmapped().truncates == second.truncates,
        first.truncates == Some(true) && first.within_limit(request.first_map()) ==> (
        first.unmapped().allocated(request) matches Step::Pending(
            SystemCall::MapAt { fd, index, .. },
        ) && fd == first.fd && index.0 == 0),
        second.truncates == Some(true) && second.within_limit(request.first_map()) ==> (
        second.unmapped().allocated(request) matches Step::Pending(
            SystemCall::MapAt { fd, index, .. },
        ) && fd == second.fd && index.0 == 0),
{
    if first.truncates == Some(true) && first.within_limit(request.first_map()) {
        law_unmapped_arena_starts_over(first, request);
    }
    if second.truncates == Some(true) && second.within_limit(request.first_map()) {
        law_unmapped_arena_starts_over(second, request);
    }
    crate::laws::law_regions_are_all_mapped_memory(first);
    crate::laws::law_regions_are_all_mapped_memory(second);
    crate::laws::law_unmapping_resets(first);
    crate::laws::law_unmapping_resets(second);
}

/// One arena has mapped what the request `big` needs, and was refused its next map; another one of the
/// process was then refused a map that the request `small` needs. When both are unmapped, the second
/// can serve `big`, and while it does the first can not serve `small`.
///
/// The second was refused a map that the first has, unless the process may lock twice what the first
/// has mapped.
pub proof fn law_unmapping_returns_concurrent_resources(
    first: ArenaView,
    second: ArenaView,
    limit: int,
    base: spec_fn(int) -> int,
    other_base: spec_fn(int) -> int,
    big: RequestView,
    small: RequestView,
)
    requires
        first.valid(),
        second.valid(),
        second.truncates == Some(true),
        first.diagnostics.mapped_memory <= second.len_limit,
        (Process { arena: second, room: limit, base }).places_maps(),
        (Process { arena: first, room: limit, base: other_base }).places_maps(),
        big.valid(),
        big.size > 0,
        suits_its_map(big),
        small.valid(),
        small.size > 0,
        first.frontier() == big.first_map() + 1,
        first.diagnostics.mapped_memory + crate::geometry::map_len(first.frontier()) > limit,
        second.frontier() <= small.first_map(),
        first.diagnostics.mapped_memory + second.diagnostics.mapped_memory <= limit,
        first.diagnostics.mapped_memory + second.diagnostics.mapped_memory
            + crate::geometry::map_len(second.frontier()) > limit,
    ensures
        limit < 2 * first.diagnostics.mapped_memory ==> second.frontier() <= big.first_map(),
        ({
            let (after, block) = (Process { arena: second.unmapped(), room: limit, base }).settled(
                big,
            );
            let (rest, found) = (Process {
                arena: first.unmapped(),
                room: after.room,
                base: other_base,
            }).settled(small);
            &&& block is Some
            &&& after.arena.diagnostics.mapped_memory == first.diagnostics.mapped_memory
            &&& found is None
        }),
{
    let fits = big.first_map();
    let reset = Process { arena: second.unmapped(), room: limit, base };
    crate::model::lemma_frontier(first);
    crate::model::lemma_frontier(second);
    crate::request::lemma_align_positive(big);
    crate::geometry::law_minimum_index_is_least(big.padded());
    crate::request::lemma_align_positive(small);
    crate::geometry::law_minimum_index_is_least(small.padded());
    crate::geometry::law_maps_double_in_length(fits);
    crate::geometry::law_maps_double_in_length(0);
    crate::model::lemma_unmapped_is_valid(first);
    crate::model::lemma_unmapped_is_valid(second);
    crate::laws::law_unmapping_resets(first);
    crate::laws::law_unmapping_resets(second);
    assert(first.maps[fits] is Mapped);
    // What the first has mapped ends with the map that serves `big`.
    assert(first.diagnostics.mapped_memory == crate::geometry::map_end(fits));
    assert forall|i: int| crate::geometry::addressable(i) implies #[trigger] reset.can_place(i) by {
        assert((Process { arena: second, room: limit, base }).can_place(i));
    }
    law_reservation_takes_its_maps(reset, big);
    let after = reset.settled(big).0;
    let other = Process { arena: first.unmapped(), room: after.room, base: other_base };
    assert forall|i: int| crate::geometry::addressable(i) implies #[trigger] other.can_place(i) by {
        assert((Process { arena: first, room: limit, base: other_base }).can_place(i));
    }
    law_reservation_takes_its_maps(other, small);
    // What `small` needs is no less than what the second was refused.
    let n = second.frontier();
    crate::geometry::law_maps_double_in_length(n);
    crate::geometry::law_maps_double_in_length(small.first_map());
    if n < small.first_map() {
        crate::geometry::lemma_map_len_increases(n, small.first_map());
    }
    if fits + 1 < n {
        crate::geometry::lemma_map_len_increases(fits + 1, n);
    }
}

} // verus!
