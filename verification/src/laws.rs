//! What holds of an arena as a whole.

use crate::geometry::MAP_COUNT;
use crate::mapping::MappingView;
use crate::model::{Allocation, ArenaView, Expansion, Step, SystemCall};
use crate::request::RequestView;
use linked_list_allocator::Heap;
use vstd::prelude::*;

verus! {

/// The mapped bytes never exceed the length of the file.
pub proof fn law_mapped_memory_within_file(arena: ArenaView)
    requires
        arena.valid(),
    ensures
        arena.diagnostics.mapped_memory <= arena.len_limit,
{
    crate::model::lemma_frontier_within_limit(arena);
}

/// What is handed out and what can be handed out make up no more than what is mapped, and all of
/// it where the maps begin on word boundaries.
pub proof fn law_memory_adds_up(arena: ArenaView)
    requires
        arena.valid(),
    ensures
        0 <= arena.mem_used(),
        0 <= arena.mem_free(),
        arena.mem_used() + arena.mem_free() <= arena.diagnostics.mapped_memory,
        arena.on_word_boundaries() ==> arena.mem_used() + arena.mem_free()
            == arena.diagnostics.mapped_memory,
{
    crate::model::lemma_frontier(arena);
    crate::model::lemma_sums_below(arena, arena.frontier());
    crate::model::lemma_sums_end_at_frontier(arena, MAP_COUNT as int);
    if arena.on_word_boundaries() {
        lemma_full_sums(arena, arena.frontier());
    }
}

proof fn lemma_full_sums(arena: ArenaView, n: int)
    requires
        arena.valid(),
        arena.on_word_boundaries(),
        0 <= n <= arena.frontier(),
    ensures
        arena.used_below(n) + arena.free_below(n) == crate::geometry::map_offset(n),
    decreases n,
{
    crate::model::lemma_frontier(arena);
    crate::geometry::law_maps_double_in_length(0);
    if n > 0 {
        lemma_full_sums(arena, n - 1);
        crate::geometry::law_maps_double_in_length(n - 1);
        assert(arena.maps[n - 1] is Mapped);
        law_aligned_map_is_all_usable(arena.maps[n - 1]->Mapped_0.base, n - 1);
    }
}

/// Maps that begin on word boundaries go on to do so, whatever is asked of an arena, when the
/// maps that are added begin on word boundaries too, as all pages do. So what is handed out and
/// what can be handed out always make up what is mapped.
pub proof fn law_maps_stay_on_word_boundaries(
    arena: ArenaView,
    request: RequestView,
    start: int,
    done: bool,
    base: int,
    at: int,
    heap: Heap,
)
    requires
        arena.valid(),
        request.valid(),
        arena.on_word_boundaries(),
        0 <= start,
    ensures
        ArenaView::new(arena.fd, arena.len_limit).on_word_boundaries(),
        arena.unmapped().on_word_boundaries(),
        arena.after_allocation_from(request, start).on_word_boundaries(),
        arena.after_pre_ensure(request).on_word_boundaries(),
        arena.after_truncate(done).on_word_boundaries(),
        arena.frontier() < MAP_COUNT ==> arena.after_failed_map(
            arena.frontier(),
        ).on_word_boundaries(),
        arena.frontier() < MAP_COUNT && base % crate::heap::word() == 0 ==> arena.after_map(
            arena.frontier(),
            base,
        ).on_word_boundaries(),
        arena.owner(request, at) is Some ==> arena.given_back(
            request,
            at,
            heap,
        ).on_word_boundaries(),
{
    crate::model::lemma_frontier(arena);
    crate::model::lemma_served_by(arena, request, start);
    crate::request::lemma_align_positive(request);
    crate::geometry::law_minimum_index_is_least(request.padded());
    crate::model::lemma_owner_from(arena, at, request.first_map());
}

/// The heap of a map that begins on a word boundary manages the whole of it.
pub proof fn law_aligned_map_is_all_usable(base: int, i: int)
    requires
        0 <= base,
        0 <= i,
        base % crate::heap::word() == 0,
    ensures
        MappingView::fresh(base, crate::geometry::map_len(i)).size == crate::geometry::map_len(i),
{
    let word = crate::heap::word();
    lemma_map_len_in_words(i);
    crate::geometry::law_maps_double_in_length(i);
    crate::holes::lemma_words_add_up(base, crate::geometry::map_len(i));
    crate::request::lemma_round_up(base, word);
    crate::request::lemma_round_down(base + crate::geometry::map_len(i), word);
}

proof fn lemma_map_len_in_words(i: int)
    requires
        0 <= i,
    ensures
        crate::geometry::map_len(i) % crate::heap::word() == 0,
    decreases i,
{
    assert(crate::heap::word() == 4 || crate::heap::word() == 8);
    crate::geometry::law_maps_double_in_length(0);
    if i > 0 {
        lemma_map_len_in_words(i - 1);
        crate::geometry::law_maps_double_in_length(i - 1);
    }
}

/// Unmapping leaves the file as it is, and nothing else: nothing is mapped, used or free, and no
/// failure is on record.
pub proof fn law_unmapping_resets(arena: ArenaView)
    requires
        arena.valid(),
    ensures
        arena.unmapped().len_limit == arena.len_limit,
        arena.unmapped().fd == arena.fd,
        arena.unmapped().truncates == arena.truncates,
        arena.unmapped().diagnostics.mapped_memory == 0,
        !arena.unmapped().diagnostics.truncate_failed(),
        !arena.unmapped().diagnostics.mmap_failed(),
        arena.unmapped().mem_used() == 0,
        arena.unmapped().mem_free() == 0,
        arena.unmapped().valid(),
{
    let reset = arena.unmapped();
    crate::diagnostics::law_failures_are_independent(reset.diagnostics);
    crate::model::lemma_unmapped_is_valid(arena);
    crate::model::lemma_sums_end_at_frontier(reset, MAP_COUNT as int);
}

/// The regions of the maps are all the memory that is mapped.
pub proof fn law_regions_are_all_mapped_memory(arena: ArenaView)
    requires
        arena.valid(),
    ensures
        arena.regions_below(MAP_COUNT as int) == arena.diagnostics.mapped_memory,
{
    crate::model::lemma_frontier(arena);
    lemma_regions_below(arena, MAP_COUNT as int);
}

proof fn lemma_regions_below(arena: ArenaView, n: int)
    requires
        arena.valid(),
        0 <= n <= MAP_COUNT,
    ensures
        arena.regions_below(n) == crate::geometry::map_offset(
            if n <= arena.frontier() {
                n
            } else {
                arena.frontier()
            },
        ),
    decreases n,
{
    crate::model::lemma_frontier(arena);
    if n > 0 {
        lemma_regions_below(arena, n - 1);
        crate::geometry::law_maps_double_in_length(n - 1);
        if n <= arena.frontier() {
            assert(arena.maps[n - 1] is Mapped);
        } else {
            assert(!(arena.maps[n - 1] is Mapped));
        }
    }
}

/// A part of the file that is to be mapped lies within the length that the file was given, and
/// is the part that belongs to the map.
pub proof fn law_map_call_is_within_file(arena: ArenaView, i: int)
    requires
        arena.valid(),
        arena.expansion(i) matches Expansion::Pending(call) && call is MapAt,
    ensures
        arena.truncates == Some(true),
        arena.expansion(i) matches Expansion::Pending(SystemCall::MapAt { fd, index, offset, len })
            && fd == arena.fd && index.0 == i && offset == crate::geometry::map_offset(i) && len
            == crate::geometry::map_len(i) && offset + len <= arena.len_limit,
{
    crate::geometry::law_maps_double_in_length(i);
    vstd::arithmetic::power2::lemma2_to64_rest();
    if i < 47 {
        crate::geometry::lemma_map_len_increases(i, 47);
    }
}

/// A call that an allocation waits for settles what comes next: the length of the file while
/// nothing is mapped, and then the maps in their order.
pub proof fn law_calls_come_in_order(arena: ArenaView, request: RequestView, start: int)
    requires
        arena.valid(),
    ensures
        match arena.allocated_from(request, start) {
            Step::Pending(SystemCall::Truncate { fd, len }) => {
                &&& arena.truncates is None
                &&& arena.frontier() == 0
                &&& fd == arena.fd
                &&& len == arena.len_limit as i64
            },
            Step::Pending(SystemCall::MapAt { fd, index, offset, len }) => {
                &&& index.0 == arena.frontier()
                &&& arena.frontier() < MAP_COUNT
                &&& arena.expansion(arena.frontier()) == Expansion::Pending(
                    SystemCall::MapAt { fd, index, offset, len },
                )
            },
            Step::Done(_) => true,
        },
{
    crate::model::lemma_frontier(arena);
    if arena.frontier() > 0 {
        assert(arena.maps[0] is Mapped);
    }
}

/// Each call to the system brings the arena closer to where it asks for none, and allocations ask
/// for no more of them than before: one for the length of the file and one for each map.
pub proof fn law_calls_are_bounded(arena: ArenaView, request: RequestView, start: int, base: int)
    requires
        arena.valid(),
        0 <= start,
    ensures
        0 <= arena.calls_left() <= 1 + MAP_COUNT,
        arena.calls_left() == 0 ==> !(arena.allocated_from(request, start) is Pending),
        arena.after_allocation_from(request, start).calls_left() == arena.calls_left(),
        arena.truncates is None ==> forall|done: bool| #[trigger]
            arena.after_truncate(done).calls_left() < arena.calls_left(),
        (arena.expansion(arena.frontier()) matches Expansion::Pending(call) && call is MapAt) ==> {
            &&& arena.after_failed_map(arena.frontier()).calls_left() < arena.calls_left()
            &&& MappingView::fresh(base, crate::geometry::map_len(arena.frontier())).valid()
                ==> arena.after_map(arena.frontier(), base).calls_left() < arena.calls_left()
        },
{
    crate::model::lemma_frontier(arena);
    crate::diagnostics::law_failures_are_independent(arena.diagnostics);
    lemma_allocation_keeps_frontier(arena, request, start);
    crate::model::lemma_after_truncate_is_valid(arena, true);
    crate::model::lemma_after_truncate_is_valid(arena, false);
    if arena.expansion(arena.frontier()) matches Expansion::Pending(call) && call is MapAt {
        crate::model::lemma_after_failed_map_is_valid(arena);
        if MappingView::fresh(base, crate::geometry::map_len(arena.frontier())).valid() {
            crate::model::lemma_after_map_is_valid(arena, base);
        }
    }
}

proof fn lemma_allocation_keeps_frontier(arena: ArenaView, request: RequestView, start: int)
    requires
        arena.valid(),
        0 <= start,
    ensures
        arena.after_allocation_from(request, start).frontier() == arena.frontier(),
{
    let after = arena.after_allocation_from(request, start);
    crate::model::lemma_frontier(arena);
    crate::model::lemma_served_by(arena, request, start);
    crate::model::lemma_expanded_is_valid(arena, arena.frontier());
    crate::model::lemma_unmapped_from_is(after, 0, arena.frontier());
}

/// The established maps do not change their place, failures are final, and the file keeps its
/// length, whatever is asked of an arena short of unmapping it.
pub proof fn law_what_is_settled_is_kept(
    arena: ArenaView,
    request: RequestView,
    start: int,
    done: bool,
    base: int,
)
    requires
        arena.valid(),
        0 <= start,
    ensures
        arena.kept_in(arena.after_allocation_from(request, start)),
        arena.kept_in(arena.after_truncate(done)),
        (arena.expansion(arena.frontier()) matches Expansion::Pending(call) && call is MapAt) ==> {
            &&& arena.kept_in(arena.after_failed_map(arena.frontier()))
            &&& arena.kept_in(arena.after_map(arena.frontier(), base))
        },
{
    crate::model::lemma_frontier(arena);
    crate::model::lemma_served_by(arena, request, start);
}

/// A request for nothing is always served, at an address that is aligned as asked, and changes
/// nothing.
pub proof fn law_empty_requests_are_served(arena: ArenaView, request: RequestView)
    requires
        request.valid(),
        request.size == 0,
    ensures
        arena.allocated(request) == Step::Done(Some(Allocation { addr: request.align, len: 0 })),
        arena.after_allocation(request) == arena,
        request.align > 0,
        request.align as int % request.align as int == 0,
{
    crate::request::lemma_align_positive(request);
    vstd::arithmetic::div_mod::lemma_mod_self_0(request.align as int);
}

/// When the file could not be given its length, only requests for nothing are served, no call is
/// asked for, and it stays so.
pub proof fn law_failed_truncate_leaves_no_resources(arena: ArenaView, request: RequestView)
    requires
        arena.valid(),
        request.valid(),
        arena.truncates == Some(false),
        request.size > 0,
    ensures
        arena.allocated(request) == Step::Done(None),
        arena.after_allocation(request).truncates == Some(false),
        arena.within_limit(0) && request.first_map() <= MAP_COUNT ==> arena.after_allocation(
            request,
        ).diagnostics.truncate_failed(),
        arena.diagnostics.mapped_memory == 0,
{
    crate::model::lemma_frontier(arena);
    if arena.frontier() > 0 {
        assert(arena.maps[0] is Mapped);
    }
    crate::request::lemma_align_positive(request);
    crate::geometry::law_minimum_index_is_least(request.padded());
    crate::model::lemma_not_served(arena, request, request.first_map());
    crate::diagnostics::law_failures_are_independent(arena.diagnostics);
}

/// The record of a failed truncation is never wrong.
pub proof fn law_recorded_truncate_failure_is_real(arena: ArenaView)
    requires
        arena.valid(),
        arena.diagnostics.truncate_failed(),
    ensures
        arena.truncates == Some(false),
        arena.diagnostics.mapped_memory == 0,
        arena.mem_used() == 0,
        arena.mem_free() == 0,
{
    crate::model::lemma_frontier(arena);
    if arena.frontier() > 0 {
        assert(arena.maps[0] is Mapped);
    }
    law_memory_adds_up(arena);
}

/// When a part of the file could not be mapped, the memory that can be served is fixed: no call
/// is asked for, and nothing more is mapped.
pub proof fn law_failed_mmap_fixes_the_memory(arena: ArenaView, request: RequestView, start: int)
    requires
        arena.valid(),
        arena.diagnostics.mmap_failed(),
        0 <= start,
    ensures
        !(arena.allocated_from(request, start) is Pending),
        arena.after_allocation_from(request, start).diagnostics.mmap_failed(),
        arena.after_allocation_from(request, start).diagnostics.mapped_memory
            == arena.diagnostics.mapped_memory,
        arena.after_allocation_from(request, start).frontier() == arena.frontier(),
{
    lemma_allocation_keeps_frontier(arena, request, start);
    crate::diagnostics::law_failures_are_independent(arena.diagnostics);
}

/// An allocation that waited for a map and goes on from there comes as far as one that starts
/// over: the maps that had no room have none now.
pub proof fn law_resuming_is_starting_over(arena: ArenaView, request: RequestView, base: int)
    requires
        arena.valid(),
        request.valid(),
        arena.allocated(request) matches Step::Pending(call) && call is MapAt,
    ensures
        ({
            let index = arena.frontier();
            let at = ArenaView::resume_at(request, index);
            let failed = arena.after_failed_map(index);
            let mapped = arena.after_map(index, base);
            &&& failed.allocated_from(request, at) == failed.allocated(request)
            &&& failed.after_allocation_from(request, at) == failed.after_allocation(request)
            &&& mapped.allocated_from(request, at) == mapped.allocated(request)
            &&& mapped.after_allocation_from(request, at) == mapped.after_allocation(request)
        }),
{
    let index = arena.frontier();
    let first = request.first_map();
    crate::model::lemma_frontier(arena);
    crate::request::lemma_align_positive(request);
    crate::geometry::law_minimum_index_is_least(request.padded());
    if first < index {
        lemma_none_fits(arena, request, first);
        lemma_served_further(arena.after_failed_map(index), request, first, index);
        lemma_served_further(arena.after_map(index, base), request, first, index);
    }
}

/// When no map from index `i` on serves a request, none of the established ones has room.
proof fn lemma_none_fits(arena: ArenaView, request: RequestView, i: int)
    requires
        arena.valid(),
        0 <= i <= arena.frontier(),
        arena.served_by(request, i) is None,
    ensures
        forall|k: int|
            i <= k < arena.frontier() ==> (#[trigger] arena.maps[k])->Mapped_0.fit(request) is None,
    decreases arena.frontier() - i,
{
    crate::model::lemma_frontier(arena);
    if i < arena.frontier() {
        assert(arena.maps[i] is Mapped);
        lemma_none_fits(arena, request, i + 1);
    }
}

/// Maps without room can be skipped.
proof fn lemma_served_further(arena: ArenaView, request: RequestView, i: int, j: int)
    requires
        0 <= i <= j <= arena.maps.len(),
        forall|k: int|
            i <= k < j ==> #[trigger] arena.maps[k] is Mapped && arena.maps[k]->Mapped_0.fit(
                request,
            ) is None,
    ensures
        arena.served_by(request, i) == arena.served_by(request, j),
    decreases j - i,
{
    if i < j {
        assert(arena.maps[i] is Mapped);
        lemma_served_further(arena, request, i + 1, j);
    }
}

/// A block that is handed out has the size and the alignment that were asked for, and lies in one
/// map, which is not smaller than the first that was asked. So do the bytes that are set aside for
/// it.
pub proof fn law_block_lies_in_its_map(
    arena: ArenaView,
    request: RequestView,
    start: int,
    block: Allocation,
)
    requires
        arena.valid(),
        request.valid(),
        request.size > 0,
        0 <= start,
        arena.allocated_from(request, start) == Step::Done(Some(block)),
    ensures
        block.len == request.size,
        block.len <= crate::heap::block_size(request.size as int),
        block.addr > 0,
        block.addr as int % request.align as int == 0,
        arena.served_by(request, start) matches Some(i) && start <= i < MAP_COUNT && {
            let map = arena.maps[i]->Mapped_0;
            &&& arena.maps[i] is Mapped
            &&& map.base <= map.bottom() <= block.addr
            &&& block.addr + crate::heap::block_size(request.size as int) <= map.top() <= map.base
                + map.len
        },
{
    crate::model::lemma_served_by(arena, request, start);
    crate::mapping::lemma_block_size(request.size as int);
    let map = arena.maps[arena.served_by(request, start)->0]->Mapped_0;
    crate::mapping::lemma_fit(map, request);
}

/// The bytes that are set aside for a block were free, and can not be handed out again.
pub proof fn law_block_is_withheld(
    arena: ArenaView,
    request: RequestView,
    start: int,
    block: Allocation,
)
    requires
        arena.valid(),
        arena.separated(),
        request.valid(),
        request.size > 0,
        0 <= start,
        arena.allocated_from(request, start) == Step::Done(Some(block)),
    ensures
        MappingView::block(block.addr as int, request.size as int).subset_of(
            arena.maps[arena.served_by(request, start)->0]->Mapped_0.free,
        ),
        arena.after_allocation_from(request, start).withholds(
            block.addr as int,
            crate::heap::block_size(request.size as int),
        ),
        arena.after_allocation_from(request, start).valid(),
        arena.after_allocation_from(request, start).separated(),
{
    let i = arena.served_by(request, start)->0;
    let map = arena.maps[i]->Mapped_0;
    let after = arena.after_allocation_from(request, start);
    let size = crate::heap::block_size(request.size as int);
    let set_aside = MappingView::block(block.addr as int, request.size as int);
    law_block_lies_in_its_map(arena, request, start, block);
    crate::model::lemma_served_by(arena, request, start);
    crate::mapping::lemma_fit(map, request);
    crate::mapping::lemma_served_map_is_valid(map, request);
    crate::model::lemma_served_is_valid(arena, i, map.served(request));
    assert forall|k: int, a: int|
        #![trigger after.maps[k]->Mapped_0.free.contains(a)]
        0 <= k < after.maps.len() && after.maps[k] is Mapped && block.addr <= a < block.addr
            + size implies !after.maps[k]->Mapped_0.free.contains(a) by {
        assert(set_aside.contains(a));
        if k != i {
            assert(after.maps[k] == arena.maps[k]);
            lemma_free_in_one_map(arena, i, k, a);
        }
    }
}

/// No two maps can hand out the same byte.
proof fn lemma_free_in_one_map(arena: ArenaView, i: int, k: int, a: int)
    requires
        arena.valid(),
        arena.separated(),
        0 <= i < MAP_COUNT,
        0 <= k < MAP_COUNT,
        i != k,
        arena.maps[i] is Mapped,
        arena.maps[k] is Mapped,
        arena.maps[i]->Mapped_0.bottom() <= a < arena.maps[i]->Mapped_0.top(),
    ensures
        !arena.maps[k]->Mapped_0.free.contains(a),
{
    let map = arena.maps[i]->Mapped_0;
    let other = arena.maps[k]->Mapped_0;
    assert(map.valid() && other.valid());
    if k < i {
        assert(other.apart_from(map));
    } else {
        assert(map.apart_from(other));
    }
}

/// Bytes that can not be handed out stay so while others are handed out and while maps are
/// added elsewhere.
pub proof fn law_withheld_bytes_stay_withheld(
    arena: ArenaView,
    addr: int,
    len: int,
    request: RequestView,
    start: int,
    done: bool,
    base: int,
)
    requires
        arena.valid(),
        0 <= start,
        arena.withholds(addr, len),
    ensures
        arena.after_allocation_from(request, start).withholds(addr, len),
        arena.after_truncate(done).withholds(addr, len),
        arena.frontier() < MAP_COUNT ==> arena.after_failed_map(arena.frontier()).withholds(
            addr,
            len,
        ),
        arena.frontier() < MAP_COUNT && ({
            let map = MappingView::fresh(base, crate::geometry::map_len(arena.frontier()));
            map.valid() && (map.base + map.len <= addr || addr + len <= map.base)
        }) ==> arena.after_map(arena.frontier(), base).withholds(addr, len),
{
    crate::model::lemma_frontier(arena);
    crate::model::lemma_served_by(arena, request, start);
    let after = arena.after_allocation_from(request, start);
    assert forall|k: int, a: int|
        #![trigger after.maps[k]->Mapped_0.free.contains(a)]
        0 <= k < after.maps.len() && after.maps[k] is Mapped && addr <= a < addr
            + len implies !after.maps[k]->Mapped_0.free.contains(a) by {
        assert(!arena.maps[k]->Mapped_0.free.contains(a));
    }
    if arena.frontier() < MAP_COUNT {
        let failed = arena.after_failed_map(arena.frontier());
        assert forall|k: int, a: int|
            #![trigger failed.maps[k]->Mapped_0.free.contains(a)]
            0 <= k < failed.maps.len() && failed.maps[k] is Mapped && addr <= a < addr
                + len implies !failed.maps[k]->Mapped_0.free.contains(a) by {
            assert(!arena.maps[k]->Mapped_0.free.contains(a));
        }
        let map = MappingView::fresh(base, crate::geometry::map_len(arena.frontier()));
        let mapped = arena.after_map(arena.frontier(), base);
        if map.valid() && (map.base + map.len <= addr || addr + len <= map.base) {
            assert forall|k: int, a: int|
                #![trigger mapped.maps[k]->Mapped_0.free.contains(a)]
                0 <= k < mapped.maps.len() && mapped.maps[k] is Mapped && addr <= a < addr
                    + len implies !mapped.maps[k]->Mapped_0.free.contains(a) by {
                if k == arena.frontier() {
                    if map.free.contains(a) {
                        assert(map.base <= a < map.base + map.len);
                    }
                } else {
                    assert(!arena.maps[k]->Mapped_0.free.contains(a));
                }
            }
        }
    }
}

/// The bytes that are set aside for a block do not overlap bytes that can not be handed out.
pub proof fn law_blocks_do_not_overlap(
    arena: ArenaView,
    addr: int,
    len: int,
    request: RequestView,
    start: int,
    block: Allocation,
)
    requires
        arena.valid(),
        0 < len,
        arena.withholds(addr, len),
        request.valid(),
        request.size > 0,
        0 <= start,
        arena.allocated_from(request, start) == Step::Done(Some(block)),
    ensures
        block.addr + crate::heap::block_size(request.size as int) <= addr || addr + len
            <= block.addr,
{
    crate::model::lemma_served_by(arena, request, start);
    crate::mapping::lemma_block_size(request.size as int);
    let i = arena.served_by(request, start)->0;
    crate::mapping::lemma_fit(arena.maps[i]->Mapped_0, request);
    let set_aside = MappingView::block(block.addr as int, request.size as int);
    let a = if addr < block.addr {
        block.addr as int
    } else {
        addr
    };
    if block.addr <= a < block.addr + crate::heap::block_size(request.size as int) && addr <= a
        < addr + len {
        assert(set_aside.contains(a));
        assert(arena.maps[i]->Mapped_0.free.contains(a));
    }
}

/// Bytes that can not be handed out stay so when a block goes back that has none of them, and
/// maps that share no memory go on to share none.
pub proof fn law_withheld_bytes_survive_giving_back(
    arena: ArenaView,
    addr: int,
    len: int,
    request: RequestView,
    at: int,
    heap: Heap,
)
    requires
        arena.valid(),
        arena.separated(),
        request.valid(),
        arena.withholds(addr, len),
        arena.owner(request, at) is Some,
        ({
            let map = arena.maps[arena.owner(request, at)->0]->Mapped_0;
            &&& crate::heap::heap_size(heap) == map.size
            &&& crate::heap::heap_free(heap) == map.free.union(
                MappingView::block(at, request.size as int),
            )
        }),
        forall|a: int|
            addr <= a < addr + len ==> !#[trigger] MappingView::block(
                at,
                request.size as int,
            ).contains(a),
    ensures
        arena.given_back(request, at, heap).withholds(addr, len),
        arena.given_back(request, at, heap).separated(),
{
    let i = arena.owner(request, at)->0;
    let map = arena.maps[i]->Mapped_0;
    let after = arena.given_back(request, at, heap);
    crate::request::lemma_align_positive(request);
    crate::geometry::law_minimum_index_is_least(request.padded());
    crate::model::lemma_owner_from(arena, at, request.first_map());
    assert forall|k: int, a: int|
        #![trigger after.maps[k]->Mapped_0.free.contains(a)]
        0 <= k < after.maps.len() && after.maps[k] is Mapped && addr <= a < addr
            + len implies !after.maps[k]->Mapped_0.free.contains(a) by {
        assert(!arena.maps[k]->Mapped_0.free.contains(a));
        assert(!MappingView::block(at, request.size as int).contains(a));
    }
}

/// A block goes back to the map that it was taken from, whatever was asked of the arena in
/// between short of unmapping it.
pub proof fn law_block_goes_back_to_its_map(
    arena: ArenaView,
    request: RequestView,
    start: int,
    block: Allocation,
    later: ArenaView,
)
    requires
        arena.valid(),
        request.valid(),
        request.size > 0,
        request.first_map() <= start,
        arena.allocated_from(request, start) == Step::Done(Some(block)),
        arena.kept_in(later),
        later.valid(),
        later.separated(),
    ensures
        later.owner(request, block.addr as int) == arena.served_by(request, start),
{
    crate::request::lemma_align_positive(request);
    crate::geometry::law_minimum_index_is_least(request.padded());
    law_block_lies_in_its_map(arena, request, start, block);
    let i = arena.served_by(request, start)->0;
    assert(arena.maps[i] is Mapped);
    assert(later.maps[i] is Mapped);
    crate::model::lemma_owner_from(later, block.addr as int, request.first_map());
}

/// Maps that share no memory go on to share none when blocks are handed out and when a map is
/// added apart from them.
pub proof fn law_maps_stay_separated(
    arena: ArenaView,
    request: RequestView,
    start: int,
    done: bool,
    base: int,
)
    requires
        arena.valid(),
        arena.separated(),
        0 <= start,
    ensures
        arena.after_allocation_from(request, start).separated(),
        arena.after_truncate(done).separated(),
        arena.frontier() < MAP_COUNT ==> arena.after_failed_map(arena.frontier()).separated(),
        arena.frontier() < MAP_COUNT && arena.apart_from(
            base,
            crate::geometry::map_len(arena.frontier()),
        ) ==> arena.after_map(arena.frontier(), base).separated(),
        arena.unmapped().separated(),
{
    crate::model::lemma_frontier(arena);
    crate::model::lemma_served_by(arena, request, start);
}

/// A map whose free bytes are all those from an address to its end places a block at that address,
/// where it is aligned as asked and what is left is nothing or enough for a hole. What is left is then
/// free from the end of the block on.
pub proof fn law_blocks_are_packed(map: MappingView, addr: int, request: RequestView)
    requires
        map.valid(),
        request.valid(),
        map.bottom() <= addr,
        map.free == vstd::set_lib::set_int_range(addr, map.top()),
        addr % request.align as int == 0,
        crate::heap::can_lay_out(request.size as int, request.align as int),
        ({
            let end = addr + crate::heap::block_size(request.size as int);
            end == map.top() || end + 2 * crate::heap::word() <= map.top()
        }),
    ensures
        map.fit(request) == Some(addr as usize),
        map.served(request).free == vstd::set_lib::set_int_range(
            addr + crate::heap::block_size(request.size as int),
            map.top(),
        ),
{
    let size = request.size as int;
    let align = request.align as int;
    let len = map.top() - addr;
    crate::mapping::lemma_block_size(size);
    assert(crate::heap::is_hole(map.free, addr, len));
    assert forall|a: int, l: int| #[trigger] crate::heap::is_hole(map.free, a, l) implies addr <= a by {
        assert(vstd::set_lib::set_int_range(a, a + l).contains(a));
        assert(map.free.contains(a));
    }
    crate::heap::lemma_first_fit(map.free, addr, len, size, align);
    assert(map.served(request).free =~= vstd::set_lib::set_int_range(
        addr + crate::heap::block_size(size),
        map.top(),
    ));
}

/// A map that was just established on a page boundary serves every request that is aligned to a page
/// or less and leaves nothing of the map, or enough for a hole: at its beginning.
pub proof fn law_fresh_map_serves(base: int, i: int, request: RequestView)
    requires
        crate::geometry::addressable(i),
        request.valid(),
        0 < base,
        base + crate::geometry::map_len(i) <= usize::MAX,
        base % crate::geometry::map_len(0) == 0,
        request.align <= crate::geometry::map_len(0),
        ({
            let set_aside = crate::heap::block_size(request.size as int);
            let len = crate::geometry::map_len(i);
            set_aside == len || set_aside + 2 * crate::heap::word() <= len
        }),
    ensures
        MappingView::fresh(base, crate::geometry::map_len(i)).valid(),
        MappingView::fresh(base, crate::geometry::map_len(i)).fit(request) == Some(base as usize),
{
    let len = crate::geometry::map_len(i);
    let size = request.size as int;
    let align = request.align as int;
    let map = MappingView::fresh(base, len);
    assert(map.bottom() == base && map.top() == base + len) by {
        law_page_is_all_usable(base, i);
    }
    assert(vstd::arithmetic::power2::pow2(12) == crate::geometry::map_len(0));
    crate::request::lemma_alignment_divides(base, align, 12);
    assert(crate::heap::can_lay_out(size, align)) by {
        crate::request::lemma_align_positive(request);
        crate::mapping::lemma_block_size(size);
        crate::request::lemma_round_up(crate::heap::block_size(size), align);
        lemma_maps_leave_a_page(i);
    }
    crate::geometry::law_maps_double_in_length(i);
    law_blocks_are_packed(map, base, request);
}

/// The heap of a map that begins on a page boundary manages the whole of it.
pub proof fn law_page_is_all_usable(base: int, i: int)
    requires
        0 <= base,
        0 <= i,
        base % crate::geometry::map_len(0) == 0,
    ensures
        crate::heap::usable_from(base) == base,
        crate::heap::usable_to(base, crate::geometry::map_len(i)) == base
            + crate::geometry::map_len(i),
{
    let len = crate::geometry::map_len(i);
    let word = crate::heap::word();
    crate::geometry::law_maps_double_in_length(i);
    assert(base % word == 0 && 0 < word) by {
        vstd::arithmetic::power2::lemma2_to64();
        assert(word == 4 || word == 8);
        assert(word == vstd::arithmetic::power2::pow2(2) || word
            == vstd::arithmetic::power2::pow2(3));
        crate::request::lemma_alignment_divides(base, word, 12);
    }
    lemma_map_len_in_words(i);
    crate::holes::lemma_words_add_up(base, len);
    crate::request::lemma_round_up(base, word);
    crate::request::lemma_round_down(base + len, word);
}

/// A map is a page or more shorter than the longest layout.
proof fn lemma_maps_leave_a_page(i: int)
    requires
        crate::geometry::addressable(i),
    ensures
        crate::geometry::map_len(i) + crate::geometry::map_len(0) <= isize::MAX,
{
    vstd::arithmetic::power2::lemma2_to64();
    vstd::arithmetic::power2::lemma2_to64_rest();
    let last = if usize::BITS == 32 {
        18
    } else {
        47int
    };
    if i < last {
        crate::geometry::lemma_map_len_increases(i, last);
    }
}

/// A map with a hole that has room serves a request, from that hole or a lower one.
pub proof fn law_room_is_found(map: MappingView, request: RequestView, addr: int, len: int)
    requires
        crate::heap::is_hole(map.free, addr, len),
        crate::heap::takes(addr, len, request.size as int, request.align as int),
        crate::heap::can_lay_out(request.size as int, request.align as int),
    ensures
        map.fit(request) is Some,
{
    crate::heap::lemma_lowest_hole(
        map.free,
        addr,
        len,
        request.size as int,
        request.align as int,
    );
}

/// An allocation is served without a call to the system when an established map that is asked has
/// room.
pub proof fn law_established_room_serves(
    arena: ArenaView,
    request: RequestView,
    start: int,
    i: int,
)
    requires
        arena.valid(),
        request.valid(),
        request.size > 0,
        request.first_map() <= start <= i < arena.frontier(),
        arena.maps[i]->Mapped_0.fit(request) is Some,
    ensures
        arena.allocated_from(request, start) matches Step::Done(Some(block)) && block.len
            == request.size,
        arena.after_allocation_from(request, start).diagnostics == arena.diagnostics,
{
    crate::model::lemma_frontier(arena);
    crate::request::lemma_align_positive(request);
    crate::geometry::law_minimum_index_is_least(request.padded());
    if arena.served_by(request, start) is None {
        lemma_none_fits(arena, request, start);
        assert(arena.maps[i] is Mapped);
    }
}

/// An allocation that waited for a map is served when that map is established and has room.
pub proof fn law_awaited_map_serves(arena: ArenaView, request: RequestView, base: int)
    requires
        arena.valid(),
        request.valid(),
        request.size > 0,
        arena.expansion(arena.frontier()) matches Expansion::Pending(call) && call is MapAt,
        request.first_map() <= arena.frontier(),
        MappingView::fresh(base, crate::geometry::map_len(arena.frontier())).valid(),
        MappingView::fresh(base, crate::geometry::map_len(arena.frontier())).fit(request) is Some,
    ensures
        ({
            let i = arena.frontier();
            let after = arena.after_map(i, base);
            after.allocated_from(request, ArenaView::resume_at(request, i)) == Step::Done(
                Some(
                    Allocation {
                        addr: MappingView::fresh(base, crate::geometry::map_len(i)).fit(request)->0,
                        len: request.size,
                    },
                ),
            )
        }),
{
    crate::model::lemma_frontier(arena);
    crate::model::lemma_after_map_is_valid(arena, base);
    crate::request::lemma_align_positive(request);
    crate::geometry::law_minimum_index_is_least(request.padded());
}

/// Where all maps are far enough from the last address, every search keeps to the address space.
pub proof fn law_clear_arena_is_searchable(arena: ArenaView, request: RequestView, start: int)
    requires
        arena.valid(),
        request.valid(),
        0 <= start,
        arena.clears(request, start),
    ensures
        arena.searchable(request, start),
{
    crate::model::lemma_frontier(arena);
    assert forall|i: int| #[trigger] arena.asks(request, start, i) implies arena.maps[i]->Mapped_0.searchable(
        request,
    ) by {
        assert(arena.maps[i] is Mapped);
        crate::mapping::lemma_clear_map_is_searchable(arena.maps[i]->Mapped_0, request);
    }
}

/// Every search keeps to the address space in a map that ends in the lower quarter of it.
pub proof fn law_low_maps_clear(map: MappingView, request: RequestView)
    requires
        map.valid(),
        request.valid(),
        request.size > 0,
        map.base + map.len + crate::mapping::HEADROOM <= usize::MAX / 4,
    ensures
        map.clears(request),
        map.searchable(request),
{
    let align = request.align as int;
    crate::request::lemma_align_positive(request);
    crate::request::lemma_round_up(map.base + map.len, align);
    crate::request::lemma_round_up(request.size as int, align);
    lemma_alignment_is_below_half(request);
    crate::mapping::lemma_clear_map_is_searchable(map, request);
}

/// The alignment of a request for something is no more than half of what a layout can have.
proof fn lemma_alignment_is_below_half(request: RequestView)
    requires
        request.valid(),
        request.size > 0,
    ensures
        request.size <= isize::MAX,
        2 * request.align <= isize::MAX + 1,
{
    let k = choose|k: nat| request.align == #[trigger] vstd::arithmetic::power2::pow2(k);
    let top: nat = if usize::BITS == 32 {
        31
    } else {
        63
    };
    crate::request::lemma_align_positive(request);
    crate::request::lemma_round_up(request.size as int, request.align as int);
    if request.padded() < request.align {
        vstd::arithmetic::div_mod::lemma_small_mod(
            request.padded() as nat,
            request.align as nat,
        );
    }
    vstd::arithmetic::power2::lemma2_to64();
    vstd::arithmetic::power2::lemma2_to64_rest();
    if k >= top {
        if k > top {
            vstd::arithmetic::power2::lemma_pow2_strictly_increases(top, k);
        }
    } else {
        vstd::arithmetic::power2::lemma_pow2_unfold(k + 1);
        if k + 1 < top {
            vstd::arithmetic::power2::lemma_pow2_strictly_increases(k + 1, top);
        }
    }
}

/// An arena stays as it should be when a heap that was lent comes back and keeps to its map.
pub proof fn law_giving_back_keeps_arena_valid(
    arena: ArenaView,
    request: RequestView,
    addr: int,
    heap: Heap,
)
    requires
        arena.valid(),
        request.valid(),
        arena.owner(request, addr) is Some,
        ({
            let map = arena.maps[arena.owner(request, addr)->0]->Mapped_0;
            &&& crate::heap::heap_size(heap) == map.size
            &&& crate::heap::heap_free(heap).subset_of(
                vstd::set_lib::set_int_range(map.bottom(), map.top()),
            )
        }),
    ensures
        arena.given_back(request, addr, heap).valid(),
        arena.kept_in(arena.given_back(request, addr, heap)),
{
    let i = arena.owner(request, addr)->0;
    crate::request::lemma_align_positive(request);
    crate::geometry::law_minimum_index_is_least(request.padded());
    crate::model::lemma_owner_from(arena, addr, request.first_map());
    let map = MappingView {
        size: crate::heap::heap_size(heap),
        free: crate::heap::heap_free(heap),
        ..arena.maps[i]->Mapped_0
    };
    crate::model::lemma_served_is_valid(arena, i, map);
}

/// Giving a block back undoes its allocation: the arena is what it was when the heap has taken
/// the bytes back that were set aside for the block.
pub proof fn law_giving_back_undoes_allocation(
    arena: ArenaView,
    request: RequestView,
    start: int,
    block: Allocation,
    heap: Heap,
)
    requires
        arena.valid(),
        arena.separated(),
        request.valid(),
        request.size > 0,
        request.first_map() <= start,
        arena.allocated_from(request, start) == Step::Done(Some(block)),
        ({
            let after = arena.after_allocation_from(request, start);
            let map = after.maps[arena.served_by(request, start)->0]->Mapped_0;
            &&& crate::heap::heap_size(heap) == map.size
            &&& crate::heap::heap_free(heap) == map.free.union(
                MappingView::block(block.addr as int, request.size as int),
            )
        }),
    ensures
        arena.after_allocation_from(request, start).given_back(request, block.addr as int, heap)
            == arena,
{
    let i = arena.served_by(request, start)->0;
    let map = arena.maps[i]->Mapped_0;
    let after = arena.after_allocation_from(request, start);
    crate::request::lemma_align_positive(request);
    crate::geometry::law_minimum_index_is_least(request.padded());
    law_block_is_withheld(arena, request, start, block);
    law_block_lies_in_its_map(arena, request, start, block);
    law_what_is_settled_is_kept(arena, request, start, true, 0);
    crate::model::lemma_served_by(arena, request, start);
    let set_aside = MappingView::block(block.addr as int, request.size as int);
    assert(map.free.difference(set_aside).union(set_aside) =~= map.free);
    law_block_goes_back_to_its_map(arena, request, start, block, after);
    assert(after.given_back(request, block.addr as int, heap).maps =~= arena.maps);
}

/// An allocation adds the bytes that are set aside for the block to what is handed out, takes them
/// from what can be handed out, and maps nothing.
pub proof fn law_allocation_moves_memory(
    arena: ArenaView,
    request: RequestView,
    start: int,
    block: Allocation,
)
    requires
        arena.valid(),
        request.valid(),
        request.size > 0,
        0 <= start,
        arena.allocated_from(request, start) == Step::Done(Some(block)),
    ensures
        ({
            let after = arena.after_allocation_from(request, start);
            let set_aside = crate::heap::block_size(request.size as int);
            &&& after.mem_used() == arena.mem_used() + set_aside
            &&& after.mem_free() == arena.mem_free() - set_aside
            &&& after.diagnostics == arena.diagnostics
        }),
{
    let i = arena.served_by(request, start)->0;
    let map = arena.maps[i]->Mapped_0;
    let after = arena.after_allocation_from(request, start);
    let set_aside = MappingView::block(block.addr as int, request.size as int);
    crate::model::lemma_served_by(arena, request, start);
    crate::mapping::lemma_fit(map, request);
    crate::mapping::lemma_free_bytes(map);
    crate::mapping::lemma_block_size(request.size as int);
    lemma_parts_make_up(map.free.difference(set_aside), block.addr as int, request.size as int);
    assert(map.free.difference(set_aside).union(set_aside) =~= map.free);
    crate::model::lemma_sums_change(arena, after, i, MAP_COUNT as int);
}

/// The bytes that are set aside for a block add to the bytes that do not belong to it.
proof fn lemma_parts_make_up(free: Set<int>, addr: int, size: int)
    requires
        0 <= size,
        free.finite(),
        free.disjoint(MappingView::block(addr, size)),
    ensures
        free.union(MappingView::block(addr, size)).len() == free.len() + crate::heap::block_size(
            size,
        ),
{
    crate::mapping::lemma_block_size(size);
    vstd::set_lib::lemma_int_range(addr, addr + crate::heap::block_size(size));
    vstd::set_lib::lemma_set_disjoint_lens(free, MappingView::block(addr, size));
}

/// A block that goes back takes the bytes that were set aside for it from what is handed out, adds
/// them to what can be handed out, and leaves what is mapped as it is.
pub proof fn law_giving_back_moves_memory(
    arena: ArenaView,
    request: RequestView,
    at: int,
    heap: Heap,
)
    requires
        arena.valid(),
        request.valid(),
        arena.owner(request, at) is Some,
        arena.withholds(at, crate::heap::block_size(request.size as int)),
        ({
            let map = arena.maps[arena.owner(request, at)->0]->Mapped_0;
            &&& crate::heap::heap_size(heap) == map.size
            &&& crate::heap::heap_free(heap) == map.free.union(
                MappingView::block(at, request.size as int),
            )
        }),
    ensures
        ({
            let after = arena.given_back(request, at, heap);
            let set_aside = crate::heap::block_size(request.size as int);
            &&& after.mem_used() == arena.mem_used() - set_aside
            &&& after.mem_free() == arena.mem_free() + set_aside
            &&& after.diagnostics == arena.diagnostics
        }),
{
    let i = arena.owner(request, at)->0;
    let map = arena.maps[i]->Mapped_0;
    let after = arena.given_back(request, at, heap);
    crate::request::lemma_align_positive(request);
    crate::geometry::law_minimum_index_is_least(request.padded());
    crate::model::lemma_owner_from(arena, at, request.first_map());
    crate::mapping::lemma_free_bytes(map);
    assert forall|a: int| map.free.contains(a) implies !MappingView::block(
        at,
        request.size as int,
    ).contains(a) by {
        if at <= a < at + crate::heap::block_size(request.size as int) {
            assert(!arena.maps[i]->Mapped_0.free.contains(a));
        }
    }
    lemma_parts_make_up(map.free, at, request.size as int);
    crate::model::lemma_sums_change(arena, after, i, MAP_COUNT as int);
}

/// While nothing has failed and the file is long enough for the first map that is asked for room,
/// an allocation asks for what is missing: the length of the file, and then the maps up to that
/// one.
pub proof fn law_missing_maps_are_asked_for(arena: ArenaView, request: RequestView)
    requires
        arena.valid(),
        request.valid(),
        request.size > 0,
        arena.within_limit(request.first_map()),
        arena.frontier() <= request.first_map(),
        arena.truncates != Some(false),
        !arena.diagnostics.mmap_failed(),
    ensures
        match arena.allocated(request) {
            Step::Pending(SystemCall::Truncate { .. }) => arena.truncates is None,
            Step::Pending(SystemCall::MapAt { index, .. }) => arena.truncates == Some(true)
                && index.0 == arena.frontier(),
            Step::Done(_) => false,
        },
{
    let first = request.first_map();
    crate::model::lemma_frontier(arena);
    crate::model::lemma_not_served(arena, request, first);
    if arena.frontier() < first {
        crate::geometry::lemma_map_len_increases(arena.frontier(), first);
    }
}

/// A request is refused only when no map that was asked has room, and the next one can not be
/// established: the file ends before it, or a call to the system failed.
pub proof fn law_refusal_has_a_reason(arena: ArenaView, request: RequestView)
    requires
        arena.valid(),
        request.valid(),
        arena.allocated(request) == Step::Done(None),
    ensures
        request.size > 0,
        request.first_map() <= MAP_COUNT ==> {
            &&& forall|i: int|
                request.first_map() <= i < arena.frontier()
                    ==> (#[trigger] arena.maps[i])->Mapped_0.fit(request) is None
            &&& !arena.within_limit(arena.frontier()) || arena.truncates == Some(false)
                || arena.diagnostics.mmap_failed()
        },
{
    crate::model::lemma_frontier(arena);
    crate::request::lemma_align_positive(request);
    crate::geometry::law_minimum_index_is_least(request.padded());
    if request.first_map() <= arena.frontier() {
        lemma_none_fits(arena, request, request.first_map());
    }
}

} // verus!
