//! What each operation of an arena does, said of numbers, addresses and the fields of an arena.

use crate::diagnostics::DiagnosticsView;
use crate::mapping::{MappingView, SlotView};
use crate::model::{Allocation, ArenaView, Expansion, Step, SystemCall};
use crate::request::RequestView;
use linked_list_allocator::Heap;
use vstd::prelude::*;

verus! {

/// Whether the first `n` maps of an arena are established and the next one is not.
pub open spec fn established(arena: ArenaView, n: int) -> bool {
    &&& 0 <= n <= 48
    &&& forall|i: int| 0 <= i < n ==> #[trigger] arena.maps[i] is Mapped
    &&& n < 48 ==> !(arena.maps[n] is Mapped)
}

/// Whether there is a map `i` and it ends within a file of that length: one page, then two, then
/// four, one behind the other.
pub open spec fn in_file(i: int, len: usize) -> bool {
    &&& 0 <= i < 48
    &&& i + 13 < usize::BITS
    &&& 8192 * vstd::arithmetic::power2::pow2(i as nat) - 4096 <= len
}

// Sizes.

/// Map `i` has `2^i` pages and begins behind all the smaller ones.
pub proof fn law_length_and_place_of_maps(i: int)
    requires
        0 <= i,
    ensures
        crate::geometry::map_len(i) == 4096 * vstd::arithmetic::power2::pow2(i as nat),
        crate::geometry::map_offset(i) == 4096 * vstd::arithmetic::power2::pow2(i as nat) - 4096,
        crate::geometry::map_end(i) == 8192 * vstd::arithmetic::power2::pow2(i as nat) - 4096,
        crate::geometry::addressable(i) <==> i < 48 && i + 13 < usize::BITS,
{
    vstd::arithmetic::power2::lemma2_to64();
    vstd::arithmetic::power2::lemma_pow2_adds(i as nat, 12);
}

/// The least index of a map that is longer than `size` bytes: the map is longer, and half of it is not,
/// unless it is a page already.
pub proof fn law_least_map_for_a_size(size: int)
    requires
        0 <= size,
    ensures
        ({
            let i = crate::geometry::minimum_index(size);
            &&& 0 <= i
            &&& size < 4096 * vstd::arithmetic::power2::pow2(i as nat)
            &&& i > 0 ==> 2048 * vstd::arithmetic::power2::pow2(i as nat) <= size
            &&& i == 0 <==> size < 4096
        }),
{
    let i = crate::geometry::minimum_index(size);
    crate::geometry::law_minimum_index_is_least(size);
    law_length_and_place_of_maps(i);
    crate::geometry::law_maps_double_in_length(0);
    if i > 0 {
        law_length_and_place_of_maps(i - 1);
        vstd::arithmetic::power2::lemma_pow2_unfold(i as nat);
        assert(crate::geometry::map_len(i - 1) <= size);
        assert(crate::geometry::map_len(0) <= size);
    }
}

/// A request is one for the size and the alignment of a memory layout: the alignment is a power of
/// two, and there is a multiple `p` of it that is no less than the size and no more than
/// `isize::MAX`. The padded size is the least such multiple, and the first map that is asked is the
/// shortest that is longer.
pub proof fn law_requests_are_layouts(request: RequestView, p: int)
    ensures
        request.valid() ==> {
            &&& exists|k: nat| request.align == #[trigger] vstd::arithmetic::power2::pow2(k)
            &&& request.size <= request.padded() < request.size + request.align
            &&& request.padded() <= isize::MAX
            &&& request.padded() % request.align as int == 0
        },
        (exists|k: nat| request.align == #[trigger] vstd::arithmetic::power2::pow2(k)) && p
            % request.align as int == 0 && request.size <= p <= isize::MAX ==> request.valid(),
        request.valid() ==> {
            let i = request.first_map();
            &&& 0 <= i
            &&& request.padded() < 4096 * vstd::arithmetic::power2::pow2(i as nat)
            &&& i > 0 ==> 2048 * vstd::arithmetic::power2::pow2(i as nat) <= request.padded()
        },
{
    if exists|k: nat| request.align == #[trigger] vstd::arithmetic::power2::pow2(k) {
        let k = choose|k: nat| request.align == #[trigger] vstd::arithmetic::power2::pow2(k);
        vstd::arithmetic::power2::lemma_pow2_pos(k);
        let align = request.align as int;
        crate::request::lemma_round_up(request.size as int, align);
        law_least_map_for_a_size(request.padded());
        if p % align == 0 && request.size <= p {
            crate::request::lemma_round_up(p, align);
            crate::request::lemma_round_up_is_ordered(request.size as int, p, align);
        }
    }
}

// Heaps.

/// The bytes that are set aside for a block: the least number of whole words that holds the block and
/// is two or more.
pub proof fn law_bytes_set_aside(size: int)
    requires
        0 <= size,
    ensures
        ({
            let word = usize::BITS as int / 8;
            let set_aside = crate::heap::block_size(size);
            &&& set_aside % word == 0
            &&& size <= set_aside
            &&& 2 * word <= set_aside
            &&& set_aside == 2 * word || set_aside < size + word
        }),
{
    let word = crate::heap::word();
    crate::mapping::lemma_block_size(size);
    crate::request::lemma_round_up(2 * word, word);
    crate::request::lemma_round_up(size, word);
    assert((2 * word) % word == 0) by {
        vstd::arithmetic::div_mod::lemma_mod_multiples_basic(2, word);
    }
}

/// A hole is a run of free bytes with none before or behind it.
pub proof fn law_holes_are_runs(free: Set<int>, addr: int, len: int)
    ensures
        crate::heap::is_hole(free, addr, len) <==> {
            &&& 0 < addr
            &&& 0 < len
            &&& forall|a: int| addr <= a < addr + len ==> #[trigger] free.contains(a)
            &&& !free.contains(addr - 1)
            &&& !free.contains(addr + len)
        },
{
    let run = vstd::set_lib::set_int_range(addr, addr + len);
    if crate::heap::is_hole(free, addr, len) {
        assert forall|a: int| addr <= a < addr + len implies #[trigger] free.contains(a) by {
            assert(run.contains(a));
        }
    }
}

/// A block stands at the beginning of its hole if that is aligned, and else at the first aligned
/// address that leaves two words before it. The hole has room if the block, with what is set aside for
/// it, ends where the hole does or two words before.
pub proof fn law_place_in_a_hole(addr: int, len: int, size: int, align: int, p: int)
    requires
        0 < addr,
        0 <= size,
        0 < align,
        p % align == 0,
        addr % align == 0 ==> p == addr,
        addr % align != 0 ==> addr + 2 * (usize::BITS as int / 8) <= p < addr + 2 * (usize::BITS as int
            / 8) + align,
    ensures
        crate::heap::placement(addr, align) == p,
        crate::heap::takes(addr, len, size, align) <==> {
            ||| p + crate::heap::block_size(size) == addr + len
            ||| p + crate::heap::block_size(size) + 2 * (usize::BITS as int / 8) <= addr + len
        },
{
    if addr % align != 0 {
        let from = addr + 2 * crate::heap::word();
        crate::request::lemma_round_up(from, align);
        crate::request::lemma_round_up(p, align);
        crate::request::lemma_round_up_is_ordered(from, p, align);
        let least = crate::request::round_up(from, align);
        vstd::arithmetic::div_mod::lemma_sub_mod_noop(p, least, align);
        vstd::arithmetic::div_mod::lemma_small_mod((p - least) as nat, align as nat);
        vstd::arithmetic::div_mod::lemma_small_mod(0, align as nat);
    }
}

/// A block can be laid out if a multiple of its alignment, `isize::MAX` or less, holds what is set
/// aside for it.
pub proof fn law_layouts_of_blocks(size: int, align: int, p: int)
    requires
        0 <= size,
        0 < align,
        p % align == 0,
        crate::heap::block_size(size) <= p < crate::heap::block_size(size) + align,
    ensures
        crate::heap::can_lay_out(size, align) <==> p <= isize::MAX,
{
    let set_aside = crate::heap::block_size(size);
    crate::mapping::lemma_block_size(size);
    lemma_least_multiple(set_aside, align, p);
}

/// The least multiple is the only one this close.
proof fn lemma_least_multiple(n: int, unit: int, p: int)
    requires
        0 <= n,
        0 < unit,
        p % unit == 0,
        n <= p < n + unit,
    ensures
        crate::request::round_up(n, unit) == p,
{
    crate::request::lemma_round_up(n, unit);
    let least = crate::request::round_up(n, unit);
    vstd::arithmetic::div_mod::lemma_small_mod(0, unit as nat);
    if p < least {
        vstd::arithmetic::div_mod::lemma_sub_mod_noop(least, p, unit);
        vstd::arithmetic::div_mod::lemma_small_mod((least - p) as nat, unit as nat);
    } else {
        vstd::arithmetic::div_mod::lemma_sub_mod_noop(p, least, unit);
        vstd::arithmetic::div_mod::lemma_small_mod((p - least) as nat, unit as nat);
    }
}

/// A map serves a request from its lowest hole that has room, and from nowhere if none has. What it
/// serves is aligned as asked and was free, and just the bytes that are set aside for it are free no
/// more.
pub proof fn law_a_map_serves_from_its_lowest_hole(
    map: MappingView,
    request: RequestView,
    addr: int,
    len: int,
)
    requires
        map.valid(),
        request.valid(),
    ensures
        ({
            let size = request.size as int;
            let align = request.align as int;
            let lays_out = crate::heap::can_lay_out(size, align);
            &&& lays_out && crate::heap::is_hole(map.free, addr, len) && crate::heap::takes(
                addr,
                len,
                size,
                align,
            ) && (forall|a: int, l: int| #[trigger]
                crate::heap::is_hole(map.free, a, l) && a < addr ==> !crate::heap::takes(
                    a,
                    l,
                    size,
                    align,
                )) ==> map.fit(request) == Some(crate::heap::placement(addr, align) as usize)
                && crate::heap::placement(addr, align) <= usize::MAX
            &&& (!lays_out || forall|a: int, l: int| #[trigger]
                crate::heap::is_hole(map.free, a, l) ==> !crate::heap::takes(a, l, size, align))
                ==> map.fit(request) is None
        }),
        match map.fit(request) {
            Some(at) => {
                &&& 0 < at
                &&& at as int % request.align as int == 0
                &&& forall|a: int|
                    at <= a < at + crate::heap::block_size(request.size as int)
                        ==> #[trigger] map.free.contains(a)
                &&& forall|a: int| #[trigger]
                    map.served(request).free.contains(a) <==> map.free.contains(a) && !(at <= a
                        < at + crate::heap::block_size(request.size as int))
            },
            None => map.served(request).free == map.free,
        },
        map.served(request).base == map.base,
        map.served(request).len == map.len,
        map.served(request).size == map.size,
{
    let size = request.size as int;
    let align = request.align as int;
    crate::request::lemma_align_positive(request);
    crate::mapping::lemma_block_size(size);
    if crate::heap::can_lay_out(size, align) && crate::heap::is_hole(map.free, addr, len)
        && crate::heap::takes(addr, len, size, align) && (forall|a: int, l: int| #[trigger]
        crate::heap::is_hole(map.free, a, l) && a < addr ==> !crate::heap::takes(
            a,
            l,
            size,
            align,
        )) {
        assert(crate::heap::takes_first(map.free, addr, len, size, align));
        crate::heap::lemma_first_fit(map.free, addr, len, size, align);
        crate::mapping::lemma_placement(addr, len, size, align);
        let hole = vstd::set_lib::set_int_range(addr, addr + len);
        assert(hole.contains(addr + len - 1));
        assert(map.free.contains(addr + len - 1));
    }
    if map.fit(request) is Some {
        let at = map.fit(request)->0;
        crate::mapping::lemma_fit(map, request);
        assert forall|a: int| at <= a < at + crate::heap::block_size(size) implies #[trigger] map.free.contains(
            a,
        ) by {
            assert(MappingView::block(at as int, size).contains(a));
        }
        let (a, l) = choose|a: int, l: int|
            crate::heap::takes_first(map.free, a, l, size, align);
        assert(crate::heap::takes_first(map.free, a, l, size, align));
    }
}

/// A map that was just established manages the whole words of its memory, all of them free: a byte
/// is free if a word around it, on a word boundary, lies in the map.
pub proof fn law_a_fresh_map_is_free(base: int, len: int, word_at: int, a: int)
    requires
        0 < base,
        32 <= len,
        base + len <= usize::MAX,
        word_at % (usize::BITS as int / 8) == 0,
        word_at <= a < word_at + usize::BITS as int / 8,
    ensures
        ({
            let map = MappingView::fresh(base, len);
            &&& map.valid()
            &&& map.base == base
            &&& map.len == len
            &&& map.free.contains(a) <==> base <= word_at && word_at + usize::BITS as int / 8 <= base
                + len
            &&& map.size == map.free.len()
            &&& map.size <= len < map.size + 2 * (usize::BITS as int / 8)
        }),
{
    let word = crate::heap::word();
    let map = MappingView::fresh(base, len);
    assert(word == 4 || word == 8);
    crate::request::lemma_round_up(base, word);
    crate::request::lemma_round_down(base + len, word);
    vstd::set_lib::lemma_int_range(map.bottom(), map.top());
    lemma_words_are_whole(word_at, map.bottom());
    lemma_words_are_whole(word_at, map.top());
}

/// Word boundaries are the same or a word apart.
proof fn lemma_words_are_whole(m: int, n: int)
    requires
        m % crate::heap::word() == 0,
        n % crate::heap::word() == 0,
    ensures
        m == n || m + crate::heap::word() <= n || n + crate::heap::word() <= m,
{
    let word = crate::heap::word();
    assert(word == 4 || word == 8);
    crate::holes::lemma_words_add_up(m, n);
    crate::holes::lemma_words_add_up(n, m);
    if 0 < m - n < word {
        vstd::arithmetic::div_mod::lemma_small_mod((m - n) as nat, word as nat);
    }
    if 0 < n - m < word {
        vstd::arithmetic::div_mod::lemma_small_mod((n - m) as nat, word as nat);
    }
}

/// A map leaves enough room before the last address if 32 bytes and the size still fit behind the
/// first aligned address at or behind its end.
pub proof fn law_clearance_of_a_map(map: MappingView, request: RequestView, p: int)
    requires
        map.valid(),
        request.valid(),
        p % request.align as int == 0,
        map.base + map.len <= p < map.base + map.len + request.align,
    ensures
        map.clears(request) <==> p + request.size + 32 <= usize::MAX,
        map.clears(request) ==> map.searchable(request),
{
    crate::request::lemma_align_positive(request);
    lemma_least_multiple(map.base + map.len, request.align as int, p);
    if map.clears(request) {
        crate::mapping::lemma_clear_map_is_searchable(map, request);
    }
}

// Arenas.

/// The maps of an arena are established in their order: those in front of the frontier are, the one
/// at it is not, and those behind it were never tried.
pub proof fn law_frontier_is_what_is_established(arena: ArenaView, n: int)
    requires
        arena.valid(),
    ensures
        arena.maps.len() == 48,
        established(arena, n) <==> arena.frontier() == n,
        established(arena, n) ==> forall|i: int|
            n < i < 48 ==> #[trigger] arena.maps[i] is Untried,
        established(arena, n) ==> arena.diagnostics.mapped_memory == 4096
            * vstd::arithmetic::power2::pow2(n as nat) - 4096,
{
    crate::model::lemma_frontier(arena);
    if established(arena, n) {
        crate::model::lemma_unmapped_from_is(arena, 0, n);
        law_length_and_place_of_maps(n);
    }
}

/// A new arena has made no call, whatever the length of its file: nothing is tried, and nothing is on
/// record.
pub proof fn law_a_new_arena_has_made_no_call(fd: i32, len: usize)
    ensures
        ({
            let arena = ArenaView::new(fd, len);
            &&& arena.valid()
            &&& arena.fd == fd
            &&& arena.len_limit == len
            &&& arena.truncates is None
            &&& arena.maps.len() == 48
            &&& forall|i: int| 0 <= i < 48 ==> #[trigger] arena.maps[i] is Untried
            &&& arena.diagnostics.failure == 0
            &&& arena.diagnostics.mapped_memory == 0
        }),
{
    crate::model::lemma_new_is_valid(fd, len);
}

/// A map is within the limit if it ends within the file, whatever else happened.
pub proof fn law_limit_is_the_length_of_the_file(arena: ArenaView, i: int)
    ensures
        arena.within_limit(i) <==> in_file(i, arena.len_limit),
{
    if 0 <= i {
        law_length_and_place_of_maps(i);
    }
}

/// A length that is handed to the system is the number of bytes, or what is left of it beyond 64
/// bits with a sign.
proof fn lemma_signed_length(len: usize)
    ensures
        len as i64 == if len <= i64::MAX {
            len as int
        } else {
            len - 0x1_0000_0000_0000_0000int
        },
{
    if len <= i64::MAX {
    } else {
        let wide = len as u64;
        assert(wide > 0x7fff_ffff_ffff_ffffu64 ==> (wide as i64) == wide - 0x1_0000_0000_0000_0000)
            by (bit_vector);
        assert(len as i64 == wide as i64);
    }
}

/// The attempt to establish the next map, or one that is there. A map that ends within the file is
/// there, or failed, or is asked for with its own place and length, after the file was given its whole
/// length. Without the length, or beyond it, there is none.
pub proof fn law_how_a_map_is_established(arena: ArenaView, n: int, i: int)
    requires
        arena.valid(),
        established(arena, n),
        0 <= i <= n,
    ensures
        i < n ==> arena.expansion(i) == Expansion::Settled(true) && arena.expanded(i) == arena,
        i == n && !in_file(n, arena.len_limit) ==> arena.expansion(n) == Expansion::Settled(false)
            && arena.expanded(n) == arena,
        i == n && in_file(n, arena.len_limit) ==> match arena.truncates {
            None => arena.expanded(n) == arena && n == 0 && (arena.expansion(
                n,
            ) matches Expansion::Pending(SystemCall::Truncate { fd, len }) && fd == arena.fd && len
                == if arena.len_limit <= i64::MAX {
                arena.len_limit as int
            } else {
                arena.len_limit - 0x1_0000_0000_0000_0000int
            }),
            Some(false) => {
                let after = arena.expanded(n);
                &&& arena.expansion(n) == Expansion::Settled(false)
                &&& after.diagnostics.failure % 2 == 1
                &&& after.diagnostics.failure / 2 == arena.diagnostics.failure / 2
                &&& after.diagnostics.mapped_memory == arena.diagnostics.mapped_memory
                &&& after.maps == arena.maps
                &&& after.fd == arena.fd
                &&& after.len_limit == arena.len_limit
                &&& after.truncates == arena.truncates
            },
            Some(true) => arena.expanded(n) == arena && if arena.maps[n] is Failed {
                arena.expansion(n) == Expansion::Settled(false)
            } else {
                arena.expansion(n) matches Expansion::Pending(
                    SystemCall::MapAt { fd, index, offset, len },
                ) && fd == arena.fd && index.0 == n && offset == 4096
                    * vstd::arithmetic::power2::pow2(n as nat) - 4096 && len == 4096
                    * vstd::arithmetic::power2::pow2(n as nat)
            },
        },
{
    crate::model::lemma_frontier(arena);
    crate::model::lemma_unmapped_from_is(arena, 0, n);
    law_limit_is_the_length_of_the_file(arena, i);
    law_length_and_place_of_maps(i);
    lemma_signed_length(arena.len_limit);
    if i < n {
        assert(arena.maps[i] is Mapped);
    } else {
        if n > 0 {
            assert(arena.maps[0] is Mapped);
        }
        if in_file(n, arena.len_limit) && arena.truncates == Some(true) && !(arena.maps[n] is Failed) {
            crate::laws::law_map_call_is_within_file(arena, n);
        }
        let failure = arena.diagnostics.failure;
        assert((failure | 1) % 2 == 1 && (failure | 1) / 2 == failure / 2) by (bit_vector);
    }
}

/// The first thing a new arena asks for, when its file has room for the first map of a request, is that
/// the file is given its whole length.
pub proof fn law_a_new_arena_first_sets_the_length(fd: i32, len: usize, request: RequestView)
    requires
        request.valid(),
        request.size > 0,
        in_file(request.first_map(), len),
    ensures
        ArenaView::new(fd, len).allocated(request) matches Step::Pending(
            SystemCall::Truncate { fd: file, len: whole },
        ) && file == fd && (len <= i64::MAX ==> whole == len),
        ArenaView::new(fd, len).after_allocation(request) == ArenaView::new(fd, len),
{
    let arena = ArenaView::new(fd, len);
    law_a_new_arena_has_made_no_call(fd, len);
    law_frontier_is_what_is_established(arena, 0);
    law_requests_are_layouts(request, 0);
    lemma_smaller_maps_are_in_file(0, request.first_map(), len);
    law_how_a_map_is_established(arena, 0, 0);
    law_what_an_allocation_answers(arena, request, request.first_map(), 0, 0);
    law_what_an_allocation_changes(arena, request, request.first_map(), 0, 0);
}

/// A request of less than a page is never refused by a new arena whose file is a page long or more.
pub proof fn law_a_page_is_enough_for_a_small_request(fd: i32, len: usize, request: RequestView)
    requires
        request.valid(),
        request.size > 0,
        request.padded() < 4096,
        4096 <= len,
    ensures
        ArenaView::new(fd, len).allocated(request) matches Step::Pending(
            SystemCall::Truncate { fd: file, len: whole },
        ) && file == fd && (len <= i64::MAX ==> whole == len),
{
    law_requests_are_layouts(request, 0);
    law_least_map_for_a_size(request.padded());
    vstd::arithmetic::power2::lemma2_to64();
    law_a_new_arena_first_sets_the_length(fd, len, request);
}

proof fn lemma_smaller_maps_are_in_file(i: int, j: int, len: usize)
    requires
        0 <= i <= j,
        in_file(j, len),
    ensures
        in_file(i, len),
{
    if i < j {
        vstd::arithmetic::power2::lemma_pow2_strictly_increases(i as nat, j as nat);
    }
}

/// What an allocation comes to when the maps from index `start` on are asked, of which the first `n`
/// are established: a block from the first map that has room, or else the call that the next map
/// needs, or nothing.
///
/// `k` is the first map from `start` on that has room, or `n` where none has.
pub proof fn law_what_an_allocation_answers(
    arena: ArenaView,
    request: RequestView,
    start: int,
    n: int,
    k: int,
)
    requires
        arena.valid(),
        established(arena, n),
        request.valid(),
        request.first_map() <= start,
        n <= k || start <= k,
        k <= n,
        forall|j: int| start <= j < k ==> (#[trigger] arena.maps[j])->Mapped_0.fit(request) is None,
        k < n ==> arena.maps[k]->Mapped_0.fit(request) is Some,
    ensures
        request.size == 0 ==> arena.allocated_from(request, start) == Step::Done(
            Some(Allocation { addr: request.align, len: 0 }),
        ),
        request.size > 0 && k < n ==> arena.allocated_from(request, start) == Step::Done(
            Some(
                Allocation {
                    addr: arena.maps[k]->Mapped_0.fit(request)->0,
                    len: request.size,
                },
            ),
        ),
        start == request.first_map() ==> arena.allocated(request) == arena.allocated_from(
            request,
            start,
        ),
        request.size > 0 && k == n && request.first_map() > 48 ==> arena.allocated_from(
            request,
            start,
        ) == Step::Done(None),
        request.size > 0 && k == n && request.first_map() <= 48 ==> match arena.expansion(n) {
            Expansion::Settled(there) => !there && arena.allocated_from(request, start)
                == Step::Done(None),
            Expansion::Pending(call) => arena.allocated_from(request, start) == Step::Pending(call),
        },
{
    crate::model::lemma_frontier(arena);
    crate::model::lemma_unmapped_from_is(arena, 0, n);
    law_requests_are_layouts(request, 0);
    law_how_a_map_is_established(arena, n, n);
    lemma_first_with_room(arena, request, start, n, k);
}

/// Which map serves a request.
proof fn lemma_first_with_room(arena: ArenaView, request: RequestView, start: int, n: int, k: int)
    requires
        arena.valid(),
        established(arena, n),
        0 <= start,
        n <= k || start <= k,
        k <= n,
        forall|j: int| start <= j < k ==> (#[trigger] arena.maps[j])->Mapped_0.fit(request) is None,
        k < n ==> arena.maps[k]->Mapped_0.fit(request) is Some,
    ensures
        arena.served_by(request, start) == if k < n {
            Some(k)
        } else {
            None
        },
    decreases n - start,
{
    crate::model::lemma_frontier(arena);
    crate::model::lemma_unmapped_from_is(arena, 0, n);
    if start >= n {
        crate::model::lemma_not_served(arena, request, start);
    } else if start < k {
        assert(arena.maps[start] is Mapped);
        lemma_first_with_room(arena, request, start + 1, n, k);
    } else {
        assert(arena.maps[k] is Mapped);
    }
}

/// What an allocation changes: the free bytes of the map that serves it and nothing else. Where none
/// does, no map changes, and the failure to give the file its length may go on record.
pub proof fn law_what_an_allocation_changes(
    arena: ArenaView,
    request: RequestView,
    start: int,
    n: int,
    k: int,
)
    requires
        arena.valid(),
        established(arena, n),
        request.valid(),
        request.first_map() <= start,
        n <= k || start <= k,
        k <= n,
        forall|j: int| start <= j < k ==> (#[trigger] arena.maps[j])->Mapped_0.fit(request) is None,
        k < n ==> arena.maps[k]->Mapped_0.fit(request) is Some,
    ensures
        ({
            let after = arena.after_allocation_from(request, start);
            &&& start == request.first_map() ==> arena.after_allocation(request) == after
            &&& after.fd == arena.fd
            &&& after.len_limit == arena.len_limit
            &&& after.truncates == arena.truncates
            &&& after.maps.len() == 48
            &&& after.diagnostics.mapped_memory == arena.diagnostics.mapped_memory
            &&& forall|i: int|
                0 <= i < 48 && !(i == k && k < n && request.size > 0) ==> #[trigger] after.maps[i]
                    == arena.maps[i]
            &&& request.size > 0 && k < n ==> {
                &&& after.maps[k] is Mapped
                &&& after.maps[k]->Mapped_0 == arena.maps[k]->Mapped_0.served(request)
                &&& after.diagnostics == arena.diagnostics
            }
            &&& if request.size > 0 && k == n && request.first_map() <= 48 && in_file(
                n,
                arena.len_limit,
            ) && arena.truncates == Some(false) {
                &&& after.diagnostics.failure % 2 == 1
                &&& after.diagnostics.failure / 2 == arena.diagnostics.failure / 2
            } else {
                after.diagnostics == arena.diagnostics
            }
        }),
{
    crate::model::lemma_frontier(arena);
    crate::model::lemma_unmapped_from_is(arena, 0, n);
    law_requests_are_layouts(request, 0);
    law_how_a_map_is_established(arena, n, n);
    lemma_first_with_room(arena, request, start, n, k);
    if k < n && arena.truncates == Some(false) {
        assert(arena.maps[k] is Mapped);
    }
}

/// An allocation goes on at the map that it waited for, or at its first map where that is greater.
pub proof fn law_where_an_allocation_goes_on(request: RequestView, index: int)
    ensures
        ({
            let at = ArenaView::resume_at(request, index);
            &&& index <= at
            &&& request.first_map() <= at
            &&& at == index || at == request.first_map()
        }),
{
}

/// Before a request is looked for, the maps up to its first one are asked for, one after the other.
pub proof fn law_what_is_ensured_before_a_search(arena: ArenaView, request: RequestView, n: int)
    requires
        arena.valid(),
        established(arena, n),
        request.valid(),
    ensures
        request.size == 0 ==> arena.pre_ensured(request) == Expansion::Settled(true),
        request.size > 0 && request.first_map() > 48 ==> arena.pre_ensured(request)
            == Expansion::Settled(false),
        request.size > 0 && request.first_map() <= 48 && request.first_map() < n
            ==> arena.pre_ensured(request) == Expansion::Settled(true),
        request.size == 0 || request.first_map() > 48 || request.first_map() < n
            ==> arena.after_pre_ensure(request) == arena,
        request.size > 0 && n <= request.first_map() <= 48 ==> {
            &&& arena.pre_ensured(request) == arena.expansion(n)
            &&& arena.after_pre_ensure(request) == arena.expanded(n)
        },
{
    crate::model::lemma_frontier(arena);
    crate::model::lemma_unmapped_from_is(arena, 0, n);
}

/// The outcome of the first attempt to give the file its length is what is kept, whatever the length,
/// and nothing else changes.
pub proof fn law_first_truncation_counts(arena: ArenaView, done: bool, again: bool)
    ensures
        ({
            let after = arena.after_truncate(done);
            &&& arena.truncates is None ==> after.truncates == Some(done)
            &&& arena.truncates is Some ==> after.truncates == arena.truncates
            &&& after.after_truncate(again).truncates == after.truncates
            &&& after.fd == arena.fd
            &&& after.len_limit == arena.len_limit
            &&& after.maps == arena.maps
            &&& after.diagnostics == arena.diagnostics
        }),
{
}

/// After a first attempt that failed, every request for something is refused with no call, and the
/// failure is on record then where the file is long enough for a page.
pub proof fn law_failed_truncation_refuses_all(arena: ArenaView, request: RequestView)
    requires
        arena.valid(),
        arena.truncates is None,
        request.valid(),
        request.size > 0,
    ensures
        ({
            let failed = arena.after_truncate(false);
            &&& failed.allocated(request) == Step::Done(None)
            &&& failed.after_allocation(request).truncates == Some(false)
            &&& 4096 <= arena.len_limit && request.first_map() <= 48 ==> {
                &&& failed.after_allocation(request).diagnostics.failure % 2 == 1
                &&& failed.after_allocation(request).diagnostics.truncate_failed()
            }
        }),
{
    let failed = arena.after_truncate(false);
    crate::model::lemma_after_truncate_is_valid(arena, false);
    crate::model::lemma_frontier(failed);
    law_first_truncation_counts(arena, false, false);
    if failed.frontier() > 0 {
        assert(failed.maps[0] is Mapped);
    }
    law_frontier_is_what_is_established(failed, 0);
    law_requests_are_layouts(request, 0);
    vstd::arithmetic::power2::lemma2_to64();
    law_how_a_map_is_established(failed, 0, 0);
    law_what_an_allocation_answers(failed, request, request.first_map(), 0, 0);
    law_what_an_allocation_changes(failed, request, request.first_map(), 0, 0);
    law_what_the_record_says(failed.after_allocation(request).diagnostics);
}

/// What is on record: the lowest bit says that the file could not be given its length, the next that
/// a part of it could not be mapped. Each is set without the other.
pub proof fn law_what_the_record_says(record: DiagnosticsView)
    ensures
        record.truncate_failed() <==> record.failure % 2 == 1,
        record.mmap_failed() <==> record.failure / 2 % 2 == 1,
        record.with_truncate_failed().failure % 2 == 1,
        record.with_truncate_failed().failure / 2 == record.failure / 2,
        record.with_truncate_failed().mapped_memory == record.mapped_memory,
        record.with_mmap_failed().failure % 2 == record.failure % 2,
        record.with_mmap_failed().failure / 2 % 2 == 1,
        record.with_mmap_failed().failure / 4 == record.failure / 4,
        record.with_mmap_failed().mapped_memory == record.mapped_memory,
        DiagnosticsView::empty().failure == 0,
        DiagnosticsView::empty().mapped_memory == 0,
{
    let failure = record.failure;
    assert((failure & 1 != 0) == (failure % 2 == 1)) by (bit_vector);
    assert((failure & 2 != 0) == (failure / 2 % 2 == 1)) by (bit_vector);
    assert((failure | 1) % 2 == 1 && (failure | 1) / 2 == failure / 2) by (bit_vector);
    assert((failure | 2) % 2 == failure % 2 && (failure | 2) / 2 % 2 == 1 && (failure | 2) / 4
        == failure / 4) by (bit_vector);
}

/// A map that could not be mapped is failed for good, which goes on record. Nothing else changes.
pub proof fn law_what_a_failed_map_changes(arena: ArenaView, n: int)
    requires
        arena.valid(),
        established(arena, n),
        n < 48,
    ensures
        ({
            let after = arena.after_failed_map(n);
            &&& after.maps.len() == 48
            &&& after.maps[n] is Failed
            &&& forall|i: int| 0 <= i < 48 && i != n ==> #[trigger] after.maps[i] == arena.maps[i]
            &&& after.fd == arena.fd
            &&& after.len_limit == arena.len_limit
            &&& after.truncates == arena.truncates
            &&& after.diagnostics.mapped_memory == arena.diagnostics.mapped_memory
            &&& after.diagnostics.failure % 2 == arena.diagnostics.failure % 2
            &&& after.diagnostics.failure / 2 % 2 == 1
        }),
{
    law_what_the_record_says(arena.diagnostics);
}

/// A map that was mapped lies where the system put it, is all its own length, and has it all free. The
/// mapped bytes become more by its length. Nothing else changes.
pub proof fn law_what_a_new_map_changes(arena: ArenaView, n: int, base: int)
    requires
        arena.valid(),
        established(arena, n),
        in_file(n, arena.len_limit),
    ensures
        ({
            let after = arena.after_map(n, base);
            let len = 4096 * vstd::arithmetic::power2::pow2(n as nat);
            &&& after.maps.len() == 48
            &&& after.maps[n] is Mapped
            &&& after.maps[n]->Mapped_0.base == base
            &&& after.maps[n]->Mapped_0.len == len
            &&& after.maps[n]->Mapped_0 == MappingView::fresh(base, len as int)
            &&& forall|i: int| 0 <= i < 48 && i != n ==> #[trigger] after.maps[i] == arena.maps[i]
            &&& after.fd == arena.fd
            &&& after.len_limit == arena.len_limit
            &&& after.truncates == arena.truncates
            &&& after.diagnostics.failure == arena.diagnostics.failure
            &&& after.diagnostics.mapped_memory == arena.diagnostics.mapped_memory + len
        }),
{
    law_frontier_is_what_is_established(arena, n);
    law_length_and_place_of_maps(n);
}

/// An arena that is unmapped keeps its file, with the outcome of the attempt to give it its length,
/// and is else as it was when it was new.
pub proof fn law_what_unmapping_leaves(arena: ArenaView)
    ensures
        ({
            let after = arena.unmapped();
            &&& after.fd == arena.fd
            &&& after.len_limit == arena.len_limit
            &&& after.truncates == arena.truncates
            &&& after.maps.len() == 48
            &&& forall|i: int| 0 <= i < 48 ==> #[trigger] after.maps[i] is Untried
            &&& after.diagnostics.failure == 0
            &&& after.diagnostics.mapped_memory == 0
        }),
{
}

/// The region of a map that is established is its memory, and there is none of another map.
pub proof fn law_regions_are_the_maps(arena: ArenaView, i: int)
    requires
        arena.valid(),
        0 <= i < 48,
    ensures
        match arena.maps[i] {
            SlotView::Mapped(map) => arena.region(i) matches Some(region) && region.addr == map.base
                && region.len == map.len && region.len == 4096 * vstd::arithmetic::power2::pow2(
                i as nat,
            ),
            _ => arena.region(i) is None,
        },
{
    law_length_and_place_of_maps(i);
    if arena.maps[i] is Mapped {
        crate::mapping::lemma_free_bytes(arena.maps[i]->Mapped_0);
    }
}

/// A block lies in the region of the map that serves it, with all that is set aside for it.
pub proof fn law_blocks_lie_in_regions(
    arena: ArenaView,
    request: RequestView,
    start: int,
    block: Allocation,
)
    requires
        arena.valid(),
        request.valid(),
        request.size > 0,
        0 <= start,
        arena.allocated_from(request, start) == Step::Done(Some(block)),
    ensures
        exists|i: int|
            start <= i < 48 && (#[trigger] arena.region(i) matches Some(region) && region.addr
                <= block.addr && block.addr + crate::heap::block_size(request.size as int)
                <= region.addr + region.len),
{
    crate::laws::law_block_lies_in_its_map(arena, request, start, block);
    let i = arena.served_by(request, start)->0;
    law_regions_are_the_maps(arena, i);
}

/// The regions of maps that share no memory share no byte.
pub proof fn law_regions_share_no_byte(arena: ArenaView, i: int, j: int)
    requires
        arena.valid(),
        arena.separated(),
        0 <= i < 48,
        0 <= j < 48,
        i != j,
        arena.region(i) is Some,
        arena.region(j) is Some,
    ensures
        ({
            let a = arena.region(i)->0;
            let b = arena.region(j)->0;
            a.addr + a.len <= b.addr || b.addr + b.len <= a.addr
        }),
{
    law_regions_are_the_maps(arena, i);
    law_regions_are_the_maps(arena, j);
    if i < j {
        assert(arena.maps[i]->Mapped_0.apart_from(arena.maps[j]->Mapped_0));
    } else {
        assert(arena.maps[j]->Mapped_0.apart_from(arena.maps[i]->Mapped_0));
    }
}

/// In ordinary memory, all maps in the lower quarter of the address space, a checked allocation goes
/// ahead for every request, however many maps there are.
pub proof fn law_ordinary_memory_is_clear(arena: ArenaView, request: RequestView, start: int)
    requires
        arena.valid(),
        request.valid(),
        forall|i: int|
            0 <= i < 48 && #[trigger] arena.maps[i] is Mapped ==> arena.maps[i]->Mapped_0.base
                + arena.maps[i]->Mapped_0.len + 32 <= usize::MAX / 4,
    ensures
        arena.clears(request, start),
        0 <= start ==> arena.searchable(request, start),
{
    assert forall|i: int|
        0 <= i < arena.maps.len() && #[trigger] arena.maps[i] is Mapped implies arena.maps[i]->Mapped_0.clears(
        request,
    ) by {
        let map = arena.maps[i]->Mapped_0;
        let end = map.base + map.len;
        crate::request::lemma_align_positive(request);
        crate::request::lemma_round_up(end, request.align as int);
        if request.size > 0 {
            crate::laws::law_low_maps_clear(map, request);
        } else {
            lemma_alignment_is_half_at_most(request);
        }
    }
    if 0 <= start {
        crate::laws::law_clear_arena_is_searchable(arena, request, start);
    }
}

/// The greatest power of two that an address can be a multiple of is half of the address space.
proof fn lemma_alignment_is_half_at_most(request: RequestView)
    requires
        request.valid(),
    ensures
        request.align <= usize::MAX / 2 + 1,
{
    let k = choose|k: nat| request.align == #[trigger] vstd::arithmetic::power2::pow2(k);
    let top: nat = if usize::BITS == 32 {
        31
    } else {
        63
    };
    vstd::arithmetic::power2::lemma2_to64();
    vstd::arithmetic::power2::lemma2_to64_rest();
    vstd::arithmetic::power2::lemma_pow2_unfold(top + 1);
    if k > top {
        if k > top + 1 {
            vstd::arithmetic::power2::lemma_pow2_strictly_increases(top + 1, k);
        }
    } else if k < top {
        vstd::arithmetic::power2::lemma_pow2_strictly_increases(k, top);
    }
}

/// An arena leaves enough room before the last address if all its established maps from index `start`
/// on do.
pub proof fn law_clearance_of_an_arena(arena: ArenaView, request: RequestView, start: int)
    requires
        arena.valid(),
    ensures
        arena.clears(request, start) <==> forall|i: int|
            0 <= i < 48 && start <= i && #[trigger] arena.maps[i] is Mapped
                ==> arena.maps[i]->Mapped_0.clears(request),
{
}

/// What is used and what is free are sums over the maps: nothing where none is established, and a map
/// that becomes another changes them by its own part alone.
pub proof fn law_used_and_free_are_sums(arena: ArenaView, after: ArenaView, i: int)
    requires
        arena.maps.len() == 48,
        after.maps.len() == 48,
        0 <= i < 48,
        forall|j: int| 0 <= j < 48 && j != i ==> #[trigger] after.maps[j] == arena.maps[j],
    ensures
        (forall|j: int| 0 <= j < 48 ==> !(#[trigger] arena.maps[j] is Mapped)) ==> arena.mem_used()
            == 0 && arena.mem_free() == 0,
        !(arena.maps[i] is Mapped) ==> match after.maps[i] {
            SlotView::Mapped(map) => {
                &&& after.mem_used() == arena.mem_used() + map.size - map.free.len()
                &&& after.mem_free() == arena.mem_free() + map.free.len()
            },
            _ => after.mem_used() == arena.mem_used() && after.mem_free() == arena.mem_free(),
        },
{
    assert(after.maps =~= arena.maps.update(i, after.maps[i]));
    crate::model::lemma_sums_change(arena, after, i, 48);
    if forall|j: int| 0 <= j < 48 ==> !(#[trigger] arena.maps[j] is Mapped) {
        lemma_nothing_to_sum(arena, 48);
    }
}

proof fn lemma_nothing_to_sum(arena: ArenaView, n: int)
    requires
        0 <= n <= arena.maps.len(),
        forall|j: int| 0 <= j < n ==> !(#[trigger] arena.maps[j] is Mapped),
    ensures
        arena.used_below(n) == 0,
        arena.free_below(n) == 0,
    decreases n,
{
    if n > 0 {
        lemma_nothing_to_sum(arena, n - 1);
        assert(!(arena.maps[n - 1] is Mapped));
    }
}

/// A block goes back to the first established map, from its first one on, whose memory its address
/// lies in. An empty block goes nowhere.
pub proof fn law_where_a_block_goes_back(arena: ArenaView, request: RequestView, addr: int)
    requires
        arena.valid(),
        request.valid(),
    ensures
        request.size == 0 ==> arena.owner(request, addr) is None,
        request.size > 0 ==> match arena.owner(request, addr) {
            Some(i) => {
                &&& request.first_map() <= i < 48
                &&& arena.maps[i] is Mapped
                &&& arena.maps[i]->Mapped_0.base <= addr < arena.maps[i]->Mapped_0.base
                    + arena.maps[i]->Mapped_0.len
                &&& forall|j: int|
                    request.first_map() <= j < i && #[trigger] arena.maps[j] is Mapped ==> !(
                    arena.maps[j]->Mapped_0.base <= addr < arena.maps[j]->Mapped_0.base
                        + arena.maps[j]->Mapped_0.len)
            },
            None => forall|j: int|
                request.first_map() <= j < 48 && #[trigger] arena.maps[j] is Mapped ==> !(
                arena.maps[j]->Mapped_0.base <= addr < arena.maps[j]->Mapped_0.base
                    + arena.maps[j]->Mapped_0.len),
        },
{
    law_requests_are_layouts(request, 0);
    crate::model::lemma_owner_from(arena, addr, request.first_map());
}

/// The heap that is lent for a block is that of its map, and what becomes of the heap becomes of the
/// map. Nothing else changes.
pub proof fn law_what_giving_back_changes(
    arena: ArenaView,
    request: RequestView,
    addr: int,
    heap: Heap,
)
    requires
        arena.valid(),
        request.valid(),
        arena.owner(request, addr) is Some,
    ensures
        ({
            let i = arena.owner(request, addr)->0;
            let map = arena.maps[i]->Mapped_0;
            let after = arena.given_back(request, addr, heap);
            &&& arena.lends(request, addr, heap) <==> map.free == crate::heap::heap_free(heap)
                && map.size == crate::heap::heap_size(heap)
            &&& after.maps.len() == 48
            &&& after.maps[i] is Mapped
            &&& after.maps[i]->Mapped_0.base == map.base
            &&& after.maps[i]->Mapped_0.len == map.len
            &&& after.maps[i]->Mapped_0.size == crate::heap::heap_size(heap)
            &&& after.maps[i]->Mapped_0.free == crate::heap::heap_free(heap)
            &&& forall|j: int| 0 <= j < 48 && j != i ==> #[trigger] after.maps[j] == arena.maps[j]
            &&& after.fd == arena.fd
            &&& after.len_limit == arena.len_limit
            &&& after.truncates == arena.truncates
            &&& after.diagnostics == arena.diagnostics
        }),
{
    law_requests_are_layouts(request, 0);
    crate::model::lemma_owner_from(arena, addr, request.first_map());
}

} // verus!
