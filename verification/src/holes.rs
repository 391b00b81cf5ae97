//! How the holes of a heap come and go.

use vstd::prelude::*;

verus! {

/// Whether all holes are made of whole words, at least two each.
pub open spec fn whole_holes(free: Set<int>) -> bool {
    forall|addr: int, len: int| #[trigger]
        crate::heap::is_hole(free, addr, len) ==> {
            &&& addr % crate::heap::word() == 0
            &&& len % crate::heap::word() == 0
            &&& 2 * crate::heap::word() <= len
        }
}

/// Whole words add up to whole words, and so do their differences.
pub(crate) proof fn lemma_words_add_up(m: int, n: int)
    requires
        m % crate::heap::word() == 0,
        n % crate::heap::word() == 0,
    ensures
        (m + n) % crate::heap::word() == 0,
        (m - n) % crate::heap::word() == 0,
{
    let word = crate::heap::word();
    assert(word == 4 || word == 8);
    vstd::arithmetic::div_mod::lemma_add_mod_noop(m, n, word);
    vstd::arithmetic::div_mod::lemma_sub_mod_noop(m, n, word);
}

/// The bytes of a run that begins and ends on word boundaries are one hole, and it is whole.
pub(crate) proof fn lemma_run_is_whole(from: int, to: int)
    requires
        from % crate::heap::word() == 0,
        to % crate::heap::word() == 0,
        from + 2 * crate::heap::word() <= to,
    ensures
        whole_holes(vstd::set_lib::set_int_range(from, to)),
{
    let free = vstd::set_lib::set_int_range(from, to);
    lemma_words_add_up(to, from);
    assert forall|addr: int, len: int| #[trigger] crate::heap::is_hole(free, addr, len) implies addr
        == from && addr + len == to by {
        let hole = vstd::set_lib::set_int_range(addr, addr + len);
        assert(hole.contains(addr));
        assert(hole.contains(addr + len - 1));
    }
}

/// A hole of whole words has its blocks on word boundaries.
pub(crate) proof fn lemma_placement_is_whole(addr: int, align: int)
    requires
        0 < addr,
        addr % crate::heap::word() == 0,
        crate::request::is_power_of_two(align),
        0 < align,
    ensures
        crate::heap::placement(addr, align) % crate::heap::word() == 0,
        crate::heap::placement(addr, align) == addr || addr + 2 * crate::heap::word()
            <= crate::heap::placement(addr, align),
        addr % align != 0 ==> crate::heap::word() < align,
{
    let word = crate::heap::word();
    assert(word == 4 || word == 8);
    vstd::arithmetic::power2::lemma2_to64();
    let w: nat = if word == 4 {
        2
    } else {
        3
    };
    assert(crate::request::is_power_of_two(word)) by {
        assert(word == vstd::arithmetic::power2::pow2(w));
    }
    if addr % align != 0 {
        if align <= word {
            crate::request::lemma_alignment_divides(addr, align, w);
        }
        crate::request::lemma_round_up(addr + 2 * word, align);
        let k = choose|k: nat| align == #[trigger] vstd::arithmetic::power2::pow2(k);
        crate::request::lemma_alignment_divides(crate::heap::placement(addr, align), word, k);
    }
}

/// Whole holes stay whole when a block is taken out of one.
pub(crate) proof fn lemma_taking_keeps_holes_whole(
    free: Set<int>,
    addr: int,
    len: int,
    size: int,
    align: int,
)
    requires
        whole_holes(free),
        crate::heap::is_hole(free, addr, len),
        crate::heap::takes(addr, len, size, align),
        0 <= size,
        0 < align,
        crate::request::is_power_of_two(align),
    ensures
        ({
            let block = crate::heap::placement(addr, align);
            whole_holes(
                free.difference(
                    vstd::set_lib::set_int_range(block, block + crate::heap::block_size(size)),
                ),
            )
        }),
{
    let word = crate::heap::word();
    let block = crate::heap::placement(addr, align);
    let end = block + crate::heap::block_size(size);
    let taken = vstd::set_lib::set_int_range(block, end);
    let hole = vstd::set_lib::set_int_range(addr, addr + len);
    let rest = free.difference(taken);
    crate::mapping::lemma_block_size(size);
    crate::mapping::lemma_placement(addr, len, size, align);
    lemma_placement_is_whole(addr, align);
    assert forall|a: int, l: int| #[trigger] crate::heap::is_hole(rest, a, l) implies {
        &&& a % word == 0
        &&& l % word == 0
        &&& 2 * word <= l
    } by {
        let run = vstd::set_lib::set_int_range(a, a + l);
        assert(run.contains(a) && run.contains(a + l - 1));
        assert(rest.contains(a) && rest.contains(a + l - 1));
        if taken.contains(a - 1) {
            // What is left behind the block.
            assert(a == end);
            assert(hole.contains(a - 1));
            if a + l < addr + len {
                assert(hole.contains(a + l));
            }
            if addr + len < a + l {
                assert(run.contains(addr + len));
                assert(rest.contains(addr + len));
            }
            assert(a + l == addr + len);
        } else if taken.contains(a + l) {
            // What is left in front of the block.
            assert(a + l == block);
            if a < addr {
                assert(run.contains(addr - 1));
                assert(rest.contains(addr - 1));
            }
            if addr < a {
                assert(hole.contains(a - 1));
            }
            assert(a == addr);
        } else {
            assert(run.subset_of(free));
            assert(crate::heap::is_hole(free, a, l));
        }
    }
}

/// The hole around bytes that were given back: whole holes on either side, or none.
pub(crate) proof fn lemma_hole_around_block(
    free: Set<int>,
    block: int,
    size: int,
    addr: int,
    len: int,
)
    requires
        whole_holes(free),
        0 < size,
        free.disjoint(vstd::set_lib::set_int_range(block, block + size)),
        ({
            let given = vstd::set_lib::set_int_range(block, block + size);
            crate::heap::is_hole(free.union(given), addr, len)
        }),
        addr < block + size,
        block < addr + len,
    ensures
        addr == block || {
            &&& addr % crate::heap::word() == 0
            &&& (block - addr) % crate::heap::word() == 0
            &&& addr + 2 * crate::heap::word() <= block
        },
        addr + len == block + size || {
            &&& (addr + len - block - size) % crate::heap::word() == 0
            &&& block + size + 2 * crate::heap::word() <= addr + len
        },
{
    let given = vstd::set_lib::set_int_range(block, block + size);
    let run = vstd::set_lib::set_int_range(addr, addr + len);
    let joined = free.union(given);
    if block < addr {
        assert(given.contains(addr - 1));
    }
    if addr + len < block + size {
        assert(given.contains(addr + len));
    }
    if addr < block {
        let front = vstd::set_lib::set_int_range(addr, block);
        assert forall|a: int| front.contains(a) implies free.contains(a) by {
            assert(run.contains(a));
            assert(joined.contains(a));
        }
        assert(given.contains(block));
        assert(crate::heap::is_hole(free, addr, block - addr));
    }
    if block + size < addr + len {
        let back = vstd::set_lib::set_int_range(block + size, addr + len);
        assert forall|a: int| back.contains(a) implies free.contains(a) by {
            assert(run.contains(a));
            assert(joined.contains(a));
        }
        assert(given.contains(block + size - 1));
        assert(crate::heap::is_hole(free, block + size, addr + len - block - size));
    }
}

/// Whole holes stay whole when a block of whole words is given back.
pub(crate) proof fn lemma_giving_keeps_holes_whole(free: Set<int>, block: int, size: int)
    requires
        whole_holes(free),
        block % crate::heap::word() == 0,
        size % crate::heap::word() == 0,
        2 * crate::heap::word() <= size,
        free.disjoint(vstd::set_lib::set_int_range(block, block + size)),
    ensures
        whole_holes(free.union(vstd::set_lib::set_int_range(block, block + size))),
{
    let word = crate::heap::word();
    assert(word == 4 || word == 8);
    let given = vstd::set_lib::set_int_range(block, block + size);
    let joined = free.union(given);
    assert forall|addr: int, len: int| #[trigger] crate::heap::is_hole(joined, addr, len) implies {
        &&& addr % word == 0
        &&& len % word == 0
        &&& 2 * word <= len
    } by {
        let run = vstd::set_lib::set_int_range(addr, addr + len);
        if addr < block + size && block < addr + len {
            lemma_hole_around_block(free, block, size, addr, len);
            lemma_words_add_up(block - addr, size);
            lemma_words_add_up(block - addr + size, addr + len - block - size);
        } else {
            assert forall|a: int| run.contains(a) implies free.contains(a) by {
                assert(joined.contains(a));
            }
            assert(crate::heap::is_hole(free, addr, len));
        }
    }
}

/// Free bytes in a row lie in a hole.
pub(crate) proof fn lemma_run_lies_in_hole(free: Set<int>, from: int, to: int, a: int, b: int)
    requires
        0 < from,
        free.subset_of(vstd::set_lib::set_int_range(from, to)),
        a < b,
        vstd::set_lib::set_int_range(a, b).subset_of(free),
    ensures
        exists|addr: int, len: int| #[trigger]
            crate::heap::is_hole(free, addr, len) && addr <= a && b <= addr + len,
    decreases (a - from) + (to - b),
{
    assert(vstd::set_lib::set_int_range(a, b).contains(a));
    assert(vstd::set_lib::set_int_range(a, b).contains(b - 1));
    assert(free.contains(a) && free.contains(b - 1));
    if free.contains(a - 1) {
        lemma_run_lies_in_hole(free, from, to, a - 1, b);
        let (addr, len) = choose|addr: int, len: int| #[trigger]
            crate::heap::is_hole(free, addr, len) && addr <= a - 1 && b <= addr + len;
        assert(crate::heap::is_hole(free, addr, len) && addr <= a && b <= addr + len);
    } else if free.contains(b) {
        lemma_run_lies_in_hole(free, from, to, a, b + 1);
        let (addr, len) = choose|addr: int, len: int| #[trigger]
            crate::heap::is_hole(free, addr, len) && addr <= a && b + 1 <= addr + len;
        assert(crate::heap::is_hole(free, addr, len) && addr <= a && b <= addr + len);
    } else {
        assert(crate::heap::is_hole(free, a, b - a));
    }
}

/// The hole around a block that was given back has room for another such block.
pub(crate) proof fn lemma_given_block_makes_room(
    free: Set<int>,
    from: int,
    to: int,
    block: int,
    size: int,
    align: int,
)
    requires
        0 < from,
        whole_holes(free),
        free.subset_of(vstd::set_lib::set_int_range(from, to)),
        from <= block,
        block + crate::heap::block_size(size) <= to,
        block % crate::heap::word() == 0,
        block % align == 0,
        0 <= size,
        0 < align,
        crate::request::is_power_of_two(align),
        free.disjoint(
            vstd::set_lib::set_int_range(block, block + crate::heap::block_size(size)),
        ),
    ensures
        ({
            let given = vstd::set_lib::set_int_range(
                block,
                block + crate::heap::block_size(size),
            );
            exists|addr: int, len: int| #[trigger]
                crate::heap::is_hole(free.union(given), addr, len) && crate::heap::takes(
                    addr,
                    len,
                    size,
                    align,
                )
        }),
{
    let word = crate::heap::word();
    let set_aside = crate::heap::block_size(size);
    let given = vstd::set_lib::set_int_range(block, block + set_aside);
    let joined = free.union(given);
    crate::mapping::lemma_block_size(size);
    lemma_run_lies_in_hole(joined, from, to, block, block + set_aside);
    let (addr, len) = choose|addr: int, len: int| #[trigger]
        crate::heap::is_hole(joined, addr, len) && addr <= block && block + set_aside <= addr
            + len;
    lemma_hole_around_block(free, block, set_aside, addr, len);
    lemma_placement_is_whole(addr, align);
    if addr % align != 0 {
        let at = crate::heap::placement(addr, align);
        crate::request::lemma_round_up(addr + 2 * word, align);
        crate::request::lemma_round_up(block, align);
        crate::request::lemma_round_up_is_ordered(addr + 2 * word, block, align);
        // The block moves down by nothing or by the alignment, which is more than a word.
        if at < block {
            vstd::arithmetic::div_mod::lemma_sub_mod_noop(block, at, align);
            if block - at < align {
                vstd::arithmetic::div_mod::lemma_small_mod((block - at) as nat, align as nat);
            }
            lemma_next_alignment(align);
        }
    }
    assert(crate::heap::takes(addr, len, size, align));
}

/// An alignment of more than a word is two words or more.
proof fn lemma_next_alignment(align: int)
    requires
        crate::request::is_power_of_two(align),
        crate::heap::word() < align,
    ensures
        2 * crate::heap::word() <= align,
{
    let word = crate::heap::word();
    assert(word == 4 || word == 8);
    vstd::arithmetic::power2::lemma2_to64();
    let w: nat = if word == 4 {
        2
    } else {
        3
    };
    let k = choose|k: nat| align == #[trigger] vstd::arithmetic::power2::pow2(k);
    if k <= w {
        if k < w {
            vstd::arithmetic::power2::lemma_pow2_strictly_increases(k, w);
        }
    } else if w + 1 < k {
        vstd::arithmetic::power2::lemma_pow2_strictly_increases(w + 1, k);
    }
}

} // verus!
