//! How the file is cut into maps.
//!
//! The file holds a fixed number of maps, one behind the other. The first is one page long and
//! each of the others is twice as long as the one before it.

use crate::arena::SecretArena;
use vstd::prelude::*;

verus! {

/// Motivated by one typical page size.
pub const MIN_SZ_POT2: u8 = 12;

/// The number of maps that the file is cut into.
pub const MAP_COUNT: usize = 48;

/// The position of a map in the file: its length is the page size times two to this power.
#[derive(Clone, Copy, PartialEq, Eq, Debug, Structural)]
pub struct MapIndexForPot(pub u8);

/// The length of map `i`.
pub open spec fn map_len(i: int) -> int {
    vstd::arithmetic::power2::pow2((i + MIN_SZ_POT2) as nat) as int
}

/// Where map `i` begins in the file: behind all the smaller ones.
pub open spec fn map_offset(i: int) -> int {
    map_len(i) - map_len(0)
}

/// Where map `i` ends in the file.
pub open spec fn map_end(i: int) -> int {
    map_offset(i) + map_len(i)
}

/// Whether there is a map `i` and both its ends can be held in a `usize`.
pub open spec fn addressable(i: int) -> bool {
    0 <= i < MAP_COUNT && i + MIN_SZ_POT2 + 1 < usize::BITS
}

/// The least index of a map that is longer than `size` bytes.
pub open spec fn minimum_index(size: int) -> int
    decreases size,
{
    if size < map_len(0) {
        0
    } else {
        proof {
            law_maps_double_in_length(0);
        }
        1 + minimum_index(size / 2)
    }
}

/// The number of binary digits of `size`.
spec fn bit_length(size: u64) -> int {
    64 - vstd::std_specs::bits::u64_leading_zeros(size)
}

/// The first map is a page long, and each of the others is twice as long as the one before it.
pub proof fn law_maps_double_in_length(i: int)
    requires
        0 <= i,
    ensures
        map_len(0) == 4096,
        map_len(i) >= 4096,
        map_len(i + 1) == 2 * map_len(i),
{
    vstd::arithmetic::power2::lemma2_to64();
    vstd::arithmetic::power2::lemma_pow2_unfold((i + 1 + MIN_SZ_POT2) as nat);
    if i > 0 {
        vstd::arithmetic::power2::lemma_pow2_strictly_increases(12, (i + MIN_SZ_POT2) as nat);
    }
}

pub(crate) proof fn lemma_map_len_increases(i: int, j: int)
    requires
        0 <= i < j,
    ensures
        map_len(i) < map_len(j),
{
    vstd::arithmetic::power2::lemma_pow2_strictly_increases(
        (i + MIN_SZ_POT2) as nat,
        (j + MIN_SZ_POT2) as nat,
    );
}

/// The maps tile the file: the first begins at its start, and each ends where the next begins.
pub proof fn law_maps_tile_the_file(i: int)
    requires
        0 <= i,
    ensures
        map_offset(0) == 0,
        map_end(i) == map_offset(i + 1),
{
    law_maps_double_in_length(i);
}

/// No two maps share a byte of the file.
pub proof fn law_maps_are_disjoint(i: int, j: int)
    requires
        0 <= i < j,
    ensures
        map_end(i) <= map_offset(j),
{
    law_maps_double_in_length(i);
    if i + 1 < j {
        lemma_map_len_increases(i + 1, j);
    }
}

/// The minimum index is the least one whose map is longer than the size.
pub proof fn law_minimum_index_is_least(size: int)
    requires
        0 <= size,
    ensures
        0 <= minimum_index(size),
        size < map_len(minimum_index(size)),
        forall|i: int| 0 <= i < minimum_index(size) ==> #[trigger] map_len(i) <= size,
    decreases size,
{
    law_maps_double_in_length(0);
    if size >= map_len(0) {
        law_minimum_index_is_least(size / 2);
        law_maps_double_in_length(minimum_index(size / 2));
        assert forall|i: int| 0 <= i < minimum_index(size) implies #[trigger] map_len(i) <= size by {
            if i > 0 {
                law_maps_double_in_length(i - 1);
                assert(map_len(i - 1) <= size / 2);
            }
        }
    }
}

proof fn lemma_bit_length_small(size: u64, k: nat)
    requires
        size < vstd::arithmetic::power2::pow2(k),
    ensures
        0 <= bit_length(size) <= k,
    decreases k,
{
    vstd::arithmetic::power2::lemma2_to64();
    vstd::std_specs::bits::axiom_u64_leading_zeros(size);
    reveal(vstd::std_specs::bits::u64_leading_zeros);
    if k > 0 {
        vstd::arithmetic::power2::lemma_pow2_unfold(k);
        lemma_bit_length_small(size / 2, (k - 1) as nat);
    }
}

proof fn lemma_minimum_index_is_bit_length(size: u64)
    ensures
        minimum_index(size as int) == if bit_length(size) <= MIN_SZ_POT2 {
            0
        } else {
            bit_length(size) - MIN_SZ_POT2
        },
    decreases size,
{
    law_maps_double_in_length(0);
    reveal(vstd::std_specs::bits::u64_leading_zeros);
    if size < 4096 {
        lemma_bit_length_small(size, 12);
    } else {
        lemma_minimum_index_is_bit_length(size / 2);
        assert(bit_length(size) == bit_length(size / 2) + 1);
        if bit_length(size / 2) < 12 {
            assert(bit_length(2048) == 12) by {
                reveal_with_fuel(vstd::std_specs::bits::u64_leading_zeros, 13);
            }
            lemma_bit_length_monotone(2048, size / 2);
        }
    }
}

proof fn lemma_bit_length_monotone(a: u64, b: u64)
    requires
        a <= b,
    ensures
        bit_length(a) <= bit_length(b),
    decreases b,
{
    vstd::std_specs::bits::axiom_u64_leading_zeros(a);
    vstd::std_specs::bits::axiom_u64_leading_zeros(b);
    reveal(vstd::std_specs::bits::u64_leading_zeros);
    if a > 0 {
        lemma_bit_length_monotone(a / 2, b / 2);
    }
}

impl SecretArena {
    /// Where a map begins in the file, and its length.
    pub fn offset_and_len_for(idx: MapIndexForPot) -> (place: (usize, usize))
        requires
            addressable(idx.0 as int),
        ensures
            place.0 == map_offset(idx.0 as int),
            place.1 == map_len(idx.0 as int),
            map_end(idx.0 as int) <= usize::MAX,
    {
        let pot: usize = idx.0 as usize + MIN_SZ_POT2 as usize;
        proof {
            vstd::bits::lemma_usize_pow2_no_overflow((pot + 1) as nat);
            vstd::bits::lemma_usize_pow2_no_overflow(pot as nat);
            vstd::bits::lemma_usize_pow2_no_overflow(12);
            vstd::bits::lemma_usize_shl_is_mul(1, pot);
            vstd::bits::lemma_usize_shl_is_mul(1, 12);
            law_maps_double_in_length(idx.0 as int);
        }
        let mapped_len: usize = 1usize << pot;
        (mapped_len - (1usize << MIN_SZ_POT2 as usize), mapped_len)
    }

    /// The smallest map that is longer than `size` bytes.
    pub fn to_minimum_map_index(size: usize) -> (index: MapIndexForPot)
        ensures
            index.0 == minimum_index(size as int),
    {
        proof {
            lemma_minimum_index_is_bit_length(size as u64);
            vstd::std_specs::bits::axiom_u64_leading_zeros(size as u64);
        }
        let pot: u32 = 64 - (size as u64).leading_zeros();
        MapIndexForPot(pot.saturating_sub(MIN_SZ_POT2 as u32) as u8)
    }
}

} // verus!
