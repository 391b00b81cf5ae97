//! What a caller asks of the allocator: a number of bytes and their alignment.

use vstd::prelude::*;

verus! {

/// The least multiple of `unit` that is not below `n`.
pub open spec fn round_up(n: int, unit: int) -> int {
    (n + unit - 1) / unit * unit
}

/// The greatest multiple of `unit` that is not above `n`.
pub open spec fn round_down(n: int, unit: int) -> int {
    n / unit * unit
}

/// Whether `n` is a power of two.
pub open spec fn is_power_of_two(n: int) -> bool {
    exists|k: nat| n == #[trigger] vstd::arithmetic::power2::pow2(k)
}

/// The contents of a [`Request`].
pub struct RequestView {
    pub size: usize,
    pub align: usize,
}

impl RequestView {
    /// Whether this is the size and alignment of a memory layout.
    pub open spec fn valid(self) -> bool {
        &&& is_power_of_two(self.align as int)
        &&& round_up(self.size as int, self.align as int) <= isize::MAX
    }

    /// The size with the padding that the alignment asks for.
    pub open spec fn padded(self) -> int {
        round_up(self.size as int, self.align as int)
    }

    /// The first map that is asked for room.
    pub open spec fn first_map(self) -> int {
        crate::geometry::minimum_index(self.padded())
    }
}

/// The size and the alignment of an allocation.
///
/// The alignment is a power of two, and the size does not exceed `isize::MAX` when it is rounded
/// up to a multiple of the alignment.
#[derive(Clone, Copy, Debug)]
pub struct Request {
    size: usize,
    align: usize,
}

impl View for Request {
    type V = RequestView;

    closed spec fn view(&self) -> RequestView {
        RequestView { size: self.size, align: self.align }
    }
}

pub(crate) proof fn lemma_round_up(n: int, unit: int)
    requires
        0 <= n,
        0 < unit,
    ensures
        n <= round_up(n, unit) < n + unit,
        round_up(n, unit) % unit == 0,
        n % unit == 0 ==> round_up(n, unit) == n,
{
    let q = (n + unit - 1) / unit;
    vstd::arithmetic::div_mod::lemma_fundamental_div_mod(n + unit - 1, unit);
    vstd::arithmetic::mul::lemma_mul_is_commutative(unit, q);
    vstd::arithmetic::div_mod::lemma_mod_multiples_basic(q, unit);
    if n % unit == 0 {
        vstd::arithmetic::div_mod::lemma_fundamental_div_mod(n, unit);
        vstd::arithmetic::div_mod::lemma_fundamental_div_mod_converse(
            n + unit - 1,
            unit,
            n / unit,
            unit - 1,
        );
        vstd::arithmetic::mul::lemma_mul_is_commutative(unit, n / unit);
    }
}

pub(crate) proof fn lemma_round_up_is_ordered(m: int, n: int, unit: int)
    requires
        m <= n,
        0 < unit,
    ensures
        round_up(m, unit) <= round_up(n, unit),
{
    vstd::arithmetic::div_mod::lemma_div_is_ordered(m + unit - 1, n + unit - 1, unit);
    vstd::arithmetic::mul::lemma_mul_inequality(
        (m + unit - 1) / unit,
        (n + unit - 1) / unit,
        unit,
    );
}

pub(crate) proof fn lemma_round_down(n: int, unit: int)
    requires
        0 <= n,
        0 < unit,
    ensures
        n - unit < round_down(n, unit) <= n,
        round_down(n, unit) % unit == 0,
        n % unit == 0 ==> round_down(n, unit) == n,
{
    vstd::arithmetic::div_mod::lemma_fundamental_div_mod(n, unit);
    vstd::arithmetic::mul::lemma_mul_is_commutative(unit, n / unit);
    vstd::arithmetic::div_mod::lemma_mod_multiples_basic(n / unit, unit);
}

/// Whether `n` is a power of two.
fn power_of_two(n: usize) -> (answer: bool)
    ensures
        answer == is_power_of_two(n as int),
{
    let mut power: usize = 1;
    let ghost mut exponent: nat = 0;
    proof {
        vstd::arithmetic::power2::lemma2_to64();
        assert forall|k: nat| k > 0 implies #[trigger] vstd::arithmetic::power2::pow2(k) >= 2 by {
            vstd::arithmetic::power2::lemma_pow2_unfold(k);
            vstd::arithmetic::power2::lemma_pow2_pos((k - 1) as nat);
        }
    }
    while power < n
        invariant
            power == vstd::arithmetic::power2::pow2(exponent),
            forall|k: nat| k < exponent ==> #[trigger] vstd::arithmetic::power2::pow2(k) < n,
            forall|k: nat|
                k > exponent ==> #[trigger] vstd::arithmetic::power2::pow2(k) >= 2 * power,
        decreases usize::MAX - power,
    {
        proof {
            vstd::arithmetic::power2::lemma_pow2_pos(exponent);
        }
        if power > usize::MAX / 2 {
            proof {
                assert forall|k: nat| n != #[trigger] vstd::arithmetic::power2::pow2(k) by {
                    if k == exponent {
                    } else if k > exponent {
                    }
                }
            }
            return false;
        }
        proof {
            vstd::arithmetic::power2::lemma_pow2_unfold(exponent + 1);
            assert forall|k: nat| k < exponent + 1 implies #[trigger] vstd::arithmetic::power2::pow2(
                k,
            ) < n by {
                if k == exponent {
                }
            }
            exponent = exponent + 1;
            assert forall|k: nat| k > exponent implies #[trigger] vstd::arithmetic::power2::pow2(k)
                >= 4 * power by {
                vstd::arithmetic::power2::lemma_pow2_unfold(k);
                assert(vstd::arithmetic::power2::pow2((k - 1) as nat) >= 2 * power);
            }
        }
        power = power * 2;
    }
    proof {
        if power != n {
            vstd::arithmetic::power2::lemma_pow2_pos(exponent);
            assert forall|k: nat| n != #[trigger] vstd::arithmetic::power2::pow2(k) by {
                if k == exponent {
                } else if k > exponent {
                }
            }
        }
    }
    power == n
}

impl Request {
    #[verifier::type_invariant]
    spec fn well_formed(self) -> bool {
        self@.valid()
    }

    /// The request for `size` bytes at a multiple of `align`, or `None` where these are not the
    /// size and the alignment of a memory layout.
    pub fn new(size: usize, align: usize) -> (request: Option<Request>)
        ensures
            request matches Some(r) ==> r@ == (RequestView { size, align }),
            request is Some <==> (RequestView { size, align }).valid(),
    {
        if !power_of_two(align) {
            return None;
        }
        proof {
            let k = choose|k: nat| align as int == #[trigger] vstd::arithmetic::power2::pow2(k);
            vstd::arithmetic::power2::lemma_pow2_pos(k);
            lemma_round_up(size as int, align as int);
        }
        let rest: usize = size % align;
        proof {
            lemma_padding(size as int, align as int);
        }
        if size > isize::MAX as usize || (rest != 0 && align - rest > isize::MAX as usize - size) {
            return None;
        }
        Some(Request { size, align })
    }

    /// The number of bytes asked for.
    pub fn size(&self) -> (size: usize)
        ensures
            size == self@.size,
            self@.valid(),
    {
        proof {
            use_type_invariant(self);
        }
        self.size
    }

    /// The alignment asked for.
    pub fn align(&self) -> (align: usize)
        ensures
            align == self@.align,
    {
        self.align
    }

    /// The size with the padding that the alignment asks for.
    pub fn padded(&self) -> (padded: usize)
        ensures
            padded == self@.padded(),
            self@.valid(),
            self@.align > 0,
    {
        proof {
            use_type_invariant(self);
            lemma_align_positive(self@);
            lemma_padding(self.size as int, self.align as int);
        }
        let rest: usize = self.size % self.align;
        if rest == 0 {
            self.size
        } else {
            self.size + (self.align - rest)
        }
    }
}

pub(crate) proof fn lemma_align_positive(request: RequestView)
    requires
        request.valid(),
    ensures
        request.align > 0,
        request.size <= request.padded(),
{
    let k = choose|k: nat| request.align as int == #[trigger] vstd::arithmetic::power2::pow2(k);
    vstd::arithmetic::power2::lemma_pow2_pos(k);
    lemma_round_up(request.size as int, request.align as int);
}

pub(crate) proof fn lemma_padding(n: int, unit: int)
    requires
        0 <= n,
        0 < unit,
    ensures
        round_up(n, unit) == if n % unit == 0 {
            n
        } else {
            n + (unit - n % unit)
        },
{
    lemma_round_up(n, unit);
    if n % unit != 0 {
        let q = n / unit;
        vstd::arithmetic::div_mod::lemma_fundamental_div_mod(n, unit);
        vstd::arithmetic::mul::lemma_mul_is_commutative(unit, q);
        vstd::arithmetic::mul::lemma_mul_is_distributive_add_other_way(unit, q, 1);
        vstd::arithmetic::div_mod::lemma_fundamental_div_mod_converse(
            n + unit - 1,
            unit,
            q + 1,
            n % unit - 1,
        );
    }
}

/// What a power of two divides, the lesser ones divide too.
pub(crate) proof fn lemma_alignment_divides(n: int, align: int, i: nat)
    requires
        0 <= n,
        n % (vstd::arithmetic::power2::pow2(i) as int) == 0,
        is_power_of_two(align),
        align <= vstd::arithmetic::power2::pow2(i),
    ensures
        n % align == 0,
{
    let k = choose|k: nat| align == #[trigger] vstd::arithmetic::power2::pow2(k);
    if k > i {
        vstd::arithmetic::power2::lemma_pow2_strictly_increases(i, k);
    }
    let rest = (i - k) as nat;
    let whole = vstd::arithmetic::power2::pow2(i) as int;
    let times = vstd::arithmetic::power2::pow2(rest) as int;
    vstd::arithmetic::power2::lemma_pow2_pos(i);
    vstd::arithmetic::power2::lemma_pow2_pos(k);
    vstd::arithmetic::power2::lemma_pow2_adds(k, rest);
    vstd::arithmetic::div_mod::lemma_fundamental_div_mod(n, whole);
    assert(n == (n / whole * times) * align) by (nonlinear_arith)
        requires
            n == whole * (n / whole),
            whole == align * times,
    ;
    vstd::arithmetic::div_mod::lemma_mod_multiples_basic(n / whole * times, align);
}

} // verus!
