//! A size/alignment pair describing a requested or occupied memory region,
//! together with the alignment arithmetic the allocator is built on.

use vstd::prelude::*;
use vstd::arithmetic::div_mod::{
    lemma_fundamental_div_mod, lemma_mod_division_less_than_divisor, lemma_mod_multiples_basic,
    lemma_mod_self_0, lemma_small_mod,
};

verus! {

/// True when `n` is a power of two (1, 2, 4, 8, ...).
pub open spec fn is_pow2(n: nat) -> bool
    decreases n,
{
    if n == 1 {
        true
    } else if n == 0 || n % 2 != 0 {
        false
    } else {
        is_pow2(n / 2)
    }
}

/// Distance from `addr` up to the next multiple of `a` (0 when `addr` is
/// already a multiple).  Opaque: everything the rest of the crate needs
/// of it is stated by `lemma_align_offset`.
#[verifier::opaque]
pub open spec fn align_offset_of(addr: int, a: int) -> int
    recommends a > 0,
{
    (a - addr % a) % a
}

/// `n` rounded up to the next multiple of `a`.
pub open spec fn round_up(n: int, a: int) -> int
    recommends a > 0,
{
    n + align_offset_of(n, a)
}

/// The larger of two mathematical integers.
pub open spec fn int_max(a: int, b: int) -> int {
    if a >= b { a } else { b }
}

pub proof fn lemma_pow2_pos(n: nat)
    requires is_pow2(n),
    ensures n >= 1,
    decreases n,
{
    if n != 1 {
        lemma_pow2_pos(n / 2);
    }
}

/// A smaller power of two divides a larger one.
pub proof fn lemma_pow2_divides(a: nat, b: nat)
    requires
        is_pow2(a),
        is_pow2(b),
        a <= b,
    ensures
        b % a == 0,
    decreases b,
{
    lemma_pow2_pos(a);
    if a == 1 {
        assert(b % 1 == 0);
    } else {
        // a and b are both even; divide the problem by two.
        assert(a % 2 == 0 && is_pow2(a / 2));
        assert(b != 1) by {
            assert(a >= 2);
        }
        assert(b % 2 == 0 && is_pow2(b / 2));
        lemma_pow2_divides(a / 2, b / 2);
        let ka = a / 2;
        let kb = b / 2;
        lemma_fundamental_div_mod(b as int, 2);
        lemma_fundamental_div_mod(a as int, 2);
        assert(b == 2 * kb && a == 2 * ka);
        lemma_fundamental_div_mod(kb as int, ka as int);
        let q = kb as int / ka as int;
        assert(kb == ka as int * q);
        assert(b == q * a) by (nonlinear_arith)
            requires b == 2 * kb, a == 2 * ka, kb == ka as int * q,
        {}
        lemma_mod_multiples_basic(q, a as int);
    }
}

/// Divisibility is transitive: a multiple of `b` is a multiple of `a`
/// whenever `b` itself is a multiple of `a`.
pub proof fn lemma_mod_multiple_trans(x: int, a: int, b: int)
    requires
        a > 0,
        b > 0,
        x % b == 0,
        b % a == 0,
    ensures
        x % a == 0,
{
    lemma_fundamental_div_mod(x, b);
    lemma_fundamental_div_mod(b, a);
    let qx = x / b;
    let qb = b / a;
    assert(x == (qx * qb) * a) by (nonlinear_arith)
        requires x == b * qx, b == a * qb,
    {}
    lemma_mod_multiples_basic(qx * qb, a);
}

/// `align_offset_of` lands on a multiple of `a` and is smaller than `a`.
pub proof fn lemma_align_offset(addr: int, a: int)
    requires
        a > 0,
    ensures
        0 <= align_offset_of(addr, a) < a,
        (addr + align_offset_of(addr, a)) % a == 0,
        addr % a == 0 ==> align_offset_of(addr, a) == 0,
        addr % a != 0 ==> align_offset_of(addr, a) == a - addr % a,
{
    reveal(align_offset_of);
    let m = addr % a;
    lemma_mod_division_less_than_divisor(addr, a);
    if m == 0 {
        lemma_mod_self_0(a);
        assert(align_offset_of(addr, a) == 0);
    } else {
        lemma_small_mod((a - m) as nat, a as nat);
        assert(align_offset_of(addr, a) == a - m);
        lemma_fundamental_div_mod(addr, a);
        let q = addr / a;
        assert(addr + (a - m) == (q + 1) * a) by (nonlinear_arith)
            requires addr == a * q + m,
        {}
        lemma_mod_multiples_basic(q + 1, a);
    }
}

/// `round_up` produces the least multiple of `a` that is at least `n`.
pub proof fn lemma_round_up(n: int, a: int)
    requires
        a > 0,
    ensures
        n <= round_up(n, a) < n + a,
        round_up(n, a) % a == 0,
        n % a == 0 ==> round_up(n, a) == n,
{
    lemma_align_offset(n, a);
}

/// Rounding a small positive `n` up to a larger alignment gives the
/// alignment itself.
pub proof fn lemma_round_up_small(n: int, a: int)
    requires
        0 <= n < a,
    ensures
        n > 0 ==> round_up(n, a) == a,
        n == 0 ==> round_up(n, a) == 0,
{
    reveal(align_offset_of);
    lemma_small_mod(n as nat, a as nat);
    if n > 0 {
        lemma_small_mod((a - n) as nat, a as nat);
    } else {
        lemma_mod_self_0(a);
    }
}

/// A size/alignment pair.  `align` must be a power of two, and the pair
/// must describe a region a real address space can hold: `size` rounded up
/// to `align` stays within half the address range.
#[derive(Clone, Copy, Debug, PartialEq, Eq, Structural)]
pub struct Layout {
    pub size: usize,
    pub align: usize,
}

impl Layout {
    /// Validity of the pair: power-of-two alignment and a bounded extent.
    pub open spec fn wf(self) -> bool {
        &&& is_pow2(self.align as nat)
        &&& self.size + self.align - 1 <= usize::MAX as int / 2
    }

    /// Builds a layout after checking validity; `None` exactly on the
    /// pairs `wf` rejects.
    pub fn from_size_align(size: usize, align: usize) -> (r: Option<Layout>)
        ensures
            match r {
                Some(l) => l.size == size && l.align == align && l.wf(),
                None => !(Layout { size, align }).wf(),
            },
    {
        if !power_of_two(align) {
            return None;
        }
        proof { lemma_pow2_pos(align as nat); }
        let half: usize = usize::MAX / 2;
        if align - 1 > half {
            return None;
        }
        if size <= half - (align - 1) {
            Some(Layout { size, align })
        } else {
            None
        }
    }
}

/// Runtime power-of-two test, equal to the `is_pow2` specification.
pub fn power_of_two(n: usize) -> (r: bool)
    ensures r == is_pow2(n as nat),
{
    if n == 0 {
        return false;
    }
    let mut m: usize = n;
    while m % 2 == 0
        invariant
            m >= 1,
            is_pow2(n as nat) == is_pow2(m as nat),
        decreases m,
    {
        m = m / 2;
    }
    m == 1
}

/// Runtime counterpart of `align_offset_of`.
pub fn align_offset(addr: usize, a: usize) -> (r: usize)
    requires
        a > 0,
    ensures
        r == align_offset_of(addr as int, a as int),
        r < a,
{
    proof { lemma_align_offset(addr as int, a as int); }
    let m: usize = addr % a;
    if m == 0 {
        0
    } else {
        a - m
    }
}

} // verus!
