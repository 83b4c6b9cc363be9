//! Alignment arithmetic shared by both allocator strategies.

use vstd::prelude::*;

verus! {

use vstd::arithmetic::div_mod::{lemma_fundamental_div_mod, lemma_mod_bound, lemma_mod_multiples_basic};
use vstd::arithmetic::power::{lemma_pow_adds, lemma_pow_strictly_increases};
use vstd::arithmetic::power2::{is_pow2, is_pow2_exists, is_pow2_equiv};

/// The least multiple of `align` that is at least `addr`.
pub open spec fn spec_align_up(addr: int, align: int) -> int
    recommends
        addr >= 0,
        align >= 1,
{
    if addr % align == 0 {
        addr
    } else {
        addr + (align - addr % align)
    }
}

pub proof fn lemma_align_up_props(addr: int, align: int)
    requires
        addr >= 0,
        align >= 1,
    ensures
        spec_align_up(addr, align) >= addr,
        spec_align_up(addr, align) < addr + align,
        spec_align_up(addr, align) % align == 0,
{
    lemma_mod_bound(addr, align);
    if addr % align != 0 {
        let q = addr / align;
        lemma_fundamental_div_mod(addr, align);
        assert(spec_align_up(addr, align) == (q + 1) * align) by (nonlinear_arith)
            requires
                addr == align * q + addr % align,
                spec_align_up(addr, align) == addr + (align - addr % align),
        ;
        lemma_mod_multiples_basic(q + 1, align);
    }
}

/// A multiple of a multiple of `b` is itself a multiple of `b`.
pub proof fn lemma_aligned_multiple(x: int, a: int, b: int)
    requires
        a >= 1,
        b >= 1,
        a % b == 0,
        x % a == 0,
    ensures
        x % b == 0,
{
    let k = x / a;
    let m = a / b;
    lemma_fundamental_div_mod(x, a);
    lemma_fundamental_div_mod(a, b);
    assert(x == (m * k) * b) by (nonlinear_arith)
        requires
            x == a * k,
            a == b * m,
    ;
    lemma_mod_multiples_basic(m * k, b);
}

/// A smaller power of two divides a larger one.
pub proof fn lemma_pow2_divides(d: int, n: int)
    requires
        is_pow2(d),
        is_pow2(n),
        d <= n,
    ensures
        n % d == 0,
{
    lemma_pow2_positive(d);
    is_pow2_equiv(d);
    is_pow2_equiv(n);
    let i = choose|i: nat| vstd::arithmetic::power::pow(2, i) == d;
    let j = choose|j: nat| vstd::arithmetic::power::pow(2, j) == n;
    if j < i {
        lemma_pow_strictly_increases(2, j, i);
    }
    lemma_pow_adds(2, i, (j - i) as nat);
    lemma_mod_multiples_basic(vstd::arithmetic::power::pow(2, (j - i) as nat), d);
}

/// A power of two is positive.
pub proof fn lemma_pow2_positive(n: int)
    requires
        is_pow2(n),
    ensures
        n >= 1,
{
    reveal(is_pow2);
}

/// Rounds `addr` up to the next multiple of `align`; `None` when that
/// multiple does not fit in `u64`.
pub fn align_up(addr: u64, align: u64) -> (r: Option<u64>)
    requires
        align >= 1,
    ensures
        match r {
            Some(a) => a == spec_align_up(addr as int, align as int),
            None => spec_align_up(addr as int, align as int) > u64::MAX,
        },
{
    let rem = addr % align;
    if rem == 0 {
        Some(addr)
    } else {
        addr.checked_add(align - rem)
    }
}

} // verus!
