//! Address-alignment helpers: rounding an address up or down to a multiple
//! of a power-of-two alignment, and testing whether a value is a power of two.

use vstd::prelude::*;
use vstd::arithmetic::div_mod::{
    lemma_fundamental_div_mod, lemma_mod_division_less_than_divisor, lemma_mod_multiples_basic,
    lemma_div_multiples_vanish,
};
use vstd::arithmetic::power2::is_pow2;

verus! {

/// The smallest multiple of `align` that is at least `addr`.
pub open spec fn spec_align_up(addr: int, align: int) -> int
    recommends
        align > 0,
{
    if addr % align == 0 {
        addr
    } else {
        addr + align - addr % align
    }
}

/// The largest multiple of `align` that is at most `addr`.
pub open spec fn spec_align_down(addr: int, align: int) -> int
    recommends
        align > 0,
{
    addr - addr % align
}

/// A power of two is positive.
pub proof fn lemma_pow2_positive(x: int)
    requires
        is_pow2(x),
    ensures
        x > 0,
{
    reveal(is_pow2);
}

/// Rounding up lands on a multiple of `align` no further than
/// `align - 1` past `addr`.
pub proof fn lemma_align_up_bounds(addr: int, align: int)
    requires
        align > 0,
        addr >= 0,
    ensures
        spec_align_up(addr, align) % align == 0,
        addr <= spec_align_up(addr, align) < addr + align,
{
    lemma_fundamental_div_mod(addr, align);
    lemma_mod_division_less_than_divisor(addr, align);
    let q = addr / align;
    let r = addr % align;
    if r != 0 {
        assert(addr + align - r == (q + 1) * align) by (nonlinear_arith)
            requires
                addr == align * q + r,
        ;
        lemma_mod_multiples_basic(q + 1, align);
    }
}

/// Rounding down lands on a multiple of `align` no further than
/// `align - 1` below `addr`, and does not change the quotient by `align`.
pub proof fn lemma_align_down_bounds(addr: int, align: int)
    requires
        align > 0,
        addr >= 0,
    ensures
        spec_align_down(addr, align) % align == 0,
        addr - align < spec_align_down(addr, align) <= addr,
        0 <= spec_align_down(addr, align),
        spec_align_down(addr, align) / align == addr / align,
{
    lemma_fundamental_div_mod(addr, align);
    lemma_mod_division_less_than_divisor(addr, align);
    vstd::arithmetic::div_mod::lemma_div_pos_is_pos(addr, align);
    let q = addr / align;
    let r = addr % align;
    assert(q * align == align * q) by (nonlinear_arith);
    assert(spec_align_down(addr, align) == align * q);
    assert(align * q >= 0) by (nonlinear_arith)
        requires
            q >= 0,
            align > 0,
    ;
    lemma_mod_multiples_basic(q, align);
    lemma_div_multiples_vanish(q, align);
}

/// Reports whether `x` is a power of two.
pub fn is_power_of_two(x: usize) -> (r: bool)
    ensures
        r == is_pow2(x as int),
{
    proof {
        reveal(is_pow2);
    }
    if x == 0 {
        return false;
    }
    let mut v: usize = x;
    while v > 1
        invariant
            v >= 1,
            is_pow2(x as int) == is_pow2(v as int),
        decreases v,
    {
        proof {
            reveal(is_pow2);
        }
        if v % 2 == 1 {
            return false;
        }
        v = v / 2;
    }
    proof {
        reveal(is_pow2);
    }
    true
}

/// Rounds `addr` up to the next multiple of `align`, which must be a power
/// of two; the rounded address must still fit in `usize`.
pub fn align_up(addr: usize, align: usize) -> (r: usize)
    requires
        is_pow2(align as int),
        spec_align_up(addr as int, align as int) <= usize::MAX,
    ensures
        r == spec_align_up(addr as int, align as int),
        r as int % align as int == 0,
        addr <= r < addr + align,
{
    proof {
        lemma_pow2_positive(align as int);
        lemma_align_up_bounds(addr as int, align as int);
    }
    let rem = addr % align;
    if rem == 0 {
        addr
    } else {
        addr + (align - rem)
    }
}

/// Rounds `addr` down to the previous multiple of `align`, which must be a
/// power of two.
pub fn align_down(addr: usize, align: usize) -> (r: usize)
    requires
        is_pow2(align as int),
    ensures
        r == spec_align_down(addr as int, align as int),
        r as int % align as int == 0,
        addr - align < r <= addr,
        r as int / align as int == addr as int / align as int,
{
    proof {
        lemma_pow2_positive(align as int);
        lemma_align_down_bounds(addr as int, align as int);
    }
    addr - (addr % align)
}

} // verus!
