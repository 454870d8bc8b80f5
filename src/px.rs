//! Pixel arithmetic on `i64` that saturates at the ends of the range.
use vstd::prelude::*;

verus! {

/// `x` brought into the range of `i64`.
pub open spec fn clamp(x: int) -> int {
    if x < i64::MIN {
        i64::MIN as int
    } else if x > i64::MAX {
        i64::MAX as int
    } else {
        x
    }
}

/// `a + b`, saturated.
pub fn sat_add(a: i64, b: i64) -> (r: i64)
    ensures
        r == clamp(a + b),
{
    let s: i128 = a as i128 + b as i128;
    if s < i64::MIN as i128 {
        i64::MIN
    } else if s > i64::MAX as i128 {
        i64::MAX
    } else {
        s as i64
    }
}

/// `a - b`, saturated.
pub fn sat_sub(a: i64, b: i64) -> (r: i64)
    ensures
        r == clamp(a - b),
{
    let s: i128 = a as i128 - b as i128;
    if s < i64::MIN as i128 {
        i64::MIN
    } else if s > i64::MAX as i128 {
        i64::MAX
    } else {
        s as i64
    }
}

/// `a * b`, saturated.
pub fn sat_mul(a: i64, b: i64) -> (r: i64)
    ensures
        r == clamp(a * b),
{
    let x: i128 = a as i128;
    let y: i128 = b as i128;
    proof {
        let xi: int = x as int;
        let yi: int = y as int;
        let ax: int = if xi < 0 { -xi } else { xi };
        let ay: int = if yi < 0 { -yi } else { yi };
        vstd::arithmetic::mul::lemma_mul_upper_bound(ax, 0x8000_0000_0000_0000, ay, 0x8000_0000_0000_0000);
        assert(0x8000_0000_0000_0000int * 0x8000_0000_0000_0000int == 0x4000_0000_0000_0000_0000_0000_0000_0000int);
        assert(ax * ay == if (xi < 0) == (yi < 0) { xi * yi } else { -(xi * yi) }) by (nonlinear_arith)
            requires
                ax == if xi < 0 { -xi } else { xi },
                ay == if yi < 0 { -yi } else { yi },
        ;
    }
    let p: i128 = x * y;
    if p < i64::MIN as i128 {
        i64::MIN
    } else if p > i64::MAX as i128 {
        i64::MAX
    } else {
        p as i64
    }
}

} // verus!
