//! Saturating fixed-point numbers with 32 fractional bits.
//!
//! A `Fixed` holds a signed count of units of 2^-32. Every operation is
//! total: a result outside the range of `i64` is replaced by the nearest
//! bound, and a quotient is rounded toward zero.

use vstd::prelude::*;

verus! {

/// The number of units in one: 2^32.
pub const SCALE: i64 = 4294967296;

/// A fixed-point number: `raw` units of 2^-32.
#[derive(Clone, Copy, Debug, PartialEq, Eq, Structural)]
pub struct Fixed {
    pub raw: i64,
}

/// The value of `i64` nearest to `v`.
pub open spec fn saturate(v: int) -> i64 {
    if v < i64::MIN {
        i64::MIN
    } else if v > i64::MAX {
        i64::MAX
    } else {
        v as i64
    }
}

/// The quotient of `n` by `d`, rounded toward zero, for `d != 0`.
pub open spec fn quotient_toward_zero(n: int, d: int) -> int {
    if n >= 0 && d > 0 {
        n / d
    } else if n >= 0 {
        -(n / (-d))
    } else if d > 0 {
        -((-n) / d)
    } else {
        (-n) / (-d)
    }
}

/// `r` is the square root of `n`, rounded down.
pub open spec fn is_floor_sqrt(n: int, r: int) -> bool {
    0 <= r && r * r <= n && n < (r + 1) * (r + 1)
}

/// The square root of `n`, rounded down, for `n >= 0`.
pub open spec fn floor_sqrt(n: int) -> int {
    choose|r: int| is_floor_sqrt(n, r)
}

/// At most one number is the floor of the square root of `n`.
pub proof fn lemma_floor_sqrt_unique(n: int, r: int, s: int)
    requires
        is_floor_sqrt(n, r),
        is_floor_sqrt(n, s),
    ensures
        r == s,
{
    if r < s {
        assert((r + 1) * (r + 1) <= s * s) by (nonlinear_arith)
            requires
                0 <= r,
                r + 1 <= s,
        ;
    } else if s < r {
        assert((s + 1) * (s + 1) <= r * r) by (nonlinear_arith)
            requires
                0 <= s,
                s + 1 <= r,
        ;
    }
}

/// `floor_sqrt(n)` is `r` as soon as `r` is a square root of `n`, rounded
/// down.
pub proof fn lemma_floor_sqrt_is(n: int, r: int)
    requires
        is_floor_sqrt(n, r),
    ensures
        floor_sqrt(n) == r,
{
    let s = floor_sqrt(n);
    assert(is_floor_sqrt(n, s));
    lemma_floor_sqrt_unique(n, r, s);
}

/// Every number that is not negative has a square root, rounded down.
pub proof fn lemma_floor_sqrt_exists(n: int)
    requires
        0 <= n,
    ensures
        is_floor_sqrt(n, floor_sqrt(n)),
    decreases n,
{
    if n == 0 {
        assert(is_floor_sqrt(0, 0));
    } else {
        lemma_floor_sqrt_exists(n - 1);
        let r = floor_sqrt(n - 1);
        if n < (r + 1) * (r + 1) {
            assert(is_floor_sqrt(n, r));
        } else {
            assert((r + 2) * (r + 2) > (r + 1) * (r + 1)) by (nonlinear_arith)
                requires
                    0 <= r,
            ;
            assert(is_floor_sqrt(n, r + 1));
        }
    }
}

/// The square root, rounded down, never shrinks as the number grows.
pub proof fn lemma_floor_sqrt_grows(a: int, b: int)
    requires
        0 <= a <= b,
    ensures
        0 <= floor_sqrt(a) <= floor_sqrt(b),
{
    lemma_floor_sqrt_exists(a);
    lemma_floor_sqrt_exists(b);
    let r = floor_sqrt(a);
    let t = floor_sqrt(b);
    if t < r {
        assert((t + 1) * (t + 1) <= r * r) by (nonlinear_arith)
            requires
                0 <= t,
                t + 1 <= r,
        ;
    }
}

fn clamp_wide(v: i128) -> (r: i64)
    ensures
        r == saturate(v as int),
{
    if v < -9223372036854775808i128 {
        i64::MIN
    } else if v > 9223372036854775807i128 {
        i64::MAX
    } else {
        v as i64
    }
}

fn divide_toward_zero(n: i128, d: i128) -> (q: i128)
    requires
        d != 0,
        n > i128::MIN,
        d > i128::MIN,
    ensures
        q == quotient_toward_zero(n as int, d as int),
{
    if n >= 0 && d > 0 {
        n / d
    } else if n >= 0 {
        let m: i128 = -d;
        let q: i128 = n / m;
        -q
    } else if d > 0 {
        let m: i128 = -n;
        let q: i128 = m / d;
        -q
    } else {
        let m: i128 = -n;
        let e: i128 = -d;
        m / e
    }
}

/// The square root of `n`, rounded down.
pub(crate) fn integer_sqrt(n: u128) -> (r: u128)
    requires
        n < 0x4000_0000_0000_0000_0000_0000_0000_0000,
    ensures
        is_floor_sqrt(n as int, r as int),
        r < 0x8000_0000_0000_0000,
{
    let mut lo: u128 = 0;
    let mut hi: u128 = 0x8000_0000_0000_0000;
    assert(n < hi * hi) by (nonlinear_arith)
        requires
            n < 0x4000_0000_0000_0000_0000_0000_0000_0000,
            hi == 0x8000_0000_0000_0000,
    ;
    while hi - lo > 1
        invariant
            lo < hi <= 0x8000_0000_0000_0000,
            lo * lo <= n < hi * hi,
        decreases hi - lo,
    {
        let mid: u128 = lo + (hi - lo) / 2;
        assert(mid * mid < 0x4000_0000_0000_0000_0000_0000_0000_0000) by (nonlinear_arith)
            requires
                mid < 0x8000_0000_0000_0000,
        ;
        if mid * mid <= n {
            lo = mid;
        } else {
            hi = mid;
        }
    }
    lo
}

impl Fixed {
    /// Zero.
    pub open spec fn zero() -> Fixed {
        Fixed { raw: 0 }
    }

    /// One.
    pub open spec fn one() -> Fixed {
        Fixed { raw: SCALE }
    }

    /// The number of `n` whole units, saturated.
    pub open spec fn of_int(n: int) -> Fixed {
        Fixed { raw: saturate(n * SCALE) }
    }

    /// The saturated sum.
    pub open spec fn sum(self, rhs: Fixed) -> Fixed {
        Fixed { raw: saturate(self.raw + rhs.raw) }
    }

    /// The saturated difference.
    pub open spec fn difference(self, rhs: Fixed) -> Fixed {
        Fixed { raw: saturate(self.raw - rhs.raw) }
    }

    /// The saturated product, rounded toward zero.
    pub open spec fn product(self, rhs: Fixed) -> Fixed {
        Fixed { raw: saturate(quotient_toward_zero(self.raw * rhs.raw, SCALE as int)) }
    }

    /// The saturated quotient, rounded toward zero. A quotient by zero is
    /// the bound on the side of the dividend's sign, and zero for zero.
    pub open spec fn quotient(self, rhs: Fixed) -> Fixed {
        if rhs.raw == 0 {
            if self.raw > 0 {
                Fixed { raw: i64::MAX }
            } else if self.raw < 0 {
                Fixed { raw: i64::MIN }
            } else {
                Fixed { raw: 0 }
            }
        } else {
            Fixed { raw: saturate(quotient_toward_zero(self.raw * SCALE, rhs.raw as int)) }
        }
    }

    /// The quotient by a count `n`, rounded toward zero; by zero as in
    /// `quotient`.
    pub open spec fn shared_among(self, n: int) -> Fixed {
        if n == 0 {
            self.quotient(Fixed::zero())
        } else {
            Fixed { raw: saturate(quotient_toward_zero(self.raw as int, n)) }
        }
    }

    /// The square root, rounded down; zero for a negative number.
    pub open spec fn root(self) -> Fixed {
        if self.raw <= 0 {
            Fixed { raw: 0 }
        } else {
            Fixed { raw: saturate(floor_sqrt(self.raw * SCALE)) }
        }
    }

    /// `from_raw(raw)` is the number of `raw` units of 2^-32.
    pub fn from_raw(raw: i64) -> (r: Fixed)
        ensures
            r.raw == raw,
    {
        Fixed { raw }
    }

    /// The count of units of 2^-32.
    pub fn to_raw(self) -> (r: i64)
        ensures
            r == self.raw,
    {
        self.raw
    }

    /// The number of `n` whole units, saturated.
    pub fn from_int(n: i64) -> (r: Fixed)
        ensures
            r == Fixed::of_int(n as int),
    {
        let wide: i128 = n as i128;
        assert(-170141183460469231731687303715884105728 <= wide * 4294967296
            <= 170141183460469231731687303715884105727) by (nonlinear_arith)
            requires
                -9223372036854775808 <= wide <= 9223372036854775807,
        ;
        Fixed { raw: clamp_wide(wide * 4294967296i128) }
    }

    /// `a.sat_add(b)` is the saturated sum of `a` and `b`.
    pub fn sat_add(self, rhs: Fixed) -> (r: Fixed)
        ensures
            r == self.sum(rhs),
    {
        let wide: i128 = self.raw as i128 + rhs.raw as i128;
        Fixed { raw: clamp_wide(wide) }
    }

    /// `a.sat_sub(b)` is the saturated difference of `a` and `b`.
    pub fn sat_sub(self, rhs: Fixed) -> (r: Fixed)
        ensures
            r == self.difference(rhs),
    {
        let wide: i128 = self.raw as i128 - rhs.raw as i128;
        Fixed { raw: clamp_wide(wide) }
    }

    /// `a.sat_mul(b)` is the saturated product of `a` and `b`, rounded
    /// toward zero.
    pub fn sat_mul(self, rhs: Fixed) -> (r: Fixed)
        ensures
            r == self.product(rhs),
    {
        let a: i128 = self.raw as i128;
        let b: i128 = rhs.raw as i128;
        assert(-0x4000_0000_0000_0000_0000_0000_0000_0000 <= a * b
            <= 0x4000_0000_0000_0000_0000_0000_0000_0000) by (nonlinear_arith)
            requires
                -0x8000_0000_0000_0000 <= a <= 0x8000_0000_0000_0000,
                -0x8000_0000_0000_0000 <= b <= 0x8000_0000_0000_0000,
        ;
        Fixed { raw: clamp_wide(divide_toward_zero(a * b, 4294967296i128)) }
    }

    /// `a.sat_div(b)` is the saturated quotient of `a` by `b`, rounded
    /// toward zero; for `b` zero, the bound on the side of `a`'s sign, or
    /// zero where `a` is zero.
    pub fn sat_div(self, rhs: Fixed) -> (r: Fixed)
        ensures
            r == self.quotient(rhs),
    {
        if rhs.raw == 0 {
            if self.raw > 0 {
                Fixed { raw: i64::MAX }
            } else if self.raw < 0 {
                Fixed { raw: i64::MIN }
            } else {
                Fixed { raw: 0 }
            }
        } else {
            let a: i128 = self.raw as i128;
            assert(-0x8000_0000_0000_0000_0000_0000 <= a * 4294967296
                <= 0x8000_0000_0000_0000_0000_0000) by (nonlinear_arith)
                requires
                    -0x8000_0000_0000_0000 <= a <= 0x8000_0000_0000_0000,
            ;
            Fixed { raw: clamp_wide(divide_toward_zero(a * 4294967296i128, rhs.raw as i128)) }
        }
    }

    /// `a.div_count(n)` is `a` shared among `n`, rounded toward zero; for
    /// `n` zero, what `sat_div` gives for a zero divisor.
    pub fn div_count(self, n: usize) -> (r: Fixed)
        ensures
            r == self.shared_among(n as int),
    {
        if n == 0 {
            self.sat_div(Fixed { raw: 0 })
        } else {
            Fixed { raw: clamp_wide(divide_toward_zero(self.raw as i128, n as i128)) }
        }
    }

    /// `a.sqrt()` is the square root of `a`, rounded down; zero for a
    /// negative `a`.
    pub fn sqrt(self) -> (r: Fixed)
        ensures
            r == self.root(),
    {
        if self.raw <= 0 {
            Fixed { raw: 0 }
        } else {
            let a: u128 = self.raw as u128;
            assert(a * 4294967296 < 0x4000_0000_0000_0000_0000_0000_0000_0000) by (nonlinear_arith)
                requires
                    a < 0x8000_0000_0000_0000,
            ;
            let r: u128 = integer_sqrt(a * 4294967296u128);
            proof {
                lemma_floor_sqrt_is(self.raw * SCALE, r as int);
            }
            Fixed { raw: r as i64 }
        }
    }
}

/// One is neutral for the product, and zero for the sum.
pub proof fn lemma_neutral(x: Fixed)
    ensures
        x.product(Fixed::one()) == x,
        Fixed::one().product(x) == x,
        x.sum(Fixed::zero()) == x,
        Fixed::zero().sum(x) == x,
        x.difference(Fixed::zero()) == x,
{
    let s = SCALE as int;
    let n = x.raw * s;
    if x.raw >= 0 {
        assert(n >= 0 && n / s == x.raw) by (nonlinear_arith)
            requires
                n == x.raw * s,
                x.raw >= 0,
                s == 4294967296,
        ;
    } else {
        assert(n < 0 && (-n) / s == -x.raw) by (nonlinear_arith)
            requires
                n == x.raw * s,
                x.raw < 0,
                s == 4294967296,
        ;
    }
    assert(s * x.raw == n) by (nonlinear_arith)
        requires
            n == x.raw * s,
    ;
}

/// A product with zero is zero, a number less itself is zero, zero has the
/// root zero, and zero shared among any count is zero.
pub proof fn lemma_zero(x: Fixed, n: int)
    ensures
        x.product(Fixed::zero()) == Fixed::zero(),
        Fixed::zero().product(x) == Fixed::zero(),
        x.difference(x) == Fixed::zero(),
        Fixed::zero().root() == Fixed::zero(),
        Fixed::zero().shared_among(n) == Fixed::zero(),
        Fixed::zero().quotient(x) == Fixed::zero(),
{
    assert(x.raw * 0 == 0 && 0 * x.raw == 0) by (nonlinear_arith);
    assert(0int * SCALE == 0);
    if n != 0 {
        assert(quotient_toward_zero(0, n) == 0) by (nonlinear_arith)
            requires
                n != 0,
        ;
    }
    if x.raw != 0 {
        assert(quotient_toward_zero(0, x.raw as int) == 0) by (nonlinear_arith)
            requires
                x.raw != 0,
        ;
    }
}

} // verus!
