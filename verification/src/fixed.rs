//! Fixed-point scalars with sixteen fractional bits.
//!
//! A [`Fixed`] stands for the real number `raw / SCALE`. Contracts speak of the
//! raw count, an `int`, so that every rounding step is written out.

use vstd::prelude::*;

verus! {

/// Raw units per whole unit.
pub const SCALE: i64 = 65536;

/// Largest raw magnitude a [`Fixed`] holds; results beyond it saturate.
pub const LIMIT: i64 = 0x8000_0000_0000;

/// Whether a raw count is representable.
pub open spec fn in_range(v: int) -> bool {
    -LIMIT <= v <= LIMIT
}

/// The nearest representable raw count.
pub open spec fn clamp(v: int) -> int {
    if v > LIMIT {
        LIMIT as int
    } else if v < -LIMIT {
        -LIMIT
    } else {
        v
    }
}

/// The quotient `n / d` rounded toward zero, for a positive divisor.
pub open spec fn div_toward_zero(n: int, d: int) -> int {
    if n >= 0 {
        n / d
    } else {
        -((-n) / d)
    }
}

/// The raw count of the product of two fixed-point numbers, before saturation.
pub open spec fn scaled_product(a: int, b: int) -> int {
    div_toward_zero(a * b, SCALE as int)
}

/// The integer square root: the largest `r` with `r * r <= n`.
pub open spec fn int_sqrt(n: nat) -> nat
    decreases n,
{
    if n == 0 {
        0
    } else {
        let r = int_sqrt((n - 1) as nat);
        if (r + 1) * (r + 1) <= n {
            r + 1
        } else {
            r
        }
    }
}

/// `int_sqrt(n)` is the floor of the square root of `n`.
pub proof fn lemma_int_sqrt_bounds(n: nat)
    ensures
        int_sqrt(n) * int_sqrt(n) <= n < (int_sqrt(n) + 1) * (int_sqrt(n) + 1),
    decreases n,
{
    let s = int_sqrt(n);
    if n == 0 {
        assert(s * s <= n < (s + 1) * (s + 1)) by (nonlinear_arith)
            requires
                s == 0,
                n == 0,
        ;
    } else {
        let r = int_sqrt((n - 1) as nat);
        lemma_int_sqrt_bounds((n - 1) as nat);
        if (r + 1) * (r + 1) <= n {
            assert(s * s <= n < (s + 1) * (s + 1)) by (nonlinear_arith)
                requires
                    s == r + 1,
                    (r + 1) * (r + 1) <= n,
                    n - 1 < (r + 1) * (r + 1),
            ;
        } else {
            assert(s * s <= n < (s + 1) * (s + 1)) by (nonlinear_arith)
                requires
                    s == r,
                    r * r <= n - 1,
                    n < (r + 1) * (r + 1),
            ;
        }
    }
}

/// Only one number lies between the two bounds of `lemma_int_sqrt_bounds`.
pub proof fn lemma_int_sqrt_unique(r: nat, n: nat)
    requires
        r * r <= n < (r + 1) * (r + 1),
    ensures
        r == int_sqrt(n),
{
    let s = int_sqrt(n);
    lemma_int_sqrt_bounds(n);
    if r < s {
        assert((r + 1) * (r + 1) <= s * s) by (nonlinear_arith)
            requires
                r + 1 <= s,
        ;
    } else if s < r {
        assert((s + 1) * (s + 1) <= r * r) by (nonlinear_arith)
            requires
                s + 1 <= r,
        ;
    }
}

/// The integer square root grows with its argument.
pub proof fn lemma_int_sqrt_monotonic(a: nat, b: nat)
    requires
        a <= b,
    ensures
        int_sqrt(a) <= int_sqrt(b),
{
    let r = int_sqrt(a);
    let s = int_sqrt(b);
    lemma_int_sqrt_bounds(a);
    lemma_int_sqrt_bounds(b);
    if s < r {
        assert((s + 1) * (s + 1) <= r * r) by (nonlinear_arith)
            requires
                s + 1 <= r,
        ;
    }
}

/// Computes the integer square root by bisection.
pub fn isqrt(n: u128) -> (r: u128)
    ensures
        r == int_sqrt(n as nat),
        r * r <= n < (r + 1) * (r + 1),
        r <= 0xFFFF_FFFF_FFFF_FFFF,
{
    let mut lo: u128 = 0;
    let mut hi: u128 = 0x1_0000_0000_0000_0000;
    while hi - lo > 1
        invariant
            lo < hi <= 0x1_0000_0000_0000_0000,
            lo * lo <= n < hi * hi,
        decreases hi - lo,
    {
        let mid: u128 = lo + (hi - lo) / 2;
        assert(mid * mid <= 0xFFFF_FFFF_FFFF_FFFF * 0xFFFF_FFFF_FFFF_FFFF) by (nonlinear_arith)
            requires
                0 <= mid <= 0xFFFF_FFFF_FFFF_FFFF,
        ;
        if mid * mid <= n {
            lo = mid;
        } else {
            hi = mid;
        }
    }
    proof {
        lemma_int_sqrt_unique(lo as nat, n as nat);
    }
    lo
}

/// A fixed-point number: `raw / SCALE`, with `raw` within `LIMIT` of zero.
#[derive(Clone, Copy, Debug, PartialEq, Eq, Structural)]
pub struct Fixed {
    pub(crate) raw: i64,
}

impl View for Fixed {
    type V = int;

    /// The raw count.
    closed spec fn view(&self) -> int {
        self.raw as int
    }
}

impl Fixed {
    #[verifier::type_invariant]
    pub open spec fn inv(self) -> bool {
        in_range(self@)
    }

    /// The number with the given raw count, if it is representable.
    pub fn from_raw(raw: i64) -> (r: Option<Fixed>)
        ensures
            in_range(raw as int) ==> r.is_some() && r.unwrap()@ == raw,
            !in_range(raw as int) ==> r.is_none(),
    {
        if -LIMIT <= raw && raw <= LIMIT {
            Some(Fixed { raw })
        } else {
            None
        }
    }

    /// The representable number nearest to the given raw count.
    pub fn saturating(v: i128) -> (r: Fixed)
        ensures
            r@ == clamp(v as int),
            in_range(r@),
    {
        if v > LIMIT as i128 {
            Fixed { raw: LIMIT }
        } else if v < -(LIMIT as i128) {
            Fixed { raw: -LIMIT }
        } else {
            Fixed { raw: v as i64 }
        }
    }

    /// The whole number `n`.
    pub fn from_int(n: i32) -> (r: Fixed)
        ensures
            r@ == n * SCALE,
    {
        Fixed { raw: (n as i64) * SCALE }
    }

    /// Zero.
    pub fn zero() -> (r: Fixed)
        ensures
            r@ == 0,
    {
        Fixed { raw: 0 }
    }

    /// The raw count, always within `LIMIT` of zero.
    pub fn raw(&self) -> (r: i64)
        ensures
            r == self@,
            in_range(r as int),
    {
        proof {
            use_type_invariant(self);
        }
        self.raw
    }
}

} // verus!
