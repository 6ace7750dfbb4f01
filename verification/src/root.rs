//! The square root of a single-precision number, rounded to nearest.
//!
//! A positive number is `m * 4^h` for integers `m` and `h`, and its root is
//! the root of `m * 4^k` times `2^(h - k)` for any `k`. With the `k` that
//! makes the root of `m * 4^k` 24 bits long, the nearest integer to that
//! root is the significand of the result. A root never lies half-way
//! between two integers, so there is no tie to break.

use vstd::prelude::*;
use vstd::arithmetic::power2::*;
use crate::arith::{
    leading_bit, leading_bit_of, lemma_leading_bit, power_of_two, significand_and_exponent,
    NAN_BITS,
};
use crate::number::Single;

verus! {

/// The square of `r` is not above `n`, and the square of the next integer
/// is.
pub open spec fn is_floor_root(n: nat, r: nat) -> bool {
    r * r <= n < (r + 1) * (r + 1)
}

/// The largest integer whose square is not above `n`.
pub open spec fn floor_root(n: nat) -> nat {
    choose|r: nat| is_floor_root(n, r)
}

/// The integer nearest to the root of `n`: the root lies above `r + 1/2`
/// exactly when `n` lies above `r * r + r`.
pub open spec fn nearest_root(n: nat) -> nat {
    let r = floor_root(n);
    if n - r * r > r {
        r + 1
    } else {
        r
    }
}

/// An integer whose square is not above `n`, while the square of the next
/// is, is the floor of the root.
pub proof fn lemma_floor_root(n: nat, r: nat)
    requires
        is_floor_root(n, r),
    ensures
        floor_root(n) == r,
{
    let c = floor_root(n);
    assert(is_floor_root(n, c));
    if c < r {
        assert((c + 1) * (c + 1) <= r * r) by (nonlinear_arith)
            requires
                c + 1 <= r,
        ;
    } else if c > r {
        assert((r + 1) * (r + 1) <= c * c) by (nonlinear_arith)
            requires
                r + 1 <= c,
        ;
    }
}

/// Every number has a root floor.
pub proof fn lemma_floor_root_exists(n: nat)
    ensures
        is_floor_root(n, floor_root(n)),
    decreases n,
{
    if n == 0 {
        assert(is_floor_root(0, 0)) by (nonlinear_arith);
        lemma_floor_root(0, 0);
    } else {
        lemma_floor_root_exists((n - 1) as nat);
        let r = floor_root((n - 1) as nat);
        assert(is_floor_root((n - 1) as nat, r));
        if n < (r + 1) * (r + 1) {
            assert(is_floor_root(n, r));
            lemma_floor_root(n, r);
        } else {
            assert((r + 1) * (r + 1) <= n < (r + 1 + 1) * (r + 1 + 1)) by (nonlinear_arith)
                requires
                    n - 1 < (r + 1) * (r + 1),
                    (r + 1) * (r + 1) <= n,
            ;
            assert(is_floor_root(n, r + 1));
            lemma_floor_root(n, r + 1);
        }
    }
}

/// The nearest root is within a half of the root: `n` lies between the
/// squares of `r - 1/2` and `r + 1/2`.
pub proof fn lemma_nearest_root(n: nat)
    requires
        n > 0,
    ensures
        (2 * nearest_root(n) - 1) * (2 * nearest_root(n) - 1) <= 4 * n,
        4 * n <= (2 * nearest_root(n) + 1) * (2 * nearest_root(n) + 1),
{
    lemma_floor_root_exists(n);
    let r = floor_root(n);
    let near = nearest_root(n);
    assert(r >= 1) by (nonlinear_arith)
        requires
            n < (r + 1) * (r + 1),
            n > 0,
    ;
    assert((2 * near - 1) * (2 * near - 1) <= 4 * n && 4 * n <= (2 * near + 1) * (2 * near + 1))
        by (nonlinear_arith)
        requires
            r * r <= n < (r + 1) * (r + 1),
            r >= 1,
            near == if n - r * r > r {
                r + 1
            } else {
                r
            },
    ;
}

/// Finds the floor of a root, one bit at a time from the top.
fn root_of(n: u64) -> (r: u64)
    requires
        n < 0x1_0000_0000_0000,
    ensures
        r == floor_root(n as nat),
        r < 0x100_0000,
{
    let mut r: u64 = 0;
    let mut i: u32 = 24;
    proof {
        lemma2_to64();
    }
    while i > 0
        invariant
            i <= 24,
            r * r <= n,
            n < (r + pow2(i as nat)) * (r + pow2(i as nat)),
            r + pow2(i as nat) <= 0x100_0000,
        decreases i,
    {
        let half = power_of_two(i - 1);
        proof {
            lemma_pow2_unfold(i as nat);
        }
        let candidate = r + half;
        assert(candidate * candidate <= 0x1_0000_0000_0000) by (nonlinear_arith)
            requires
                candidate <= 0x100_0000,
        ;
        if candidate * candidate <= n {
            r = candidate;
        }
        i = i - 1;
    }
    proof {
        lemma2_to64();
        lemma_floor_root(n as nat, r as nat);
    }
    r
}

impl Single {
    /// The square root, rounded to nearest. The root of a negative number
    /// is no number; the root of a zero is that zero.
    pub open spec fn sqrt_spec(self) -> Single {
        if self.is_nan() {
            Single { bits: NAN_BITS }
        } else if self.is_zero() {
            self
        } else if self.is_negative() {
            Single { bits: NAN_BITS }
        } else if self.is_infinite() {
            self
        } else {
            let shifted = self.exponent() + 150;
            let m = if shifted % 2 == 1 {
                2 * self.significand()
            } else {
                self.significand()
            };
            let k = (47 - leading_bit(m)) / 2;
            let t = shifted / 2 - 75 - k;
            Single { bits: ((t + 149) * 0x80_0000 + nearest_root(m * pow2((2 * k) as nat))) as u32 }
        }
    }

    /// Takes the square root.
    pub fn sqrt(self) -> (r: Single)
        ensures
            r == self.sqrt_spec(),
    {
        let a = self.fields();
        if a.exponent_field == 0xFF && a.fraction != 0 {
            return Single { bits: NAN_BITS };
        }
        if a.exponent_field == 0 && a.fraction == 0 {
            return self;
        }
        if a.negative {
            return Single { bits: NAN_BITS };
        }
        if a.exponent_field == 0xFF {
            return self;
        }
        let (sig, exp) = significand_and_exponent(&a);
        let shifted: u32 = (exp + 150) as u32;
        let m: u64 = if shifted % 2 == 1 {
            2 * sig
        } else {
            sig
        };
        let l: u32 = leading_bit_of(m);
        proof {
            lemma2_to64();
            lemma_leading_bit(m as nat);
            if l >= 25 {
                if l > 25 {
                    lemma_pow2_strictly_increases(25, l as nat);
                }
            }
        }
        assert(l <= 24);
        let k: u32 = (47 - l) / 2;
        let factor = power_of_two(2 * k);
        proof {
            lemma_pow2_adds(l as nat, (2 * k) as nat);
            lemma_pow2_adds(32, 14);
            lemma_pow2_adds(32, 15);
            assert(l + 2 * k == 46 || l + 2 * k == 47);
            let whole = pow2((l + 2 * k) as nat);
            assert(whole == 0x4000_0000_0000 || whole == 0x8000_0000_0000);
            assert(whole <= m * factor && m * factor < 2 * whole) by (nonlinear_arith)
                requires
                    pow2(l as nat) <= m < 2 * pow2(l as nat),
                    factor > 0,
                    whole == pow2(l as nat) * factor,
            ;
        }
        let n: u64 = m * factor;
        assert(0x4000_0000_0000 <= n < 0x1_0000_0000_0000);
        let root = root_of(n);
        proof {
            lemma_floor_root_exists(n as nat);
            assert(root >= 0x80_0000) by (nonlinear_arith)
                requires
                    n < (root + 1) * (root + 1),
                    n >= 0x4000_0000_0000,
            ;
            assert(root * root <= n);
        }
        let near: u64 = if n - root * root > root {
            root + 1
        } else {
            root
        };
        let t: i32 = (shifted / 2) as i32 - 75 - k as i32;
        Single { bits: ((t + 149) as u32) * 0x80_0000 + near as u32 }
    }
}

} // verus!
