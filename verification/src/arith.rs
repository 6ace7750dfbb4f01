//! Single-precision arithmetic on encodings.
//!
//! A finite number is `significand * 2^exponent`, both integers, so the sum,
//! the difference and the product of two numbers are integers times a power
//! of two, and a quotient is a ratio of integers times a power of two. Each
//! operation forms that exact result and rounds it once, to the nearest
//! single-precision number, a tie going to the even significand. That is
//! the arithmetic the number format defines.

use vstd::prelude::*;
use vstd::arithmetic::power2::*;
use vstd::arithmetic::div_mod::{
    lemma_basic_div, lemma_fundamental_div_mod, lemma_fundamental_div_mod_converse,
    lemma_mod_bound, lemma_small_mod,
};
use vstd::bits::*;
use crate::number::{round_half_even, Single, INFINITY_BITS, ONE_BITS, SIGN_BIT};

verus! {

/// Encoding of the quiet no-number that an undefined operation gives.
pub const NAN_BITS: u32 = 0x7FC0_0000;

/// Position of the leading bit of a positive integer: the `l` with
/// `2^l <= m < 2^(l + 1)`.
pub open spec fn leading_bit(m: nat) -> nat
    decreases m,
{
    if m <= 1 {
        0
    } else {
        1 + leading_bit(m / 2)
    }
}

/// The single-precision number nearest to `m * 2^e`, with the given sign: a
/// tie goes to the even significand, and a magnitude beyond the range
/// becomes an infinity. The result's last place has the weight `2^t`, where
/// `t` leaves the significand 24 bits unless that falls below the smallest
/// exponent.
pub open spec fn rounded(negative: bool, m: nat, e: int) -> Single {
    let sign: int = if negative {
        SIGN_BIT as int
    } else {
        0
    };
    if m == 0 {
        Single { bits: sign as u32 }
    } else {
        let natural = leading_bit(m) + e - 23;
        let t = if natural < -149 {
            -149
        } else {
            natural
        };
        let sig: int = if t <= e {
            (m * pow2((e - t) as nat)) as int
        } else {
            round_half_even(m, (t - e) as nat) as int
        };
        let magnitude = (t + 149) * 0x80_0000 + sig;
        Single {
            bits: (sign + if magnitude >= INFINITY_BITS {
                INFINITY_BITS as int
            } else {
                magnitude
            }) as u32,
        }
    }
}

/// The leading bit is where it is said to be.
pub proof fn lemma_leading_bit(m: nat)
    requires
        m > 0,
    ensures
        pow2(leading_bit(m)) <= m < 2 * pow2(leading_bit(m)),
    decreases m,
{
    lemma2_to64();
    if m > 1 {
        lemma_leading_bit(m / 2);
        lemma_pow2_unfold(leading_bit(m));
    }
}

/// A power of two that brackets a number gives its leading bit.
pub proof fn lemma_leading_bit_is(m: nat, l: nat)
    requires
        pow2(l) <= m < 2 * pow2(l),
    ensures
        leading_bit(m) == l,
{
    lemma_leading_bit(m);
    let k = leading_bit(m);
    if k < l {
        lemma_pow2_unfold(l);
        if k + 1 < l {
            lemma_pow2_strictly_increases(k + 1, l);
        }
        lemma_pow2_unfold(k + 1);
    } else if k > l {
        lemma_pow2_unfold(k);
        if l + 1 < k {
            lemma_pow2_strictly_increases(l + 1, k);
        }
        lemma_pow2_unfold(l + 1);
    }
}

/// A number below half the unit rounds to zero.
pub proof fn lemma_rounds_to_nothing(m: nat, q: nat)
    requires
        q >= 1,
        m < pow2((q - 1) as nat),
    ensures
        round_half_even(m, q) == 0,
{
    lemma_pow2_unfold(q);
    lemma_basic_div(m as int, pow2(q) as int);
    lemma_small_mod(m, pow2(q));
}

/// `2^k` as a machine integer.
pub(crate) fn power_of_two(k: u32) -> (p: u64)
    requires
        k <= 63,
    ensures
        p == pow2(k as nat),
        p > 0,
{
    proof {
        lemma2_to64();
        lemma_pow2_strictly_increases(k as nat, 64);
        lemma_pow2_pos(k as nat);
        lemma_u64_shl_is_mul(1, k as u64);
    }
    1u64 << k
}

/// Finds the leading bit.
pub(crate) fn leading_bit_of(m: u64) -> (l: u32)
    requires
        m > 0,
    ensures
        l == leading_bit(m as nat),
        l <= 63,
{
    let mut l: u32 = 0;
    let mut v: u64 = m;
    proof {
        lemma_leading_bit(m as nat);
        lemma2_to64();
        if leading_bit(m as nat) >= 64 {
            if leading_bit(m as nat) > 64 {
                lemma_pow2_strictly_increases(64, leading_bit(m as nat));
            }
        }
    }
    while v > 1
        invariant
            v > 0,
            leading_bit(m as nat) == l + leading_bit(v as nat),
            leading_bit(m as nat) <= 63,
        decreases v,
    {
        v = v / 2;
        l = l + 1;
    }
    l
}

/// Rounds `m * 2^e` to single precision.
pub fn round_pack(negative: bool, m: u64, e: i32) -> (x: Single)
    requires
        m < 0x4000_0000_0000_0000,
        -4000 <= e <= 4000,
    ensures
        x == rounded(negative, m as nat, e as int),
{
    let sign: u32 = if negative {
        SIGN_BIT
    } else {
        0
    };
    if m == 0 {
        return Single { bits: sign };
    }
    let l: i32 = leading_bit_of(m) as i32;
    proof {
        lemma_leading_bit(m as nat);
        lemma2_to64();
        if l >= 62 {
            lemma_pow2_unfold(64);
            lemma_pow2_unfold(63);
            if l == 63 {
            }
        }
    }
    assert(l <= 61);
    let natural: i32 = l + e - 23;
    let t: i32 = if natural < -149 {
        -149
    } else {
        natural
    };
    if t >= 106 {
        proof {
            let sig: int = if t <= e {
                m * pow2((e - t) as nat)
            } else {
                round_half_even(m as nat, (t - e) as nat) as int
            };
            assert(sig >= 0) by {
                lemma_pow2_pos((e - t) as nat);
                if t <= e {
                    assert(m * pow2((e - t) as nat) >= 0) by (nonlinear_arith)
                        requires
                            m >= 0,
                            pow2((e - t) as nat) > 0,
                    ;
                }
            }
        }
        return Single { bits: sign + INFINITY_BITS };
    }
    let sig: u64 = if t <= e {
        let k: u32 = (e - t) as u32;
        let factor = power_of_two(k);
        proof {
            // m < 2^(l+1) and k <= 23 - l, so the product is below 2^24.
            lemma_pow2_adds((l + 1) as nat, k as nat);
            lemma_pow2_unfold((l + 1) as nat);
            if l + 1 + k < 24 {
                lemma_pow2_strictly_increases((l + 1 + k) as nat, 24);
            }
            assert(m * factor < pow2((l + 1) as nat) * pow2(k as nat)) by (nonlinear_arith)
                requires
                    m < pow2((l + 1) as nat),
                    factor == pow2(k as nat),
                    factor > 0,
            ;
        }
        m * factor
    } else {
        let q: u32 = (t - e) as u32;
        if q >= 63 {
            proof {
                lemma_pow2_unfold(64);
                lemma_pow2_unfold(63);
                if q > 63 {
                    lemma_pow2_strictly_increases(62, (q - 1) as nat);
                }
                lemma_rounds_to_nothing(m as nat, q as nat);
            }
            0
        } else {
            let unit = power_of_two(q);
            proof {
                lemma_pow2_unfold(64);
                lemma_pow2_strictly_increases(q as nat, 63);
            }
            let floor = m / unit;
            let rest = m % unit;
            if 2 * rest > unit || (2 * rest == unit && floor % 2 == 1) {
                floor + 1
            } else {
                floor
            }
        }
    };
    proof {
        lemma_sig_fits(m as nat, e as int);
    }
    let magnitude: u64 = (t + 149) as u64 * 0x80_0000 + sig;
    if magnitude >= 0x7F80_0000 {
        Single { bits: sign + INFINITY_BITS }
    } else {
        Single { bits: sign + magnitude as u32 }
    }
}

/// The rounded significand has at most 24 bits, and one more only as the
/// power of two that carries into the exponent.
pub proof fn lemma_sig_fits(m: nat, e: int)
    requires
        m > 0,
    ensures
        ({
            let natural = leading_bit(m) + e - 23;
            let t = if natural < -149 {
                -149
            } else {
                natural
            };
            let sig: int = if t <= e {
                (m * pow2((e - t) as nat)) as int
            } else {
                round_half_even(m, (t - e) as nat) as int
            };
            &&& 0 <= sig <= 0x100_0000
            &&& natural >= -149 ==> sig >= 0x80_0000
        }),
{
    lemma2_to64();
    lemma_leading_bit(m);
    let l = leading_bit(m);
    let natural = l + e - 23;
    let t = if natural < -149 {
        -149
    } else {
        natural
    };
    if t <= e {
        let k = (e - t) as nat;
        lemma_pow2_adds(l, k);
        lemma_pow2_adds(l + 1, k);
        lemma_pow2_unfold(l + 1);
        lemma_pow2_pos(k);
        assert(pow2(l) * pow2(k) <= m * pow2(k) < 2 * pow2(l) * pow2(k)) by (nonlinear_arith)
            requires
                pow2(l) <= m < 2 * pow2(l),
                pow2(k) > 0,
        ;
        if l + k < 23 {
            lemma_pow2_strictly_increases(l + k + 1, 24);
        }
        if natural >= -149 {
            assert(l + k == 23);
        }
    } else {
        let q = (t - e) as nat;
        let unit = pow2(q) as int;
        lemma_pow2_pos(q);
        // m < 2^(l+1) and l + 1 <= q + 24
        lemma_pow2_unfold(l + 1);
        if l + 1 < q + 24 {
            lemma_pow2_strictly_increases(l + 1, q + 24);
        }
        lemma_pow2_adds(q, 24);
        assert(m / (unit as nat) < 0x100_0000) by (nonlinear_arith)
            requires
                m < unit * 0x100_0000,
                unit > 0,
        ;
        if natural >= -149 {
            assert(l == q + 23);
            lemma_pow2_adds(q, 23);
            assert(m / (unit as nat) >= 0x80_0000) by (nonlinear_arith)
                requires
                    m >= unit * 0x80_0000,
                    unit > 0,
            ;
        }
    }
}

/// The fields of an encoding.
pub struct Fields {
    pub negative: bool,
    pub exponent_field: u32,
    pub fraction: u32,
}

impl Single {
    /// The encoding stands for no number.
    pub open spec fn is_nan(self) -> bool {
        self.exponent_field() == 0xFF && self.fraction_field() != 0
    }

    /// The encoding stands for an infinity.
    pub open spec fn is_infinite(self) -> bool {
        self.exponent_field() == 0xFF && self.fraction_field() == 0
    }

    /// The number is zero, of either sign.
    pub open spec fn is_zero(self) -> bool {
        self.exponent_field() == 0 && self.fraction_field() == 0
    }

    /// The infinity of the given sign.
    pub open spec fn infinity(negative: bool) -> Single {
        Single {
            bits: if negative {
                (SIGN_BIT + INFINITY_BITS) as u32
            } else {
                INFINITY_BITS
            },
        }
    }

    /// The product, rounded to nearest. An infinity times zero is no
    /// number.
    pub open spec fn mul_spec(self, y: Single) -> Single {
        let negative = self.is_negative() != y.is_negative();
        if self.is_nan() || y.is_nan() {
            Single { bits: NAN_BITS }
        } else if self.is_infinite() || y.is_infinite() {
            if self.is_zero() || y.is_zero() {
                Single { bits: NAN_BITS }
            } else {
                Single::infinity(negative)
            }
        } else {
            rounded(
                negative,
                self.significand() * y.significand(),
                self.exponent() + y.exponent(),
            )
        }
    }

    /// Splits the encoding into its fields.
    pub fn fields(self) -> (f: Fields)
        ensures
            f.negative == self.is_negative(),
            f.exponent_field == self.exponent_field(),
            f.fraction == self.fraction_field(),
            f.exponent_field <= 0xFF,
            f.fraction < 0x80_0000,
    {
        let bits = self.bits;
        let e: u32 = (bits >> 23) & 0xFF;
        let f: u32 = bits & 0x7F_FFFF;
        assert(e == (bits / 0x80_0000) % 0x100 && f == bits % 0x80_0000) by (bit_vector)
            requires
                e == (bits >> 23) & 0xFF,
                f == bits & 0x7F_FFFF,
        ;
        Fields { negative: bits >= SIGN_BIT, exponent_field: e, fraction: f }
    }

    /// Multiplies two numbers.
    pub fn mul(self, y: Single) -> (r: Single)
        ensures
            r == self.mul_spec(y),
    {
        let a = self.fields();
        let b = y.fields();
        let negative = a.negative != b.negative;
        let a_nan = a.exponent_field == 0xFF && a.fraction != 0;
        let b_nan = b.exponent_field == 0xFF && b.fraction != 0;
        if a_nan || b_nan {
            return Single { bits: NAN_BITS };
        }
        if a.exponent_field == 0xFF || b.exponent_field == 0xFF {
            let a_zero = a.exponent_field == 0 && a.fraction == 0;
            let b_zero = b.exponent_field == 0 && b.fraction == 0;
            if a_zero || b_zero {
                return Single { bits: NAN_BITS };
            }
            return Single { bits: if negative {
                SIGN_BIT + INFINITY_BITS
            } else {
                INFINITY_BITS
            } };
        }
        let (m1, e1) = significand_and_exponent(&a);
        let (m2, e2) = significand_and_exponent(&b);
        assert(m1 * m2 < 0x1_0000_0000_0000) by (nonlinear_arith)
            requires
                m1 < 0x100_0000,
                m2 < 0x100_0000,
        ;
        round_pack(negative, m1 * m2, e1 + e2)
    }
}

/// Significand and exponent of a finite number.
pub(crate) fn significand_and_exponent(f: &Fields) -> (r: (u64, i32))
    requires
        f.exponent_field < 0xFF,
        f.fraction < 0x80_0000,
    ensures
        r.0 == (if f.exponent_field == 0 {
            f.fraction as int
        } else {
            0x80_0000 + f.fraction
        }),
        r.1 == (if f.exponent_field == 0 {
            -149
        } else {
            f.exponent_field - 150
        }),
        r.0 < 0x100_0000,
        -149 <= r.1 <= 104,
{
    if f.exponent_field == 0 {
        (f.fraction as u64, -149)
    } else {
        (0x80_0000 + f.fraction as u64, f.exponent_field as i32 - 150)
    }
}

/// The significand with the number's sign.
pub open spec fn signed_significand(x: Single) -> int {
    if x.is_negative() {
        -(x.significand() as int)
    } else {
        x.significand() as int
    }
}

/// Zero of the given sign.
pub open spec fn zero(negative: bool) -> Single {
    Single { bits: if negative {
        SIGN_BIT
    } else {
        0
    } }
}

impl Single {
    /// The same magnitude with the other sign.
    pub open spec fn neg_spec(self) -> Single {
        Single {
            bits: if self.bits >= SIGN_BIT {
                (self.bits - SIGN_BIT) as u32
            } else {
                (self.bits + SIGN_BIT) as u32
            },
        }
    }

    /// The sum, rounded to nearest. Infinities of opposite sign have no
    /// sum. A sum that is exactly zero is positive zero, unless both terms
    /// are negative.
    pub open spec fn add_spec(self, y: Single) -> Single {
        if self.is_nan() || y.is_nan() {
            Single { bits: NAN_BITS }
        } else if self.is_infinite() {
            if y.is_infinite() && self.is_negative() != y.is_negative() {
                Single { bits: NAN_BITS }
            } else {
                self
            }
        } else if y.is_infinite() {
            y
        } else {
            let e = if self.exponent() <= y.exponent() {
                self.exponent()
            } else {
                y.exponent()
            };
            let z = signed_significand(self) * pow2((self.exponent() - e) as nat)
                + signed_significand(y) * pow2((y.exponent() - e) as nat);
            if z == 0 {
                zero(self.is_negative() && y.is_negative())
            } else if z < 0 {
                rounded(true, (-z) as nat, e)
            } else {
                rounded(false, z as nat, e)
            }
        }
    }

    /// The difference, rounded to nearest: the sum with the other sign of
    /// `y`.
    pub open spec fn sub_spec(self, y: Single) -> Single {
        self.add_spec(y.neg_spec())
    }

    /// Changes the sign.
    pub fn neg(self) -> (r: Single)
        ensures
            r == self.neg_spec(),
            r.is_negative() != self.is_negative(),
            r.exponent_field() == self.exponent_field(),
            r.fraction_field() == self.fraction_field(),
    {
        if self.bits >= SIGN_BIT {
            Single { bits: self.bits - SIGN_BIT }
        } else {
            Single { bits: self.bits + SIGN_BIT }
        }
    }

    /// Adds two numbers.
    pub fn add(self, y: Single) -> (r: Single)
        ensures
            r == self.add_spec(y),
    {
        let a = self.fields();
        let b = y.fields();
        let a_nan = a.exponent_field == 0xFF && a.fraction != 0;
        let b_nan = b.exponent_field == 0xFF && b.fraction != 0;
        if a_nan || b_nan {
            return Single { bits: NAN_BITS };
        }
        if a.exponent_field == 0xFF {
            if b.exponent_field == 0xFF && a.negative != b.negative {
                return Single { bits: NAN_BITS };
            }
            return self;
        }
        if b.exponent_field == 0xFF {
            return y;
        }
        let (m1, e1) = significand_and_exponent(&a);
        let (m2, e2) = significand_and_exponent(&b);
        if e1 >= e2 {
            let d: u32 = (e1 - e2) as u32;
            proof {
                lemma_add_is_aligned(self, y);
            }
            if d >= 38 {
                proof {
                    lemma_far_term(self, y.is_negative(), m2 as nat, d as nat);
                }
                return self;
            }
            add_aligned(a.negative, m1, b.negative, m2, d, e2)
        } else {
            let d: u32 = (e2 - e1) as u32;
            proof {
                lemma_add_is_aligned(self, y);
            }
            if d >= 38 {
                proof {
                    lemma_far_term(y, self.is_negative(), m1 as nat, d as nat);
                }
                return y;
            }
            add_aligned(b.negative, m2, a.negative, m1, d, e1)
        }
    }

    /// Subtracts `y`.
    pub fn sub(self, y: Single) -> (r: Single)
        ensures
            r == self.sub_spec(y),
    {
        self.add(y.neg())
    }
}

/// The exact sum of two terms, the first on an exponent `d` above that of
/// the second, rounded.
pub open spec fn aligned_sum(
    hi_negative: bool,
    hi: nat,
    lo_negative: bool,
    lo: nat,
    d: nat,
    e: int,
) -> Single {
    let z = (if hi_negative {
        -(hi as int)
    } else {
        hi as int
    }) * pow2(d) + (if lo_negative {
        -(lo as int)
    } else {
        lo as int
    });
    if z == 0 {
        zero(hi_negative && lo_negative)
    } else if z < 0 {
        rounded(true, (-z) as nat, e)
    } else {
        rounded(false, z as nat, e)
    }
}

/// The sum of two finite numbers is the aligned sum of their
/// significands, the one with the higher exponent shifted up.
pub proof fn lemma_add_is_aligned(x: Single, y: Single)
    requires
        x.is_finite(),
        y.is_finite(),
    ensures
        x.exponent() >= y.exponent() ==> x.add_spec(y) == aligned_sum(
            x.is_negative(),
            x.significand(),
            y.is_negative(),
            y.significand(),
            (x.exponent() - y.exponent()) as nat,
            y.exponent(),
        ),
        x.exponent() < y.exponent() ==> x.add_spec(y) == aligned_sum(
            y.is_negative(),
            y.significand(),
            x.is_negative(),
            x.significand(),
            (y.exponent() - x.exponent()) as nat,
            x.exponent(),
        ),
{
    lemma2_to64();
    let a = signed_significand(x);
    let b = signed_significand(y);
    assert(a * pow2(0) == a && b * pow2(0) == b) by (nonlinear_arith)
        requires
            pow2(0) == 1,
    ;
}

/// Adds two terms whose exponents are close enough for the sum to be formed
/// exactly.
fn add_aligned(hi_negative: bool, hi: u64, lo_negative: bool, lo: u64, d: u32, e: i32) -> (r:
    Single)
    requires
        hi < 0x100_0000,
        lo < 0x100_0000,
        d < 38,
        -200 <= e <= 200,
    ensures
        r == aligned_sum(hi_negative, hi as nat, lo_negative, lo as nat, d as nat, e as int),
{
    let factor = power_of_two(d);
    proof {
        lemma2_to64();
        lemma_pow2_adds(32, 5);
        if d < 37 {
            lemma_pow2_strictly_increases(d as nat, 37);
        }
        assert(hi * factor < 0x100_0000 * 0x20_0000_0000) by (nonlinear_arith)
            requires
                hi < 0x100_0000,
                0 < factor <= 0x20_0000_0000,
        ;
    }
    let shifted: u64 = hi * factor;
    proof {
        assert((-(hi as int)) * pow2(d as nat) == -(shifted as int)) by (nonlinear_arith)
            requires
                shifted == hi * pow2(d as nat),
        ;
    }
    if hi_negative == lo_negative {
        let sum = shifted + lo;
        if sum == 0 {
            Single { bits: if hi_negative {
                SIGN_BIT
            } else {
                0
            } }
        } else {
            round_pack(hi_negative, sum, e)
        }
    } else if shifted > lo {
        round_pack(hi_negative, shifted - lo, e)
    } else if shifted < lo {
        round_pack(lo_negative, lo - shifted, e)
    } else {
        Single { bits: 0 }
    }
}

/// The rounding of `s * 2^e` when the last place of the result lies `q`
/// places above `e` and `s` is `floor` units and `rest`.
pub proof fn lemma_rounded_at(negative: bool, s: nat, e: int, q: nat, floor: nat, rest: nat)
    requires
        s > 0,
        q >= 1,
        e + q >= -149,
        leading_bit(s) + e - 23 == e + q || (leading_bit(s) + e - 23 < -149 && e + q == -149),
        s == floor * pow2(q) + rest,
        rest < pow2(q),
    ensures
        rounded(negative, s, e) == (Single {
            bits: ((if negative {
                SIGN_BIT as int
            } else {
                0
            }) + ({
                let sig = if 2 * rest > pow2(q) || (2 * rest == pow2(q) && floor % 2 == 1) {
                    floor + 1
                } else {
                    floor
                };
                let magnitude = (e + q + 149) * 0x80_0000 + sig;
                if magnitude >= INFINITY_BITS {
                    INFINITY_BITS as int
                } else {
                    magnitude
                }
            })) as u32,
        }),
{
    lemma_pow2_pos(q);
    lemma_fundamental_div_mod_converse(s as int, pow2(q) as int, floor as int, rest as int);
}

/// A term far below the last place of a number does not move it: added to
/// a normal number `x`, or taken from it, anything below a quarter of the
/// weight of the last place of `x` rounds back to `x`.
pub proof fn lemma_far_term(x: Single, negative: bool, m: nat, d: nat)
    requires
        x.is_finite(),
        x.exponent_field() >= 1,
        m < 0x100_0000,
        d >= 26,
    ensures
        aligned_sum(x.is_negative(), x.significand(), negative, m, d, x.exponent() - d) == x,
{
    let m1 = x.significand();
    let e = x.exponent() - d;
    let p = pow2(d) as int;
    assert(p >= 0x400_0000) by {
        lemma2_to64();
        if d > 26 {
            lemma_pow2_strictly_increases(26, d);
        }
    }
    let sign: int = if x.is_negative() {
        SIGN_BIT as int
    } else {
        0
    };
    let field = x.exponent_field();
    let frac = x.fraction_field();
    assert(x.bits == sign + field * 0x80_0000 + frac);
    assert(m1 == 0x80_0000 + frac);
    let s: int = if negative == x.is_negative() {
        m1 * p + m
    } else {
        m1 * p - m
    };
    assert((-(m1 as int)) * p == -(m1 * p)) by (nonlinear_arith);
    assert(0x80_0000 * p <= m1 * p < 0x100_0000 * p) by (nonlinear_arith)
        requires
            0x80_0000 <= m1 < 0x100_0000,
            p > 0,
    ;
    assert(s > 0);
    assert(aligned_sum(x.is_negative(), m1, negative, m, d, e) == rounded(
        x.is_negative(),
        s as nat,
        e,
    ));
    assert((m1 - 1) * p == m1 * p - p) by (nonlinear_arith);
    if m1 > 0x80_0000 {
        assert(m1 * p >= 0x80_0001 * p) by (nonlinear_arith)
            requires
                m1 >= 0x80_0001,
                p > 0,
        ;
    }
    if s >= 0x80_0000 * p {
        // The leading bit stays where the leading bit of `x` is.
        assert(s < 0x100_0000 * p) by (nonlinear_arith)
            requires
                s <= m1 * p + m,
                m < 0x100_0000,
                m1 < 0x100_0000,
                p >= 0x400_0000,
        ;
        assert(leading_bit(s as nat) == d + 23) by {
            lemma2_to64();
            lemma_pow2_adds(d, 23);
            lemma_pow2_unfold(d + 24);
            lemma_pow2_adds(d, 24);
            lemma_leading_bit_is(s as nat, d + 23);
        }
        let floor: int = if s >= m1 * p {
            m1 as int
        } else {
            m1 - 1
        };
        let rest = s - floor * p;
        lemma_rounded_at(x.is_negative(), s as nat, e, d, floor as nat, rest as nat);
    } else {
        // `x` is a power of two and the sum lies just below it.
        assert(m1 == 0x80_0000);
        assert(s == 0x80_0000 * p - m);
        assert(leading_bit(s as nat) == d + 22) by {
            lemma2_to64();
            lemma_pow2_adds(d, 22);
            lemma_pow2_adds(d, 23);
            lemma_pow2_unfold(d + 23);
            lemma_leading_bit_is(s as nat, d + 22);
        }
        if field >= 2 {
            let half = pow2((d - 1) as nat) as int;
            lemma_pow2_unfold(d);
            let rest = half - m;
            assert(s == 0xFF_FFFF * half + rest) by (nonlinear_arith)
                requires
                    s == 0x80_0000 * p - m,
                    p == 2 * half,
                    rest == half - m,
            ;
            lemma_rounded_at(
                x.is_negative(),
                s as nat,
                e,
                (d - 1) as nat,
                0xFF_FFFF,
                rest as nat,
            );
        } else {
            let rest = p - m;
            assert(s == 0x7F_FFFF * p + rest) by (nonlinear_arith)
                requires
                    s == 0x80_0000 * p - m,
                    rest == p - m,
            ;
            lemma_rounded_at(x.is_negative(), s as nat, e, d, 0x7F_FFFF, rest as nat);
        }
    }
}

/// A number rounds to itself.
pub proof fn lemma_own(x: Single)
    requires
        x.is_finite(),
    ensures
        rounded(x.is_negative(), x.significand(), x.exponent()) == x,
{
    lemma2_to64();
    let m = x.significand();
    let sign: int = if x.is_negative() {
        SIGN_BIT as int
    } else {
        0
    };
    let field = x.exponent_field();
    let frac = x.fraction_field();
    assert(x.bits == sign + field * 0x80_0000 + frac);
    if m > 0 {
        lemma_leading_bit(m);
        if field != 0 {
            lemma_leading_bit_is(m, 23);
        } else {
            if leading_bit(m) >= 23 {
                if leading_bit(m) > 23 {
                    lemma_pow2_strictly_increases(23, leading_bit(m));
                }
            }
        }
        assert(m * pow2(0) == m) by (nonlinear_arith)
            requires
                pow2(0) == 1,
        ;
    }
}

/// Shifting the significand up and the exponent down by as much leaves
/// the rounded number as it is.
pub proof fn lemma_scaled(negative: bool, m: nat, k: nat, e: int)
    ensures
        rounded(negative, m * pow2(k), e - k) == rounded(negative, m, e),
{
    lemma_pow2_pos(k);
    let p = pow2(k);
    if m == 0 {
        assert(0 * p == 0) by (nonlinear_arith);
    } else {
        assert(m * p > 0) by (nonlinear_arith)
            requires
                m > 0,
                p > 0,
        ;
        lemma_leading_bit(m);
        let l = leading_bit(m);
        lemma_pow2_adds(l, k);
        assert(pow2(l) * p <= m * p < 2 * (pow2(l) * p)) by (nonlinear_arith)
            requires
                pow2(l) <= m < 2 * pow2(l),
                p > 0,
        ;
        lemma_leading_bit_is(m * p, l + k);
        let natural = l + e - 23;
        let t = if natural < -149 {
            -149
        } else {
            natural
        };
        if t <= e - k {
            let j = (e - k - t) as nat;
            lemma_pow2_adds(k, j);
            assert((m * p) * pow2(j) == m * pow2(k + j)) by (nonlinear_arith)
                requires
                    pow2(k + j) == p * pow2(j),
            ;
        } else if t <= e {
            // The scaled significand is an exact multiple of the unit.
            let q = (t - (e - k)) as nat;
            let j = (e - t) as nat;
            lemma_pow2_adds(q, j);
            lemma_pow2_pos(q);
            let unit = pow2(q) as int;
            assert(m * p == (m * pow2(j)) * unit + 0) by (nonlinear_arith)
                requires
                    p == unit * pow2(j),
            ;
            lemma_fundamental_div_mod_converse((m * p) as int, unit, (m * pow2(j)) as int, 0);
        } else {
            let q = (t - e) as nat;
            lemma_pow2_adds(q, k);
            lemma_pow2_pos(q);
            let unit = pow2(q) as int;
            let floor = m as int / unit;
            let rest = m as int % unit;
            lemma_fundamental_div_mod(m as int, unit);
            lemma_mod_bound(m as int, unit);
            assert(m == floor * unit + rest) by (nonlinear_arith)
                requires
                    m == unit * floor + rest,
            ;
            assert(m * p == floor * (unit * p) + rest * p && 0 <= rest * p < unit * p)
                by (nonlinear_arith)
                requires
                    m == floor * unit + rest,
                    0 <= rest < unit,
                    p > 0,
            ;
            lemma_fundamental_div_mod_converse((m * p) as int, unit * p, floor, rest * p);
            assert((2 * (rest * p) > unit * p) == (2 * rest > unit) && (2 * (rest * p) == unit * p)
                == (2 * rest == unit)) by (nonlinear_arith)
                requires
                    p > 0,
            ;
        }
    }
}

/// `n / d` rounded to the nearest integer, a half to the even neighbour.
pub open spec fn nearest_ratio(n: nat, d: nat) -> nat {
    let floor = n / d;
    let rest = n % d;
    if 2 * rest > d || (2 * rest == d && floor % 2 == 1) {
        floor + 1
    } else {
        floor
    }
}

/// Position of the leading bit of the ratio `n / d`: the `l`, negative for
/// a ratio below one, with `2^l <= n / d < 2^(l + 1)`.
pub open spec fn ratio_bit(n: nat, d: nat) -> int {
    if n * pow2(leading_bit(d)) >= d * pow2(leading_bit(n)) {
        leading_bit(n) - leading_bit(d)
    } else {
        leading_bit(n) - leading_bit(d) - 1
    }
}

/// The single-precision number nearest to `(n / d) * 2^e`, with the given
/// sign, for positive `n` and `d`.
pub open spec fn rounded_ratio(negative: bool, n: nat, d: nat, e: int) -> Single {
    let sign: int = if negative {
        SIGN_BIT as int
    } else {
        0
    };
    let natural = ratio_bit(n, d) + e - 23;
    let t = if natural < -149 {
        -149
    } else {
        natural
    };
    let sig: int = if t <= e {
        nearest_ratio(n * pow2((e - t) as nat), d) as int
    } else {
        nearest_ratio(n, d * pow2((t - e) as nat)) as int
    };
    let magnitude = (t + 149) * 0x80_0000 + sig;
    Single {
        bits: (sign + if magnitude >= INFINITY_BITS {
            INFINITY_BITS as int
        } else {
            magnitude
        }) as u32,
    }
}

/// The ratio lies where its leading bit says.
pub proof fn lemma_ratio_bit(n: nat, d: nat)
    requires
        n > 0,
        d > 0,
    ensures
        ratio_bit(n, d) >= 0 ==> d * pow2(ratio_bit(n, d) as nat) <= n < 2 * (d * pow2(
            ratio_bit(n, d) as nat,
        )),
        ratio_bit(n, d) < 0 ==> d <= n * pow2((-ratio_bit(n, d)) as nat) < 2 * d,
        leading_bit(n) - leading_bit(d) - 1 <= ratio_bit(n, d) <= leading_bit(n) - leading_bit(d),
{
    lemma_leading_bit(n);
    lemma_leading_bit(d);
    let ln = leading_bit(n);
    let ld = leading_bit(d);
    let pn = pow2(ln) as int;
    let pd = pow2(ld) as int;
    lemma_pow2_pos(ln);
    lemma_pow2_pos(ld);
    let l = ratio_bit(n, d);
    // Both products have their leading bit at `ln + ld`.
    assert(pn * pd <= n * pd < 2 * (pn * pd) && pn * pd <= d * pn < 2 * (pn * pd))
        by (nonlinear_arith)
        requires
            pn <= n < 2 * pn,
            pd <= d < 2 * pd,
            pn > 0,
            pd > 0,
    ;
    if l >= 0 {
        let k = l as nat;
        lemma_pow2_pos(k);
        let pk = pow2(k) as int;
        // ln == ld + k or ln == ld + k + 1
        if n * pd >= d * pn {
            lemma_pow2_adds(ld, k);
            assert(d * pk <= n < 2 * (d * pk)) by (nonlinear_arith)
                requires
                    pn == pd * pk,
                    n * pd >= d * pn,
                    n * pd < 2 * (d * pn),
                    pd > 0,
            ;
        } else {
            lemma_pow2_adds(ld, k + 1);
            lemma_pow2_unfold(k + 1);
            assert(d * pk <= n < 2 * (d * pk)) by (nonlinear_arith)
                requires
                    pn == pd * (2 * pk),
                    n * pd < d * pn,
                    2 * (n * pd) > d * pn,
                    pd > 0,
            ;
        }
    } else {
        let k = (-l) as nat;
        lemma_pow2_pos(k);
        let pk = pow2(k) as int;
        if n * pd >= d * pn {
            lemma_pow2_adds(ln, k);
            assert(d <= n * pk < 2 * d) by (nonlinear_arith)
                requires
                    pd == pn * pk,
                    n * pd >= d * pn,
                    n * pd < 2 * (d * pn),
                    pn > 0,
            ;
        } else {
            if k >= 2 {
                lemma_pow2_adds(ln, (k - 1) as nat);
                lemma_pow2_unfold(k);
                let ph = pow2((k - 1) as nat) as int;
                assert(d <= n * pk < 2 * d) by (nonlinear_arith)
                    requires
                        pd == pn * ph,
                        pk == 2 * ph,
                        n * pd < d * pn,
                        2 * (n * pd) > d * pn,
                        pn > 0,
                ;
            } else {
                lemma2_to64();
                assert(d <= n * pk < 2 * d) by (nonlinear_arith)
                    requires
                        pd == pn,
                        pk == 2,
                        n * pd < d * pn,
                        2 * (n * pd) > d * pn,
                        pn > 0,
                ;
            }
        }
    }
}

/// The rounded significand of a ratio has at most 24 bits, and one more
/// only as the power of two that carries into the exponent.
pub proof fn lemma_ratio_sig_fits(n: nat, d: nat, e: int)
    requires
        n > 0,
        d > 0,
    ensures
        ({
            let natural = ratio_bit(n, d) + e - 23;
            let t = if natural < -149 {
                -149
            } else {
                natural
            };
            let sig: int = if t <= e {
                nearest_ratio(n * pow2((e - t) as nat), d) as int
            } else {
                nearest_ratio(n, d * pow2((t - e) as nat)) as int
            };
            &&& 0 <= sig <= 0x100_0000
            &&& natural >= -149 ==> sig >= 0x80_0000
        }),
{
    lemma2_to64();
    lemma_ratio_bit(n, d);
    let l = ratio_bit(n, d);
    let natural = l + e - 23;
    let t = if natural < -149 {
        -149
    } else {
        natural
    };
    if t <= e {
        let k = (e - t) as nat;
        let pk = pow2(k) as int;
        lemma_pow2_pos(k);
        let scaled = n * pk;
        // scaled < d * 2^24, and scaled >= d * 2^23 where nothing is clamped
        if l >= 0 {
            let pl = pow2(l as nat) as int;
            lemma_pow2_adds(l as nat, k);
            if l + k < 23 {
                lemma_pow2_strictly_increases((l + k) as nat, 23);
            }
            assert(scaled < d * 0x100_0000) by (nonlinear_arith)
                requires
                    scaled == n * pk,
                    n < 2 * (d * pl),
                    pl * pk <= 0x80_0000,
                    pk > 0,
                    d > 0,
            ;
            if natural >= -149 {
                assert(scaled >= d * 0x80_0000) by (nonlinear_arith)
                    requires
                        scaled == n * pk,
                        n >= d * pl,
                        pl * pk == 0x80_0000,
                        pk > 0,
                ;
            }
        } else {
            let pm = pow2((-l) as nat) as int;
            lemma_pow2_pos((-l) as nat);
            if k >= -l {
                let r = (k + l) as nat;
                lemma_pow2_adds((-l) as nat, r);
                if r < 23 {
                    lemma_pow2_strictly_increases(r, 23);
                }
                let pr = pow2(r) as int;
                assert(scaled < d * 0x100_0000) by (nonlinear_arith)
                    requires
                        scaled == n * pk,
                        pk == pm * pr,
                        n * pm < 2 * d,
                        0 < pr <= 0x80_0000,
                ;
                if natural >= -149 {
                    assert(scaled >= d * 0x80_0000) by (nonlinear_arith)
                        requires
                            scaled == n * pk,
                            pk == pm * pr,
                            n * pm >= d,
                            pr == 0x80_0000,
                    ;
                }
            } else {
                lemma_pow2_strictly_increases(k, (-l) as nat);
                assert(scaled < d * 0x100_0000) by (nonlinear_arith)
                    requires
                        scaled == n * pk,
                        0 < pk < pm,
                        n * pm < 2 * d,
                        n > 0,
                ;
            }
        }
        assert(scaled / (d as int) < 0x100_0000) by (nonlinear_arith)
            requires
                0 <= scaled < d * 0x100_0000,
                d > 0,
        ;
        if natural >= -149 {
            assert(scaled / (d as int) >= 0x80_0000) by (nonlinear_arith)
                requires
                    scaled >= d * 0x80_0000,
                    d > 0,
            ;
        }
        assert(nearest_ratio(scaled as nat, d) >= (scaled as nat) / d);
    } else {
        let j = (t - e) as nat;
        let pj = pow2(j) as int;
        lemma_pow2_pos(j);
        let big = d * pj;
        assert(big >= d) by (nonlinear_arith)
            requires
                big == d * pj,
                pj >= 1,
                d > 0,
        ;
        // l <= j + 23, with equality where nothing is clamped
        if l >= 0 {
            let pl = pow2(l as nat) as int;
            if l < j + 23 {
                lemma_pow2_strictly_increases(l as nat, j + 23);
            }
            lemma_pow2_adds(j, 23);
            assert(pow2(j + 23) == pj * 0x80_0000) by (nonlinear_arith)
                requires
                    pow2(j + 23) == pow2(j) * pow2(23),
                    pow2(23) == 0x80_0000,
                    pj == pow2(j),
            ;
            assert(n < big * 0x100_0000) by (nonlinear_arith)
                requires
                    n < 2 * (d * pl),
                    pl <= pj * 0x80_0000,
                    big == d * pj,
                    d > 0,
            ;
            if natural >= -149 {
                assert(n >= big * 0x80_0000) by (nonlinear_arith)
                    requires
                        n >= d * pl,
                        pl == pj * 0x80_0000,
                        big == d * pj,
                ;
            }
        } else {
            let pm = pow2((-l) as nat) as int;
            lemma_pow2_pos((-l) as nat);
            assert(n < big * 0x100_0000) by (nonlinear_arith)
                requires
                    n * pm < 2 * d,
                    pm >= 1,
                    big >= d,
                    n > 0,
            ;
        }
        assert(n as int / big < 0x100_0000) by (nonlinear_arith)
            requires
                0 <= n < big * 0x100_0000,
                big > 0,
        ;
        if natural >= -149 {
            assert(n as int / big >= 0x80_0000) by (nonlinear_arith)
                requires
                    n >= big * 0x80_0000,
                    big > 0,
            ;
        }
        assert(nearest_ratio(n, big as nat) >= n / (big as nat));
    }
}

impl Single {
    /// The quotient, rounded to nearest. Zero over zero and an infinity
    /// over an infinity are no number; anything else over zero is an
    /// infinity.
    pub open spec fn div_spec(self, y: Single) -> Single {
        let negative = self.is_negative() != y.is_negative();
        if self.is_nan() || y.is_nan() {
            Single { bits: NAN_BITS }
        } else if self.is_infinite() {
            if y.is_infinite() {
                Single { bits: NAN_BITS }
            } else {
                Single::infinity(negative)
            }
        } else if y.is_infinite() {
            zero(negative)
        } else if y.is_zero() {
            if self.is_zero() {
                Single { bits: NAN_BITS }
            } else {
                Single::infinity(negative)
            }
        } else if self.is_zero() {
            zero(negative)
        } else {
            rounded_ratio(
                negative,
                self.significand(),
                y.significand(),
                self.exponent() - y.exponent(),
            )
        }
    }

    /// Divides by `y`.
    pub fn div(self, y: Single) -> (r: Single)
        ensures
            r == self.div_spec(y),
    {
        let a = self.fields();
        let b = y.fields();
        let negative = a.negative != b.negative;
        let sign: u32 = if negative {
            SIGN_BIT
        } else {
            0
        };
        let a_nan = a.exponent_field == 0xFF && a.fraction != 0;
        let b_nan = b.exponent_field == 0xFF && b.fraction != 0;
        if a_nan || b_nan {
            return Single { bits: NAN_BITS };
        }
        if a.exponent_field == 0xFF {
            if b.exponent_field == 0xFF {
                return Single { bits: NAN_BITS };
            }
            return Single { bits: sign + INFINITY_BITS };
        }
        if b.exponent_field == 0xFF {
            return Single { bits: sign };
        }
        let (m1, e1) = significand_and_exponent(&a);
        let (m2, e2) = significand_and_exponent(&b);
        if m2 == 0 {
            if m1 == 0 {
                return Single { bits: NAN_BITS };
            }
            return Single { bits: sign + INFINITY_BITS };
        }
        if m1 == 0 {
            return Single { bits: sign };
        }
        divide(negative, m1, m2, e1 - e2)
    }
}

/// Rounds `(n / d) * 2^e` to single precision.
fn divide(negative: bool, n: u64, d: u64, e: i32) -> (r: Single)
    requires
        0 < n < 0x100_0000,
        0 < d < 0x100_0000,
        -300 <= e <= 300,
    ensures
        r == rounded_ratio(negative, n as nat, d as nat, e as int),
{
    let sign: u32 = if negative {
        SIGN_BIT
    } else {
        0
    };
    let ln: i32 = leading_bit_of(n) as i32;
    let ld: i32 = leading_bit_of(d) as i32;
    proof {
        lemma2_to64();
        lemma_leading_bit(n as nat);
        lemma_leading_bit(d as nat);
        if ln >= 24 {
            if ln > 24 {
                lemma_pow2_strictly_increases(24, ln as nat);
            }
        }
        if ld >= 24 {
            if ld > 24 {
                lemma_pow2_strictly_increases(24, ld as nat);
            }
        }
    }
    assert(ln <= 23 && ld <= 23);
    let pd = power_of_two(ld as u32);
    let pn = power_of_two(ln as u32);
    proof {
        if ld < 23 {
            lemma_pow2_strictly_increases(ld as nat, 23);
        }
        if ln < 23 {
            lemma_pow2_strictly_increases(ln as nat, 23);
        }
        assert(n * pd < 0x100_0000 * 0x80_0001 && d * pn < 0x100_0000 * 0x80_0001)
            by (nonlinear_arith)
            requires
                n < 0x100_0000,
                d < 0x100_0000,
                0 < pd <= 0x80_0000,
                0 < pn <= 0x80_0000,
        ;
    }
    let l: i32 = if n * pd >= d * pn {
        ln - ld
    } else {
        ln - ld - 1
    };
    assert(l == ratio_bit(n as nat, d as nat));
    let natural: i32 = l + e - 23;
    let t: i32 = if natural < -149 {
        -149
    } else {
        natural
    };
    proof {
        lemma_ratio_sig_fits(n as nat, d as nat, e as int);
    }
    if t >= 106 {
        return Single { bits: sign + INFINITY_BITS };
    }
    let sig: u64 = if t <= e {
        let k: u32 = (e - t) as u32;
        let factor = power_of_two(k);
        proof {
            if k < 47 {
                lemma_pow2_strictly_increases(k as nat, 47);
            }
            lemma_pow2_adds(32, 15);
            assert(n * factor < 0x100_0000 * 0x8000_0000_0001) by (nonlinear_arith)
                requires
                    n < 0x100_0000,
                    0 < factor <= 0x8000_0000_0000,
            ;
        }
        let scaled: u128 = n as u128 * factor as u128;
        let floor: u128 = scaled / d as u128;
        let rest: u128 = scaled % d as u128;
        let rounded: u128 = if 2 * rest > d as u128 || (2 * rest == d as u128 && floor % 2 == 1) {
            floor + 1
        } else {
            floor
        };
        rounded as u64
    } else {
        let j: u32 = (t - e) as u32;
        if j >= 26 {
            proof {
                if j > 26 {
                    lemma_pow2_strictly_increases(26, j as nat);
                }
                let big = d * pow2(j as nat);
                assert(big >= 0x400_0000) by (nonlinear_arith)
                    requires
                        big == d * pow2(j as nat),
                        d >= 1,
                        pow2(j as nat) >= 0x400_0000,
                ;
                lemma_basic_div(n as int, big as int);
                lemma_small_mod(n as nat, big as nat);
            }
            0
        } else {
            let factor = power_of_two(j);
            proof {
                if j < 25 {
                    lemma_pow2_strictly_increases(j as nat, 25);
                }
                assert(d * factor < 0x100_0000 * 0x200_0001) by (nonlinear_arith)
                    requires
                        d < 0x100_0000,
                        0 < factor <= 0x200_0000,
                ;
                assert(d * factor > 0) by (nonlinear_arith)
                    requires
                        d > 0,
                        factor > 0,
                ;
            }
            let big: u64 = d * factor;
            let floor = n / big;
            let rest = n % big;
            if 2 * rest > big || (2 * rest == big && floor % 2 == 1) {
                floor + 1
            } else {
                floor
            }
        }
    };
    let magnitude: u64 = (t + 149) as u64 * 0x80_0000 + sig;
    if magnitude >= 0x7F80_0000 {
        Single { bits: sign + INFINITY_BITS }
    } else {
        Single { bits: sign + magnitude as u32 }
    }
}

/// Scaling both terms of a ratio leaves its rounding as it is.
pub proof fn lemma_nearest_scaled(n: nat, d: nat, c: nat)
    requires
        d > 0,
        c > 0,
    ensures
        nearest_ratio(n * c, d * c) == nearest_ratio(n, d),
{
    let floor = n as int / (d as int);
    let rest = n as int % (d as int);
    lemma_fundamental_div_mod(n as int, d as int);
    lemma_mod_bound(n as int, d as int);
    assert(n * c == floor * (d * c) + rest * c && 0 <= rest * c < d * c) by (nonlinear_arith)
        requires
            n == d * floor + rest,
            0 <= rest < d,
            c > 0,
    ;
    assert(d * c > 0) by (nonlinear_arith)
        requires
            d > 0,
            c > 0,
    ;
    lemma_fundamental_div_mod_converse((n * c) as int, (d * c) as int, floor, rest * c);
    assert((2 * (rest * c) > d * c) == (2 * rest > d) && (2 * (rest * c) == d * c) == (2 * rest
        == d)) by (nonlinear_arith)
        requires
            c > 0,
    ;
}

/// One as an encoding.
pub open spec fn one() -> Single {
    Single { bits: ONE_BITS }
}

/// Times one, a number is itself.
pub proof fn lemma_mul_one(x: Single)
    requires
        x.is_finite(),
    ensures
        x.mul_spec(one()) == x,
        one().mul_spec(x) == x,
{
    lemma2_to64();
    assert(one().exponent_field() == 127 && one().fraction_field() == 0);
    let m = x.significand();
    assert(m * 0x80_0000 == 0x80_0000 * m) by (nonlinear_arith);
    assert(m * 0x80_0000 == m * pow2(23)) by (nonlinear_arith)
        requires
            pow2(23) == 0x80_0000,
    ;
    lemma_scaled(x.is_negative(), m, 23, x.exponent());
    lemma_own(x);
}

/// Times zero, a finite number is zero, with the sign of the product.
pub proof fn lemma_mul_zero(x: Single, z: Single)
    requires
        x.is_finite(),
        z.is_zero(),
    ensures
        x.mul_spec(z) == zero(x.is_negative() != z.is_negative()),
        z.mul_spec(x) == zero(x.is_negative() != z.is_negative()),
{
    let m = x.significand();
    assert(m * 0 == 0 && 0 * m == 0) by (nonlinear_arith);
}

/// Plus zero, a number other than zero is itself.
pub proof fn lemma_add_zero(x: Single, z: Single)
    requires
        x.is_finite(),
        !x.is_zero(),
        z.is_zero(),
    ensures
        x.add_spec(z) == x,
        z.add_spec(x) == x,
{
    lemma2_to64();
    let m = x.significand();
    let k = (x.exponent() + 149) as nat;
    let p = pow2(k) as int;
    lemma_pow2_pos(k);
    assert(m > 0);
    lemma_scaled(x.is_negative(), m, k, x.exponent());
    lemma_own(x);
    assert(m * p > 0) by (nonlinear_arith)
        requires
            m > 0,
            p > 0,
    ;
    assert((-(m as int)) * p == -(m * p)) by (nonlinear_arith);
    assert(0 * pow2(0) == 0 && (-(0int)) * pow2(0) == 0) by (nonlinear_arith);
}

/// A number less itself is positive zero.
pub proof fn lemma_sub_self(x: Single)
    requires
        x.is_finite(),
    ensures
        x.sub_spec(x) == zero(false),
{
    let m = x.significand() as int;
    let p = pow2(0) as int;
    assert(m * p + (-m) * p == 0 && (-m) * p + m * p == 0) by (nonlinear_arith);
    let y = x.neg_spec();
    assert(y.exponent_field() == x.exponent_field() && y.fraction_field() == x.fraction_field()
        && y.is_negative() != x.is_negative());
}

/// Over one, a number is itself.
pub proof fn lemma_div_one(x: Single)
    requires
        x.is_finite(),
    ensures
        x.div_spec(one()) == x,
{
    lemma2_to64();
    assert(one().exponent_field() == 127 && one().fraction_field() == 0);
    if !x.is_zero() {
        let m = x.significand();
        let e = x.exponent();
        let unit: nat = 0x80_0000;
        lemma_own(x);
        lemma_leading_bit(m);
        lemma_leading_bit_is(unit, 23);
        let l = leading_bit(m);
        lemma_pow2_pos(l);
        assert(m * pow2(23) >= unit * pow2(l)) by (nonlinear_arith)
            requires
                m >= pow2(l),
                pow2(23) == unit,
        ;
        assert(ratio_bit(m, unit) == l - 23);
        let natural = l + e - 23;
        let t = if natural < -149 {
            -149
        } else {
            natural
        };
        if t <= e {
            let k = (e - t) as nat;
            lemma_pow2_adds(k, 23);
            lemma_pow2_pos(k);
            let scaled = m * pow2(k);
            assert(m * pow2(k + 23) == scaled * unit + 0) by (nonlinear_arith)
                requires
                    pow2(k + 23) == pow2(k) * unit,
                    scaled == m * pow2(k),
            ;
            lemma_fundamental_div_mod_converse(
                (m * pow2(k + 23)) as int,
                unit as int,
                scaled as int,
                0,
            );
        } else if t <= e + 23 {
            let q = (t - e) as nat;
            let c = pow2((23 - q) as nat);
            lemma_pow2_adds(q, (23 - q) as nat);
            lemma_pow2_pos((23 - q) as nat);
            lemma_pow2_pos(q);
            lemma_nearest_scaled(m, pow2(q), c);
            assert(m * c == m * pow2((e + 23 - t) as nat));
            assert(pow2(q) * c == unit);
        } else {
            let q = (t - e) as nat;
            let j = (t - e - 23) as nat;
            lemma_pow2_adds(23, j);
            assert(unit * pow2(j) == pow2(q)) by (nonlinear_arith)
                requires
                    pow2(q) == pow2(23) * pow2(j),
                    pow2(23) == unit,
            ;
        }
    }
}

impl Single {
    /// The single-precision number nearest to an integer.
    pub open spec fn of_integer(v: u64) -> Single {
        rounded(false, v as nat, 0)
    }

    /// Converts an integer, rounding to nearest.
    pub fn from_integer(v: u32) -> (r: Single)
        ensures
            r == Single::of_integer(v as u64),
    {
        round_pack(false, v as u64, 0)
    }

    /// Tells whether the number is zero, of either sign.
    pub fn is_zero_value(self) -> (b: bool)
        ensures
            b == self.is_zero(),
    {
        let f = self.fields();
        f.exponent_field == 0 && f.fraction == 0
    }

    /// Where the number stands in the order of the numbers: its magnitude's
    /// encoding, with the number's sign. Both zeros stand at zero.
    pub open spec fn order_key(self) -> int {
        let magnitude = self.bits % 0x8000_0000;
        if self.is_negative() {
            -magnitude
        } else {
            magnitude as int
        }
    }

    /// The number is less than `y`. What is no number is not less than
    /// anything, and nothing is less than it.
    pub open spec fn lt_spec(self, y: Single) -> bool {
        !self.is_nan() && !y.is_nan() && self.order_key() < y.order_key()
    }

    /// The magnitude: the number without its sign.
    pub open spec fn abs_spec(self) -> Single {
        Single { bits: self.bits % 0x8000_0000 }
    }

    /// Tells whether the number is less than `y`.
    pub fn lt(self, y: Single) -> (b: bool)
        ensures
            b == self.lt_spec(y),
    {
        let a = self.fields();
        let c = y.fields();
        if (a.exponent_field == 0xFF && a.fraction != 0) || (c.exponent_field == 0xFF
            && c.fraction != 0) {
            return false;
        }
        let m1: u32 = self.bits % 0x8000_0000;
        let m2: u32 = y.bits % 0x8000_0000;
        if a.negative {
            if c.negative {
                m2 < m1
            } else {
                m1 > 0 || m2 > 0
            }
        } else {
            if c.negative {
                false
            } else {
                m1 < m2
            }
        }
    }

    /// Takes the sign off.
    pub fn abs(self) -> (r: Single)
        ensures
            r == self.abs_spec(),
    {
        Single { bits: self.bits % 0x8000_0000 }
    }
}

/// The product of two numbers of the unit range is finite and not
/// negative.
pub proof fn lemma_product_of_units(x: Single, y: Single)
    requires
        x.is_unit(),
        y.is_unit(),
    ensures
        x.mul_spec(y).is_finite(),
        !x.mul_spec(y).is_negative(),
{
    lemma2_to64();
    let m = x.significand() * y.significand();
    let e = x.exponent() + y.exponent();
    assert(x.exponent_field() <= 127 && y.exponent_field() <= 127);
    assert(e <= -46);
    if m > 0 {
        assert(m < 0x100_0000 * 0x100_0000) by (nonlinear_arith)
            requires
                m == x.significand() * y.significand(),
                x.significand() < 0x100_0000,
                y.significand() < 0x100_0000,
        ;
        lemma_leading_bit(m);
        let l = leading_bit(m);
        if l >= 48 {
            if l > 48 {
                lemma_pow2_strictly_increases(48, l);
            }
            lemma_pow2_adds(32, 16);
        }
        assert(l <= 47);
        lemma_sig_fits(m, e);
        let natural = l + e - 23;
        assert(natural <= -22);
    }
}

/// A positive number divided by a greater one lies in the unit range.
pub proof fn lemma_share_is_unit(d: Single, w: Single)
    requires
        zero(false).lt_spec(d),
        d.lt_spec(w),
    ensures
        d.div_spec(w).is_unit(),
{
    lemma2_to64();
    assert(zero(false).order_key() == 0);
    assert(0 < d.bits < w.bits <= INFINITY_BITS);
    if !w.is_infinite() {
        let n = d.significand();
        let m = w.significand();
        let e = d.exponent() - w.exponent();
        let q = (-e) as nat;
        assert(e <= 0);
        assert(n > 0 && m > 0);
        // The numbers stand in the order of their encodings.
        assert(n < m * pow2(q)) by {
            lemma_pow2_pos(q);
            assert(d.bits == d.exponent_field() * 0x80_0000 + d.fraction_field());
            assert(w.bits == w.exponent_field() * 0x80_0000 + w.fraction_field());
            if d.exponent_field() == w.exponent_field() {
                assert(q == 0);
                assert(pow2(0) == 1);
                assert(n < m);
                assert(m * pow2(q) == m) by (nonlinear_arith)
                    requires
                        pow2(q) == 1,
                ;
            } else {
                assert(d.exponent_field() < w.exponent_field());
                assert(m >= 0x80_0000);
                if d.exponent_field() != 0 {
                    assert(q >= 1);
                    lemma_pow2_unfold(q);
                    lemma_pow2_pos((q - 1) as nat);
                }
                assert(n < m * pow2(q)) by (nonlinear_arith)
                    requires
                        n < 0x100_0000,
                        m >= 0x80_0000,
                        pow2(q) >= 1,
                        n >= 0x80_0000 ==> pow2(q) >= 2,
                ;
            }
        }
        // So the ratio has its leading bit below the unit.
        lemma_ratio_bit(n, m);
        let l = ratio_bit(n, m);
        if l >= q {
            if l > q {
                lemma_pow2_strictly_increases(q, l as nat);
            }
            assert(m * pow2(q) <= m * pow2(l as nat)) by (nonlinear_arith)
                requires
                    pow2(q) <= pow2(l as nat),
                    m > 0,
            ;
        }
        assert(l + e <= -1);
        lemma_ratio_sig_fits(n, m, e);
    }
}

} // verus!
