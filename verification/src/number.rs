//! Numbers of the working colour space, carried by their IEEE 754 encodings.
//!
//! The engine holds single- and double-precision numbers as the integers
//! that encode them. Here are the encodings, the conversion of a channel to
//! and from eight bits, and the conversions from one precision to the
//! other, each done in integer arithmetic and giving the result the number
//! format defines.
//!
//! The magnitude of a number is `significand * 2^exponent`. For a number of
//! the unit range the encoding, read as an unsigned integer, grows with the
//! number.

use vstd::prelude::*;
use vstd::arithmetic::power2::*;
use vstd::arithmetic::div_mod::{
    lemma_basic_div, lemma_fundamental_div_mod_converse, lemma_small_mod,
};
use vstd::bits::*;

verus! {

/// Encoding of one.
pub const ONE_BITS: u32 = 0x3F80_0000;

/// Encoding of positive infinity; every larger positive encoding is no number.
pub const INFINITY_BITS: u32 = 0x7F80_0000;

/// Lowest encoding with the sign set.
pub const SIGN_BIT: u32 = 0x8000_0000;

/// A single-precision number, held as its binary32 encoding.
#[derive(Clone, Copy, Debug, PartialEq, Eq, Structural)]
pub struct Single {
    pub bits: u32,
}

/// A double-precision number, held as its binary64 encoding.
#[derive(Clone, Copy, Debug, PartialEq, Eq, Structural)]
pub struct Double {
    pub bits: u64,
}

/// Number of doublings that bring a nonzero fraction up to `2^23`, the
/// weight of the leading bit of a normal significand.
pub open spec fn normalizing_shift(f: nat) -> nat
    decreases 0x100_0000 - f,
{
    if f == 0 || f >= 0x80_0000 {
        0
    } else {
        1 + normalizing_shift(2 * f)
    }
}

impl Double {
    /// The sign of the encoding is set.
    pub open spec fn is_negative(self) -> bool {
        self.bits >= 0x8000_0000_0000_0000
    }

    /// The exponent field of the encoding.
    pub open spec fn exponent_field(self) -> nat {
        ((self.bits / 0x10_0000_0000_0000) % 0x800) as nat
    }

    /// The fraction field of the encoding.
    pub open spec fn fraction_field(self) -> nat {
        (self.bits % 0x10_0000_0000_0000) as nat
    }

    /// The encoding stands for a number, not for an infinity or for none.
    pub open spec fn is_finite(self) -> bool {
        self.exponent_field() < 0x7FF
    }

    /// The magnitude of the number is `significand * 2^exponent`.
    pub open spec fn significand(self) -> nat {
        if self.exponent_field() == 0 {
            self.fraction_field()
        } else {
            0x10_0000_0000_0000 + self.fraction_field()
        }
    }

    /// Power of two by which `significand` is to be multiplied.
    pub open spec fn exponent(self) -> int {
        if self.exponent_field() == 0 {
            -1074
        } else {
            self.exponent_field() - 1075
        }
    }
}

/// `m / 2^q` rounded to the nearest integer, a half to the even neighbour.
pub open spec fn round_half_even(m: nat, q: nat) -> nat {
    let unit = pow2(q);
    let floor = m / unit;
    let rest = m % unit;
    if 2 * rest > unit || (2 * rest == unit && floor % 2 == 1) {
        floor + 1
    } else {
        floor
    }
}

impl Double {
    /// Number of low bits of the significand that single precision has no
    /// room for: 29 where the result is normal, more where it is below the
    /// normal range and loses precision on the way down.
    pub open spec fn narrowing_shift(self) -> nat {
        let e = self.exponent_field();
        if e >= 897 {
            29
        } else if e == 0 {
            925
        } else {
            (926 - e) as nat
        }
    }

    /// The nearest single-precision number, a tie going to the one with the
    /// even significand. A magnitude beyond the single-precision range
    /// becomes an infinity, and what is no number becomes the quiet
    /// no-number with the leading bits of the same payload.
    pub open spec fn narrow_spec(self) -> Single {
        let sign: int = if self.is_negative() {
            0x8000_0000
        } else {
            0
        };
        let e = self.exponent_field();
        let f = self.fraction_field();
        let magnitude: int = if e == 0x7FF {
            if f == 0 {
                0x7F80_0000
            } else {
                (0x7FC0_0000 + (f / 0x2000_0000) % 0x40_0000) as int
            }
        } else {
            let base: int = if e >= 897 {
                (e - 897) * 0x80_0000
            } else {
                0
            };
            let rounded = base + round_half_even(self.significand(), self.narrowing_shift());
            if rounded >= 0x7F80_0000 {
                0x7F80_0000
            } else {
                rounded
            }
        };
        Single { bits: (sign + magnitude) as u32 }
    }

    /// Converts to single precision, rounding to nearest.
    pub fn narrow(self) -> (x: Single)
        ensures
            x == self.narrow_spec(),
    {
        let bits: u64 = self.bits;
        let sign: u32 = if bits >= 0x8000_0000_0000_0000 {
            0x8000_0000
        } else {
            0
        };
        let e: u64 = (bits >> 52) & 0x7FF;
        let f: u64 = bits & 0xF_FFFF_FFFF_FFFF;
        assert(e == (bits / 0x10_0000_0000_0000) % 0x800 && f == bits % 0x10_0000_0000_0000)
            by (bit_vector)
            requires
                e == (bits >> 52) & 0x7FF,
                f == bits & 0xF_FFFF_FFFF_FFFF,
        ;
        if e == 0x7FF {
            let magnitude: u32 = if f == 0 {
                0x7F80_0000
            } else {
                0x7FC0_0000 + ((f / 0x2000_0000) % 0x40_0000) as u32
            };
            return Single { bits: sign + magnitude };
        }
        let m: u64 = if e == 0 {
            f
        } else {
            0x10_0000_0000_0000 + f
        };
        let q: u64 = if e >= 897 {
            29
        } else if e == 0 {
            925
        } else {
            926 - e
        };
        let base: u64 = if e >= 897 {
            (e - 897) * 0x80_0000
        } else {
            0
        };
        let rounded_sig: u64 = if q >= 54 {
            proof {
                lemma_rounds_away(m as nat, q as nat);
            }
            0
        } else {
            proof {
                lemma2_to64();
                lemma_pow2_strictly_increases(q as nat, 64);
                lemma_u64_shl_is_mul(1, q);
            }
            let unit: u64 = 1u64 << q;
            proof {
                lemma_pow2_unfold(64);
                lemma_pow2_strictly_increases(q as nat, 63);
                lemma_pow2_pos(q as nat);
            }
            assert(unit == pow2(q as nat));
            assert(0 < unit < 0x8000_0000_0000_0000);
            let floor = m / unit;
            let rest = m % unit;
            if 2 * rest > unit || (2 * rest == unit && floor % 2 == 1) {
                floor + 1
            } else {
                floor
            }
        };
        assert(rounded_sig == round_half_even(self.significand(), self.narrowing_shift()));
        assert(rounded_sig <= 0x100_0000) by {
            if q < 54 {
                lemma2_to64();
                if q > 29 {
                    lemma_pow2_strictly_increases(29, q as nat);
                }
                let unit = pow2(q as nat) as int;
                assert(m as int / unit <= 0xFF_FFFF) by (nonlinear_arith)
                    requires
                        0 <= m < 0x20_0000_0000_0000,
                        unit >= 0x2000_0000,
                ;
            }
        }
        let rounded: u64 = base + rounded_sig;
        let magnitude: u32 = if rounded >= 0x7F80_0000 {
            0x7F80_0000
        } else {
            rounded as u32
        };
        Single { bits: sign + magnitude }
    }
}

/// A significand of 53 bits shifted down by 54 or more rounds to zero.
proof fn lemma_rounds_away(m: nat, q: nat)
    requires
        m < 0x20_0000_0000_0000,
        q >= 54,
    ensures
        round_half_even(m, q) == 0,
{
    lemma2_to64();
    lemma_pow2_adds(32, 22);
    assert(pow2(54) == 0x40_0000_0000_0000);
    if q > 54 {
        lemma_pow2_strictly_increases(54, q);
    }
    lemma_basic_div(m as int, pow2(q) as int);
    lemma_small_mod(m, pow2(q));
}

/// `255 * sig / 2^scale`, rounded to the nearest integer, halves upward:
/// the floor of `(2 * 255 * sig + 2^scale) / 2^(scale + 1)`.
pub open spec fn round_255(sig: nat, scale: nat) -> int {
    (510 * sig + pow2(scale)) as int / (pow2(scale + 1) as int)
}

impl Single {
    /// The number lies between zero and one, both included. Negative zero
    /// does not count: its encoding has the sign set.
    pub open spec fn is_unit(self) -> bool {
        self.bits <= ONE_BITS
    }

    /// The exponent field of the encoding.
    pub open spec fn exponent_field(self) -> nat {
        ((self.bits / 0x80_0000) % 0x100) as nat
    }

    /// The fraction field of the encoding.
    pub open spec fn fraction_field(self) -> nat {
        (self.bits % 0x80_0000) as nat
    }

    /// Numerator of the number's magnitude over `2^scale`.
    pub open spec fn significand(self) -> nat {
        if self.exponent_field() == 0 {
            self.fraction_field()
        } else {
            0x80_0000 + self.fraction_field()
        }
    }

    /// Binary logarithm of the denominator that goes with `significand`,
    /// for a magnitude below `2^24`.
    pub open spec fn scale(self) -> nat {
        if self.exponent_field() == 0 {
            149
        } else {
            (150 - self.exponent_field()) as nat
        }
    }

    /// The 8-bit value of a channel: `round(c * 255)` held to `0..=255`.
    /// A negative number gives 0, a number of one or more gives 255, and an
    /// encoding that is no number gives 0.
    pub open spec fn to_u8_spec(self) -> u8 {
        if self.bits >= SIGN_BIT || self.bits > INFINITY_BITS {
            0
        } else if self.bits >= ONE_BITS {
            255
        } else {
            round_255(self.significand(), self.scale()) as u8
        }
    }

    /// Number of binary places by which `b / 255` lies below one: the `k`
    /// with `1 <= (b / 255) * 2^k < 2`, for `b` from 1 to 254.
    pub open spec fn ratio_shift(b: u8) -> nat {
        if b >= 128 {
            1
        } else if b >= 64 {
            2
        } else if b >= 32 {
            3
        } else if b >= 16 {
            4
        } else if b >= 8 {
            5
        } else if b >= 4 {
            6
        } else if b >= 2 {
            7
        } else {
            8
        }
    }

    /// The working value of an 8-bit channel: the single-precision number
    /// nearest to `b / 255`. Its significand is `b * 2^scale / 255` rounded
    /// to the nearest integer, at the scale that makes it 24 bits long.
    pub open spec fn from_u8_spec(b: u8) -> Single {
        if b == 0 {
            Single { bits: 0 }
        } else if b == 255 {
            Single { bits: ONE_BITS }
        } else {
            let scale = Self::ratio_shift(b) + 23;
            let sig = (2 * (b * pow2(scale)) + 255) / 510;
            Single { bits: ((150 - scale) * 0x80_0000 + (sig - 0x80_0000)) as u32 }
        }
    }

    /// The sign of the encoding is set.
    pub open spec fn is_negative(self) -> bool {
        self.bits >= SIGN_BIT
    }

    /// The encoding stands for a number, not for an infinity or for none.
    pub open spec fn is_finite(self) -> bool {
        self.exponent_field() < 0xFF
    }

    /// Power of two by which `significand` is to be multiplied to give the
    /// number's magnitude.
    pub open spec fn exponent(self) -> int {
        if self.exponent_field() == 0 {
            -149
        } else {
            self.exponent_field() - 150
        }
    }

    /// The same number in double precision. Every single-precision number
    /// is a double-precision number: a normal one keeps its fraction and
    /// has its exponent rebiased, a subnormal one becomes normal, an
    /// infinity stays one, and what is no number becomes the quiet
    /// no-number with the same payload.
    pub open spec fn widen_spec(self) -> Double {
        let sign: int = if self.is_negative() {
            0x8000_0000_0000_0000
        } else {
            0
        };
        let e = self.exponent_field();
        let f = self.fraction_field();
        let magnitude: int = if e == 0xFF {
            if f == 0 {
                0x7FF0_0000_0000_0000
            } else {
                (0x7FF8_0000_0000_0000 + (f % 0x40_0000) * 0x2000_0000) as int
            }
        } else if e != 0 {
            ((e + 896) * 0x10_0000_0000_0000 + f * 0x2000_0000) as int
        } else if f == 0 {
            0
        } else {
            let k = normalizing_shift(f);
            (897 - k) * 0x10_0000_0000_0000 + (f * pow2(k) - 0x80_0000) * 0x2000_0000
        };
        Double { bits: (sign + magnitude) as u64 }
    }

    /// The number zero.
    pub fn zero() -> (r: Single)
        ensures
            r.bits == 0,
    {
        Single { bits: 0 }
    }

    /// The number one.
    pub fn one() -> (r: Single)
        ensures
            r.bits == ONE_BITS,
    {
        Single { bits: ONE_BITS }
    }

    /// Converts to double precision, exactly.
    pub fn widen(self) -> (d: Double)
        ensures
            d == self.widen_spec(),
    {
        let bits: u32 = self.bits;
        let sign: u64 = if bits >= SIGN_BIT {
            0x8000_0000_0000_0000
        } else {
            0
        };
        let e: u32 = (bits >> 23) & 0xFF;
        let f: u32 = bits & 0x7F_FFFF;
        assert(e == (bits / 0x80_0000) % 0x100 && f == bits % 0x80_0000) by (bit_vector)
            requires
                e == (bits >> 23) & 0xFF,
                f == bits & 0x7F_FFFF,
        ;
        let magnitude: u64 = if e == 0xFF {
            if f == 0 {
                0x7FF0_0000_0000_0000
            } else {
                0x7FF8_0000_0000_0000 + (f % 0x40_0000) as u64 * 0x2000_0000
            }
        } else if e != 0 {
            (e as u64 + 896) * 0x10_0000_0000_0000 + f as u64 * 0x2000_0000
        } else if f == 0 {
            0
        } else {
            let mut k: u32 = 0;
            let mut g: u32 = f;
            proof {
                lemma2_to64();
            }
            while g < 0x80_0000
                invariant
                    0 < f < 0x80_0000,
                    0 < g < 0x100_0000,
                    k <= 23,
                    g == f * pow2(k as nat),
                    normalizing_shift(f as nat) == k + normalizing_shift(g as nat),
                decreases 0x100_0000 - g,
            {
                proof {
                    lemma2_to64();
                    lemma_pow2_unfold((k + 1) as nat);
                    assert(f * pow2((k + 1) as nat) == 2 * (f * pow2(k as nat))) by (nonlinear_arith)
                        requires
                            pow2((k + 1) as nat) == 2 * pow2(k as nat),
                    ;
                    if k == 23 {
                        lemma_pow2_pos(0);
                        assert(f * pow2(23) >= 0x80_0000) by (nonlinear_arith)
                            requires
                                f >= 1,
                                pow2(23) == 0x80_0000,
                        ;
                    }
                }
                g = g * 2;
                k = k + 1;
            }
            (897 - k) as u64 * 0x10_0000_0000_0000 + (g - 0x80_0000) as u64 * 0x2000_0000
        };
        Double { bits: sign + magnitude }
    }

    /// The working value of an 8-bit channel, `b / 255`.
    pub fn from_u8(b: u8) -> (r: Single)
        ensures
            r == Self::from_u8_spec(b),
    {
        if b == 0 {
            return Single { bits: 0 };
        }
        if b == 255 {
            return Single { bits: ONE_BITS };
        }
        let (shift, unit): (u32, u64) = if b >= 128 {
            (1, 0x100_0000)
        } else if b >= 64 {
            (2, 0x200_0000)
        } else if b >= 32 {
            (3, 0x400_0000)
        } else if b >= 16 {
            (4, 0x800_0000)
        } else if b >= 8 {
            (5, 0x1000_0000)
        } else if b >= 4 {
            (6, 0x2000_0000)
        } else if b >= 2 {
            (7, 0x4000_0000)
        } else {
            (8, 0x8000_0000)
        };
        proof {
            lemma2_to64();
        }
        assert(unit == pow2((shift + 23) as nat) && shift == Self::ratio_shift(b));
        let scaled: u64 = b as u64 * unit;
        assert(0x7F80_0000 <= scaled <= 0xFE00_0000);
        let sig: u64 = (2 * scaled + 255) / 510;
        let bits: u64 = (127 - shift) as u64 * 0x80_0000 + (sig - 0x80_0000);
        Single { bits: bits as u32 }
    }

    /// Quantises a channel to eight bits.
    pub fn to_u8(self) -> (r: u8)
        ensures
            r == self.to_u8_spec(),
    {
        let bits: u32 = self.bits;
        if bits >= SIGN_BIT || bits > INFINITY_BITS {
            return 0;
        }
        if bits >= ONE_BITS {
            return 255;
        }
        let e: u32 = bits >> 23;
        let f: u32 = bits & 0x7F_FFFF;
        assert(e == bits / 0x80_0000 && f == bits % 0x80_0000 && e <= 126) by (bit_vector)
            requires
                e == bits >> 23,
                f == bits & 0x7F_FFFF,
                bits < 0x3F80_0000u32,
        ;
        assert(self.exponent_field() == e && self.fraction_field() == f);
        if e < 118 {
            proof {
                lemma_rounds_to_zero(self.significand(), self.scale());
            }
            return 0;
        }
        let m: u64 = 0x80_0000 + f as u64;
        let s: u32 = 150 - e;
        let half: u64 = 1u64 << s;
        proof {
            lemma2_to64();
            lemma_pow2_strictly_increases(s as nat, 33);
            lemma_u64_shl_is_mul(1, s as u64);
        }
        assert(half == pow2(s as nat) && half <= 0x1_0000_0000 && m < 0x100_0000);
        let sum: u64 = 510 * m + half;
        let q: u64 = sum >> (s + 1);
        proof {
            lemma_u64_shr_is_div(sum, (s + 1) as u64);
            lemma_pow2_unfold((s + 1) as nat);
            lemma_pow2_strictly_increases(24, (s + 1) as nat);
            let d = pow2((s + 1) as nat) as int;
            assert(q == sum as int / d);
            assert(sum < 256 * d);
            assert(sum as int / d < 256) by (nonlinear_arith)
                requires
                    0 <= sum < 256 * d,
                    d > 0,
            ;
            assert(q == round_255(self.significand(), self.scale()));
        }
        q as u8
    }
}

/// The normalizing shift brings a nonzero fraction to 24 bits.
pub proof fn lemma_normalizing_shift(f: nat)
    requires
        0 < f < 0x100_0000,
    ensures
        normalizing_shift(f) <= 23,
        f < 0x80_0000 ==> normalizing_shift(f) >= 1,
        0x80_0000 <= f * pow2(normalizing_shift(f)) < 0x100_0000,
    decreases 0x100_0000 - f,
{
    lemma2_to64();
    if f < 0x80_0000 {
        lemma_normalizing_shift(2 * f);
        let k = normalizing_shift(2 * f);
        lemma_pow2_unfold(k + 1);
        assert(f * pow2(k + 1) == (2 * f) * pow2(k)) by (nonlinear_arith)
            requires
                pow2(k + 1) == 2 * pow2(k),
        ;
        if k == 23 {
            assert((2 * f) * pow2(23) >= 0x100_0000) by (nonlinear_arith)
                requires
                    f >= 1,
                    pow2(23) == 0x80_0000,
            ;
        }
    } else {
        assert(f * pow2(0) == f) by (nonlinear_arith)
            requires
                pow2(0) == 1,
        ;
    }
}

/// Widening keeps the number: a finite single-precision number and its
/// double-precision form have the same sign and the same magnitude,
/// `significand * 2^exponent`.
pub proof fn lemma_widen_same_number(x: Single)
    requires
        x.is_finite(),
    ensures
        x.widen_spec().is_finite(),
        x.widen_spec().is_negative() == x.is_negative(),
        x.widen_spec().exponent() <= x.exponent(),
        x.widen_spec().significand() == x.significand() * pow2(
            (x.exponent() - x.widen_spec().exponent()) as nat,
        ),
{
    lemma2_to64();
    let d = x.widen_spec();
    let e = x.exponent_field();
    let f = x.fraction_field();
    let sign: int = if x.is_negative() {
        0x8000_0000_0000_0000
    } else {
        0
    };
    if e != 0 {
        assert(d.bits == sign + (e + 896) * 0x10_0000_0000_0000 + f * 0x2000_0000);
        assert(d.exponent_field() == e + 896);
        assert(d.fraction_field() == f * 0x2000_0000);
        assert(x.exponent() - d.exponent() == 29);
        let sig = x.significand();
        assert(sig * pow2(29) == sig * 0x2000_0000) by (nonlinear_arith)
            requires
                pow2(29) == 0x2000_0000,
        ;
        assert(d.significand() == sig * pow2(29));
    } else if f == 0 {
        assert(d.bits == sign);
        assert(d.significand() == 0);
        assert(x.significand() * pow2((x.exponent() - d.exponent()) as nat) == 0)
            by (nonlinear_arith)
            requires
                x.significand() == 0,
        ;
    } else {
        let k = normalizing_shift(f);
        lemma_normalizing_shift(f);
        let g = f * pow2(k);
        assert(d.bits == sign + (897 - k) * 0x10_0000_0000_0000 + (g - 0x80_0000) * 0x2000_0000);
        assert(d.exponent_field() == 897 - k);
        assert(d.fraction_field() == (g - 0x80_0000) * 0x2000_0000);
        assert(x.exponent() - d.exponent() == 29 + k);
        lemma_pow2_adds(k, 29);
        assert(f * pow2(k + 29) == g * 0x2000_0000) by (nonlinear_arith)
            requires
                pow2(k + 29) == pow2(k) * 0x2000_0000,
                g == f * pow2(k),
        ;
        assert((x.exponent() - d.exponent()) as nat == k + 29);
        assert(d.significand() == x.significand() * pow2(k + 29));
    }
}

/// Widened and narrowed again, a single-precision number is itself; so is
/// an infinity. What is no number comes back quiet.
pub proof fn lemma_widen_then_narrow(x: Single)
    requires
        x.is_finite() || x.fraction_field() == 0,
    ensures
        x.widen_spec().narrow_spec() == x,
{
    lemma2_to64();
    let d = x.widen_spec();
    let e = x.exponent_field();
    let f = x.fraction_field();
    let sign: int = if x.is_negative() {
        0x8000_0000_0000_0000
    } else {
        0
    };
    let low: int = if x.is_negative() {
        0x8000_0000
    } else {
        0
    };
    assert(x.bits == low + e * 0x80_0000 + f);
    if e == 0xFF {
        assert(d.bits == sign + 0x7FF0_0000_0000_0000);
        assert(d.exponent_field() == 0x7FF && d.fraction_field() == 0);
    } else if e != 0 {
        assert(d.bits == sign + (e + 896) * 0x10_0000_0000_0000 + f * 0x2000_0000);
        assert(d.exponent_field() == e + 896);
        assert(d.fraction_field() == f * 0x2000_0000);
        let m = d.significand();
        assert(m == (0x80_0000 + f) * 0x2000_0000);
        assert(d.narrowing_shift() == 29);
        assert(m / pow2(29) == 0x80_0000 + f && m % pow2(29) == 0);
        assert(round_half_even(m, 29) == 0x80_0000 + f);
    } else if f == 0 {
        assert(d.bits == sign);
        assert(d.significand() == 0 && d.narrowing_shift() == 925);
        lemma_rounds_away(0, 925);
    } else {
        let k = normalizing_shift(f);
        lemma_normalizing_shift(f);
        let g = f * pow2(k);
        assert(d.bits == sign + (897 - k) * 0x10_0000_0000_0000 + (g - 0x80_0000) * 0x2000_0000);
        assert(d.exponent_field() == 897 - k);
        assert(d.fraction_field() == (g - 0x80_0000) * 0x2000_0000);
        let m = d.significand();
        let q = d.narrowing_shift();
        assert(q == 29 + k);
        lemma_pow2_adds(k, 29);
        lemma_pow2_pos(q);
        let unit = pow2(q) as int;
        assert(m == f * unit) by (nonlinear_arith)
            requires
                m == g * 0x2000_0000,
                g == f * pow2(k),
                unit == pow2(k) * 0x2000_0000,
        ;
        lemma_fundamental_div_mod_converse(m as int, unit, f as int, 0);
        assert(round_half_even(m, q) == f);
    }
}

/// The working value of an 8-bit channel is a normal number of the unit
/// range, and no single-precision number is nearer to `b / 255`: it is off
/// by at most half a unit in the last place of its significand.
pub proof fn lemma_from_u8_is_nearest(b: u8)
    requires
        b > 0,
    ensures
        Single::from_u8_spec(b).is_unit(),
        Single::from_u8_spec(b).exponent_field() >= 1,
        -255 <= 2 * (255 * Single::from_u8_spec(b).significand() - b * pow2(
            Single::from_u8_spec(b).scale(),
        )) <= 255,
{
    lemma2_to64();
    let x = Single::from_u8_spec(b);
    if b == 255 {
        assert(x.exponent_field() == 127 && x.fraction_field() == 0);
    } else {
        let shift = Single::ratio_shift(b);
        let unit = pow2(shift + 23) as int;
        let scaled = b * unit;
        assert(0x7F80_0000 <= scaled <= 0xFE00_0000) by {
            lemma_ratio_scaled(b);
        }
        let sig = (2 * scaled + 255) / 510;
        assert(0x80_0000 <= sig < 0x100_0000);
        assert(x.bits == (127 - shift) * 0x80_0000 + (sig - 0x80_0000));
        assert(x.exponent_field() == 127 - shift && x.fraction_field() == sig - 0x80_0000);
    }
}

/// Scaled by its shift, `b / 255` lies between one and two.
proof fn lemma_ratio_scaled(b: u8)
    requires
        0 < b < 255,
    ensures
        0x7F80_0000 <= b * pow2(Single::ratio_shift(b) + 23) <= 0xFE00_0000,
{
    lemma2_to64();
    let shift = Single::ratio_shift(b);
    if shift == 1 {
        assert(b * pow2(24) == b * 0x100_0000);
    } else if shift == 2 {
        assert(b * pow2(25) == b * 0x200_0000);
    } else if shift == 3 {
        assert(b * pow2(26) == b * 0x400_0000);
    } else if shift == 4 {
        assert(b * pow2(27) == b * 0x800_0000);
    } else if shift == 5 {
        assert(b * pow2(28) == b * 0x1000_0000);
    } else if shift == 6 {
        assert(b * pow2(29) == b * 0x2000_0000);
    } else if shift == 7 {
        assert(b * pow2(30) == b * 0x4000_0000);
    } else {
        assert(b * pow2(31) == b * 0x8000_0000);
    }
}

/// An 8-bit channel survives the way through the working space: the
/// working value of `b` quantises back to `b`.
pub proof fn lemma_u8_round_trip(b: u8)
    ensures
        Single::from_u8_spec(b).to_u8_spec() == b,
{
    lemma2_to64();
    if b == 0 {
        lemma_zero_quantises_to_zero();
    } else if b < 255 {
        lemma_from_u8_is_nearest(b);
        lemma_ratio_scaled(b);
        let x = Single::from_u8_spec(b);
        let scale = x.scale();
        let sig = x.significand();
        assert(scale == Single::ratio_shift(b) + 23);
        let unit = pow2(scale) as int;
        lemma_pow2_unfold(scale + 1);
        assert(pow2(scale + 1) == 2 * unit);
        lemma_pow2_strictly_increases(23, scale);
        let scaled = b * pow2(scale);
        assert(b * (2 * unit) == 2 * scaled) by (nonlinear_arith)
            requires
                scaled == b * unit,
        ;
        let rest = 510 * sig + unit - b * (2 * unit);
        assert(0 <= rest < 2 * unit);
        assert((b * (2 * unit) + rest) / (2 * unit) == b) by (nonlinear_arith)
            requires
                0 <= rest < 2 * unit,
                unit > 0,
                b >= 0,
        ;
        assert(x.bits < ONE_BITS);
    }
}

/// Zero quantises to 0.
pub proof fn lemma_zero_quantises_to_zero()
    ensures
        (Single { bits: 0 }).to_u8_spec() == 0,
{
    lemma_rounds_to_zero(0, 149);
}

/// A magnitude below `2^-9` is nearer to zero than to `1/255`.
proof fn lemma_rounds_to_zero(sig: nat, scale: nat)
    requires
        sig < 0x100_0000,
        scale >= 33,
    ensures
        round_255(sig, scale) == 0,
{
    lemma2_to64();
    lemma_pow2_unfold(33);
    assert(pow2(33) == 0x2_0000_0000);
    if scale > 33 {
        lemma_pow2_strictly_increases(33, scale);
    }
    lemma_pow2_unfold(scale + 1);
    assert(pow2(scale + 1) == 2 * pow2(scale));
    assert(510 * sig < pow2(scale));
    lemma_basic_div((510 * sig + pow2(scale)) as int, pow2(scale + 1) as int);
}

/// Narrowing is stable: what has been narrowed is a single-precision
/// number, and widening it and narrowing it again changes nothing.
pub proof fn lemma_narrow_is_stable(d: Double)
    ensures
        d.narrow_spec().widen_spec().narrow_spec() == d.narrow_spec(),
{
    lemma2_to64();
    let x = d.narrow_spec();
    if d.exponent_field() == 0x7FF && d.fraction_field() != 0 {
        let payload = (d.fraction_field() / 0x2000_0000) % 0x40_0000;
        let sign: int = if d.is_negative() {
            0x8000_0000
        } else {
            0
        };
        assert(x.bits == sign + 0x7FC0_0000 + payload);
        assert(x.exponent_field() == 0xFF);
        assert(x.fraction_field() == 0x40_0000 + payload);
        let w = x.widen_spec();
        let wide_sign: int = if d.is_negative() {
            0x8000_0000_0000_0000
        } else {
            0
        };
        assert(w.bits == wide_sign + 0x7FF8_0000_0000_0000 + payload * 0x2000_0000);
        assert(w.exponent_field() == 0x7FF);
        assert(w.fraction_field() == 0x8_0000_0000_0000 + payload * 0x2000_0000);
    } else {
        lemma_widen_then_narrow(x);
    }
}

} // verus!
