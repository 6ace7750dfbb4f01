//! Working colours: four straight (not premultiplied) channels in the unit
//! range, their 8-bit form, and the two ways colours are mixed: one laid
//! over another, and one blended into another.

use vstd::prelude::*;
use vstd::arithmetic::power2::pow2;
use crate::arith::{
    lemma_add_zero, lemma_div_one, lemma_mul_one, lemma_mul_zero, lemma_product_of_units,
    lemma_sub_self, one, zero,
};
use crate::number::{lemma_u8_round_trip, lemma_zero_quantises_to_zero, Single, ONE_BITS};

verus! {

/// A working colour.
#[derive(Clone, Copy, Debug, PartialEq, Eq, Structural)]
pub struct Rgba {
    pub r: Single,
    pub g: Single,
    pub b: Single,
    pub a: Single,
}

impl Rgba {
    /// Opaque black, the colour every LED has when a frame begins.
    pub open spec fn base_spec() -> Rgba {
        Rgba {
            r: Single { bits: 0 },
            g: Single { bits: 0 },
            b: Single { bits: 0 },
            a: Single { bits: ONE_BITS },
        }
    }

    /// The four channels, each quantised to eight bits.
    pub open spec fn to_u8_spec(self) -> (u8, u8, u8, u8) {
        (self.r.to_u8_spec(), self.g.to_u8_spec(), self.b.to_u8_spec(), self.a.to_u8_spec())
    }

    /// Opaque black.
    #[verifier::when_used_as_spec(base_spec)]
    pub fn base() -> (c: Rgba)
        ensures
            c == Rgba::base_spec(),
    {
        Rgba { r: Single::zero(), g: Single::zero(), b: Single::zero(), a: Single::one() }
    }

    /// Quantises the colour.
    pub fn to_u8(self) -> (c: (u8, u8, u8, u8))
        ensures
            c == self.to_u8_spec(),
    {
        (self.r.to_u8(), self.g.to_u8(), self.b.to_u8(), self.a.to_u8())
    }
}

/// One channel of a colour laid over another: the two channels weighted by
/// their alphas, over the alpha of the result.
pub open spec fn mix_spec(o: Single, o_a: Single, u: Single, u_a: Single, out_a: Single) -> Single {
    o.mul_spec(o_a).add_spec(u.mul_spec(u_a).mul_spec(one().sub_spec(o_a))).div_spec(out_a)
}

/// The colour `over` laid over the colour `under`, with straight alpha:
/// `a' = o_a + u_a * (1 - o_a)` and, for each colour channel,
/// `c' = (o_c * o_a + u_c * u_a * (1 - o_a)) / a'`. Where `a'` is zero the
/// result is all zero.
pub open spec fn alpha_compose_spec(under: Rgba, over: Rgba) -> Rgba {
    let out_a = over.a.add_spec(under.a.mul_spec(one().sub_spec(over.a)));
    if out_a.is_zero() {
        Rgba { r: zero(false), g: zero(false), b: zero(false), a: zero(false) }
    } else {
        Rgba {
            r: mix_spec(over.r, over.a, under.r, under.a, out_a),
            g: mix_spec(over.g, over.a, under.g, under.a, out_a),
            b: mix_spec(over.b, over.a, under.b, under.a, out_a),
            a: out_a,
        }
    }
}

/// The colour a share `t` of the way from `previous` to `next`: on every
/// channel, alpha included, `(1 - t) * previous + t * next`.
pub open spec fn linear_interpolation_spec(previous: Rgba, next: Rgba, t: Single) -> Rgba {
    Rgba {
        r: one().sub_spec(t).mul_spec(previous.r).add_spec(t.mul_spec(next.r)),
        g: one().sub_spec(t).mul_spec(previous.g).add_spec(t.mul_spec(next.g)),
        b: one().sub_spec(t).mul_spec(previous.b).add_spec(t.mul_spec(next.b)),
        a: one().sub_spec(t).mul_spec(previous.a).add_spec(t.mul_spec(next.a)),
    }
}

/// Lays one colour over another.
pub fn alpha_compose(under: Rgba, over: Rgba) -> (c: Rgba)
    ensures
        c == alpha_compose_spec(under, over),
{
    let rest = Single::one().sub(over.a);
    let out_a = over.a.add(under.a.mul(rest));
    if out_a.is_zero_value() {
        return Rgba { r: Single::zero(), g: Single::zero(), b: Single::zero(), a: Single::zero() };
    }
    let weight = under.a;
    Rgba {
        r: over.r.mul(over.a).add(under.r.mul(weight).mul(rest)).div(out_a),
        g: over.g.mul(over.a).add(under.g.mul(weight).mul(rest)).div(out_a),
        b: over.b.mul(over.a).add(under.b.mul(weight).mul(rest)).div(out_a),
        a: out_a,
    }
}

/// Interpolates between two colours.
pub fn linear_interpolation(previous: Rgba, next: Rgba, t: Single) -> (c: Rgba)
    ensures
        c == linear_interpolation_spec(previous, next, t),
{
    let back = Single::one().sub(t);
    Rgba {
        r: back.mul(previous.r).add(t.mul(next.r)),
        g: back.mul(previous.g).add(t.mul(next.g)),
        b: back.mul(previous.b).add(t.mul(next.b)),
        a: back.mul(previous.a).add(t.mul(next.a)),
    }
}

impl Rgba {
    /// Every channel lies between zero and one.
    pub open spec fn is_unit(self) -> bool {
        self.r.is_unit() && self.g.is_unit() && self.b.is_unit() && self.a.is_unit()
    }
}

/// One channel under a fully opaque colour is that colour's channel.
pub proof fn lemma_mix_opaque(o: Single, u: Single, u_a: Single)
    requires
        o.is_unit(),
        u.is_unit(),
        u_a.is_unit(),
    ensures
        mix_spec(o, one(), u, u_a, one()) == o,
{
    lemma_unit_is_finite(o);
    lemma_unit_is_finite(u);
    lemma_unit_is_finite(u_a);
    lemma_unit_is_finite(one());
    lemma_sub_self(one());
    lemma_product_of_units(u, u_a);
    let w = u.mul_spec(u_a);
    lemma_mul_zero(w, zero(false));
    lemma_mul_one(o);
    if !o.is_zero() {
        lemma_add_zero(o, zero(false));
    } else {
        assert(o.bits == 0);
        lemma_zero_plus_zero();
    }
    lemma_div_one(o);
}

/// A fully opaque colour covers what lies under it: laid over any colour
/// of the unit range it is the result, exactly.
pub proof fn lemma_opaque_covers(under: Rgba, over: Rgba)
    requires
        under.is_unit(),
        over.is_unit(),
        over.a == one(),
    ensures
        alpha_compose_spec(under, over) == over,
{
    lemma_unit_is_finite(under.a);
    lemma_unit_is_finite(one());
    lemma_sub_self(one());
    lemma_mul_zero(under.a, zero(false));
    lemma_add_zero(one(), zero(false));
    lemma_mix_opaque(over.r, under.r, under.a);
    lemma_mix_opaque(over.g, under.g, under.a);
    lemma_mix_opaque(over.b, under.b, under.a);
    assert(!one().is_zero());
}

/// One channel of an opaque colour under a fully transparent black is
/// itself.
pub proof fn lemma_mix_transparent(u: Single)
    requires
        u.is_unit(),
    ensures
        mix_spec(zero(false), zero(false), u, one(), one()) == u,
{
    lemma_unit_is_finite(u);
    lemma_unit_is_finite(one());
    lemma_unit_is_finite(zero(false));
    lemma_mul_zero(zero(false), zero(false));
    lemma_add_zero(one(), zero(true));
    assert(zero(false).neg_spec() == zero(true));
    assert(one().sub_spec(zero(false)) == one());
    lemma_mul_one(u);
    if !u.is_zero() {
        lemma_add_zero(u, zero(false));
    } else {
        assert(u.bits == 0);
        lemma_zero_plus_zero();
    }
    lemma_div_one(u);
}

/// Fully transparent black changes nothing: laid over an opaque colour of
/// the unit range it leaves that colour, exactly.
pub proof fn lemma_transparent_lets_through(under: Rgba)
    requires
        under.is_unit(),
        under.a == one(),
    ensures
        alpha_compose_spec(
            under,
            Rgba { r: zero(false), g: zero(false), b: zero(false), a: zero(false) },
        ) == under,
{
    lemma_unit_is_finite(one());
    lemma_add_zero(one(), zero(true));
    assert(zero(false).neg_spec() == zero(true));
    assert(one().sub_spec(zero(false)) == one());
    lemma_mul_one(one());
    lemma_add_zero(one(), zero(false));
    assert(!one().is_zero());
    lemma_mix_transparent(under.r);
    lemma_mix_transparent(under.g);
    lemma_mix_transparent(under.b);
}

/// A number of the unit range is finite, and not negative.
pub proof fn lemma_unit_is_finite(x: Single)
    requires
        x.is_unit(),
    ensures
        x.is_finite(),
        !x.is_negative(),
        x.exponent_field() <= 127,
{
}

/// Positive zero plus positive zero is positive zero.
pub proof fn lemma_zero_plus_zero()
    ensures
        zero(false).add_spec(zero(false)) == zero(false),
{
    assert(0 * pow2(0) == 0) by (nonlinear_arith);
}

/// A colour as the configuration writes it: four integers, each with the
/// span of text it was read from. Only the low eight bits of an integer
/// count.
#[derive(Debug)]
pub struct Color(
    pub (i32, core::ops::Range<usize>),
    pub (i32, core::ops::Range<usize>),
    pub (i32, core::ops::Range<usize>),
    pub (i32, core::ops::Range<usize>),
);

/// The low eight bits of an integer.
pub open spec fn low_byte(v: i32) -> u8 {
    (v % 256) as u8
}

/// The working colour of four 8-bit channels, each `b / 255`.
pub open spec fn rgbau8_to_rgbaf32_spec(color: (u8, u8, u8, u8)) -> Rgba {
    Rgba {
        r: Single::from_u8_spec(color.0),
        g: Single::from_u8_spec(color.1),
        b: Single::from_u8_spec(color.2),
        a: Single::from_u8_spec(color.3),
    }
}

/// Converts four 8-bit channels to a working colour.
pub fn rgbau8_to_rgbaf32(color: (u8, u8, u8, u8)) -> (c: Rgba)
    ensures
        c == rgbau8_to_rgbaf32_spec(color),
{
    Rgba {
        r: Single::from_u8(color.0),
        g: Single::from_u8(color.1),
        b: Single::from_u8(color.2),
        a: Single::from_u8(color.3),
    }
}

/// Converts a working colour to four 8-bit channels.
pub fn rgbaf32_to_rgbau8(color: &Rgba) -> (c: (u8, u8, u8, u8))
    ensures
        c == color.to_u8_spec(),
{
    color.to_u8()
}

impl Color {
    /// The working colour that the configuration's colour stands for.
    pub open spec fn rgba_spec(&self) -> Rgba {
        rgbau8_to_rgbaf32_spec(
            (low_byte(self.0.0), low_byte(self.1.0), low_byte(self.2.0), low_byte(self.3.0)),
        )
    }

    /// Converts the colour to a working colour.
    pub fn into(self) -> (c: Rgba)
        ensures
            c == self.rgba_spec(),
    {
        rgbau8_to_rgbaf32(
            (
                byte_of(self.0.0),
                byte_of(self.1.0),
                byte_of(self.2.0),
                byte_of(self.3.0),
            ),
        )
    }
}

/// Keeps the low eight bits of an integer.
fn byte_of(v: i32) -> (b: u8)
    ensures
        b == low_byte(v),
{
    let b: u8 = (v & 0xFF) as u8;
    assert(v & 0xFF == v % 256) by (bit_vector);
    b
}

/// Four 8-bit channels survive the way through the working space.
pub proof fn lemma_rgba_round_trip(color: (u8, u8, u8, u8))
    ensures
        rgbau8_to_rgbaf32_spec(color).to_u8_spec() == color,
{
    lemma_u8_round_trip(color.0);
    lemma_u8_round_trip(color.1);
    lemma_u8_round_trip(color.2);
    lemma_u8_round_trip(color.3);
}

/// Opaque black quantises to `(0, 0, 0, 255)`.
pub proof fn lemma_base_is_opaque_black()
    ensures
        Rgba::base_spec().to_u8_spec() == (0u8, 0u8, 0u8, 255u8),
{
    lemma_zero_quantises_to_zero();
}

} // verus!
