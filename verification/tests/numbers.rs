use sis_lighting::color::{rgbaf32_to_rgbau8, rgbau8_to_rgbaf32, Color, Rgba};
use sis_lighting::number::{Double, Single, ONE_BITS};

fn single(v: f32) -> Single {
    Single { bits: v.to_bits() }
}

/// `round(c * 255)` held to `0..=255`, computed exactly in double precision.
fn reference_to_u8(c: f32) -> u8 {
    if c.is_nan() || c <= 0.0 {
        0
    } else if c >= 1.0 {
        255
    } else {
        (c as f64 * 255.0 + 0.5).floor() as u8
    }
}

#[test]
fn zero_and_one() {
    assert_eq!(Single::zero().bits, 0);
    assert_eq!(Single::one().bits, ONE_BITS);
    assert_eq!(Single::one().bits, 1.0f32.to_bits());
    assert_eq!(Single::zero().to_u8(), 0);
    assert_eq!(Single::one().to_u8(), 255);
}

#[test]
fn to_u8_rounds_to_nearest() {
    assert_eq!(single(0.5).to_u8(), 128);
    assert_eq!(single(0.25).to_u8(), 64);
    assert_eq!(single(0.75).to_u8(), 191);
    assert_eq!(single(1.0 / 255.0).to_u8(), 1);
    assert_eq!(single(0.001).to_u8(), 0);
    assert_eq!(single(0.002).to_u8(), 1);
    assert_eq!(single(0.999).to_u8(), 255);
    assert_eq!(single(0.99).to_u8(), 252);
}

#[test]
fn to_u8_rounds_the_number_itself() {
    // The single-precision number nearest to 0.9 lies just below it, and
    // 255 times that number lies just below 229.5.
    assert!((0.9f32 as f64) * 255.0 < 229.5);
    assert_eq!(single(0.9).to_u8(), 229);
    assert_eq!(single(0.7).to_u8(), 178);
    assert_eq!(single(0.1).to_u8(), 26);
}

#[test]
fn to_u8_clamps() {
    assert_eq!(single(-0.0).to_u8(), 0);
    assert_eq!(single(-0.5).to_u8(), 0);
    assert_eq!(single(-1000.0).to_u8(), 0);
    assert_eq!(single(1.5).to_u8(), 255);
    assert_eq!(single(1.0e30).to_u8(), 255);
    assert_eq!(single(f32::INFINITY).to_u8(), 255);
    assert_eq!(single(f32::NEG_INFINITY).to_u8(), 0);
    assert_eq!(single(f32::NAN).to_u8(), 0);
    assert_eq!(Single { bits: 0x7FC0_0001 }.to_u8(), 0);
    assert_eq!(Single { bits: 0xFFC0_0001 }.to_u8(), 0);
}

#[test]
fn to_u8_small_numbers_are_zero() {
    assert_eq!(Single { bits: 1 }.to_u8(), 0);
    assert_eq!(single(f32::MIN_POSITIVE).to_u8(), 0);
    assert_eq!(single(1.0e-10).to_u8(), 0);
    assert_eq!(single(0.5 / 255.0 * 0.999).to_u8(), 0);
}

#[test]
fn to_u8_agrees_with_exact_rounding_on_a_sweep() {
    let mut bits: u32 = 0;
    let mut checked = 0u32;
    while bits <= ONE_BITS + 0x100_0000 {
        let c = f32::from_bits(bits);
        assert_eq!(Single { bits }.to_u8(), reference_to_u8(c), "bits {bits:#x}");
        checked += 1;
        bits += 4099;
    }
    assert!(checked > 250_000);
}

#[test]
fn to_u8_agrees_with_exact_rounding_around_every_step() {
    for k in 0..255u32 {
        let edge = ((k as f64 + 0.5) / 255.0) as f32;
        let centre = edge.to_bits();
        for bits in centre - 64..=centre + 64 {
            let c = f32::from_bits(bits);
            assert_eq!(Single { bits }.to_u8(), reference_to_u8(c), "bits {bits:#x}");
        }
    }
}

#[test]
fn from_u8_is_division_by_255() {
    for b in 0..=255u8 {
        let expected = b as f32 / 255.0;
        assert_eq!(Single::from_u8(b).bits, expected.to_bits(), "b = {b}");
    }
}

#[test]
fn channels_survive_the_working_space() {
    for b in 0..=255u8 {
        assert_eq!(Single::from_u8(b).to_u8(), b);
    }
}

#[test]
fn base_colour_is_opaque_black() {
    let base = Rgba::base();
    assert_eq!(base.to_u8(), (0, 0, 0, 255));
    assert_eq!(rgbaf32_to_rgbau8(&base), (0, 0, 0, 255));
}

#[test]
fn colour_conversions_round_trip() {
    let c = rgbau8_to_rgbaf32((255, 128, 1, 0));
    assert_eq!(c.r.bits, 1.0f32.to_bits());
    assert_eq!(c.g.bits, (128.0f32 / 255.0).to_bits());
    assert_eq!(c.b.bits, (1.0f32 / 255.0).to_bits());
    assert_eq!(c.a.bits, 0);
    assert_eq!(rgbaf32_to_rgbau8(&c), (255, 128, 1, 0));
}

#[test]
fn configured_colour_keeps_the_low_byte() {
    let c = Color((255, 0..3), (256, 4..7), (-1, 8..10), (128, 11..14)).into();
    assert_eq!(c.to_u8(), (255, 0, 255, 128));
    let d = Color((0, 0..1), (300, 0..1), (-256, 0..1), (511, 0..1)).into();
    assert_eq!(d.to_u8(), (0, 44, 0, 255));
}

fn widened(v: f32) -> Double {
    Double { bits: (v as f64).to_bits() }
}

#[test]
fn widening_keeps_the_number() {
    for v in [0.0f32, -0.0, 1.0, -1.0, 0.1, 19.5, 300.0, 1.0e-30, 3.4e38, f32::MAX, f32::MIN] {
        assert_eq!(single(v).widen(), widened(v), "{v}");
    }
    assert_eq!(single(f32::INFINITY).widen(), widened(f32::INFINITY));
    assert_eq!(single(f32::NEG_INFINITY).widen(), widened(f32::NEG_INFINITY));
}

#[test]
fn widening_makes_small_numbers_normal() {
    assert_eq!(Single { bits: 1 }.widen(), widened(f32::from_bits(1)));
    assert_eq!(Single { bits: 0x8000_0001 }.widen(), widened(f32::from_bits(0x8000_0001)));
    assert_eq!(Single { bits: 0x7F_FFFF }.widen(), widened(f32::from_bits(0x7F_FFFF)));
    assert_eq!(Single { bits: 0x40_0000 }.widen(), widened(f32::from_bits(0x40_0000)));
    assert_eq!(single(f32::MIN_POSITIVE).widen(), widened(f32::MIN_POSITIVE));
    let mut bits: u32 = 1;
    while bits < 0x80_0000 {
        assert_eq!(Single { bits }.widen(), widened(f32::from_bits(bits)), "bits {bits:#x}");
        bits = bits * 3 + 1;
    }
}

#[test]
fn widening_agrees_with_the_machine_on_a_sweep() {
    let mut bits: u32 = 0;
    loop {
        let v = f32::from_bits(bits);
        if !v.is_nan() {
            assert_eq!(Single { bits }.widen(), widened(v), "bits {bits:#x}");
        }
        match bits.checked_add(65_521) {
            Some(next) => bits = next,
            None => break,
        }
    }
}

#[test]
fn widening_what_is_no_number() {
    let quiet = Single { bits: 0x7FC0_1234 }.widen();
    assert_eq!(quiet.bits, 0x7FF8_0246_8000_0000);
    assert!(f64::from_bits(quiet.bits).is_nan());
    let signalling = Single { bits: 0xFF80_0001 }.widen();
    assert_eq!(signalling.bits, 0xFFF8_0000_2000_0000);
    assert!(f64::from_bits(signalling.bits).is_nan());
}

fn narrowed(v: f64) -> Single {
    Single { bits: (v as f32).to_bits() }
}

fn double(v: f64) -> Double {
    Double { bits: v.to_bits() }
}

#[test]
fn narrowing_rounds_to_nearest() {
    for v in [0.0f64, -0.0, 1.0, -1.0, 0.1, 19.5, 300.0, 1.0 / 3.0, 123456789.123456789, -2.5e-7] {
        assert_eq!(double(v).narrow(), narrowed(v), "{v}");
    }
}

#[test]
fn narrowing_ties_go_to_even() {
    // Halfway between 1 and the next single above it: down to the even 1.
    let above_one = 1.0f64 + 2.0f64.powi(-24);
    assert_eq!(double(above_one).narrow(), single(1.0));
    // Halfway between the next two singles: up to the even one.
    let next = 1.0f64 + 3.0 * 2.0f64.powi(-24);
    assert_eq!(double(next).narrow().bits, 1.0f32.to_bits() + 2);
    // Just above and just below a tie.
    assert_eq!(double(f64::from_bits(above_one.to_bits() + 1)).narrow().bits, 1.0f32.to_bits() + 1);
    assert_eq!(double(f64::from_bits(above_one.to_bits() - 1)).narrow(), single(1.0));
    for v in [above_one, next, -above_one, -next] {
        assert_eq!(double(v).narrow(), narrowed(v));
    }
}

#[test]
fn narrowing_beyond_the_range_gives_infinity() {
    assert_eq!(double(1.0e39).narrow(), single(f32::INFINITY));
    assert_eq!(double(-1.0e300).narrow(), single(f32::NEG_INFINITY));
    assert_eq!(double(f64::MAX).narrow(), single(f32::INFINITY));
    assert_eq!(double(f64::INFINITY).narrow(), single(f32::INFINITY));
    assert_eq!(double(f32::MAX as f64).narrow(), single(f32::MAX));
    let edge = f32::MAX as f64 + 2.0f64.powi(103);
    assert_eq!(double(edge).narrow(), single(f32::INFINITY));
    assert_eq!(double(f64::from_bits(edge.to_bits() - 1)).narrow(), single(f32::MAX));
}

#[test]
fn narrowing_small_numbers() {
    let tiny = 2.0f64.powi(-149);
    assert_eq!(double(tiny).narrow().bits, 1);
    assert_eq!(double(tiny / 2.0).narrow().bits, 0);
    assert_eq!(double(tiny * 0.75).narrow().bits, 1);
    assert_eq!(double(tiny * 1.5).narrow().bits, 2);
    assert_eq!(double(tiny * 2.5).narrow().bits, 2);
    assert_eq!(double(-tiny / 4.0).narrow().bits, 0x8000_0000);
    assert_eq!(double(f64::MIN_POSITIVE).narrow().bits, 0);
    assert_eq!(double(f64::from_bits(1)).narrow().bits, 0);
    assert_eq!(double(f32::MIN_POSITIVE as f64).narrow(), single(f32::MIN_POSITIVE));
    let below_normal = f32::MIN_POSITIVE as f64 * (1.0 - 2.0f64.powi(-25));
    assert_eq!(double(below_normal).narrow(), narrowed(below_normal));
    for k in 0..400 {
        let v = 1.7e-38f64 * 0.83f64.powi(k);
        assert_eq!(double(v).narrow(), narrowed(v), "{v:e}");
        assert_eq!(double(-v).narrow(), narrowed(-v), "{v:e}");
    }
}

#[test]
fn narrowing_agrees_with_the_machine_on_a_sweep() {
    let mut bits: u64 = 0;
    let mut checked = 0u32;
    loop {
        let v = f64::from_bits(bits);
        if !v.is_nan() {
            assert_eq!(Double { bits }.narrow(), narrowed(v), "bits {bits:#x}");
            checked += 1;
        }
        match bits.checked_add(0x0000_3FFF_F1A7_C3B1) {
            Some(next) => bits = next,
            None => break,
        }
    }
    assert!(checked > 200_000);
}

#[test]
fn narrowing_near_single_precision_values() {
    let mut bits: u32 = 0;
    while bits < 0x7F80_0000 {
        let centre = (f32::from_bits(bits) as f64).to_bits();
        for nudge in [0u64, 1, 0x0FFF_FFFF, 0x1000_0000, 0x1000_0001, 0x1FFF_FFFF] {
            let v = f64::from_bits(centre + nudge);
            assert_eq!(Double { bits: centre + nudge }.narrow(), narrowed(v));
        }
        bits += 0x1_2345;
    }
}

#[test]
fn narrowing_what_is_no_number() {
    let quiet = Double { bits: 0x7FF8_0246_8000_0000 }.narrow();
    assert_eq!(quiet.bits, 0x7FC0_1234);
    let signalling = Double { bits: 0xFFF0_0000_2000_0001 }.narrow();
    assert_eq!(signalling.bits, 0xFFC0_0001);
    assert!(f32::from_bits(signalling.bits).is_nan());
}

#[test]
fn widened_and_narrowed_again() {
    let mut bits: u32 = 0;
    loop {
        let x = Single { bits };
        if !f32::from_bits(bits).is_nan() {
            assert_eq!(x.widen().narrow(), x, "bits {bits:#x}");
        }
        match bits.checked_add(48_611) {
            Some(next) => bits = next,
            None => break,
        }
    }
}
