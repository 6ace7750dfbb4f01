use sis_lighting::number::Single;

fn s(v: f32) -> Single {
    Single { bits: v.to_bits() }
}

/// A fixed walk through the encodings, dense around the special ones.
struct Walk(u64);

impl Walk {
    fn next_bits(&mut self) -> u32 {
        self.0 = self.0.wrapping_mul(6364136223846793005).wrapping_add(1442695040888963407);
        let raw = (self.0 >> 32) as u32;
        match (self.0 >> 29) & 7 {
            // Anything.
            0 | 1 | 2 => raw,
            // The unit range.
            3 | 4 => 0x3000_0000 + raw % 0x0F80_0001,
            // Small numbers, of either sign.
            5 => (raw & 0x8000_0000) | raw % 0x0100_0000,
            // Around one and around simple fractions.
            6 => 0x3E80_0000 + (raw % 5) * 0x0080_0000 + raw % 7 - 3,
            // Large numbers, infinities and what is no number.
            _ => (raw & 0x8000_0000) | (0x7F00_0000 + raw % 0x0100_0000),
        }
    }
}

fn same(got: Single, expected: f32) -> bool {
    if expected.is_nan() {
        f32::from_bits(got.bits).is_nan()
    } else {
        got.bits == expected.to_bits()
    }
}

#[test]
fn products_agree_with_the_machine() {
    let mut walk = Walk(1);
    for _ in 0..400_000 {
        let (a, b) = (walk.next_bits(), walk.next_bits());
        let expected = f32::from_bits(a) * f32::from_bits(b);
        let got = Single { bits: a }.mul(Single { bits: b });
        assert!(same(got, expected), "{a:#x} * {b:#x}: {:#x} for {:#x}", got.bits, expected.to_bits());
    }
}

#[test]
fn sums_agree_with_the_machine() {
    let mut walk = Walk(2);
    for _ in 0..400_000 {
        let (a, b) = (walk.next_bits(), walk.next_bits());
        let expected = f32::from_bits(a) + f32::from_bits(b);
        let got = Single { bits: a }.add(Single { bits: b });
        assert!(same(got, expected), "{a:#x} + {b:#x}: {:#x} for {:#x}", got.bits, expected.to_bits());
    }
}

#[test]
fn differences_agree_with_the_machine() {
    let mut walk = Walk(3);
    for _ in 0..400_000 {
        let (a, b) = (walk.next_bits(), walk.next_bits());
        let expected = f32::from_bits(a) - f32::from_bits(b);
        let got = Single { bits: a }.sub(Single { bits: b });
        assert!(same(got, expected), "{a:#x} - {b:#x}: {:#x} for {:#x}", got.bits, expected.to_bits());
    }
}

#[test]
fn sums_of_near_exponents() {
    let mut walk = Walk(4);
    for _ in 0..200_000 {
        let a = walk.next_bits();
        let shift = walk.next_bits() % 60;
        let e = ((a >> 23) & 0xFF) as i32 - shift as i32 + 30;
        if !(0..255).contains(&e) {
            continue;
        }
        let b = (walk.next_bits() & 0x807F_FFFF) | ((e as u32) << 23);
        let expected = f32::from_bits(a) + f32::from_bits(b);
        let got = Single { bits: a }.add(Single { bits: b });
        assert!(same(got, expected), "{a:#x} + {b:#x}: {:#x} for {:#x}", got.bits, expected.to_bits());
    }
}

#[test]
fn zeros_and_signs() {
    assert_eq!(s(0.0).add(s(-0.0)), s(0.0));
    assert_eq!(s(-0.0).add(s(-0.0)), s(-0.0));
    assert_eq!(s(1.5).sub(s(1.5)), s(0.0));
    assert_eq!(s(-1.5).add(s(1.5)), s(0.0));
    assert_eq!(s(-0.0).mul(s(3.0)), s(-0.0));
    assert_eq!(s(-2.0).mul(s(-0.0)), s(0.0));
    assert_eq!(s(1.0).neg(), s(-1.0));
    assert_eq!(s(-0.0).neg(), s(0.0));
}

#[test]
fn infinities_and_what_is_no_number() {
    let inf = f32::INFINITY;
    assert_eq!(s(inf).add(s(1.0)), s(inf));
    assert_eq!(s(-inf).add(s(-inf)), s(-inf));
    assert!(f32::from_bits(s(inf).add(s(-inf)).bits).is_nan());
    assert!(f32::from_bits(s(inf).mul(s(0.0)).bits).is_nan());
    assert_eq!(s(inf).mul(s(-2.0)), s(-inf));
    assert_eq!(s(f32::MAX).add(s(f32::MAX)), s(inf));
    assert_eq!(s(f32::MAX).mul(s(2.0)), s(inf));
    assert!(f32::from_bits(s(f32::NAN).add(s(1.0)).bits).is_nan());
    assert!(f32::from_bits(s(1.0).mul(s(f32::NAN)).bits).is_nan());
}

#[test]
fn quotients_agree_with_the_machine() {
    let mut walk = Walk(5);
    for _ in 0..400_000 {
        let (a, b) = (walk.next_bits(), walk.next_bits());
        let expected = f32::from_bits(a) / f32::from_bits(b);
        let got = Single { bits: a }.div(Single { bits: b });
        assert!(same(got, expected), "{a:#x} / {b:#x}: {:#x} for {:#x}", got.bits, expected.to_bits());
    }
}

#[test]
fn quotients_of_small_integers() {
    for n in 0..=300u32 {
        for d in 1..=300u32 {
            let expected = n as f32 / d as f32;
            assert_eq!(s(n as f32).div(s(d as f32)), s(expected), "{n} / {d}");
        }
    }
}

#[test]
fn quotients_at_the_edges() {
    let inf = f32::INFINITY;
    assert_eq!(s(1.0).div(s(0.0)), s(inf));
    assert_eq!(s(-1.0).div(s(0.0)), s(-inf));
    assert_eq!(s(1.0).div(s(-0.0)), s(-inf));
    assert!(f32::from_bits(s(0.0).div(s(0.0)).bits).is_nan());
    assert!(f32::from_bits(s(inf).div(s(inf)).bits).is_nan());
    assert_eq!(s(1.0).div(s(inf)), s(0.0));
    assert_eq!(s(-1.0).div(s(inf)), s(-0.0));
    assert_eq!(s(inf).div(s(-2.0)), s(-inf));
    assert_eq!(s(0.0).div(s(-2.0)), s(-0.0));
    assert_eq!(s(f32::MAX).div(s(f32::MIN_POSITIVE)), s(inf));
    assert_eq!(s(f32::MIN_POSITIVE).div(s(f32::MAX)), s(0.0));
    assert_eq!(s(f32::from_bits(1)).div(s(2.0)), s(0.0));
    assert_eq!(s(f32::from_bits(3)).div(s(2.0)), s(f32::from_bits(2)));
    assert_eq!(s(1.0).div(s(3.0)), s(1.0 / 3.0));
}

#[test]
fn roots_by_hand() {
    for (x, root) in [
        (0.0f32, 0.0f32),
        (1.0, 1.0),
        (4.0, 2.0),
        (2.25, 1.5),
        (25.0, 5.0),
        (1e-30, 1e-15),
        (f32::MAX, 1.8446743e19),
        (f32::MIN_POSITIVE, 1.0842022e-19),
        (f32::INFINITY, f32::INFINITY),
    ] {
        assert_eq!(Single { bits: x.to_bits() }.sqrt().bits, root.to_bits(), "root of {x}");
    }
    assert_eq!(Single { bits: (-0.0f32).to_bits() }.sqrt().bits, (-0.0f32).to_bits());
    assert_eq!(Single { bits: 1 }.sqrt().bits, f32::from_bits(1).sqrt().to_bits());
    assert!(f32::from_bits(Single { bits: (-1.0f32).to_bits() }.sqrt().bits).is_nan());
    assert!(f32::from_bits(Single { bits: f32::NEG_INFINITY.to_bits() }.sqrt().bits).is_nan());
    assert!(f32::from_bits(Single { bits: f32::NAN.to_bits() }.sqrt().bits).is_nan());
}

#[test]
fn roots_are_the_machines() {
    let mut bits: u32 = 0;
    let mut seen = 0;
    while bits < 0x7F80_0000 {
        let x = f32::from_bits(bits);
        assert_eq!(Single { bits }.sqrt().bits, x.sqrt().to_bits(), "root of {x:e}");
        bits += 4_099;
        seen += 1;
    }
    assert!(seen > 500_000);
    for bits in 0..5_000u32 {
        assert_eq!(Single { bits }.sqrt().bits, f32::from_bits(bits).sqrt().to_bits());
        let top = 0x7F7F_FFFF - bits;
        assert_eq!(Single { bits: top }.sqrt().bits, f32::from_bits(top).sqrt().to_bits());
        let around_one = 0x3F80_0000 - 2_500 + bits;
        assert_eq!(
            Single { bits: around_one }.sqrt().bits,
            f32::from_bits(around_one).sqrt().to_bits()
        );
    }
}

#[test]
fn order_and_magnitude_are_the_machines() {
    let marks = [
        0.0f32,
        -0.0,
        1.0,
        -1.0,
        0.5,
        -0.5,
        f32::MIN_POSITIVE,
        -f32::MIN_POSITIVE,
        f32::from_bits(1),
        -f32::from_bits(1),
        f32::MAX,
        f32::MIN,
        f32::INFINITY,
        f32::NEG_INFINITY,
        f32::NAN,
        -f32::NAN,
        3.25,
        3.2500002,
    ];
    for a in marks {
        let x = Single { bits: a.to_bits() };
        assert_eq!(x.abs().bits, a.abs().to_bits());
        for b in marks {
            let y = Single { bits: b.to_bits() };
            assert_eq!(x.lt(y), a < b, "{a:e} < {b:e}");
        }
    }
}
