use sis_lighting::color::Rgba;
use sis_lighting::animation::{ColorAnimation, Keyframe};
use sis_lighting::effect::{ColorChangeAnimation, Effect, RippleAnimation, WaveAnimation};
use sis_lighting::framebuffer::{Framebuffer, Renderer};
use sis_lighting::kernel::Direction;
use sis_lighting::state::CorsairState;
use sis_lighting::number::{Double, Single};
use sis_lighting::packed::{SimdLedPosition, SimdLeds, SimdRGBALeds};
use sis_lighting::sdk::{CorsairLedColor, CorsairLedLuid, CorsairLedPosition};

fn s(v: f32) -> Single {
    Single { bits: v.to_bits() }
}

fn colour(i: usize) -> Rgba {
    Rgba {
        r: s(i as f32 / 40.0),
        g: s(1.0 - i as f32 / 40.0),
        b: s((i % 7) as f32 / 7.0),
        a: s((i % 3) as f32 / 2.0),
    }
}

fn wide_positions(n: usize) -> Vec<SimdLedPosition> {
    (0..n)
        .map(|i| SimdLedPosition {
            id: CorsairLedLuid(500 + i as u32),
            cx: s(i as f32 * 19.0),
            cy: s((i % 6) as f32 * 19.5),
        })
        .collect()
}

fn scalar_positions(n: usize) -> Vec<CorsairLedPosition> {
    (0..n)
        .map(|i| CorsairLedPosition {
            id: CorsairLedLuid(500 + i as u32),
            cx: Double { bits: (i as f64 * 19.0).to_bits() },
            cy: Double { bits: ((i % 6) as f64 * 19.5).to_bits() },
        })
        .collect()
}

#[test]
fn group_counts() {
    for (n, colours, positions) in
        [(0, 0, 0), (1, 1, 1), (4, 1, 1), (5, 1, 1), (6, 2, 1), (8, 2, 1), (9, 2, 2), (40, 8, 5), (41, 9, 6)]
    {
        let mut leds = SimdLeds::new();
        leds.pack(&wide_positions(n));
        assert_eq!(leds.len(), n);
        assert_eq!(leds.colors.len(), colours, "colour groups for {n}");
        assert_eq!(leds.initial_positions.len(), positions, "position groups for {n}");
        assert_eq!(leds.positions.len(), positions);
    }
}

#[test]
fn loaded_leds_sit_in_their_lanes() {
    let mut leds = SimdLeds::new();
    leds.pack(&wide_positions(19));
    for i in 0..19usize {
        let lane = leds.initial_positions[i / 8].lanes[i % 8];
        assert_eq!(lane, [s(i as f32 * 19.0), s((i % 6) as f32 * 19.5)]);
        assert_eq!(leds.ids[i], CorsairLedLuid(500 + i as u32));
        assert_eq!(leds.color(i), Rgba::base());
    }
}

#[test]
fn loading_again_drops_what_was_there() {
    let mut leds = SimdLeds::new();
    leds.pack(&wide_positions(17));
    leds.set_color(3, colour(3));
    leds.pack(&wide_positions(6));
    assert_eq!(leds.len(), 6);
    assert_eq!(leds.colors.len(), 2);
    assert_eq!(leds.positions.len(), 1);
    assert_eq!(leds.color(3), Rgba::base());
}

#[test]
fn setting_one_colour_leaves_the_others() {
    let mut leds = SimdLeds::new();
    leds.pack(&wide_positions(13));
    for i in 0..13 {
        leds.set_color(i, colour(i));
    }
    leds.set_color(7, colour(30));
    for i in 0..13 {
        assert_eq!(leds.color(i), if i == 7 { colour(30) } else { colour(i) });
    }
    let group = leds.colors[1];
    assert_eq!(group.alpha.lanes[2], [colour(30).a; 3]);
    assert_eq!(group.color.lanes[2], [colour(30).r, colour(30).g, colour(30).b]);
}

#[test]
fn copied_colour_fills_every_lane() {
    let c = colour(11);
    let group = SimdRGBALeds::copy_color(&c);
    for k in 0..5 {
        assert_eq!(group.lane(k), c);
        assert_eq!(group.color.lanes[k], [c.r, c.g, c.b]);
        assert_eq!(group.alpha.lanes[k], [c.a, c.a, c.a]);
    }
    assert_eq!(group.color.pad, s(0.0));
    assert_eq!(group.alpha.pad, s(0.0));
}

#[test]
fn group_export_stops_at_the_identifiers() {
    let mut group = SimdRGBALeds::copy_color(&Rgba::base());
    group.set_lane(1, Rgba { r: s(1.0), g: s(0.5), b: s(0.0), a: s(1.0) });
    let ids = [CorsairLedLuid(7), CorsairLedLuid(8), CorsairLedLuid(9)];
    assert_eq!(
        group.get_leds(&ids),
        vec![
            CorsairLedColor { id: CorsairLedLuid(7), r: 0, g: 0, b: 0, a: 255 },
            CorsairLedColor { id: CorsairLedLuid(8), r: 255, g: 128, b: 0, a: 255 },
            CorsairLedColor { id: CorsairLedLuid(9), r: 0, g: 0, b: 0, a: 255 },
        ]
    );
    assert_eq!(group.get_leds(&[]), vec![]);
}

#[test]
fn wide_and_scalar_layouts_export_the_same_frame() {
    for n in [0usize, 1, 4, 5, 6, 8, 9, 15, 16, 23, 40] {
        let mut wide = SimdLeds::new();
        wide.pack(&wide_positions(n));
        let mut scalar = Framebuffer::load(&scalar_positions(n));
        assert_eq!(wide.export(), scalar.export());
        for i in 0..n {
            wide.set_color(i, colour(i));
            scalar.set_color(i, colour(i));
        }
        let frame = wide.export();
        assert_eq!(frame.len(), n);
        assert_eq!(frame, scalar.export());
        wide.reset();
        scalar.reset();
        assert_eq!(wide.export(), scalar.export());
        for led in wide.export() {
            assert_eq!((led.r, led.g, led.b, led.a), (0, 0, 0, 255));
        }
    }
}

fn mixer(rotation: Single) -> Direction {
    let r = f32::from_bits(rotation.bits);
    Direction { cos: s(r.cos()), sin: s(r.sin()) }
}

fn gradient() -> ColorAnimation {
    ColorAnimation {
        name: String::from("gradient"),
        keyframes: (1..6usize)
            .map(|k| Keyframe { timestamp: s(k as f32 / 6.0), color: colour(5 * k) })
            .collect(),
    }
}

#[test]
fn wide_and_scalar_back_ends_compose_the_same_frame() {
    for n in [0usize, 1, 5, 6, 8, 9, 37] {
        let mut on_wide: CorsairState<SimdLeds> = CorsairState::new();
        on_wide.setup(&scalar_positions(n));
        assert!(on_wide.leds.is_wf());
        let mut on_scalar: CorsairState<Framebuffer> = CorsairState::new();
        on_scalar.setup(&scalar_positions(n));
        for k in 0..4 {
            let effect = Effect::Static(colour(k));
            on_wide.add_effect(effect.clone());
            on_scalar.add_effect(effect);
        }
        let moving = [
            Effect::Wave(WaveAnimation {
                animation: gradient(),
                duration_ms: 1300,
                speed: Double { bits: 2.0f64.to_bits() },
                rotation_rad: s(0.5),
                light_amount: Double { bits: 1.5f64.to_bits() },
                two_sided: true,
            }),
            Effect::Ripple(RippleAnimation {
                animation: gradient(),
                duration_ms: 900,
                speed: Double { bits: 1.0f64.to_bits() },
                light_amount: Double { bits: 3.0f64.to_bits() },
            }),
            Effect::ColorChange(ColorChangeAnimation { animation: gradient(), duration_ms: 4000 }),
        ];
        for effect in moving {
            on_wide.add_effect(effect.clone());
            on_scalar.add_effect(effect);
        }
        for id in [501u32, 503, 536, 9999] {
            on_wide.add_effect_led(CorsairLedLuid(id), Effect::Static(colour(20)));
            on_scalar.add_effect_led(CorsairLedLuid(id), Effect::Static(colour(20)));
        }
        for t in [0u64, 13, 96, 97, 5000] {
            let frame = on_wide.get_led_colors(t, &mixer);
            assert_eq!(frame.len(), n);
            assert_eq!(frame, on_scalar.get_led_colors(t, &mixer));
        }
        assert!(on_wide.leds.is_wf());
    }
}

#[test]
fn a_wide_led_is_shown_with_its_lanes() {
    let mut wide = SimdLeds::new();
    wide.pack(&wide_positions(12));
    wide.set_color(9, colour(9));
    let led = wide.led(9);
    assert_eq!(led.id, CorsairLedLuid(509));
    assert_eq!(led.x, Double { bits: (9.0f64 * 19.0).to_bits() });
    assert_eq!(led.y, Double { bits: (3.0f64 * 19.5).to_bits() });
    assert_eq!(led.color, colour(9));
}

#[test]
fn a_layout_out_of_step_is_told() {
    let mut wide = SimdLeds::new();
    wide.pack(&wide_positions(12));
    assert!(wide.is_wf());
    let mut short = wide.clone();
    short.colors.pop();
    assert!(!short.is_wf());
    let mut long = wide.clone();
    long.initial_positions.push(long.initial_positions[0]);
    assert!(!long.is_wf());
    let mut scratch = wide.clone();
    scratch.positions.clear();
    assert!(!scratch.is_wf());
    let mut alpha = wide.clone();
    alpha.colors[2].alpha.lanes[1][2] = s(0.25);
    assert!(!alpha.is_wf());
    let mut padding = wide.clone();
    padding.colors[2].alpha.lanes[4][2] = s(0.25);
    assert!(padding.is_wf());
}

#[test]
fn loading_narrows_the_positions() {
    let positions = vec![
        CorsairLedPosition {
            id: CorsairLedLuid(1),
            cx: Double { bits: 0.1f64.to_bits() },
            cy: Double { bits: (1.0f64 / 3.0).to_bits() },
        },
        CorsairLedPosition {
            id: CorsairLedLuid(2),
            cx: Double { bits: 123.456f64.to_bits() },
            cy: Double { bits: (-7.25f64).to_bits() },
        },
    ];
    let wide = SimdLeds::load(&positions);
    assert!(wide.is_wf());
    assert_eq!(wide.len(), 2);
    assert_eq!(wide.initial_positions[0].lanes[0], [s(0.1), s(1.0 / 3.0)]);
    assert_eq!(wide.initial_positions[0].lanes[1], [s(123.456), s(-7.25)]);
    let shown = wide.led(0);
    assert_eq!(shown.x, Double { bits: (0.1f32 as f64).to_bits() });
    assert_eq!(shown.y, Double { bits: ((1.0f32 / 3.0) as f64).to_bits() });
    assert_eq!(wide.led(1).y, Double { bits: (-7.25f64).to_bits() });
    let scalar = Framebuffer::load(&positions);
    assert_eq!(scalar.leds[0].x, Double { bits: 0.1f64.to_bits() });
    assert_eq!(wide.export(), scalar.export());
}

#[test]
fn scratch_positions_are_restored() {
    let mut leds = SimdLeds::new();
    leds.pack(&wide_positions(11));
    assert_eq!(leds.positions[0].lanes[3], [s(0.0), s(0.0)]);
    leds.get_positions();
    assert_eq!(leds.positions[0].lanes[3], leds.initial_positions[0].lanes[3]);
    leds.positions[1].lanes[2] = [s(5.0), s(6.0)];
    leds.get_positions();
    for g in 0..2 {
        assert_eq!(leds.positions[g].lanes, leds.initial_positions[g].lanes);
    }
}

#[test]
fn back_ends_agree_where_positions_lose_precision() {
    let positions: Vec<CorsairLedPosition> = (0..45u32)
        .map(|i| CorsairLedPosition {
            id: CorsairLedLuid(i),
            cx: Double { bits: (i as f64 * 19.1 + 0.123456789).to_bits() },
            cy: Double { bits: ((i % 6) as f64 * 18.7 + 1.0 / 3.0).to_bits() },
        })
        .collect();
    let mut on_wide: CorsairState<SimdLeds> = CorsairState::new();
    on_wide.setup(&positions);
    let mut on_scalar: CorsairState<Framebuffer> = CorsairState::new();
    on_scalar.setup(&positions);
    assert_ne!(on_scalar.leds.leds[3].x, on_wide.leds.led(3).x);
    let effects = [
        Effect::Wave(WaveAnimation {
            animation: gradient(),
            duration_ms: 10_000,
            speed: Double { bits: 4.0f64.to_bits() },
            rotation_rad: s(0.3),
            light_amount: Double { bits: 12.0f64.to_bits() },
            two_sided: false,
        }),
        Effect::Ripple(RippleAnimation {
            animation: gradient(),
            duration_ms: 10_000,
            speed: Double { bits: 3.0f64.to_bits() },
            light_amount: Double { bits: 9.0f64.to_bits() },
        }),
    ];
    for effect in effects {
        on_wide.add_effect(effect.clone());
        on_scalar.add_effect(effect);
    }
    let mut lit = 0;
    for t in (0..20_000u64).step_by(613) {
        let frame = on_wide.get_led_colors(t, &mixer);
        assert_eq!(frame, on_scalar.get_led_colors(t, &mixer));
        lit += frame.iter().filter(|led| (led.r, led.g, led.b) != (0, 0, 0)).count();
    }
    assert!(lit > 100);
}

#[test]
fn run_test() {
    let mut corsair_state: CorsairState<Framebuffer> = CorsairState::new();
    corsair_state.setup(&scalar_positions(104));
    let mut simd_corsair_state: CorsairState<SimdLeds> = CorsairState::new();
    simd_corsair_state.setup(&scalar_positions(104));
    simd_corsair_state.get_led_colors(0, &mixer);
    let len = corsair_state.get_led_colors(0, &mixer).len();
    assert_eq!(len, 104);
}
