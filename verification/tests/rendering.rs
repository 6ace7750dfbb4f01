use sis_lighting::animation::{ColorAnimation, Keyframe};
use sis_lighting::color::Rgba;
use sis_lighting::effect::{ColorChangeAnimation, Effect, RippleAnimation, WaveAnimation};
use sis_lighting::framebuffer::{clorled_to_floatled, floatled_to_colorled, Framebuffer, Renderer};
use sis_lighting::kernel::Direction;
use sis_lighting::number::{Double, Single};
use sis_lighting::sdk::{CorsairLedColor, CorsairLedLuid, CorsairLedPosition};
use sis_lighting::state::{CorsairMsg, CorsairState};

fn s(v: f32) -> Single {
    Single { bits: v.to_bits() }
}

fn d(v: f64) -> Double {
    Double { bits: v.to_bits() }
}

fn rgba(r: f32, g: f32, b: f32, a: f32) -> Rgba {
    Rgba { r: s(r), g: s(g), b: s(b), a: s(a) }
}

fn angle(rotation: Single) -> Direction {
    let r = f32::from_bits(rotation.bits);
    Direction { cos: s(r.cos()), sin: s(r.sin()) }
}

fn positions(at: &[(u32, f64, f64)]) -> Vec<CorsairLedPosition> {
    at.iter()
        .map(|(id, x, y)| CorsairLedPosition { id: CorsairLedLuid(*id), cx: d(*x), cy: d(*y) })
        .collect()
}

fn state_with(at: &[(u32, f64, f64)], effects: Vec<Effect>) -> CorsairState<Framebuffer> {
    let mut state = CorsairState::new();
    state.setup(&positions(at));
    for e in effects {
        state.add_effect(e);
    }
    state
}

fn record(id: u32, r: u8, g: u8, b: u8, a: u8) -> CorsairLedColor {
    CorsairLedColor { id: CorsairLedLuid(id), r, g, b, a }
}

fn red_to_green() -> ColorAnimation {
    ColorAnimation {
        name: String::from("red_to_green"),
        keyframes: vec![
            Keyframe { timestamp: s(0.0), color: rgba(1.0, 0.0, 0.0, 1.0) },
            Keyframe { timestamp: s(1.0), color: rgba(0.0, 1.0, 0.0, 1.0) },
        ],
    }
}

fn wave(speed: f64, duration_ms: u32, light_amount: f64, two_sided: bool) -> Effect {
    Effect::Wave(WaveAnimation {
        animation: red_to_green(),
        duration_ms,
        speed: d(speed),
        rotation_rad: s(0.0),
        light_amount: d(light_amount),
        two_sided,
    })
}

fn ripple(speed: f64, duration_ms: u32, light_amount: f64) -> Effect {
    Effect::Ripple(RippleAnimation {
        animation: red_to_green(),
        duration_ms,
        speed: d(speed),
        light_amount: d(light_amount),
    })
}

const THREE: [(u32, f64, f64); 3] = [(1, 0.0, 0.0), (2, 42.5, 17.0), (3, 300.0, 120.0)];

#[test]
fn black_baseline() {
    let mut state = state_with(&THREE, vec![]);
    let frame = state.get_led_colors(0, &angle);
    assert_eq!(
        frame,
        vec![record(1, 0, 0, 0, 255), record(2, 0, 0, 0, 255), record(3, 0, 0, 0, 255)]
    );
}

#[test]
fn static_opaque_white() {
    let mut state =
        state_with(&THREE[..2], vec![Effect::Static(rgba(1.0, 1.0, 1.0, 1.0))]);
    let frame = state.get_led_colors(0, &angle);
    assert_eq!(frame, vec![record(1, 255, 255, 255, 255), record(2, 255, 255, 255, 255)]);
}

#[test]
fn static_half_transparent_then_opaque_red() {
    let mut state = state_with(
        &THREE,
        vec![
            Effect::Static(rgba(0.0, 0.0, 0.0, 0.5)),
            Effect::Static(rgba(1.0, 0.0, 0.0, 1.0)),
        ],
    );
    let frame = state.get_led_colors(0, &angle);
    for (i, led) in frame.iter().enumerate() {
        assert_eq!(*led, record(i as u32 + 1, 255, 0, 0, 255));
    }
}

#[test]
fn wave_edge() {
    let mut state = state_with(&[(9, 0.0, 0.0)], vec![wave(1.0, 1000, 1.0, false)]);
    let frame = state.get_led_colors(500, &angle);
    assert_eq!(frame, vec![record(9, 128, 128, 0, 255)]);
}

#[test]
fn wave_has_not_arrived_or_has_passed() {
    let mut state = state_with(&[(9, 0.0, 0.0)], vec![wave(1.0, 1000, 0.25, false)]);
    assert_eq!(state.get_led_colors(0, &angle), vec![record(9, 0, 0, 0, 255)]);
    assert_eq!(state.get_led_colors(500, &angle), vec![record(9, 0, 0, 0, 255)]);
    let lit = state.get_led_colors(100, &angle);
    assert_eq!(lit, vec![record(9, 153, 102, 0, 255)]);
}

#[test]
fn two_sided_wave_leaves_the_midpoint_both_ways() {
    let leds = [(1, 95.0, 0.0), (2, 105.0, 0.0), (3, 100.0, 0.0)];
    let mut state = state_with(&leds, vec![wave(1.0, 1000, 1.0, true)]);
    let frame = state.get_led_colors(500, &angle);
    assert_eq!(frame[0], record(1, 191, 64, 0, 255));
    assert_eq!((frame[0].r, frame[0].g), (frame[1].r, frame[1].g));
    assert_eq!(frame[2], record(3, 128, 128, 0, 255));
}

#[test]
fn ripple_centre() {
    let mut state = state_with(&[(4, 200.0, 100.0)], vec![ripple(1.0, 1000, 0.5)]);
    let frame = state.get_led_colors(500, &angle);
    assert_eq!(frame, vec![record(4, 0, 0, 0, 255)]);
    let inside = state.get_led_colors(250, &angle);
    assert_eq!(inside, vec![record(4, 128, 128, 0, 255)]);
}

#[test]
fn ripple_spreads_by_distance() {
    let leds = [(1, 203.0, 104.0), (2, 200.0, 130.0)];
    let mut state = state_with(&leds, vec![ripple(1.0, 1000, 1.0)]);
    let frame = state.get_led_colors(500, &angle);
    assert_eq!(frame[0], record(1, 191, 64, 0, 255));
    assert_eq!(frame[1], record(2, 0, 0, 0, 255));
}

#[test]
fn per_led_override_wins() {
    let mut state = state_with(&THREE, vec![Effect::Static(rgba(0.0, 0.0, 0.0, 1.0))]);
    state.add_effect_led(CorsairLedLuid(2), Effect::Static(rgba(1.0, 1.0, 1.0, 1.0)));
    let frame = state.get_led_colors(0, &angle);
    assert_eq!(
        frame,
        vec![record(1, 0, 0, 0, 255), record(2, 255, 255, 255, 255), record(3, 0, 0, 0, 255)]
    );
}

#[test]
fn overrides_of_one_led_apply_in_order() {
    let mut state = state_with(&THREE, vec![]);
    state.add_effect_led(CorsairLedLuid(3), Effect::Static(rgba(1.0, 0.0, 0.0, 1.0)));
    state.add_effect_led(CorsairLedLuid(1), Effect::Static(rgba(0.0, 1.0, 0.0, 1.0)));
    state.add_effect_led(CorsairLedLuid(3), Effect::Static(rgba(0.0, 0.0, 1.0, 1.0)));
    let frame = state.get_led_colors(0, &angle);
    assert_eq!(
        frame,
        vec![record(1, 0, 255, 0, 255), record(2, 0, 0, 0, 255), record(3, 0, 0, 255, 255)]
    );
}

#[test]
fn override_for_an_unknown_led_paints_nothing() {
    let mut state = state_with(&THREE, vec![]);
    state.add_effect_led(CorsairLedLuid(77), Effect::Static(rgba(1.0, 1.0, 1.0, 1.0)));
    let frame = state.get_led_colors(0, &angle);
    assert_eq!(
        frame,
        vec![record(1, 0, 0, 0, 255), record(2, 0, 0, 0, 255), record(3, 0, 0, 0, 255)]
    );
}

#[test]
fn frame_has_one_record_per_led_in_order() {
    let leds: Vec<(u32, f64, f64)> =
        (0..23).map(|i| (1000 - i, i as f64 * 19.0, (i % 6) as f64 * 19.0)).collect();
    let mut state = state_with(
        &leds,
        vec![wave(2.0, 700, 3.0, true), ripple(1.5, 900, 2.0), Effect::Static(rgba(0.2, 0.4, 0.6, 0.3))],
    );
    for t in [0u64, 1, 350, 699, 700, 12345] {
        let frame = state.get_led_colors(t, &angle);
        assert_eq!(frame.len(), 23);
        for (i, led) in frame.iter().enumerate() {
            assert_eq!(led.id, CorsairLedLuid(1000 - i as u32));
        }
    }
}

#[test]
fn empty_static_leaves_the_reset_value() {
    let mut state = state_with(&THREE, vec![Effect::Static(rgba(0.0, 0.0, 0.0, 0.0))]);
    let frame = state.get_led_colors(0, &angle);
    for led in frame {
        assert_eq!((led.r, led.g, led.b, led.a), (0, 0, 0, 255));
    }
}

#[test]
fn opaque_fill_is_the_rounded_colour() {
    let mut state = state_with(&THREE, vec![Effect::Static(rgba(0.1, 0.5, 0.8, 1.0))]);
    let frame = state.get_led_colors(0, &angle);
    for led in frame {
        assert_eq!((led.r, led.g, led.b, led.a), (26, 128, 204, 255));
    }
}

#[test]
fn last_opaque_static_wins() {
    let mut state = state_with(
        &THREE,
        vec![
            Effect::Static(rgba(0.3, 0.6, 0.9, 1.0)),
            Effect::Static(rgba(1.0, 0.5, 0.0, 1.0)),
        ],
    );
    let frame = state.get_led_colors(0, &angle);
    for led in frame {
        assert_eq!((led.r, led.g, led.b, led.a), (255, 128, 0, 255));
    }
}

#[test]
fn half_transparent_white_over_black_is_mid_grey() {
    let mut state = state_with(&THREE[..1], vec![Effect::Static(rgba(1.0, 1.0, 1.0, 0.5))]);
    let frame = state.get_led_colors(0, &angle);
    assert_eq!(frame, vec![record(1, 128, 128, 128, 255)]);
}

#[test]
fn periodic_effects_repeat_after_their_period() {
    let leds: Vec<(u32, f64, f64)> = (0..12).map(|i| (i, i as f64 * 25.0, 100.0)).collect();
    for effect in [wave(3.0, 1500, 2.0, false), wave(3.0, 1500, 2.0, true), ripple(3.0, 1500, 2.0)]
    {
        let mut state = state_with(&leds, vec![effect]);
        for t in [0u64, 1, 333, 750, 1499, 1500, 98765] {
            let now = state.get_led_colors(t, &angle);
            let later = state.get_led_colors(t + 1500, &angle);
            assert_eq!(now, later);
        }
    }
}

#[test]
fn phases() {
    let w = wave(1.0, 1000, 1.0, false);
    assert_eq!(w.phase(0), 0);
    assert_eq!(w.phase(999), 999);
    assert_eq!(w.phase(1000), 0);
    assert_eq!(w.phase(2500), 500);
    assert_eq!(w.phase(u64::MAX), u64::MAX % 1000);
    let r = ripple(1.0, 300, 1.0);
    assert_eq!(r.phase(301), 1);
    let c = Effect::ColorChange(ColorChangeAnimation { animation: red_to_green(), duration_ms: 400 });
    assert_eq!(c.phase(0), 0);
    assert_eq!(c.phase(399), 399);
    assert_eq!(c.phase(400), 400);
    assert_eq!(c.phase(401), 400);
    assert_eq!(c.phase(u64::MAX), 400);
    assert_eq!(Effect::Static(rgba(0.0, 0.0, 0.0, 1.0)).phase(777), 0);
}

#[test]
fn colour_change_runs_once_and_holds() {
    let c = Effect::ColorChange(ColorChangeAnimation { animation: red_to_green(), duration_ms: 400 });
    let mut state = state_with(&THREE[..1], vec![c]);
    assert_eq!(state.get_led_colors(0, &angle), vec![record(1, 255, 0, 0, 255)]);
    assert_eq!(state.get_led_colors(200, &angle), vec![record(1, 128, 128, 0, 255)]);
    assert_eq!(state.get_led_colors(400, &angle), vec![record(1, 0, 255, 0, 255)]);
    assert_eq!(state.get_led_colors(4000, &angle), vec![record(1, 0, 255, 0, 255)]);
}

#[test]
fn effects_that_cannot_be_rendered_are_told_apart() {
    let empty = ColorAnimation { name: String::from("empty"), keyframes: vec![] };
    let no_keyframe = Effect::ColorChange(ColorChangeAnimation { animation: empty, duration_ms: 10 });
    let no_time = wave(1.0, 0, 1.0, false);
    assert!(!no_keyframe.is_valid());
    assert!(!no_time.is_valid());
    assert!(wave(1.0, 1, 1.0, false).is_valid());
    assert!(Effect::Static(rgba(0.0, 0.0, 0.0, 0.0)).is_valid());
    let mut state = state_with(&THREE, vec![wave(1.0, 10, 1.0, false)]);
    assert!(state.is_renderable());
    state.add_effect(no_time);
    assert!(!state.is_renderable());
    state.remove_all_effects();
    assert!(state.is_renderable());
    state.add_effect_led(CorsairLedLuid(1), no_keyframe);
    assert!(!state.is_renderable());
}

#[test]
fn messages_change_the_stack() {
    let mut state = state_with(&THREE, vec![]);
    let mut connected = false;
    state.handle_msg(&mut connected, CorsairMsg::Connected);
    assert!(connected);
    state.handle_msg(
        &mut connected,
        CorsairMsg::AddEffect(Box::new(Effect::Static(rgba(1.0, 0.0, 0.0, 1.0)))),
    );
    state.handle_msg(
        &mut connected,
        CorsairMsg::AddEffectLed(
            CorsairLedLuid(2),
            Box::new(Effect::Static(rgba(0.0, 0.0, 1.0, 1.0))),
        ),
    );
    assert!(connected);
    assert_eq!(state.effects.len(), 1);
    assert_eq!(state.key_effects.len(), 1);
    assert_eq!(
        state.get_led_colors(0, &angle),
        vec![record(1, 255, 0, 0, 255), record(2, 0, 0, 255, 255), record(3, 255, 0, 0, 255)]
    );
    state.handle_msg(&mut connected, CorsairMsg::NotConnected);
    assert!(!connected);
    assert_eq!(state.effects.len(), 1);
    state.handle_msg(&mut connected, CorsairMsg::RemoveAllEffects);
    assert!(!connected);
    assert_eq!(state.effects.len(), 0);
    assert_eq!(state.key_effects.len(), 0);
    assert_eq!(state.leds.len(), 3);
}

#[test]
fn remove_all_effects_twice_is_once() {
    let build = || {
        let mut state = state_with(&THREE, vec![wave(1.0, 1000, 1.0, false)]);
        state.add_effect_led(CorsairLedLuid(1), Effect::Static(rgba(1.0, 1.0, 1.0, 1.0)));
        state
    };
    let mut once = build();
    let mut twice = build();
    let mut c1 = true;
    let mut c2 = true;
    once.handle_msg(&mut c1, CorsairMsg::RemoveAllEffects);
    twice.handle_msg(&mut c2, CorsairMsg::RemoveAllEffects);
    twice.handle_msg(&mut c2, CorsairMsg::RemoveAllEffects);
    assert_eq!((c1, c2), (true, true));
    assert_eq!(twice.effects.len(), once.effects.len());
    assert_eq!(twice.key_effects.len(), once.key_effects.len());
    assert_eq!(twice.leds.leds, once.leds.leds);
    assert_eq!(twice.get_led_colors(123, &angle), once.get_led_colors(123, &angle));
    assert_eq!(once.get_led_colors(123, &angle), vec![
        record(1, 0, 0, 0, 255),
        record(2, 0, 0, 0, 255),
        record(3, 0, 0, 0, 255),
    ]);
}

#[test]
fn framebuffer_cycle() {
    let mut fb = Framebuffer::load(&positions(&THREE));
    assert_eq!(fb.len(), 3);
    assert_eq!(fb.color(1), Rgba::base());
    fb.set_color(1, rgba(1.0, 0.5, 0.25, 1.0));
    assert_eq!(fb.color(1), rgba(1.0, 0.5, 0.25, 1.0));
    assert_eq!(fb.color(0), Rgba::base());
    let red = Effect::Static(rgba(1.0, 0.0, 0.0, 1.0));
    fb.apply_override(CorsairLedLuid(3), &red, 0, &angle);
    assert_eq!(
        fb.export(),
        vec![record(1, 0, 0, 0, 255), record(2, 255, 128, 64, 255), record(3, 255, 0, 0, 255)]
    );
    fb.apply(&red, 0, &angle);
    assert_eq!(
        fb.export(),
        vec![record(1, 255, 0, 0, 255), record(2, 255, 0, 0, 255), record(3, 255, 0, 0, 255)]
    );
    fb.reset();
    assert_eq!(
        fb.export(),
        vec![record(1, 0, 0, 0, 255), record(2, 0, 0, 0, 255), record(3, 0, 0, 0, 255)]
    );
    assert_eq!(fb.leds[2].x, d(300.0));
    assert_eq!(fb.leds[2].y, d(120.0));
    assert_eq!(Framebuffer::new().export(), vec![]);
}

#[test]
fn records_survive_the_working_space() {
    let records: Vec<((Double, Double), CorsairLedColor)> = (0..=255u32)
        .map(|i| {
            let b = i as u8;
            ((d(i as f64), d(-(i as f64))), record(i, b, 255 - b, b / 2, b.wrapping_mul(7)))
        })
        .collect();
    let leds = clorled_to_floatled(&records);
    assert_eq!(leds.len(), 256);
    assert_eq!(leds[51].color.r, s(51.0 / 255.0));
    assert_eq!(leds[51].x, d(51.0));
    assert_eq!(leds[51].y, d(-51.0));
    let back = floatled_to_colorled(&leds);
    let expected: Vec<CorsairLedColor> = records.iter().map(|(_, r)| *r).collect();
    assert_eq!(back, expected);
}
