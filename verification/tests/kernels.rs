use sis_lighting::animation::{sample_animation, ColorAnimation, Keyframe};
use sis_lighting::color::{alpha_compose, linear_interpolation, Rgba};
use sis_lighting::effect::{ColorChangeAnimation, Effect, RippleAnimation, WaveAnimation};
use sis_lighting::framebuffer::Led;
use sis_lighting::kernel::{
    colorchange_key, front_key, front_params, paint, place, ripple_key, ripple_params, static_key,
    wave_key, wave_led, wave_params, Direction, FrontParams,
};
use sis_lighting::number::{Double, Single};
use sis_lighting::sdk::CorsairLedLuid;

fn s(v: f32) -> Single {
    Single { bits: v.to_bits() }
}

fn f(v: Single) -> f32 {
    f32::from_bits(v.bits)
}

fn rgba(r: f32, g: f32, b: f32, a: f32) -> Rgba {
    Rgba { r: s(r), g: s(g), b: s(b), a: s(a) }
}

fn led(color: Rgba) -> Led {
    Led { id: CorsairLedLuid(7), x: Double { bits: 0 }, y: Double { bits: 0 }, color }
}

/// Straight-alpha compositing as the machine's own arithmetic does it.
fn compose(under: Rgba, over: Rgba) -> Rgba {
    let out_a = f(over.a) + f(under.a) * (1.0 - f(over.a));
    if out_a == 0.0 {
        return rgba(0.0, 0.0, 0.0, 0.0);
    }
    let mix = |o: Single, u: Single| {
        s((f(o) * f(over.a) + f(u) * f(under.a) * (1.0 - f(over.a))) / out_a)
    };
    Rgba { r: mix(over.r, under.r), g: mix(over.g, under.g), b: mix(over.b, under.b), a: s(out_a) }
}

fn lerp(a: Rgba, b: Rgba, u: f32) -> Rgba {
    let mix = |p: Single, n: Single| s((1.0 - u) * f(p) + u * f(n));
    Rgba { r: mix(a.r, b.r), g: mix(a.g, b.g), b: mix(a.b, b.b), a: mix(a.a, b.a) }
}

/// Unit-range numbers that walk over many bit patterns.
fn units(n: u32) -> Vec<f32> {
    let mut x: u32 = 0x2545_F491;
    (0..n)
        .map(|_| {
            x ^= x << 13;
            x ^= x >> 17;
            x ^= x << 5;
            (x >> 8) as f32 / (1u32 << 24) as f32
        })
        .collect()
}

fn sunset() -> ColorAnimation {
    ColorAnimation {
        name: String::from("sunset"),
        keyframes: vec![
            Keyframe { timestamp: s(0.2), color: rgba(1.0, 0.8, 0.1, 1.0) },
            Keyframe { timestamp: s(0.5), color: rgba(0.9, 0.3, 0.2, 0.75) },
            Keyframe { timestamp: s(0.9), color: rgba(0.1, 0.0, 0.4, 0.5) },
        ],
    }
}

#[test]
fn compositing_by_hand() {
    let black = rgba(0.0, 0.0, 0.0, 1.0);
    assert_eq!(alpha_compose(black, rgba(1.0, 1.0, 1.0, 0.5)), rgba(0.5, 0.5, 0.5, 1.0));
    assert_eq!(alpha_compose(black, rgba(1.0, 0.0, 0.0, 1.0)), rgba(1.0, 0.0, 0.0, 1.0));
    assert_eq!(alpha_compose(black, rgba(0.0, 0.0, 0.0, 0.0)), black);
    assert_eq!(
        alpha_compose(rgba(0.0, 1.0, 0.0, 0.5), rgba(1.0, 0.0, 0.0, 0.5)),
        rgba(0.5 / 0.75, 0.25 / 0.75, 0.0, 0.75)
    );
}

#[test]
fn nothing_over_nothing_is_nothing() {
    let out = alpha_compose(rgba(0.3, 0.4, 0.5, 0.0), rgba(0.9, 0.8, 0.7, 0.0));
    assert_eq!(out, rgba(0.0, 0.0, 0.0, 0.0));
}

#[test]
fn compositing_is_the_machines_arithmetic() {
    let v = units(8 * 3000);
    for c in v.chunks(8) {
        let under = rgba(c[0], c[1], c[2], c[3]);
        let over = rgba(c[4], c[5], c[6], c[7]);
        assert_eq!(alpha_compose(under, over), compose(under, over));
    }
}

#[test]
fn opaque_over_anything_is_itself() {
    let v = units(8 * 500);
    for c in v.chunks(8) {
        let under = rgba(c[0], c[1], c[2], c[3]);
        let over = rgba(c[4], c[5], c[6], 1.0);
        assert_eq!(alpha_compose(under, over), over);
    }
}

#[test]
fn nothing_over_an_opaque_colour_keeps_it() {
    let v = units(3 * 500);
    for c in v.chunks(3) {
        let under = rgba(c[0], c[1], c[2], 1.0);
        assert_eq!(alpha_compose(under, rgba(0.0, 0.0, 0.0, 0.0)), under);
    }
}

#[test]
fn interpolation_by_hand() {
    let a = rgba(1.0, 0.0, 0.0, 1.0);
    let b = rgba(0.0, 1.0, 0.0, 1.0);
    assert_eq!(linear_interpolation(a, b, s(0.0)), a);
    assert_eq!(linear_interpolation(a, b, s(1.0)), b);
    assert_eq!(linear_interpolation(a, b, s(0.5)), rgba(0.5, 0.5, 0.0, 1.0));
    assert_eq!(linear_interpolation(a, b, s(0.25)), rgba(0.75, 0.25, 0.0, 1.0));
}

#[test]
fn interpolation_is_the_machines_arithmetic() {
    let v = units(9 * 3000);
    for c in v.chunks(9) {
        let a = rgba(c[0], c[1], c[2], c[3]);
        let b = rgba(c[4], c[5], c[6], c[7]);
        assert_eq!(linear_interpolation(a, b, s(c[8])), lerp(a, b, c[8]));
    }
}

#[test]
fn sampling_by_hand() {
    let anim = sunset();
    assert_eq!(sample_animation(s(0.0), &anim), rgba(1.0, 0.8, 0.1, 1.0));
    assert_eq!(sample_animation(s(0.1), &anim), rgba(1.0, 0.8, 0.1, 1.0));
    assert_eq!(sample_animation(s(0.2), &anim), rgba(1.0, 0.8, 0.1, 1.0));
    assert_eq!(sample_animation(s(0.5), &anim), rgba(0.9, 0.3, 0.2, 0.75));
    assert_eq!(sample_animation(s(0.95), &anim), rgba(0.1, 0.0, 0.4, 0.5));
    assert_eq!(sample_animation(s(1.0), &anim), rgba(0.1, 0.0, 0.4, 0.5));
    let u = (0.7f32 - 0.5) / (0.9f32 - 0.5);
    assert_eq!(
        sample_animation(s(0.7), &anim),
        lerp(rgba(0.9, 0.3, 0.2, 0.75), rgba(0.1, 0.0, 0.4, 0.5), u)
    );
}

#[test]
fn sampling_between_keyframes_on_the_ends() {
    let anim = ColorAnimation {
        name: String::from("ends"),
        keyframes: vec![
            Keyframe { timestamp: s(0.0), color: rgba(1.0, 0.0, 0.0, 1.0) },
            Keyframe { timestamp: s(1.0), color: rgba(0.0, 1.0, 0.0, 1.0) },
        ],
    };
    assert_eq!(sample_animation(s(0.0), &anim), rgba(1.0, 0.0, 0.0, 1.0));
    assert_eq!(sample_animation(s(0.5), &anim), rgba(0.5, 0.5, 0.0, 1.0));
    // At the very end the last keyframe holds from its own timestamp on.
    assert_eq!(sample_animation(s(1.0), &anim), rgba(0.0, 1.0, 0.0, 1.0));
}

#[test]
fn sampling_is_the_machines_arithmetic() {
    let anim = sunset();
    for p in units(4000) {
        let seg = anim.segment(s(p));
        let (t0, t1) = (f(seg.previous.timestamp), f(seg.next.timestamp));
        let u = if t1 - t0 != 0.0 { (p - t0) / (t1 - t0) } else { 0.0 };
        assert_eq!(sample_animation(s(p), &anim), lerp(seg.previous.color, seg.next.color, u));
    }
}

#[test]
fn static_kernel_lays_the_colour_over() {
    let under = led(rgba(0.0, 0.0, 1.0, 1.0));
    assert_eq!(static_key(&under, rgba(1.0, 0.0, 0.0, 0.5)), rgba(0.5, 0.0, 0.5, 1.0));
    assert_eq!(static_key(&under, rgba(1.0, 0.0, 0.0, 0.0)), under.color);
}

#[test]
fn front_kernel_paints_inside_the_front_only() {
    let under = led(rgba(0.0, 0.0, 1.0, 1.0));
    let anim = sunset();
    assert_eq!(front_key(&under, &anim, None), under.color);
    assert_eq!(front_key(&under, &anim, Some(s(0.1))), rgba(1.0, 0.8, 0.1, 1.0));
    assert_eq!(
        front_key(&under, &anim, Some(s(0.5))),
        compose(under.color, rgba(0.9, 0.3, 0.2, 0.75))
    );
}

#[test]
fn colour_change_kernel_follows_its_clock() {
    let under = led(rgba(0.0, 0.0, 0.0, 1.0));
    let change = ColorChangeAnimation { animation: sunset(), duration_ms: 1000 };
    assert_eq!(colorchange_key(&under, 0, &change), rgba(1.0, 0.8, 0.1, 1.0));
    assert_eq!(colorchange_key(&under, 1000, &change), compose(under.color, rgba(0.1, 0.0, 0.4, 0.5)));
    for phase in [1u64, 199, 200, 201, 333, 500, 777, 900, 999] {
        let point = phase as f32 / 1000.0;
        let seg = change.animation.segment(s(point));
        let (t0, t1) = (f(seg.previous.timestamp), f(seg.next.timestamp));
        let u = if t1 - t0 != 0.0 { (point - t0) / (t1 - t0) } else { 0.0 };
        assert_eq!(
            colorchange_key(&under, phase, &change),
            compose(under.color, lerp(seg.previous.color, seg.next.color, u))
        );
    }
}

fn d(v: f64) -> Double {
    Double { bits: v.to_bits() }
}

fn at(x: f64, y: f64, color: Rgba) -> Led {
    Led { id: CorsairLedLuid(7), x: d(x), y: d(y), color }
}

fn angle(rotation: Single) -> Direction {
    Direction { cos: s(f(rotation).cos()), sin: s(f(rotation).sin()) }
}

fn wave(speed: f64, light_amount: f64, rotation: f32, two_sided: bool) -> WaveAnimation {
    WaveAnimation {
        animation: sunset(),
        duration_ms: 2000,
        speed: d(speed),
        rotation_rad: s(rotation),
        light_amount: d(light_amount),
        two_sided,
    }
}

/// The place in a front as the machine's single-precision arithmetic
/// finds it.
fn machine_place(phase: u64, speed: f64, light_amount: f64, offset: f32) -> Option<f32> {
    let head = phase as f32 / 1000.0 * speed as f32 * 20.0;
    let width = light_amount as f32 * 20.0;
    let distance = head - offset;
    if distance > 0.0 && distance < width {
        Some(distance / width)
    } else {
        None
    }
}

fn machine_front(under: Rgba, point: Option<f32>) -> Rgba {
    match point {
        Some(p) => {
            let anim = sunset();
            let seg = anim.segment(s(p));
            let (t0, t1) = (f(seg.previous.timestamp), f(seg.next.timestamp));
            let u = if t1 - t0 != 0.0 { (p - t0) / (t1 - t0) } else { 0.0 };
            compose(under, lerp(seg.previous.color, seg.next.color, u))
        }
        None => under,
    }
}

#[test]
fn front_by_hand() {
    let params = front_params(500, d(1.0), d(1.0));
    assert_eq!(params, FrontParams { head: s(10.0), width: s(20.0) });
    let params = front_params(250, d(2.0), d(0.5));
    assert_eq!(params, FrontParams { head: s(10.0), width: s(10.0) });
    let params = front_params(0, d(3.0), d(0.25));
    assert_eq!(params, FrontParams { head: s(0.0), width: s(5.0) });
    let w = wave(1.5, 2.5, 0.0, false);
    assert_eq!(wave_params(1000, &w), FrontParams { head: s(30.0), width: s(50.0) });
    let r = RippleAnimation {
        animation: sunset(),
        duration_ms: 700,
        speed: d(1.5),
        light_amount: d(2.5),
    };
    assert_eq!(ripple_params(1000, &r), wave_params(1000, &w));
}

#[test]
fn front_is_the_machines_arithmetic() {
    for phase in [0u64, 1, 7, 99, 100, 333, 1234, 65_535, 16_777_217, 4_000_000_000] {
        for (speed, amount) in [(1.0, 1.0), (0.1, 0.3), (2.75, 1e-3), (1e6, 1e6), (123.456, 0.0)] {
            let params = front_params(phase, d(speed), d(amount));
            let head = phase as f32 / 1000.0 * speed as f32 * 20.0;
            let width = amount as f32 * 20.0;
            assert_eq!(params, FrontParams { head: s(head), width: s(width) });
        }
    }
}

#[test]
fn the_edges_of_a_front_are_outside() {
    let params = FrontParams { head: s(10.0), width: s(10.0) };
    assert_eq!(place(&params, s(0.0)), None);
    assert_eq!(place(&params, s(10.0)), None);
    assert_eq!(place(&params, s(12.0)), None);
    assert_eq!(place(&params, s(-3.0)), None);
    assert_eq!(place(&params, s(5.0)), Some(s(0.5)));
    assert_eq!(place(&params, s(9.0)), Some(s(0.1)));
    assert_eq!(place(&params, s(2.5)), Some(s(0.75)));
    assert_eq!(place(&params, s(f32::NAN)), None);
    let nowhere = FrontParams { head: s(10.0), width: s(f32::NAN) };
    assert_eq!(place(&nowhere, s(5.0)), None);
}

#[test]
fn wave_kernel_is_the_machines_arithmetic() {
    let under = rgba(0.0, 0.0, 1.0, 1.0);
    let mut lit = 0;
    for rotation in [0.0f32, 0.5, 1.5707964, 3.0, -0.75] {
        for two_sided in [false, true] {
            let w = wave(1.0, 4.0, rotation, two_sided);
            for phase in [0u64, 250, 999, 1500, 1999] {
                for i in 0..60u32 {
                    let (x, y) = (i as f64 * 7.3 - 40.0, (i % 7) as f64 * 19.1);
                    let led = at(x, y, under);
                    let along = x as f32 * rotation.cos() - y as f32 * rotation.sin();
                    let offset = if two_sided { (along - 100.0).abs() } else { along };
                    let point = machine_place(phase, 1.0, 4.0, offset);
                    lit += point.is_some() as u32;
                    assert_eq!(wave_key(&led, phase, &w, &angle), machine_front(under, point));
                    let params = wave_params(phase, &w);
                    assert_eq!(
                        wave_led(&led, &w, &params, angle(s(rotation))),
                        machine_front(under, point)
                    );
                }
            }
        }
    }
    assert!(lit > 100);
}

#[test]
fn ripple_kernel_is_the_machines_arithmetic() {
    let under = rgba(0.0, 0.0, 1.0, 1.0);
    let r = RippleAnimation {
        animation: sunset(),
        duration_ms: 5000,
        speed: d(2.0),
        light_amount: d(3.0),
    };
    let mut lit = 0;
    for phase in [0u64, 100, 900, 2500, 4999] {
        for i in 0..200u32 {
            let (x, y) = (i as f64 * 2.3, (i % 9) as f64 * 19.1 + 0.05);
            let led = at(x, y, under);
            let (dx, dy) = (x as f32 - 200.0, y as f32 - 100.0);
            let point = machine_place(phase, 2.0, 3.0, (dx * dx + dy * dy).sqrt());
            lit += point.is_some() as u32;
            assert_eq!(ripple_key(&led, phase, &r), machine_front(under, point));
        }
    }
    assert!(lit > 50);
}

#[test]
fn paint_asks_the_angle_for_waves_only() {
    let under = at(0.0, 0.0, rgba(0.0, 0.0, 1.0, 1.0));
    let never = |_: Single| -> Direction { panic!("no direction is needed") };
    let fill = Effect::Static(rgba(0.0, 1.0, 0.0, 1.0));
    assert_eq!(paint(&fill, 0, &under, &never), rgba(0.0, 1.0, 0.0, 1.0));
    let change = Effect::ColorChange(ColorChangeAnimation { animation: sunset(), duration_ms: 10 });
    assert_eq!(paint(&change, 0, &under, &never), rgba(1.0, 0.8, 0.1, 1.0));
    let ripple = Effect::Ripple(RippleAnimation {
        animation: sunset(),
        duration_ms: 1000,
        speed: d(1.0),
        light_amount: d(1.0),
    });
    assert_eq!(paint(&ripple, 0, &under, &never), under.color);
    let w = Effect::Wave(wave(1.0, 1.0, 0.0, false));
    let backwards = |_: Single| Direction { cos: s(-1.0), sin: s(0.0) };
    let led = at(-5.0, 0.0, under.color);
    assert_eq!(
        paint(&w, 500, &led, &angle),
        machine_front(under.color, machine_place(500, 1.0, 1.0, -5.0))
    );
    assert_eq!(
        paint(&w, 500, &led, &backwards),
        machine_front(under.color, machine_place(500, 1.0, 1.0, 5.0))
    );
    assert_ne!(paint(&w, 500, &led, &angle), paint(&w, 500, &led, &backwards));
}

#[test]
fn a_place_in_a_front_is_a_sample_point() {
    let v = units(3 * 4000);
    let mut inside = 0;
    for c in v.chunks(3) {
        let params = FrontParams { head: s(c[0] * 64.0), width: s(c[1] * 8.0) };
        let offset = s(c[2] * 64.0);
        if let Some(point) = place(&params, offset) {
            inside += 1;
            assert!((0.0..=1.0).contains(&f(point)));
            let distance = c[0] * 64.0 - c[2] * 64.0;
            assert_eq!(point, s(distance / (c[1] * 8.0)));
        }
    }
    assert!(inside > 100);
    let narrow = FrontParams { head: s(1.0), width: s(f32::from_bits(1)) };
    assert_eq!(place(&narrow, s(1.0)), None);
    let wide = FrontParams { head: s(f32::MAX), width: s(f32::INFINITY) };
    assert_eq!(place(&wide, s(0.0)), Some(s(0.0)));
    let close = FrontParams { head: s(2.0), width: s(2.0) };
    assert_eq!(place(&close, s(f32::from_bits(1))), None);
    assert_eq!(place(&close, s(1.1920929e-7)), Some(s(0.99999994)));
}
