//! The effect kernels: what one effect does to the colour of one LED.
//!
//! A static fill lays its colour over the LED. A colour change samples its
//! animation at the share of its duration that has passed and lays the
//! sample over the LED. A wave or a ripple is a front that travels over
//! the keyboard: an LED the front is passing over gets the animation's
//! colour at its place in the front, and any other LED is left alone.
//!
//! All of it is single-precision arithmetic, each operation rounded once,
//! and is stated exactly. The one thing asked of the outside is the
//! direction of a wave: the cosine and the sine of its rotation come from
//! a function that is handed in, the angle function.

use vstd::prelude::*;
use crate::animation::{sample_animation, ColorAnimation};
use crate::arith::{lemma_share_is_unit, one, zero};
use crate::color::{alpha_compose, alpha_compose_spec, Rgba};
use crate::effect::{ColorChangeAnimation, Effect, RippleAnimation, WaveAnimation};
use crate::framebuffer::Led;
use crate::number::{Double, Single, ONE_BITS};

verus! {

/// Distance between two neighbouring LEDs.
pub const LED_UNIT: u32 = 20;

/// Where a two-sided wave starts, along its direction of travel.
pub const WAVE_MIDPOINT: u32 = 100;

/// Where a ripple starts, across the keyboard.
pub const RIPPLE_MIDPOINT_X: u32 = 200;

/// Where a ripple starts, up the keyboard.
pub const RIPPLE_MIDPOINT_Y: u32 = 100;

/// Milliseconds in the second that speeds are measured by.
pub const MS_PER_SECOND: u32 = 1000;

/// A direction on the keyboard: the cosine and the sine of an angle.
#[derive(Clone, Copy, Debug, PartialEq, Eq, Structural)]
pub struct Direction {
    pub cos: Single,
    pub sin: Single,
}

/// Leading edge and thickness of a travelling front.
#[derive(Clone, Copy, Debug, PartialEq, Eq, Structural)]
pub struct FrontParams {
    /// How far the leading edge has come from where the front started.
    pub head: Single,
    /// How far behind the leading edge the front still lights.
    pub width: Single,
}

/// The front of an effect that has run for `phase` milliseconds: its head
/// is at `(phase / 1000) * speed * LED_UNIT`, and it is
/// `light_amount * LED_UNIT` wide.
pub open spec fn front_spec(phase: u64, speed: Double, light_amount: Double) -> FrontParams {
    FrontParams {
        head: Single::of_integer(phase).div_spec(Single::of_integer(MS_PER_SECOND as u64)).mul_spec(
            speed.narrow_spec(),
        ).mul_spec(Single::of_integer(LED_UNIT as u64)),
        width: light_amount.narrow_spec().mul_spec(Single::of_integer(LED_UNIT as u64)),
    }
}

/// Where in a front an LED stands that lies `offset` from where the front
/// started. With `d` the distance from the LED on to the head, the front
/// is passing over the LED when `0 < d < width`, and the LED then stands
/// at `d / width`.
pub open spec fn place_spec(params: FrontParams, offset: Single) -> Option<Single> {
    let d = params.head.sub_spec(offset);
    if zero(false).lt_spec(d) && d.lt_spec(params.width) {
        Some(d.div_spec(params.width))
    } else {
        None
    }
}

/// How far an LED lies from where a wave started: its position along the
/// direction of travel, `x * cos - y * sin`, or for a wave that leaves its
/// midpoint both ways the distance of that from the midpoint.
pub open spec fn wave_offset(wave: WaveAnimation, direction: Direction, led: Led) -> Single {
    let along = led.x.narrow_spec().mul_spec(direction.cos).sub_spec(
        led.y.narrow_spec().mul_spec(direction.sin),
    );
    if wave.two_sided {
        along.sub_spec(Single::of_integer(WAVE_MIDPOINT as u64)).abs_spec()
    } else {
        along
    }
}

/// How far an LED lies from the centre of a ripple.
pub open spec fn ripple_offset(led: Led) -> Single {
    let dx = led.x.narrow_spec().sub_spec(Single::of_integer(RIPPLE_MIDPOINT_X as u64));
    let dy = led.y.narrow_spec().sub_spec(Single::of_integer(RIPPLE_MIDPOINT_Y as u64));
    dx.mul_spec(dx).add_spec(dy.mul_spec(dy)).sqrt_spec()
}

/// The colour of an LED after a front with the given animation: where the
/// front passes over the LED, at the sample point `point`, the animation's
/// colour there laid over the LED's colour; elsewhere the LED's colour.
pub open spec fn front_color(animation: ColorAnimation, under: Rgba, point: Option<Single>) -> Rgba {
    match point {
        Some(s) => alpha_compose_spec(under, animation.sample_spec(s)),
        None => under,
    }
}

/// A place in a front is a sample point: it lies in the unit range.
pub proof fn lemma_place_is_unit(params: FrontParams, offset: Single)
    ensures
        place_spec(params, offset) matches Some(s) ==> s.is_unit(),
{
    let d = params.head.sub_spec(offset);
    if zero(false).lt_spec(d) && d.lt_spec(params.width) {
        lemma_share_is_unit(d, params.width);
    }
}

/// The colour a wave gives an LED, for a direction of travel.
pub open spec fn wave_color(wave: WaveAnimation, phase: u64, led: Led, direction: Direction) -> Rgba {
    front_color(
        wave.animation,
        led.color,
        place_spec(
            front_spec(phase, wave.speed, wave.light_amount),
            wave_offset(wave, direction, led),
        ),
    )
}

/// The colour a ripple gives an LED.
pub open spec fn ripple_color(ripple: RippleAnimation, phase: u64, led: Led) -> Rgba {
    front_color(
        ripple.animation,
        led.color,
        place_spec(front_spec(phase, ripple.speed, ripple.light_amount), ripple_offset(led)),
    )
}

/// The sample point of a colour change: the share `phase / duration` of
/// its duration that has passed, held to one.
pub open spec fn clock_point(phase: u64, duration_ms: u32) -> Single {
    let share = Single::of_integer(phase).div_spec(Single::of_integer(duration_ms as u64));
    if share.is_unit() {
        share
    } else {
        one()
    }
}

/// The colour a colour change gives an LED.
pub open spec fn colorchange_color(change: ColorChangeAnimation, phase: u64, under: Rgba) -> Rgba {
    alpha_compose_spec(under, change.animation.sample_spec(clock_point(phase, change.duration_ms)))
}

/// The angle function takes every angle.
pub open spec fn accepts_valid<A: Fn(Single) -> Direction>(angle: &A) -> bool {
    forall|rotation: Single| #[trigger] call_requires(angle, (rotation,))
}

/// `after` is `before` painted once with `effect` at the given phase: the
/// same LED, with the colour the effect gives it. For a wave that is the
/// colour for a direction that the angle function can return for the
/// wave's rotation.
pub open spec fn paints<A: Fn(Single) -> Direction>(
    angle: &A,
    effect: &Effect,
    phase: u64,
    before: Led,
    after: Led,
) -> bool {
    &&& after.id == before.id
    &&& after.x == before.x
    &&& after.y == before.y
    &&& match *effect {
        Effect::Static(color) => after.color == alpha_compose_spec(before.color, color),
        Effect::Wave(wave) => exists|direction: Direction| #[trigger]
            call_ensures(angle, (wave.rotation_rad,), direction) && after.color == wave_color(
                wave,
                phase,
                before,
                direction,
            ),
        Effect::Ripple(ripple) => after.color == ripple_color(ripple, phase, before),
        Effect::ColorChange(change) => after.color == colorchange_color(
            change,
            phase,
            before.color,
        ),
    }
}

/// Computes the front of an effect that has run for `phase` milliseconds.
pub fn front_params(phase: u64, speed: Double, light_amount: Double) -> (p: FrontParams)
    requires
        phase <= u32::MAX,
    ensures
        p == front_spec(phase, speed, light_amount),
{
    let unit = Single::from_integer(LED_UNIT);
    let seconds = Single::from_integer(phase as u32).div(Single::from_integer(MS_PER_SECOND));
    FrontParams {
        head: seconds.mul(speed.narrow()).mul(unit),
        width: light_amount.narrow().mul(unit),
    }
}

/// The front of a wave.
pub fn wave_params(phase: u64, wave: &WaveAnimation) -> (p: FrontParams)
    requires
        phase <= u32::MAX,
    ensures
        p == front_spec(phase, wave.speed, wave.light_amount),
{
    front_params(phase, wave.speed, wave.light_amount)
}

/// The front of a ripple.
pub fn ripple_params(phase: u64, ripple: &RippleAnimation) -> (p: FrontParams)
    requires
        phase <= u32::MAX,
    ensures
        p == front_spec(phase, ripple.speed, ripple.light_amount),
{
    front_params(phase, ripple.speed, ripple.light_amount)
}

/// Finds where in a front an LED stands.
pub fn place(params: &FrontParams, offset: Single) -> (point: Option<Single>)
    ensures
        point == place_spec(*params, offset),
        point matches Some(s) ==> s.is_unit(),
{
    proof {
        lemma_place_is_unit(*params, offset);
    }
    let d = params.head.sub(offset);
    if Single::zero().lt(d) && d.lt(params.width) {
        Some(d.div(params.width))
    } else {
        None
    }
}

/// Lays the colour of a static fill over an LED.
pub fn static_key(led: &Led, effect_color: Rgba) -> (c: Rgba)
    ensures
        c == alpha_compose_spec(led.color, effect_color),
{
    alpha_compose(led.color, effect_color)
}

/// Paints an LED that stands at the sample point `point` in a front, or
/// outside of it.
pub fn front_key(led: &Led, animation: &ColorAnimation, point: Option<Single>) -> (c: Rgba)
    requires
        animation.wf(),
        point matches Some(s) ==> s.is_unit(),
    ensures
        c == front_color(*animation, led.color, point),
{
    match point {
        Some(s) => alpha_compose(led.color, sample_animation(s, animation)),
        None => led.color,
    }
}

/// Paints an LED with a wave whose front is at `params` and that travels
/// in `direction`.
pub fn wave_led(led: &Led, wave: &WaveAnimation, params: &FrontParams, direction: Direction) -> (c:
    Rgba)
    requires
        wave.animation.wf(),
    ensures
        c == front_color(
            wave.animation,
            led.color,
            place_spec(*params, wave_offset(*wave, direction, *led)),
        ),
{
    let along = led.x.narrow().mul(direction.cos).sub(led.y.narrow().mul(direction.sin));
    let offset = if wave.two_sided {
        along.sub(Single::from_integer(WAVE_MIDPOINT)).abs()
    } else {
        along
    };
    front_key(led, &wave.animation, place(params, offset))
}

/// Paints an LED with a wave that has run for `phase` milliseconds.
pub fn wave_key<A: Fn(Single) -> Direction>(
    led: &Led,
    phase: u64,
    wave: &WaveAnimation,
    angle: &A,
) -> (c: Rgba)
    requires
        wave.animation.wf(),
        phase <= u32::MAX,
        call_requires(angle, (wave.rotation_rad,)),
    ensures
        exists|direction: Direction| #[trigger]
            call_ensures(angle, (wave.rotation_rad,), direction) && c == wave_color(
                *wave,
                phase,
                *led,
                direction,
            ),
{
    let params = wave_params(phase, wave);
    let direction = angle(wave.rotation_rad);
    wave_led(led, wave, &params, direction)
}

/// Paints an LED with a ripple whose front is at `params`.
pub fn ripple_led(led: &Led, ripple: &RippleAnimation, params: &FrontParams) -> (c: Rgba)
    requires
        ripple.animation.wf(),
    ensures
        c == front_color(ripple.animation, led.color, place_spec(*params, ripple_offset(*led))),
{
    let dx = led.x.narrow().sub(Single::from_integer(RIPPLE_MIDPOINT_X));
    let dy = led.y.narrow().sub(Single::from_integer(RIPPLE_MIDPOINT_Y));
    let offset = dx.mul(dx).add(dy.mul(dy)).sqrt();
    front_key(led, &ripple.animation, place(params, offset))
}

/// Paints an LED with a ripple that has run for `phase` milliseconds.
pub fn ripple_key(led: &Led, phase: u64, ripple: &RippleAnimation) -> (c: Rgba)
    requires
        ripple.animation.wf(),
        phase <= u32::MAX,
    ensures
        c == ripple_color(*ripple, phase, *led),
{
    let params = ripple_params(phase, ripple);
    ripple_led(led, ripple, &params)
}

/// Paints an LED with a colour change that has run for `phase`
/// milliseconds.
pub fn colorchange_key(led: &Led, phase: u64, colorchange: &ColorChangeAnimation) -> (c: Rgba)
    requires
        colorchange.animation.wf(),
        colorchange.duration_ms > 0,
        phase <= colorchange.duration_ms,
    ensures
        c == colorchange_color(*colorchange, phase, led.color),
{
    let share = Single::from_integer(phase as u32).div(
        Single::from_integer(colorchange.duration_ms),
    );
    let point = if share.bits <= ONE_BITS {
        share
    } else {
        Single::one()
    };
    alpha_compose(led.color, sample_animation(point, &colorchange.animation))
}

/// Paints one LED with one effect that has run for `phase` milliseconds,
/// and gives the LED's new colour. The phase lies within the effect's
/// period or duration.
pub fn paint<A: Fn(Single) -> Direction>(effect: &Effect, phase: u64, led: &Led, angle: &A) -> (c:
    Rgba)
    requires
        effect.wf(),
        effect.period() matches Some(d) ==> phase < d,
        effect matches Effect::ColorChange(change) ==> phase <= change.duration_ms,
        accepts_valid(angle),
    ensures
        paints(angle, effect, phase, *led, Led { color: c, ..*led }),
{
    match effect {
        Effect::Static(color) => static_key(led, *color),
        Effect::Wave(wave) => wave_key(led, phase, wave, angle),
        Effect::Ripple(ripple) => ripple_key(led, phase, ripple),
        Effect::ColorChange(change) => colorchange_key(led, phase, change),
    }
}

} // verus!
