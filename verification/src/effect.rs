//! Effect descriptors and the clock each effect runs on.
//!
//! An effect reads the frame time through its phase only: a wave or a ripple
//! repeats with its period, a colour change runs once and then holds, and a
//! static fill ignores time.

use vstd::prelude::*;
use crate::animation::ColorAnimation;
use crate::color::Rgba;
use crate::number::{Double, Single};

verus! {

/// A front that travels across the keyboard along one axis.
#[derive(Clone, Debug)]
pub struct WaveAnimation {
    pub animation: ColorAnimation,
    /// Period, in milliseconds.
    pub duration_ms: u32,
    /// Distance travelled per second, in LED units.
    pub speed: Double,
    /// Direction of travel, in radians.
    pub rotation_rad: Single,
    /// Thickness of the front, in LED units.
    pub light_amount: Double,
    /// Whether the front leaves the midpoint in both directions.
    pub two_sided: bool,
}

/// A ring that spreads from the centre of the keyboard.
#[derive(Clone, Debug)]
pub struct RippleAnimation {
    pub animation: ColorAnimation,
    /// Period, in milliseconds.
    pub duration_ms: u32,
    /// Distance travelled per second, in LED units.
    pub speed: Double,
    /// Thickness of the ring, in LED units.
    pub light_amount: Double,
}

/// One pass through a gradient, the same on every LED.
#[derive(Clone, Debug)]
pub struct ColorChangeAnimation {
    pub animation: ColorAnimation,
    /// Time the pass takes, in milliseconds.
    pub duration_ms: u32,
}

/// A lighting effect.
#[derive(Clone, Debug)]
pub enum Effect {
    Static(Rgba),
    Wave(WaveAnimation),
    Ripple(RippleAnimation),
    ColorChange(ColorChangeAnimation),
}

impl Effect {
    /// The effect can be rendered: its animation can be sampled and its
    /// duration is not zero. A static fill always can.
    pub open spec fn wf(&self) -> bool {
        match self {
            Effect::Static(_) => true,
            Effect::Wave(w) => w.animation.wf() && w.duration_ms > 0,
            Effect::Ripple(r) => r.animation.wf() && r.duration_ms > 0,
            Effect::ColorChange(c) => c.animation.wf() && c.duration_ms > 0,
        }
    }

    /// Milliseconds the effect has run at frame time `t_ms`: the time within
    /// the current period for a wave or a ripple, the time held at the
    /// duration for a colour change, zero for a static fill.
    pub open spec fn phase_spec(&self, t_ms: u64) -> u64 {
        match self {
            Effect::Static(_) => 0,
            Effect::Wave(w) => t_ms % (w.duration_ms as u64),
            Effect::Ripple(r) => t_ms % (r.duration_ms as u64),
            Effect::ColorChange(c) => if t_ms <= c.duration_ms {
                t_ms
            } else {
                c.duration_ms as u64
            },
        }
    }

    /// Period after which the effect repeats, if it does.
    pub open spec fn period(&self) -> Option<u32> {
        match self {
            Effect::Wave(w) => Some(w.duration_ms),
            Effect::Ripple(r) => Some(r.duration_ms),
            _ => None,
        }
    }

    /// Tells whether the effect can be rendered.
    pub fn is_valid(&self) -> (ok: bool)
        ensures
            ok == self.wf(),
    {
        match self {
            Effect::Static(_) => true,
            Effect::Wave(w) => w.duration_ms > 0 && w.animation.is_valid(),
            Effect::Ripple(r) => r.duration_ms > 0 && r.animation.is_valid(),
            Effect::ColorChange(c) => c.duration_ms > 0 && c.animation.is_valid(),
        }
    }

    /// The effect's clock at frame time `t_ms`.
    pub fn phase(&self, t_ms: u64) -> (p: u64)
        requires
            self.wf(),
        ensures
            p == self.phase_spec(t_ms),
            self.period() matches Some(d) ==> p < d,
            self matches Effect::ColorChange(c) ==> p <= c.duration_ms,
    {
        match self {
            Effect::Static(_) => 0,
            Effect::Wave(w) => t_ms % (w.duration_ms as u64),
            Effect::Ripple(r) => t_ms % (r.duration_ms as u64),
            Effect::ColorChange(c) => {
                let d: u64 = c.duration_ms as u64;
                if t_ms <= d {
                    t_ms
                } else {
                    d
                }
            },
        }
    }
}

/// A periodic effect is at the same phase one period later, so it paints
/// the same frame at `t` and at `t + D`.
pub proof fn lemma_phase_wraps(effect: Effect, t_ms: u64)
    requires
        effect.wf(),
        effect.period() is Some,
        t_ms + effect.period()->Some_0 <= u64::MAX,
    ensures
        effect.phase_spec((t_ms + effect.period()->Some_0) as u64) == effect.phase_spec(t_ms),
{
    let d = effect.period()->Some_0 as int;
    vstd::arithmetic::div_mod::lemma_mod_add_multiples_vanish(t_ms as int, d);
}

} // verus!
