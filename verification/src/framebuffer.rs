//! The LED framebuffer: the LEDs of one device in the order the SDK listed
//! them, each with its position and its working colour.
//!
//! A frame is a cycle of `reset`, any number of `apply` and
//! `apply_override`, and `export`. What an effect does to one LED is the
//! kernel's business. The framebuffer decides which LEDs are painted, in
//! which order, and leaves identifiers and positions alone.

use vstd::prelude::*;
use crate::color::{lemma_rgba_round_trip, rgbau8_to_rgbaf32, rgbau8_to_rgbaf32_spec, Rgba};
use crate::effect::Effect;
use crate::kernel::{accepts_valid, paint, paints, Direction};
use crate::number::{Double, Single};
use crate::sdk::{CorsairLedColor, CorsairLedLuid, CorsairLedPosition};

verus! {

/// One LED of the framebuffer.
#[derive(Clone, Copy, Debug, PartialEq, Eq, Structural)]
pub struct Led {
    pub id: CorsairLedLuid,
    pub x: Double,
    pub y: Double,
    pub color: Rgba,
}

/// The framebuffer, in scalar layout: one record per LED.
#[derive(Clone, Debug)]
pub struct Framebuffer {
    pub leds: Vec<Led>,
}

/// The LED as it is when a frame begins: in place, opaque black.
pub open spec fn blank(led: Led) -> Led {
    Led { color: Rgba::base_spec(), ..led }
}

/// The LED that a position record stands for, opaque black.
pub open spec fn led_at(position: CorsairLedPosition) -> Led {
    Led { id: position.id, x: position.cx, y: position.cy, color: Rgba::base_spec() }
}

/// The LED that the back-end `R` shows for a position record once it has
/// loaded it: opaque black, at the position as the layout keeps it.
pub open spec fn loaded_led<R: Renderer>(position: CorsairLedPosition) -> Led {
    Led {
        id: position.id,
        x: R::kept(position.cx),
        y: R::kept(position.cy),
        color: Rgba::base_spec(),
    }
}

/// The uploaded record of an LED: its identifier and its quantised colour.
pub open spec fn exported(led: Led) -> CorsairLedColor {
    let c = led.color.to_u8_spec();
    CorsairLedColor { id: led.id, r: c.0, g: c.1, b: c.2, a: c.3 }
}

/// Converts one LED to its uploaded record.
pub fn led_to_color(led: &Led) -> (c: CorsairLedColor)
    ensures
        c == exported(*led),
{
    let (r, g, b, a) = led.color.to_u8();
    CorsairLedColor { id: led.id, r, g, b, a }
}

/// Converts working LEDs to uploaded records, one for one and in order.
pub fn floatled_to_colorled(leds: &Vec<Led>) -> (out: Vec<CorsairLedColor>)
    ensures
        out@ == leds@.map_values(|l: Led| exported(l)),
{
    let n = leds.len();
    let mut out: Vec<CorsairLedColor> = Vec::with_capacity(n);
    let mut i: usize = 0;
    while i < n
        invariant
            i <= n,
            n == leds@.len(),
            out@ == leds@.take(i as int).map_values(|l: Led| exported(l)),
        decreases n - i,
    {
        out.push(led_to_color(&leds[i]));
        proof {
            assert(leds@.take(i + 1) =~= leds@.take(i as int).push(leds@[i as int]));
            assert(out@ =~= leds@.take(i + 1).map_values(|l: Led| exported(l)));
        }
        i += 1;
    }
    assert(leds@.take(n as int) =~= leds@);
    out
}

/// The working LED for an uploaded record at a position.
pub open spec fn imported(position: (Double, Double), record: CorsairLedColor) -> Led {
    Led {
        id: record.id,
        x: position.0,
        y: position.1,
        color: rgbau8_to_rgbaf32_spec((record.r, record.g, record.b, record.a)),
    }
}

/// Converts uploaded records with their positions to working LEDs, one for
/// one and in order.
pub fn clorled_to_floatled(leds: &Vec<((Double, Double), CorsairLedColor)>) -> (out: Vec<Led>)
    ensures
        out@ == leds@.map_values(|l: ((Double, Double), CorsairLedColor)| imported(l.0, l.1)),
{
    let n = leds.len();
    let mut out: Vec<Led> = Vec::with_capacity(n);
    let mut i: usize = 0;
    while i < n
        invariant
            i <= n,
            n == leds@.len(),
            out@ == leds@.take(i as int).map_values(
                |l: ((Double, Double), CorsairLedColor)| imported(l.0, l.1),
            ),
        decreases n - i,
    {
        let (position, record) = leds[i];
        let color = rgbau8_to_rgbaf32((record.r, record.g, record.b, record.a));
        out.push(Led { id: record.id, x: position.0, y: position.1, color });
        proof {
            assert(leds@.take(i + 1) =~= leds@.take(i as int).push(leds@[i as int]));
            assert(out@ =~= leds@.take(i + 1).map_values(
                |l: ((Double, Double), CorsairLedColor)| imported(l.0, l.1),
            ));
        }
        i += 1;
    }
    assert(leds@.take(n as int) =~= leds@);
    out
}

/// A record brought into the working space and exported again is the
/// record.
pub proof fn lemma_import_export(position: (Double, Double), record: CorsairLedColor)
    ensures
        exported(imported(position, record)) == record,
{
    lemma_rgba_round_trip((record.r, record.g, record.b, record.a));
}

/// A back-end of the engine: a framebuffer in some layout, with the
/// operations of a frame. Whatever the layout, a back-end shows its LEDs
/// to the kernels as plain values and answers to the same contract.
pub trait Renderer: Sized {
    /// The LEDs as plain values, in the order the SDK listed them.
    spec fn leds(&self) -> Seq<Led>;

    /// The layout is consistent.
    spec fn wf(&self) -> bool;

    /// A coordinate as the layout keeps it.
    spec fn kept(d: Double) -> Double;

    /// A framebuffer with no LED, as before any device was found.
    fn new() -> (r: Self)
        ensures
            r.wf(),
            r.leds().len() == 0,
    ;

    /// Builds the framebuffer of a device from its list of LED positions:
    /// the same LEDs in the same order, all opaque black.
    fn load(positions: &Vec<CorsairLedPosition>) -> (r: Self)
        ensures
            r.wf(),
            r.leds() == positions@.map_values(
                |p: CorsairLedPosition|
                    Led {
                        id: p.id,
                        x: Self::kept(p.cx),
                        y: Self::kept(p.cy),
                        color: Rgba::base_spec(),
                    },
            ),
    ;

    /// Number of LEDs.
    fn len(&self) -> (n: usize)
        requires
            self.wf(),
        ensures
            n == self.leds().len(),
    ;

    /// Sets every LED to opaque black.
    fn reset(&mut self)
        requires
            old(self).wf(),
        ensures
            final(self).wf(),
            final(self).leds() == old(self).leds().map_values(|l: Led| blank(l)),
    ;

    /// Paints every LED once with `effect` at frame time `t_ms`.
    fn apply<A: Fn(Single) -> Direction>(&mut self, effect: &Effect, t_ms: u64, angle: &A)
        requires
            old(self).wf(),
            effect.wf(),
            accepts_valid(angle),
        ensures
            final(self).wf(),
            final(self).leds().len() == old(self).leds().len(),
            forall|i: int|
                0 <= i < old(self).leds().len() ==> paints(
                    angle,
                    effect,
                    effect.phase_spec(t_ms),
                    old(self).leds()[i],
                    #[trigger] final(self).leds()[i],
                ),
    ;

    /// Paints with `effect` the LEDs whose identifier is `led_id`, and no
    /// other.
    fn apply_override<A: Fn(Single) -> Direction>(
        &mut self,
        led_id: CorsairLedLuid,
        effect: &Effect,
        t_ms: u64,
        angle: &A,
    )
        requires
            old(self).wf(),
            effect.wf(),
            accepts_valid(angle),
        ensures
            final(self).wf(),
            final(self).leds().len() == old(self).leds().len(),
            forall|i: int|
                0 <= i < old(self).leds().len() ==> if old(self).leds()[i].id == led_id {
                    paints(
                        angle,
                        effect,
                        effect.phase_spec(t_ms),
                        old(self).leds()[i],
                        #[trigger] final(self).leds()[i],
                    )
                } else {
                    final(self).leds()[i] == old(self).leds()[i]
                },
    ;

    /// The frame to upload: one record per LED, in the order of the LEDs,
    /// each with the LED's identifier and its colour quantised to 8 bits.
    fn export(&self) -> (out: Vec<CorsairLedColor>)
        requires
            self.wf(),
        ensures
            out@ == self.leds().map_values(|l: Led| exported(l)),
    ;
}

impl Framebuffer {
    /// Working colour of LED `i`.
    pub fn color(&self, i: usize) -> (c: Rgba)
        requires
            i < self.leds@.len(),
        ensures
            c == self.leds@[i as int].color,
    {
        self.leds[i].color
    }

    /// Replaces the working colour of LED `i`.
    pub fn set_color(&mut self, i: usize, c: Rgba)
        requires
            i < old(self).leds@.len(),
        ensures
            final(self).leds@ == old(self).leds@.update(
                i as int,
                Led { color: c, ..old(self).leds@[i as int] },
            ),
    {
        let led = self.leds[i];
        self.leds.set(i, Led { color: c, ..led });
    }
}

impl Renderer for Framebuffer {
    open spec fn leds(&self) -> Seq<Led> {
        self.leds@
    }

    /// The scalar layout has nothing to keep consistent.
    open spec fn wf(&self) -> bool {
        true
    }

    /// The scalar layout keeps coordinates as they come.
    open spec fn kept(d: Double) -> Double {
        d
    }

    fn new() -> (fb: Framebuffer) {
        Framebuffer { leds: Vec::new() }
    }

    fn load(positions: &Vec<CorsairLedPosition>) -> (fb: Framebuffer)
        ensures
            fb.leds@ == positions@.map_values(|p: CorsairLedPosition| led_at(p)),
    {
        let n = positions.len();
        let mut leds: Vec<Led> = Vec::with_capacity(n);
        let mut i: usize = 0;
        while i < n
            invariant
                i <= n,
                n == positions@.len(),
                leds@ == positions@.take(i as int).map_values(|p: CorsairLedPosition| led_at(p)),
            decreases n - i,
        {
            let p = positions[i];
            leds.push(Led { id: p.id, x: p.cx, y: p.cy, color: Rgba::base() });
            proof {
                assert(positions@.take(i + 1) =~= positions@.take(i as int).push(
                    positions@[i as int],
                ));
                assert(leds@ =~= positions@.take(i + 1).map_values(
                    |p: CorsairLedPosition| led_at(p),
                ));
            }
            i += 1;
        }
        assert(positions@.take(n as int) =~= positions@);
        assert(leds@ =~= positions@.map_values(
            |p: CorsairLedPosition|
                Led {
                    id: p.id,
                    x: Self::kept(p.cx),
                    y: Self::kept(p.cy),
                    color: Rgba::base_spec(),
                },
        ));
        Framebuffer { leds }
    }


    fn len(&self) -> (n: usize) {
        self.leds.len()
    }

    fn reset(&mut self) {
        let n = self.leds.len();
        let mut i: usize = 0;
        while i < n
            invariant
                i <= n,
                n == self.leds@.len(),
                n == old(self).leds@.len(),
                forall|j: int| 0 <= j < i ==> #[trigger] self.leds@[j] == blank(old(self).leds@[j]),
                forall|j: int| i <= j < n ==> #[trigger] self.leds@[j] == old(self).leds@[j],
            decreases n - i,
        {
            let led = self.leds[i];
            self.leds.set(i, Led { color: Rgba::base(), ..led });
            i += 1;
        }
        assert(self.leds@ =~= old(self).leds@.map_values(|l: Led| blank(l)));
    }

    fn apply<A: Fn(Single) -> Direction>(&mut self, effect: &Effect, t_ms: u64, angle: &A) {
        let phase = effect.phase(t_ms);
        let n = self.leds.len();
        let mut i: usize = 0;
        while i < n
            invariant
                i <= n,
                n == self.leds@.len(),
                n == old(self).leds@.len(),
                effect.wf(),
                accepts_valid(angle),
                phase == effect.phase_spec(t_ms),
                forall|j: int| i <= j < n ==> #[trigger] self.leds@[j] == old(self).leds@[j],
                forall|j: int|
                    0 <= j < i ==> paints(
                        angle,
                        effect,
                        phase,
                        old(self).leds@[j],
                        #[trigger] self.leds@[j],
                    ),
            decreases n - i,
        {
            let led = self.leds[i];
            let c = paint(effect, phase, &led, angle);
            self.leds.set(i, Led { color: c, ..led });
            i += 1;
        }
    }

    fn apply_override<A: Fn(Single) -> Direction>(
        &mut self,
        led_id: CorsairLedLuid,
        effect: &Effect,
        t_ms: u64,
        angle: &A,
    ) {
        let phase = effect.phase(t_ms);
        let n = self.leds.len();
        let mut i: usize = 0;
        while i < n
            invariant
                i <= n,
                n == self.leds@.len(),
                n == old(self).leds@.len(),
                effect.wf(),
                accepts_valid(angle),
                phase == effect.phase_spec(t_ms),
                forall|j: int| i <= j < n ==> #[trigger] self.leds@[j] == old(self).leds@[j],
                forall|j: int|
                    0 <= j < i ==> if old(self).leds@[j].id == led_id {
                        paints(angle, effect, phase, old(self).leds@[j], #[trigger] self.leds@[j])
                    } else {
                        self.leds@[j] == old(self).leds@[j]
                    },
            decreases n - i,
        {
            let led = self.leds[i];
            if led.id == led_id {
                let c = paint(effect, phase, &led, angle);
                self.leds.set(i, Led { color: c, ..led });
            }
            i += 1;
        }
    }

    fn export(&self) -> (out: Vec<CorsairLedColor>) {
        floatled_to_colorled(&self.leds)
    }
}

} // verus!
