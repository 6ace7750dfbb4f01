//! The framebuffer in wide layout: a structure of arrays made for 16-lane
//! vectors.
//!
//! Positions are kept in single precision and packed eight to a vector,
//! two lanes each. Colours are packed five to a vector, three lanes each,
//! with one lane of padding; the alpha of an LED is kept in a second vector
//! of the same shape, once for each of its three colour lanes. LED `i` is lane `i % 5` of colour
//! group `i / 5` and lane `i % 8` of position group `i / 8`. The lanes of a
//! last group that stand for no LED are padding: they are computed on like
//! the others and never exported.
//!
//! A kernel is shown an LED of this layout as it is shown any other: with
//! its position in double precision, which is the position as kept,
//! widened. The kernels compute in single precision, so the frame is the
//! one the scalar layout gives.

use vstd::prelude::*;
use crate::color::Rgba;
use crate::effect::Effect;
use crate::framebuffer::{blank, exported, loaded_led, Framebuffer, Led, Renderer};
use crate::kernel::{accepts_valid, paint, paints, Direction};
use crate::number::{Double, Single};
use crate::sdk::{CorsairLedColor, CorsairLedLuid, CorsairLedPosition};
use crate::state::{deterministic, lemma_back_ends_agree, painted};

verus! {

/// Number of LEDs whose colours share one vector.
pub const COLORS_PER_SIMD: usize = 5;

/// Number of LEDs whose positions share one vector.
pub const POSITIONS_PER_SIMD: usize = 8;

/// One vector of colour lanes: five triples and the padding lane.
#[derive(Clone, Copy, Debug)]
pub struct SimdRGBLeds {
    pub lanes: [[Single; 3]; 5],
    pub pad: Single,
}

/// The colours of five LEDs: their RGB triples, and their alphas repeated
/// over a vector of the same shape.
#[derive(Clone, Copy, Debug)]
pub struct SimdRGBALeds {
    pub color: SimdRGBLeds,
    pub alpha: SimdRGBLeds,
}

/// The positions of eight LEDs.
#[derive(Clone, Copy, Debug)]
pub struct SimdPositions {
    pub lanes: [[Single; 2]; 8],
}

/// An LED as the SDK lists it, with its position in single precision.
#[derive(Clone, Copy, Debug, PartialEq, Eq, Structural)]
pub struct SimdLedPosition {
    pub id: CorsairLedLuid,
    pub cx: Single,
    pub cy: Single,
}

/// One LED of the wide framebuffer, as plain values.
pub struct SimdLed {
    pub id: CorsairLedLuid,
    pub x: Single,
    pub y: Single,
    pub color: Rgba,
}

impl SimdLed {
    /// The LED as a kernel sees it, its position in double precision.
    pub open spec fn as_led(self) -> Led {
        Led { id: self.id, x: self.x.widen_spec(), y: self.y.widen_spec(), color: self.color }
    }
}

/// The wide framebuffer.
#[derive(Clone, Debug)]
pub struct SimdLeds {
    /// The positions as loaded.
    pub initial_positions: Vec<SimdPositions>,
    /// Scratch copy of the positions, for kernels that compute in place.
    pub positions: Vec<SimdPositions>,
    pub colors: Vec<SimdRGBALeds>,
    pub ids: Vec<CorsairLedLuid>,
}

/// Number of groups of `per` lanes that `n` LEDs take.
pub open spec fn groups_for(n: nat, per: nat) -> nat {
    ((n + per - 1) / per as int) as nat
}

/// The record uploaded for a colour under an identifier.
pub open spec fn color_record(id: CorsairLedLuid, color: Rgba) -> CorsairLedColor {
    let c = color.to_u8_spec();
    CorsairLedColor { id, r: c.0, g: c.1, b: c.2, a: c.3 }
}

impl SimdRGBALeds {
    /// The colour in lane `k`. Its alpha is read from the first of the
    /// lane's three alpha entries.
    pub open spec fn lane_spec(&self, k: int) -> Rgba {
        Rgba {
            r: self.color.lanes[k][0],
            g: self.color.lanes[k][1],
            b: self.color.lanes[k][2],
            a: self.alpha.lanes[k][0],
        }
    }

    /// Lane `k` holds its alpha three times over.
    pub open spec fn alpha_repeated(&self, k: int) -> bool {
        self.alpha.lanes[k][1] == self.alpha.lanes[k][0] && self.alpha.lanes[k][2]
            == self.alpha.lanes[k][0]
    }

    /// A group whose five lanes all hold `effect_color`, with zero padding.
    pub fn copy_color(effect_color: &Rgba) -> (g: SimdRGBALeds)
        ensures
            forall|k: int| 0 <= k < 5 ==> #[trigger] g.lane_spec(k) == *effect_color,
            forall|k: int| 0 <= k < 5 ==> #[trigger] g.alpha_repeated(k),
            g.color.pad.bits == 0,
            g.alpha.pad.bits == 0,
    {
        let color = [effect_color.r, effect_color.g, effect_color.b];
        let alpha = [effect_color.a, effect_color.a, effect_color.a];
        SimdRGBALeds {
            color: SimdRGBLeds { lanes: [color, color, color, color, color], pad: Single::zero() },
            alpha: SimdRGBLeds { lanes: [alpha, alpha, alpha, alpha, alpha], pad: Single::zero() },
        }
    }

    /// The colour in lane `k`.
    pub fn lane(&self, k: usize) -> (c: Rgba)
        requires
            k < 5,
        ensures
            c == self.lane_spec(k as int),
    {
        let rgb = self.color.lanes[k];
        Rgba { r: rgb[0], g: rgb[1], b: rgb[2], a: self.alpha.lanes[k][0] }
    }

    /// Puts a colour in lane `k`, its alpha three times over, and leaves
    /// the other lanes and the padding alone.
    pub fn set_lane(&mut self, k: usize, c: Rgba)
        requires
            k < 5,
        ensures
            final(self).lane_spec(k as int) == c,
            final(self).alpha_repeated(k as int),
            forall|j: int|
                0 <= j < 5 && j != k ==> final(self).color.lanes[j] == old(self).color.lanes[j]
                    && final(self).alpha.lanes[j] == old(self).alpha.lanes[j],
            final(self).color.pad == old(self).color.pad,
            final(self).alpha.pad == old(self).alpha.pad,
    {
        self.color.lanes[k] = [c.r, c.g, c.b];
        self.alpha.lanes[k] = [c.a, c.a, c.a];
    }

    /// The records of the LEDs `ids`, which are those of the first lanes of
    /// this group, in order. The lanes beyond are padding and give nothing.
    pub fn get_leds(&self, ids: &[CorsairLedLuid]) -> (out: Vec<CorsairLedColor>)
        requires
            ids@.len() <= 5,
        ensures
            out@.len() == ids@.len(),
            forall|k: int|
                0 <= k < ids@.len() ==> #[trigger] out@[k] == color_record(
                    ids@[k],
                    self.lane_spec(k),
                ),
    {
        let mut out: Vec<CorsairLedColor> = Vec::new();
        let mut k: usize = 0;
        while k < ids.len()
            invariant
                k <= ids@.len() <= 5,
                out@.len() == k,
                forall|j: int|
                    0 <= j < k ==> #[trigger] out@[j] == color_record(ids@[j], self.lane_spec(j)),
            decreases ids@.len() - k,
        {
            let (r, g, b, a) = self.lane(k).to_u8();
            out.push(CorsairLedColor { id: ids[k], r, g, b, a });
            k += 1;
        }
        out
    }
}

impl SimdPositions {
    /// The position in lane `k`.
    pub open spec fn lane_spec(&self, k: int) -> (Single, Single) {
        (self.lanes[k][0], self.lanes[k][1])
    }

    /// A group with every lane at the origin.
    pub fn empty() -> (g: SimdPositions)
        ensures
            forall|k: int|
                0 <= k < 8 ==> #[trigger] g.lane_spec(k) == (Single { bits: 0 }, Single { bits: 0 }),
    {
        let o = [Single::zero(), Single::zero()];
        SimdPositions { lanes: [o, o, o, o, o, o, o, o] }
    }
}

impl View for SimdLeds {
    type V = Seq<SimdLed>;

    /// The LEDs, in order, each read from its lanes.
    open spec fn view(&self) -> Seq<SimdLed> {
        Seq::new(
            self.ids@.len(),
            |i: int|
                SimdLed {
                    id: self.ids@[i],
                    x: self.initial_positions@[i / 8].lane_spec(i % 8).0,
                    y: self.initial_positions@[i / 8].lane_spec(i % 8).1,
                    color: self.colors@[i / 5].lane_spec(i % 5),
                },
        )
    }
}

impl SimdLeds {
    /// Every colour lane, padding included, holds `c`.
    pub open spec fn all_lanes_are(&self, c: Rgba) -> bool {
        forall|g: int, k: int|
            0 <= g < self.colors@.len() && 0 <= k < 5 ==> (#[trigger] self.colors@[g].lane_spec(k))
                == c
    }

    /// Packs the LEDs of a device, in order, all opaque black. What was
    /// packed before is dropped.
    pub fn pack(&mut self, leds: &Vec<SimdLedPosition>)
        ensures
            final(self).wf(),
            final(self)@.len() == leds@.len(),
            forall|i: int|
                0 <= i < leds@.len() ==> #[trigger] final(self)@[i] == (SimdLed {
                    id: leds@[i].id,
                    x: leds@[i].cx,
                    y: leds@[i].cy,
                    color: Rgba::base_spec(),
                }),
            final(self).all_lanes_are(Rgba::base_spec()),
    {
        self.initial_positions = Vec::new();
        self.positions = Vec::new();
        self.colors = Vec::new();
        self.ids = Vec::new();
        let n = leds.len();
        let mut i: usize = 0;
        while i < n
            invariant
                i <= n,
                n == leds@.len(),
                self.ids@.len() == i,
                self.colors@.len() == groups_for(i as nat, 5),
                self.initial_positions@.len() == groups_for(i as nat, 8),
                self.positions@.len() == self.initial_positions@.len(),
                forall|j: int| 0 <= j < i ==> #[trigger] self.ids@[j] == leds@[j].id,
                forall|j: int|
                    0 <= j < i ==> (#[trigger] self.initial_positions@[j / 8]).lane_spec(j % 8) == (
                        leds@[j].cx,
                        leds@[j].cy,
                    ),
                forall|g: int, k: int|
                    0 <= g < self.colors@.len() && 0 <= k < 5 ==> (
                    #[trigger] self.colors@[g].lane_spec(k)) == Rgba::base_spec(),
                forall|g: int, k: int|
                    0 <= g < self.colors@.len() && 0 <= k < 5 ==> (
                    #[trigger] self.colors@[g].alpha_repeated(k)),
            decreases n - i,
        {
            let led = leds[i];
            self.ids.push(led.id);
            let lane = i % POSITIONS_PER_SIMD;
            if lane == 0 {
                let mut group = SimdPositions::empty();
                group.lanes[0] = [led.cx, led.cy];
                self.initial_positions.push(group);
                self.positions.push(SimdPositions::empty());
            } else {
                let last = self.initial_positions.len() - 1;
                let ghost before = self.initial_positions@;
                let mut group = self.initial_positions[last];
                group.lanes[lane] = [led.cx, led.cy];
                self.initial_positions.set(last, group);
                proof {
                    assert forall|j: int| 0 <= j < i implies (
                    #[trigger] self.initial_positions@[j / 8]).lane_spec(j % 8) == (
                        leds@[j].cx,
                        leds@[j].cy,
                    ) by {
                        assert(before[j / 8].lane_spec(j % 8) == (leds@[j].cx, leds@[j].cy));
                    }
                }
            }
            if i % COLORS_PER_SIMD == 0 {
                let base = Rgba::base();
                let group = SimdRGBALeds::copy_color(&base);
                let ghost before = self.colors@;
                self.colors.push(group);
                proof {
                    assert forall|g: int, k: int|
                        0 <= g < self.colors@.len() && 0 <= k < 5 implies (
                    #[trigger] self.colors@[g].lane_spec(k)) == Rgba::base_spec() by {
                        if g < before.len() {
                            assert(before[g].lane_spec(k) == Rgba::base_spec());
                        } else {
                            assert(group.lane_spec(k) == base);
                        }
                    }
                    assert forall|g: int, k: int|
                        0 <= g < self.colors@.len() && 0 <= k < 5 implies (
                    #[trigger] self.colors@[g].alpha_repeated(k)) by {
                        if g < before.len() {
                            assert(before[g].alpha_repeated(k));
                        } else {
                            assert(group.alpha_repeated(k));
                        }
                    }
                }
            }
            i += 1;
        }
        proof {
            assert forall|j: int| 0 <= j < leds@.len() implies #[trigger] self@[j] == (SimdLed {
                id: leds@[j].id,
                x: leds@[j].cx,
                y: leds@[j].cy,
                color: Rgba::base_spec(),
            }) by {
                assert(self.initial_positions@[j / 8].lane_spec(j % 8) == (leds@[j].cx, leds@[j].cy));
                assert(self.colors@[j / 5].lane_spec(j % 5) == Rgba::base_spec());
            }
            assert forall|j: int| 0 <= j < self.ids@.len() implies (
            #[trigger] self.colors@[j / 5]).alpha_repeated(j % 5) by {
                assert(self.colors@[j / 5].alpha_repeated(j % 5));
            }
        }
    }

    /// Restores the scratch positions from the positions as loaded.
    pub fn get_positions(&mut self)
        requires
            old(self).wf(),
        ensures
            final(self).wf(),
            final(self).positions@ == old(self).initial_positions@,
            final(self).initial_positions == old(self).initial_positions,
            final(self).colors == old(self).colors,
            final(self).ids == old(self).ids,
    {
        let n = self.initial_positions.len();
        let mut g: usize = 0;
        while g < n
            invariant
                g <= n,
                n == self.initial_positions@.len(),
                n == self.positions@.len(),
                self.initial_positions == old(self).initial_positions,
                self.colors == old(self).colors,
                self.ids == old(self).ids,
                forall|h: int|
                    0 <= h < g ==> #[trigger] self.positions@[h] == self.initial_positions@[h],
            decreases n - g,
        {
            let group = self.initial_positions[g];
            self.positions.set(g, group);
            g += 1;
        }
        assert(self.positions@ =~= self.initial_positions@);
    }

    /// Working colour of LED `i`.
    pub fn color(&self, i: usize) -> (c: Rgba)
        requires
            self.wf(),
            i < self@.len(),
        ensures
            c == self@[i as int].color,
    {
        self.colors[i / COLORS_PER_SIMD].lane(i % COLORS_PER_SIMD)
    }

    /// Replaces the working colour of LED `i`; every other LED keeps its
    /// own.
    pub fn set_color(&mut self, i: usize, c: Rgba)
        requires
            old(self).wf(),
            i < old(self)@.len(),
        ensures
            final(self).wf(),
            final(self)@ =~= old(self)@.update(i as int, SimdLed { color: c, ..old(self)@[i as int] }),
            final(self).ids == old(self).ids,
            final(self).initial_positions == old(self).initial_positions,
            final(self).positions == old(self).positions,
    {
        let ghost before = self.colors@;
        let g = i / COLORS_PER_SIMD;
        let mut group = self.colors[g];
        group.set_lane(i % COLORS_PER_SIMD, c);
        self.colors.set(g, group);
        proof {
            assert forall|j: int| 0 <= j < self.ids@.len() implies (
            #[trigger] self.colors@[j / 5]).alpha_repeated(j % 5) && self.colors@[j
                / 5].lane_spec(j % 5) == (if j == i {
                c
            } else {
                before[j / 5].lane_spec(j % 5)
            }) by {
                assert(before[j / 5].alpha_repeated(j % 5));
                if j / 5 == g as int && j != i {
                    assert(j % 5 != i % 5);
                    assert(group.color.lanes[j % 5] == before[g as int].color.lanes[j % 5]);
                    assert(group.alpha.lanes[j % 5] == before[g as int].alpha.lanes[j % 5]);
                }
            }
        }
    }

    /// LED `i` as a kernel sees it.
    pub fn led(&self, i: usize) -> (l: Led)
        requires
            self.wf(),
            i < self@.len(),
        ensures
            l == self@[i as int].as_led(),
            l == self.leds()[i as int],
    {
        let lane = self.initial_positions[i / POSITIONS_PER_SIMD].lanes[i % POSITIONS_PER_SIMD];
        Led { id: self.ids[i], x: lane[0].widen(), y: lane[1].widen(), color: self.color(i) }
    }

    /// Tells whether the layout is consistent.
    pub fn is_wf(&self) -> (ok: bool)
        ensures
            ok == self.wf(),
    {
        let n = self.ids.len();
        if self.colors.len() != n / COLORS_PER_SIMD + (if n % COLORS_PER_SIMD == 0 {
            0
        } else {
            1
        }) {
            return false;
        }
        if self.initial_positions.len() != n / POSITIONS_PER_SIMD + (if n % POSITIONS_PER_SIMD
            == 0 {
            0
        } else {
            1
        }) {
            return false;
        }
        if self.positions.len() != self.initial_positions.len() {
            return false;
        }
        let mut i: usize = 0;
        while i < n
            invariant
                i <= n,
                n == self.ids@.len(),
                self.colors@.len() == groups_for(n as nat, 5),
                forall|j: int|
                    0 <= j < i ==> (#[trigger] self.colors@[j / 5]).alpha_repeated(j % 5),
            decreases n - i,
        {
            let alpha = self.colors[i / COLORS_PER_SIMD].alpha.lanes[i % COLORS_PER_SIMD];
            if alpha[1].bits != alpha[0].bits || alpha[2].bits != alpha[0].bits {
                assert(!self.colors@[i as int / 5].alpha_repeated(i as int % 5));
                return false;
            }
            i += 1;
        }
        true
    }
}

impl Renderer for SimdLeds {
    /// The LEDs, in order, each read from its lanes and shown with its
    /// position in double precision.
    open spec fn leds(&self) -> Seq<Led> {
        self@.map_values(|l: SimdLed| l.as_led())
    }

    /// There are exactly as many groups as the LEDs take, and every LED's
    /// alpha is repeated over its lanes.
    open spec fn wf(&self) -> bool {
        &&& self.colors@.len() == groups_for(self.ids@.len(), 5)
        &&& self.initial_positions@.len() == groups_for(self.ids@.len(), 8)
        &&& self.positions@.len() == self.initial_positions@.len()
        &&& forall|i: int|
            0 <= i < self.ids@.len() ==> (#[trigger] self.colors@[i / 5]).alpha_repeated(i % 5)
    }

    /// The wide layout keeps coordinates in single precision: a kernel is
    /// shown the nearest single-precision number.
    open spec fn kept(d: Double) -> Double {
        d.narrow_spec().widen_spec()
    }

    fn new() -> (s: SimdLeds) {
        SimdLeds {
            initial_positions: Vec::new(),
            positions: Vec::new(),
            colors: Vec::new(),
            ids: Vec::new(),
        }
    }

    fn load(positions: &Vec<CorsairLedPosition>) -> (s: SimdLeds) {
        let n = positions.len();
        let mut narrowed: Vec<SimdLedPosition> = Vec::with_capacity(n);
        let mut i: usize = 0;
        while i < n
            invariant
                i <= n,
                n == positions@.len(),
                narrowed@.len() == i,
                forall|j: int|
                    0 <= j < i ==> #[trigger] narrowed@[j] == (SimdLedPosition {
                        id: positions@[j].id,
                        cx: positions@[j].cx.narrow_spec(),
                        cy: positions@[j].cy.narrow_spec(),
                    }),
            decreases n - i,
        {
            let p = positions[i];
            narrowed.push(SimdLedPosition { id: p.id, cx: p.cx.narrow(), cy: p.cy.narrow() });
            i += 1;
        }
        let mut s = Self::new();
        s.pack(&narrowed);
        proof {
            assert forall|j: int| 0 <= j < n implies #[trigger] s.leds()[j] == (Led {
                id: positions@[j].id,
                x: Self::kept(positions@[j].cx),
                y: Self::kept(positions@[j].cy),
                color: Rgba::base_spec(),
            }) by {
                assert(s.leds()[j] == s@[j].as_led());
            }
            assert(s.leds() =~= positions@.map_values(
                |p: CorsairLedPosition|
                    Led {
                        id: p.id,
                        x: Self::kept(p.cx),
                        y: Self::kept(p.cy),
                        color: Rgba::base_spec(),
                    },
            ));
        }
        s
    }

    fn len(&self) -> (n: usize) {
        self.ids.len()
    }

    /// The padding lanes are set to opaque black too.
    fn reset(&mut self)
        ensures
            final(self)@.len() == old(self)@.len(),
            forall|i: int|
                0 <= i < old(self)@.len() ==> #[trigger] final(self)@[i] == (SimdLed {
                    color: Rgba::base_spec(),
                    ..old(self)@[i]
                }),
            final(self).all_lanes_are(Rgba::base_spec()),
            final(self).initial_positions == old(self).initial_positions,
            final(self).positions == old(self).positions,
            final(self).ids == old(self).ids,
    {
        let base = Rgba::base();
        let blank = SimdRGBALeds::copy_color(&base);
        let n = self.colors.len();
        let mut g: usize = 0;
        while g < n
            invariant
                g <= n,
                n == self.colors@.len(),
                self.initial_positions == old(self).initial_positions,
                self.positions == old(self).positions,
                self.ids == old(self).ids,
                forall|k: int|
                    0 <= k < 5 ==> #[trigger] blank.lane_spec(k) == Rgba::base_spec()
                        && blank.alpha_repeated(k),
                forall|h: int| 0 <= h < g ==> #[trigger] self.colors@[h] == blank,
            decreases n - g,
        {
            self.colors.set(g, blank);
            g += 1;
        }
        proof {
            assert forall|i: int| 0 <= i < old(self)@.len() implies #[trigger] self@[i]
                == (SimdLed { color: Rgba::base_spec(), ..old(self)@[i] }) by {
                assert(self.colors@[i / 5] == blank);
                assert(blank.lane_spec(i % 5) == Rgba::base_spec());
            }
            assert forall|i: int| 0 <= i < self.ids@.len() implies (
            #[trigger] self.colors@[i / 5]).alpha_repeated(i % 5) by {
                assert(self.colors@[i / 5] == blank);
                assert(blank.alpha_repeated(i % 5));
            }
        }
    }

    fn apply<A: Fn(Single) -> Direction>(&mut self, effect: &Effect, t_ms: u64, angle: &A) {
        let phase = effect.phase(t_ms);
        let n = self.ids.len();
        let mut i: usize = 0;
        while i < n
            invariant
                i <= n,
                n == self@.len(),
                n == old(self)@.len(),
                self.wf(),
                effect.wf(),
                accepts_valid(angle),
                phase == effect.phase_spec(t_ms),
                forall|j: int| i <= j < n ==> #[trigger] self@[j] == old(self)@[j],
                forall|j: int|
                    0 <= j < i ==> paints(
                        angle,
                        effect,
                        phase,
                        old(self)@[j].as_led(),
                        (#[trigger] self@[j]).as_led(),
                    ),
            decreases n - i,
        {
            let led = self.led(i);
            let c = paint(effect, phase, &led, angle);
            self.set_color(i, c);
            i += 1;
        }
    }

    fn apply_override<A: Fn(Single) -> Direction>(
        &mut self,
        led_id: CorsairLedLuid,
        effect: &Effect,
        t_ms: u64,
        angle: &A,
    ) {
        let phase = effect.phase(t_ms);
        let n = self.ids.len();
        let mut i: usize = 0;
        while i < n
            invariant
                i <= n,
                n == self@.len(),
                n == old(self)@.len(),
                self.wf(),
                effect.wf(),
                accepts_valid(angle),
                phase == effect.phase_spec(t_ms),
                forall|j: int| i <= j < n ==> #[trigger] self@[j] == old(self)@[j],
                forall|j: int|
                    0 <= j < i ==> if old(self)@[j].id == led_id {
                        paints(
                            angle,
                            effect,
                            phase,
                            old(self)@[j].as_led(),
                            (#[trigger] self@[j]).as_led(),
                        )
                    } else {
                        self@[j] == old(self)@[j]
                    },
            decreases n - i,
        {
            if self.ids[i] == led_id {
                let led = self.led(i);
                let c = paint(effect, phase, &led, angle);
                self.set_color(i, c);
            }
            i += 1;
        }
    }

    /// The padding lanes give no record.
    fn export(&self) -> (out: Vec<CorsairLedColor>) {
        let n = self.ids.len();
        let mut out: Vec<CorsairLedColor> = Vec::with_capacity(n);
        let mut i: usize = 0;
        while i < n
            invariant
                i <= n,
                n == self.ids@.len(),
                self.wf(),
                out@.len() == i,
                forall|j: int| 0 <= j < i ==> #[trigger] out@[j] == exported(self.leds()[j]),
            decreases n - i,
        {
            let (r, g, b, a) = self.color(i).to_u8();
            out.push(CorsairLedColor { id: self.ids[i], r, g, b, a });
            i += 1;
        }
        assert(out@ =~= self.leds().map_values(|l: Led| exported(l)));
        out
    }
}

/// The scalar and the wide back-end give the same frame: an LED loaded
/// from the same position record and painted with the same effects at the
/// same time is exported the same from both.
pub proof fn lemma_wide_frame_is_scalar_frame<A: Fn(Single) -> Direction>(
    angle: &A,
    position: CorsairLedPosition,
    effects: Seq<Effect>,
    t_ms: u64,
    end_scalar: Led,
    end_wide: Led,
)
    requires
        deterministic(angle),
        painted(angle, effects, t_ms, blank(loaded_led::<Framebuffer>(position)), end_scalar),
        painted(angle, effects, t_ms, blank(loaded_led::<SimdLeds>(position)), end_wide),
    ensures
        exported(end_wide) == exported(end_scalar),
{
    lemma_back_ends_agree(
        angle,
        effects,
        t_ms,
        blank(loaded_led::<Framebuffer>(position)),
        end_scalar,
        end_wide,
    );
}

} // verus!
