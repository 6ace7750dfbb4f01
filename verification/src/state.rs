//! The effect stack, the messages that change it, and the composition of a
//! frame.
//!
//! The stack has two parts. The global effects are painted on every LED, the
//! first one first. The overrides are painted after all global effects, each
//! on the LED it names only, in the order they were added.

use vstd::prelude::*;
use crate::color::{lemma_opaque_covers, lemma_transparent_lets_through, Rgba};
use crate::effect::{lemma_phase_wraps, Effect};
use crate::arith::{one, zero};
use crate::framebuffer::{blank, exported, loaded_led, Led, Renderer};
use crate::kernel::{accepts_valid, paints, wave_color, Direction};
use crate::number::{lemma_narrow_is_stable, Single};
use crate::sdk::{CorsairLedColor, CorsairLedLuid, CorsairLedPosition, CorsairSessionState};

verus! {

/// A message to the render loop.
#[derive(Clone, Debug)]
pub enum CorsairMsg {
    /// The session with the SDK is established.
    Connected,
    /// The session is in any other state.
    NotConnected,
    /// Put an effect on top of the global stack.
    AddEffect(Box<Effect>),
    /// Add an override for one LED.
    AddEffectLed(CorsairLedLuid, Box<Effect>),
    /// Empty the global stack and the overrides.
    RemoveAllEffects,
}

/// The message by which a change of the SDK session's state is forwarded
/// to the render loop: `Connected` for the connected state, `NotConnected`
/// for every other.
pub fn corsair_handler(state: CorsairSessionState) -> (msg: CorsairMsg)
    ensures
        msg == if state == CorsairSessionState::Connected {
            CorsairMsg::Connected
        } else {
            CorsairMsg::NotConnected
        },
{
    if state == CorsairSessionState::Connected {
        CorsairMsg::Connected
    } else {
        CorsairMsg::NotConnected
    }
}

/// What the render loop owns: the framebuffer, in the layout of the chosen
/// back-end, and the effect stack.
#[derive(Clone, Debug)]
pub struct CorsairState<R: Renderer> {
    pub leds: R,
    pub effects: Vec<Effect>,
    pub key_effects: Vec<(CorsairLedLuid, Effect)>,
}

/// The state as plain values: the LEDs, the global stack and the overrides.
#[verifier::ext_equal]
pub struct CorsairStateView {
    pub leds: Seq<Led>,
    pub effects: Seq<Effect>,
    pub key_effects: Seq<(CorsairLedLuid, Effect)>,
}

impl<R: Renderer> View for CorsairState<R> {
    type V = CorsairStateView;

    open spec fn view(&self) -> CorsairStateView {
        CorsairStateView {
            leds: self.leds.leds(),
            effects: self.effects@,
            key_effects: self.key_effects@,
        }
    }
}

/// The state after a message: `AddEffect` puts its effect on top of the
/// global stack, `AddEffectLed` adds its override after the others,
/// `RemoveAllEffects` empties both, and the session messages change
/// nothing here.
pub open spec fn state_after(v: CorsairStateView, msg: CorsairMsg) -> CorsairStateView {
    match msg {
        CorsairMsg::Connected => v,
        CorsairMsg::NotConnected => v,
        CorsairMsg::AddEffect(effect) => CorsairStateView {
            effects: v.effects.push(*effect),
            ..v
        },
        CorsairMsg::AddEffectLed(led, effect) => CorsairStateView {
            key_effects: v.key_effects.push((led, *effect)),
            ..v
        },
        CorsairMsg::RemoveAllEffects => CorsairStateView {
            effects: Seq::empty(),
            key_effects: Seq::empty(),
            ..v
        },
    }
}

/// The session flag after a message.
pub open spec fn connected_after(connected: bool, msg: CorsairMsg) -> bool {
    match msg {
        CorsairMsg::Connected => true,
        CorsairMsg::NotConnected => false,
        _ => connected,
    }
}

/// The effects of the overrides that name `id`, in the order of the
/// overrides.
pub open spec fn overrides_for(
    key_effects: Seq<(CorsairLedLuid, Effect)>,
    id: CorsairLedLuid,
) -> Seq<Effect>
    decreases key_effects.len(),
{
    if key_effects.len() == 0 {
        Seq::empty()
    } else {
        let rest = overrides_for(key_effects.drop_last(), id);
        if key_effects.last().0 == id {
            rest.push(key_effects.last().1)
        } else {
            rest
        }
    }
}

/// Everything that is painted on the LED `id`, first to last: the global
/// stack, then the LED's own overrides.
pub open spec fn paint_order(
    effects: Seq<Effect>,
    key_effects: Seq<(CorsairLedLuid, Effect)>,
    id: CorsairLedLuid,
) -> Seq<Effect> {
    effects + overrides_for(key_effects, id)
}

/// `trace` records an LED being painted with each of `effects` in turn at
/// frame time `t_ms`: it begins with `start`, and each effect takes one
/// entry to the next.
pub open spec fn is_trace<A: Fn(Single) -> Direction>(
    angle: &A,
    effects: Seq<Effect>,
    t_ms: u64,
    start: Led,
    trace: Seq<Led>,
) -> bool {
    &&& trace.len() == effects.len() + 1
    &&& trace[0] == start
    &&& forall|k: int|
        0 <= k < effects.len() ==> paints(
            angle,
            &effects[k],
            effects[k].phase_spec(t_ms),
            trace[k],
            #[trigger] trace[k + 1],
        )
}

/// `end` is `start` painted with each of `effects` in turn, first to last,
/// at frame time `t_ms`.
pub open spec fn painted<A: Fn(Single) -> Direction>(
    angle: &A,
    effects: Seq<Effect>,
    t_ms: u64,
    start: Led,
    end: Led,
) -> bool {
    exists|trace: Seq<Led>| #[trigger]
        is_trace(angle, effects, t_ms, start, trace) && trace.last() == end
}

/// One more effect painted at the end of a trace.
pub proof fn lemma_trace_push<A: Fn(Single) -> Direction>(
    angle: &A,
    effects: Seq<Effect>,
    effect: Effect,
    t_ms: u64,
    start: Led,
    trace: Seq<Led>,
    end: Led,
)
    requires
        is_trace(angle, effects, t_ms, start, trace),
        paints(angle, &effect, effect.phase_spec(t_ms), trace.last(), end),
    ensures
        is_trace(angle, effects.push(effect), t_ms, start, trace.push(end)),
{
    let all = effects.push(effect);
    let longer = trace.push(end);
    assert forall|k: int| 0 <= k < all.len() implies paints(
        angle,
        &all[k],
        all[k].phase_spec(t_ms),
        longer[k],
        #[trigger] longer[k + 1],
    ) by {
        if k < effects.len() {
            assert(paints(
                angle,
                &effects[k],
                effects[k].phase_spec(t_ms),
                trace[k],
                trace[k + 1],
            ));
        }
    }
}

/// Painting keeps an LED's identifier and position, all along a trace.
pub proof fn lemma_trace_keeps_place<A: Fn(Single) -> Direction>(
    angle: &A,
    effects: Seq<Effect>,
    t_ms: u64,
    start: Led,
    trace: Seq<Led>,
    k: int,
)
    requires
        is_trace(angle, effects, t_ms, start, trace),
        0 <= k <= effects.len(),
    ensures
        trace[k].id == start.id,
        trace[k].x == start.x,
        trace[k].y == start.y,
    decreases k,
{
    if k > 0 {
        lemma_trace_keeps_place(angle, effects, t_ms, start, trace, k - 1);
        assert(paints(
            angle,
            &effects[k - 1],
            effects[k - 1].phase_spec(t_ms),
            trace[k - 1],
            trace[k - 1 + 1],
        ));
    }
}

impl<R: Renderer> CorsairState<R> {
    /// Every effect of the stack can be rendered.
    pub open spec fn stack_wf(&self) -> bool {
        &&& forall|k: int| 0 <= k < self.effects@.len() ==> (#[trigger] self.effects@[k]).wf()
        &&& forall|k: int|
            0 <= k < self.key_effects@.len() ==> (#[trigger] self.key_effects@[k]).1.wf()
    }

    /// A state with no LED and no effect.
    pub fn new() -> (s: CorsairState<R>)
        ensures
            s.leds.wf(),
            s.leds.leds().len() == 0,
            s.effects@.len() == 0,
            s.key_effects@.len() == 0,
    {
        CorsairState { leds: R::new(), effects: Vec::new(), key_effects: Vec::new() }
    }

    /// Takes over the LEDs of a newly found device. The effect stack stays.
    pub fn setup(&mut self, positions: &Vec<CorsairLedPosition>)
        ensures
            final(self).leds.wf(),
            final(self).leds.leds() == positions@.map_values(
                |p: CorsairLedPosition| loaded_led::<R>(p),
            ),
            final(self).effects == old(self).effects,
            final(self).key_effects == old(self).key_effects,
    {
        self.leds = R::load(positions);
        assert(self.leds.leds() =~= positions@.map_values(
            |p: CorsairLedPosition| loaded_led::<R>(p),
        ));
    }

    /// Puts an effect on top of the global stack.
    pub fn add_effect(&mut self, effect: Effect)
        ensures
            final(self).effects@ == old(self).effects@.push(effect),
            final(self).key_effects == old(self).key_effects,
            final(self).leds == old(self).leds,
    {
        self.effects.push(effect)
    }

    /// Adds an override for one LED, after the overrides already there.
    pub fn add_effect_led(&mut self, led: CorsairLedLuid, effect: Effect)
        ensures
            final(self).key_effects@ == old(self).key_effects@.push((led, effect)),
            final(self).effects == old(self).effects,
            final(self).leds == old(self).leds,
    {
        self.key_effects.push((led, effect))
    }

    /// Empties the global stack and the overrides.
    pub fn remove_all_effects(&mut self)
        ensures
            final(self).effects@.len() == 0,
            final(self).key_effects@.len() == 0,
            final(self).leds == old(self).leds,
    {
        self.effects = Vec::new();
        self.key_effects = Vec::new();
    }

    /// Tells whether every effect of the stack can be rendered.
    pub fn is_renderable(&self) -> (ok: bool)
        ensures
            ok == self.stack_wf(),
    {
        let mut k: usize = 0;
        while k < self.effects.len()
            invariant
                k <= self.effects@.len(),
                forall|j: int| 0 <= j < k ==> (#[trigger] self.effects@[j]).wf(),
            decreases self.effects@.len() - k,
        {
            if !self.effects[k].is_valid() {
                return false;
            }
            k += 1;
        }
        let mut k: usize = 0;
        while k < self.key_effects.len()
            invariant
                k <= self.key_effects@.len(),
                forall|j: int| 0 <= j < self.effects@.len() ==> (#[trigger] self.effects@[j]).wf(),
                forall|j: int| 0 <= j < k ==> (#[trigger] self.key_effects@[j]).1.wf(),
            decreases self.key_effects@.len() - k,
        {
            if !self.key_effects[k].1.is_valid() {
                return false;
            }
            k += 1;
        }
        true
    }

    /// Composes the frame for time `t_ms` and returns it for upload.
    ///
    /// Every LED starts opaque black and is painted with the global stack,
    /// first effect first, and then with its own overrides in their order.
    /// The result has one record per LED, in the order of the LEDs.
    pub fn get_led_colors<A>(&mut self, t_ms: u64, angle: &A) -> (out: Vec<CorsairLedColor>) where
        A: Fn(Single) -> Direction,

        requires
            old(self).leds.wf(),
            old(self).stack_wf(),
            accepts_valid(angle),
        ensures
            final(self).leds.wf(),
            final(self).effects == old(self).effects,
            final(self).key_effects == old(self).key_effects,
            final(self).leds.leds().len() == old(self).leds.leds().len(),
            forall|i: int|
                0 <= i < old(self).leds.leds().len() ==> painted(
                    angle,
                    paint_order(
                        old(self).effects@,
                        old(self).key_effects@,
                        old(self).leds.leds()[i].id,
                    ),
                    t_ms,
                    blank(old(self).leds.leds()[i]),
                    #[trigger] final(self).leds.leds()[i],
                ),
            out@ == final(self).leds.leds().map_values(|l: Led| exported(l)),
            out@.len() == old(self).leds.leds().len(),
            forall|i: int|
                0 <= i < old(self).leds.leds().len() ==> (#[trigger] out@[i]).id == old(
                    self,
                ).leds.leds()[i].id,
    {
        let ghost first = self.leds.leds();
        let ghost effects = self.effects@;
        let ghost key_effects = self.key_effects@;
        self.leds.reset();
        let ghost traces: Seq<Seq<Led>> = Seq::new(first.len(), |i: int| seq![blank(first[i])]);
        let mut k: usize = 0;
        while k < self.effects.len()
            invariant
                k <= self.effects@.len(),
                self.effects@ == effects,
                self.key_effects@ == key_effects,
                self.effects == old(self).effects,
                self.key_effects == old(self).key_effects,
                self.leds.wf(),
                self.stack_wf(),
                accepts_valid(angle),
                self.leds.leds().len() == first.len(),
                traces.len() == first.len(),
                forall|i: int|
                    0 <= i < first.len() ==> is_trace(
                        angle,
                        effects.take(k as int),
                        t_ms,
                        blank(first[i]),
                        #[trigger] traces[i],
                    ) && traces[i].last() == self.leds.leds()[i],
            decreases self.effects@.len() - k,
        {
            self.leds.apply(&self.effects[k], t_ms, angle);
            proof {
                let grown = Seq::new(first.len(), |i: int| traces[i].push(self.leds.leds()[i]));
                assert(effects.take(k + 1) =~= effects.take(k as int).push(effects[k as int]));
                assert forall|i: int| 0 <= i < first.len() implies is_trace(
                    angle,
                    effects.take(k + 1),
                    t_ms,
                    blank(first[i]),
                    #[trigger] grown[i],
                ) && grown[i].last() == self.leds.leds()[i] by {
                    lemma_trace_push(
                        angle,
                        effects.take(k as int),
                        effects[k as int],
                        t_ms,
                        blank(first[i]),
                        traces[i],
                        self.leds.leds()[i],
                    );
                }
                traces = grown;
            }
            k += 1;
        }
        assert(effects.take(k as int) =~= effects);
        assert(key_effects.take(0) =~= Seq::<(CorsairLedLuid, Effect)>::empty());
        assert forall|i: int| 0 <= i < first.len() implies paint_order(
            effects,
            key_effects.take(0),
            #[trigger] first[i].id,
        ) =~= effects by {}
        let mut j: usize = 0;
        while j < self.key_effects.len()
            invariant
                j <= self.key_effects@.len(),
                self.effects@ == effects,
                self.key_effects@ == key_effects,
                self.effects == old(self).effects,
                self.key_effects == old(self).key_effects,
                self.leds.wf(),
                self.stack_wf(),
                accepts_valid(angle),
                self.leds.leds().len() == first.len(),
                traces.len() == first.len(),
                forall|i: int|
                    0 <= i < first.len() ==> is_trace(
                        angle,
                        paint_order(effects, key_effects.take(j as int), first[i].id),
                        t_ms,
                        blank(first[i]),
                        #[trigger] traces[i],
                    ) && traces[i].last() == self.leds.leds()[i],
            decreases self.key_effects@.len() - j,
        {
            let led_id = self.key_effects[j].0;
            self.leds.apply_override(led_id, &self.key_effects[j].1, t_ms, angle);
            proof {
                let taken = key_effects.take(j + 1);
                assert(taken.drop_last() =~= key_effects.take(j as int));
                assert(taken.last() == key_effects[j as int]);
                let grown = Seq::new(
                    first.len(),
                    |i: int|
                        if first[i].id == led_id {
                            traces[i].push(self.leds.leds()[i])
                        } else {
                            traces[i]
                        },
                );
                assert forall|i: int| 0 <= i < first.len() implies is_trace(
                    angle,
                    paint_order(effects, key_effects.take(j + 1), first[i].id),
                    t_ms,
                    blank(first[i]),
                    #[trigger] grown[i],
                ) && grown[i].last() == self.leds.leds()[i] by {
                    let so_far = paint_order(effects, key_effects.take(j as int), first[i].id);
                    lemma_trace_keeps_place(
                        angle,
                        so_far,
                        t_ms,
                        blank(first[i]),
                        traces[i],
                        so_far.len() as int,
                    );
                    if first[i].id == led_id {
                        assert(paint_order(effects, taken, first[i].id) =~= so_far.push(
                            key_effects[j as int].1,
                        ));
                        lemma_trace_push(
                            angle,
                            so_far,
                            key_effects[j as int].1,
                            t_ms,
                            blank(first[i]),
                            traces[i],
                            self.leds.leds()[i],
                        );
                    } else {
                        assert(paint_order(effects, taken, first[i].id) =~= so_far);
                    }
                }
                traces = grown;
            }
            j += 1;
        }
        assert(key_effects.take(j as int) =~= key_effects);
        assert forall|i: int| 0 <= i < first.len() implies painted(
            angle,
            paint_order(effects, key_effects, first[i].id),
            t_ms,
            blank(first[i]),
            #[trigger] self.leds.leds()[i],
        ) by {
            assert(is_trace(
                angle,
                paint_order(effects, key_effects, first[i].id),
                t_ms,
                blank(first[i]),
                traces[i],
            ));
        }
        let out = self.leds.export();
        assert forall|i: int| 0 <= i < first.len() implies (#[trigger] out@[i]).id
            == first[i].id by {
            let order = paint_order(effects, key_effects, first[i].id);
            lemma_trace_keeps_place(
                angle,
                order,
                t_ms,
                blank(first[i]),
                traces[i],
                order.len() as int,
            );
        }
        out
    }

    /// Applies one message. `connected` follows the session: set by
    /// `Connected`, cleared by `NotConnected`, left alone by the others.
    pub fn handle_msg(&mut self, connected: &mut bool, msg: CorsairMsg)
        ensures
            final(self)@ =~= state_after(old(self)@, msg),
            final(self).leds == old(self).leds,
            *final(connected) == connected_after(*old(connected), msg),
    {
        match msg {
            CorsairMsg::Connected => *connected = true,
            CorsairMsg::NotConnected => *connected = false,
            CorsairMsg::AddEffect(effect) => self.add_effect(*effect),
            CorsairMsg::AddEffectLed(led, effect) => self.add_effect_led(led, *effect),
            CorsairMsg::RemoveAllEffects => self.remove_all_effects(),
        }
    }
}

/// A static fill with a colour of the unit range that is fully opaque.
pub open spec fn is_opaque_fill(effect: Effect) -> bool {
    match effect {
        Effect::Static(c) => c.is_unit() && c.a == one(),
        _ => false,
    }
}

/// The colour of a static fill.
pub open spec fn fill_color(effect: Effect) -> Rgba
    recommends
        effect is Static,
{
    match effect {
        Effect::Static(c) => c,
        _ => Rgba { r: zero(false), g: zero(false), b: zero(false), a: zero(false) },
    }
}

/// The static fill that is black and fully transparent.
pub open spec fn clear_fill() -> Effect {
    Effect::Static(Rgba { r: zero(false), g: zero(false), b: zero(false), a: zero(false) })
}

/// With nothing painted, an LED is exported as opaque black under its own
/// identifier.
pub proof fn lemma_unpainted_is_black<A: Fn(Single) -> Direction>(
    angle: &A,
    t_ms: u64,
    led: Led,
    end: Led,
)
    requires
        painted(angle, Seq::<Effect>::empty(), t_ms, blank(led), end),
    ensures
        exported(end) == (CorsairLedColor { id: led.id, r: 0, g: 0, b: 0, a: 255 }),
{
    crate::color::lemma_base_is_opaque_black();
}

/// Black, fully transparent fills leave an opaque LED as it was, however
/// many of them are painted.
pub proof fn lemma_transparent_keeps<A: Fn(Single) -> Direction>(
    angle: &A,
    effects: Seq<Effect>,
    t_ms: u64,
    start: Led,
    end: Led,
)
    requires
        forall|k: int| 0 <= k < effects.len() ==> #[trigger] effects[k] == clear_fill(),
        start.color.is_unit(),
        start.color.a == one(),
        painted(angle, effects, t_ms, start, end),
    ensures
        end == start,
{
    let trace = choose|trace: Seq<Led>| #[trigger]
        is_trace(angle, effects, t_ms, start, trace) && trace.last() == end;
    lemma_transparent_trace(angle, effects, t_ms, start, trace, effects.len() as int);
}

proof fn lemma_transparent_trace<A: Fn(Single) -> Direction>(
    angle: &A,
    effects: Seq<Effect>,
    t_ms: u64,
    start: Led,
    trace: Seq<Led>,
    k: int,
)
    requires
        forall|k: int| 0 <= k < effects.len() ==> #[trigger] effects[k] == clear_fill(),
        start.color.is_unit(),
        start.color.a == one(),
        is_trace(angle, effects, t_ms, start, trace),
        0 <= k <= effects.len(),
    ensures
        trace[k] == start,
    decreases k,
{
    if k > 0 {
        lemma_transparent_trace(angle, effects, t_ms, start, trace, k - 1);
        assert(effects[k - 1] == clear_fill());
        assert(paints(
            angle,
            &effects[k - 1],
            effects[k - 1].phase_spec(t_ms),
            trace[k - 1],
            trace[k - 1 + 1],
        ));
        lemma_transparent_lets_through(start.color);
    }
}

/// In a stack of opaque fills the last one wins: painted over an LED with
/// a colour of the unit range, the stack leaves the LED with the colour of
/// its last fill, which is exported rounded to bytes.
pub proof fn lemma_last_opaque_wins<A: Fn(Single) -> Direction>(
    angle: &A,
    effects: Seq<Effect>,
    t_ms: u64,
    start: Led,
    end: Led,
)
    requires
        effects.len() > 0,
        forall|k: int| 0 <= k < effects.len() ==> is_opaque_fill(#[trigger] effects[k]),
        start.color.is_unit(),
        painted(angle, effects, t_ms, start, end),
    ensures
        end == (Led { color: fill_color(effects.last()), ..start }),
        exported(end).id == start.id,
        (exported(end).r, exported(end).g, exported(end).b, exported(end).a) == fill_color(
            effects.last(),
        ).to_u8_spec(),
{
    let trace = choose|trace: Seq<Led>| #[trigger]
        is_trace(angle, effects, t_ms, start, trace) && trace.last() == end;
    lemma_opaque_trace(angle, effects, t_ms, start, trace, effects.len() as int);
}

proof fn lemma_opaque_trace<A: Fn(Single) -> Direction>(
    angle: &A,
    effects: Seq<Effect>,
    t_ms: u64,
    start: Led,
    trace: Seq<Led>,
    k: int,
)
    requires
        forall|k: int| 0 <= k < effects.len() ==> is_opaque_fill(#[trigger] effects[k]),
        start.color.is_unit(),
        is_trace(angle, effects, t_ms, start, trace),
        1 <= k <= effects.len(),
    ensures
        trace[k] == (Led { color: fill_color(effects[k - 1]), ..start }),
    decreases k,
{
    lemma_trace_keeps_place(angle, effects, t_ms, start, trace, k - 1);
    assert(is_opaque_fill(effects[k - 1]));
    assert(paints(
        angle,
        &effects[k - 1],
        effects[k - 1].phase_spec(t_ms),
        trace[k - 1],
        trace[k - 1 + 1],
    ));
    if k > 1 {
        lemma_opaque_trace(angle, effects, t_ms, start, trace, k - 1);
        assert(is_opaque_fill(effects[k - 2]));
    }
    lemma_opaque_covers(trace[k - 1].color, fill_color(effects[k - 1]));
}

/// Two frame times at which every effect is at the same phase give the
/// same frames. With `lemma_phase_wraps` this makes a periodic effect
/// repeat exactly after its period.
pub proof fn lemma_same_phase_same_frame<A: Fn(Single) -> Direction>(
    angle: &A,
    effects: Seq<Effect>,
    t1: u64,
    t2: u64,
    start: Led,
    end: Led,
)
    requires
        forall|k: int|
            0 <= k < effects.len() ==> (#[trigger] effects[k]).phase_spec(t1)
                == effects[k].phase_spec(t2),
        painted(angle, effects, t1, start, end),
    ensures
        painted(angle, effects, t2, start, end),
{
    let trace = choose|trace: Seq<Led>| #[trigger]
        is_trace(angle, effects, t1, start, trace) && trace.last() == end;
    assert forall|k: int| 0 <= k < effects.len() implies paints(
        angle,
        &effects[k],
        effects[k].phase_spec(t2),
        trace[k],
        #[trigger] trace[k + 1],
    ) by {
        assert(effects[k].phase_spec(t1) == effects[k].phase_spec(t2));
        assert(paints(angle, &effects[k], effects[k].phase_spec(t1), trace[k], trace[k + 1]));
    }
    assert(is_trace(angle, effects, t2, start, trace));
}

/// A wave or a ripple repeats after its period: painted one period
/// later, an LED ends the same.
pub proof fn lemma_period_repeats<A: Fn(Single) -> Direction>(
    angle: &A,
    effect: Effect,
    t_ms: u64,
    start: Led,
    end: Led,
)
    requires
        effect.wf(),
        effect.period() is Some,
        t_ms + effect.period()->Some_0 <= u64::MAX,
        painted(angle, seq![effect], t_ms, start, end),
    ensures
        painted(angle, seq![effect], (t_ms + effect.period()->Some_0) as u64, start, end),
{
    lemma_phase_wraps(effect, t_ms);
    lemma_same_phase_same_frame(
        angle,
        seq![effect],
        t_ms,
        (t_ms + effect.period()->Some_0) as u64,
        start,
        end,
    );
}

/// The angle function gives one direction for one rotation.
pub open spec fn deterministic<A: Fn(Single) -> Direction>(angle: &A) -> bool {
    forall|rotation: Single, d1: Direction, d2: Direction|
        #![trigger call_ensures(angle, (rotation,), d1), call_ensures(angle, (rotation,), d2)]
        call_ensures(angle, (rotation,), d1) && call_ensures(angle, (rotation,), d2) ==> d1 == d2
}

/// With an angle function that gives one direction for one rotation, a
/// frame is a function of the stack, the time and the LEDs: an LED painted
/// with the same effects at the same time ends the same.
pub proof fn lemma_one_frame<A: Fn(Single) -> Direction>(
    angle: &A,
    effects: Seq<Effect>,
    t_ms: u64,
    start: Led,
    end1: Led,
    end2: Led,
)
    requires
        deterministic(angle),
        painted(angle, effects, t_ms, start, end1),
        painted(angle, effects, t_ms, start, end2),
    ensures
        end1 == end2,
        exported(end1) == exported(end2),
{
    let trace1 = choose|trace: Seq<Led>| #[trigger]
        is_trace(angle, effects, t_ms, start, trace) && trace.last() == end1;
    let trace2 = choose|trace: Seq<Led>| #[trigger]
        is_trace(angle, effects, t_ms, start, trace) && trace.last() == end2;
    lemma_traces_agree(angle, effects, t_ms, start, trace1, trace2, effects.len() as int);
}

proof fn lemma_traces_agree<A: Fn(Single) -> Direction>(
    angle: &A,
    effects: Seq<Effect>,
    t_ms: u64,
    start: Led,
    trace1: Seq<Led>,
    trace2: Seq<Led>,
    k: int,
)
    requires
        deterministic(angle),
        is_trace(angle, effects, t_ms, start, trace1),
        is_trace(angle, effects, t_ms, start, trace2),
        0 <= k <= effects.len(),
    ensures
        trace1[k] == trace2[k],
    decreases k,
{
    if k > 0 {
        lemma_traces_agree(angle, effects, t_ms, start, trace1, trace2, k - 1);
        let phase = effects[k - 1].phase_spec(t_ms);
        assert(paints(angle, &effects[k - 1], phase, trace1[k - 1], trace1[k - 1 + 1]));
        assert(paints(angle, &effects[k - 1], phase, trace2[k - 1], trace2[k - 1 + 1]));
        if let Effect::Wave(wave) = effects[k - 1] {
            let d1 = choose|direction: Direction| #[trigger]
                call_ensures(angle, (wave.rotation_rad,), direction) && trace1[k].color
                    == wave_color(wave, phase, trace1[k - 1], direction);
            let d2 = choose|direction: Direction| #[trigger]
                call_ensures(angle, (wave.rotation_rad,), direction) && trace2[k].color
                    == wave_color(wave, phase, trace1[k - 1], direction);
            assert(d1 == d2);
        }
    }
}

/// An LED with its position in the precision of the wide layout.
pub open spec fn in_single_precision(led: Led) -> Led {
    Led { x: led.x.narrow_spec().widen_spec(), y: led.y.narrow_spec().widen_spec(), ..led }
}

/// An effect paints an LED the same colour whether the LED's position is
/// kept in double or in single precision.
pub proof fn lemma_paints_in_either_precision<A: Fn(Single) -> Direction>(
    angle: &A,
    effect: Effect,
    phase: u64,
    before: Led,
    after: Led,
)
    requires
        paints(angle, &effect, phase, before, after),
    ensures
        paints(angle, &effect, phase, in_single_precision(before), in_single_precision(after)),
{
    lemma_narrow_is_stable(before.x);
    lemma_narrow_is_stable(before.y);
    let narrowed = in_single_precision(before);
    if let Effect::Wave(wave) = effect {
        let d = choose|direction: Direction| #[trigger]
            call_ensures(angle, (wave.rotation_rad,), direction) && after.color == wave_color(
                wave,
                phase,
                before,
                direction,
            );
        assert(wave_color(wave, phase, narrowed, d) == wave_color(wave, phase, before, d));
    }
}

/// The back-ends agree. The scalar back-end keeps positions in double
/// precision and the wide one in single precision; an LED painted with the
/// same effects at the same time is exported the same from both.
pub proof fn lemma_back_ends_agree<A: Fn(Single) -> Direction>(
    angle: &A,
    effects: Seq<Effect>,
    t_ms: u64,
    start: Led,
    end_scalar: Led,
    end_wide: Led,
)
    requires
        deterministic(angle),
        painted(angle, effects, t_ms, start, end_scalar),
        painted(angle, effects, t_ms, in_single_precision(start), end_wide),
    ensures
        end_wide == in_single_precision(end_scalar),
        exported(end_wide) == exported(end_scalar),
{
    let trace = choose|trace: Seq<Led>| #[trigger]
        is_trace(angle, effects, t_ms, start, trace) && trace.last() == end_scalar;
    let narrowed = trace.map_values(|l: Led| in_single_precision(l));
    assert forall|k: int| 0 <= k < effects.len() implies paints(
        angle,
        &effects[k],
        effects[k].phase_spec(t_ms),
        narrowed[k],
        #[trigger] narrowed[k + 1],
    ) by {
        assert(paints(angle, &effects[k], effects[k].phase_spec(t_ms), trace[k], trace[k + 1]));
        lemma_paints_in_either_precision(
            angle,
            effects[k],
            effects[k].phase_spec(t_ms),
            trace[k],
            trace[k + 1],
        );
    }
    assert(is_trace(angle, effects, t_ms, in_single_precision(start), narrowed));
    assert(narrowed.last() == in_single_precision(end_scalar));
    lemma_one_frame(
        angle,
        effects,
        t_ms,
        in_single_precision(start),
        end_wide,
        in_single_precision(end_scalar),
    );
}

/// A second `RemoveAllEffects` right after the first changes nothing.
pub proof fn lemma_remove_all_idempotent(v: CorsairStateView)
    ensures
        state_after(state_after(v, CorsairMsg::RemoveAllEffects), CorsairMsg::RemoveAllEffects)
            == state_after(v, CorsairMsg::RemoveAllEffects),
{
}

/// After `RemoveAllEffects` every LED is painted with nothing.
pub proof fn lemma_remove_all_clears(v: CorsairStateView, id: CorsairLedLuid)
    ensures
        paint_order(
            state_after(v, CorsairMsg::RemoveAllEffects).effects,
            state_after(v, CorsairMsg::RemoveAllEffects).key_effects,
            id,
        ) =~= Seq::<Effect>::empty(),
{
}

} // verus!
