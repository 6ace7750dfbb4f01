//! The render loop as a state machine.
//!
//! The loop itself waits on a channel, talks to the SDK and sleeps. What it
//! does next is decided here: each thing that happens to the loop is an
//! event, and after each event the machine names the one action the loop has
//! to perform.
//!
//! While disconnected the loop waits for messages and applies each of them;
//! it leaves for set-up when the session is connected. Set-up ends with the
//! LEDs of a keyboard, or with none, which leads back to waiting. While
//! running, the loop first takes every message that is already there, then
//! renders one frame. A lost session is acted upon once the pending
//! messages are all applied.

use vstd::prelude::*;
use crate::framebuffer::{loaded_led, Renderer};
use crate::sdk::CorsairLedPosition;
use crate::producer::state_after_all;
use crate::state::{connected_after, state_after, CorsairMsg, CorsairState, CorsairStateView};

verus! {

/// Time between two frames, in milliseconds, unless set otherwise.
pub const DEFAULT_RENDER_PERIOD_MS: u64 = 100;

/// Where the loop stands.
#[derive(Clone, Copy, Debug, PartialEq, Eq, Structural)]
pub enum LoopPhase {
    /// No session: waiting for a message.
    Disconnected,
    /// Session established: looking for the keyboard and its LEDs.
    Setup,
    /// Running: taking the messages that are already there.
    Draining,
    /// Running: a frame is being rendered, uploaded and slept on.
    Rendering,
    /// The channel is closed; the loop has ended.
    Stopped,
}

/// What happened to the loop.
#[derive(Clone, Debug)]
pub enum LoopEvent {
    /// A message was received.
    Message(CorsairMsg),
    /// No message is waiting.
    QueueEmpty,
    /// The channel has no sender left.
    ChannelClosed,
    /// Set-up found a keyboard, with these LEDs.
    DeviceReady(Vec<CorsairLedPosition>),
    /// Set-up found no keyboard.
    DeviceAbsent,
    /// The frame was rendered and handed to the SDK, and the period slept.
    FrameDone,
}

/// What the loop has to do next.
#[derive(Clone, Copy, Debug, PartialEq, Eq, Structural)]
pub enum LoopAction {
    /// Block until a message arrives.
    AwaitMessage,
    /// Restart the frame clock, list the devices and fetch the LEDs of the
    /// first keyboard.
    SetUp,
    /// Take a message if one is there, without blocking.
    PollMessage,
    /// Render a frame at the current time, upload it and sleep one period.
    Render,
    /// End the loop.
    Stop,
}

/// The render loop's state.
#[derive(Clone, Debug)]
pub struct RenderLoop<R: Renderer> {
    pub state: CorsairState<R>,
    pub phase: LoopPhase,
    /// Whether the session is connected, by the last message that said.
    pub connected: bool,
    /// Whether the session was lost since the LEDs were last loaded.
    pub lost: bool,
}

/// The render loop's state as plain values.
#[verifier::ext_equal]
pub struct RenderLoopView {
    pub state: CorsairStateView,
    pub phase: LoopPhase,
    pub connected: bool,
    pub lost: bool,
}

impl<R: Renderer> View for RenderLoop<R> {
    type V = RenderLoopView;

    open spec fn view(&self) -> RenderLoopView {
        RenderLoopView {
            state: self.state@,
            phase: self.phase,
            connected: self.connected,
            lost: self.lost,
        }
    }
}

/// The action that goes with a phase.
pub open spec fn action_in(phase: LoopPhase) -> LoopAction {
    match phase {
        LoopPhase::Disconnected => LoopAction::AwaitMessage,
        LoopPhase::Setup => LoopAction::SetUp,
        LoopPhase::Draining => LoopAction::PollMessage,
        LoopPhase::Rendering => LoopAction::Render,
        LoopPhase::Stopped => LoopAction::Stop,
    }
}

/// The loop after an event. An event that cannot happen in a phase leaves
/// the loop as it is.
pub open spec fn loop_after<R: Renderer>(v: RenderLoopView, event: LoopEvent) -> RenderLoopView {
    match (v.phase, event) {
        (LoopPhase::Disconnected, LoopEvent::Message(msg)) => RenderLoopView {
            state: state_after(v.state, msg),
            connected: connected_after(v.connected, msg),
            phase: if connected_after(v.connected, msg) {
                LoopPhase::Setup
            } else {
                LoopPhase::Disconnected
            },
            ..v
        },
        (LoopPhase::Disconnected, LoopEvent::ChannelClosed) => RenderLoopView {
            phase: LoopPhase::Stopped,
            ..v
        },
        (LoopPhase::Setup, LoopEvent::DeviceReady(positions)) => RenderLoopView {
            state: CorsairStateView {
                leds: positions@.map_values(|p: CorsairLedPosition| loaded_led::<R>(p)),
                ..v.state
            },
            phase: LoopPhase::Draining,
            lost: false,
            ..v
        },
        (LoopPhase::Setup, LoopEvent::DeviceAbsent) => RenderLoopView {
            phase: LoopPhase::Disconnected,
            connected: false,
            lost: false,
            ..v
        },
        (LoopPhase::Draining, LoopEvent::Message(msg)) => RenderLoopView {
            state: state_after(v.state, msg),
            connected: connected_after(v.connected, msg),
            lost: v.lost || msg is NotConnected,
            ..v
        },
        (LoopPhase::Draining, LoopEvent::QueueEmpty) => RenderLoopView {
            phase: if !v.connected {
                LoopPhase::Disconnected
            } else if v.lost {
                LoopPhase::Setup
            } else {
                LoopPhase::Rendering
            },
            lost: v.connected && v.lost,
            ..v
        },
        (LoopPhase::Draining, LoopEvent::ChannelClosed) => RenderLoopView {
            phase: LoopPhase::Stopped,
            ..v
        },
        (LoopPhase::Rendering, LoopEvent::FrameDone) => RenderLoopView {
            phase: LoopPhase::Draining,
            ..v
        },
        _ => v,
    }
}

/// What holds of the loop at all times: it waits only without a session,
/// sets up only with one, and renders only with a session that was not lost
/// since the LEDs were loaded.
pub open spec fn loop_inv(v: RenderLoopView) -> bool {
    match v.phase {
        LoopPhase::Disconnected => !v.connected && !v.lost,
        LoopPhase::Setup => v.connected,
        LoopPhase::Draining => true,
        LoopPhase::Rendering => v.connected && !v.lost,
        LoopPhase::Stopped => true,
    }
}

/// Every event keeps the loop's invariant, and a stopped loop stays
/// stopped.
pub proof fn lemma_loop_inv_holds<R: Renderer>(v: RenderLoopView, event: LoopEvent)
    requires
        loop_inv(v),
    ensures
        loop_inv(loop_after::<R>(v, event)),
        v.phase == LoopPhase::Stopped ==> loop_after::<R>(v, event) == v,
{
}

/// A frame is rendered only when no message is waiting: the loop turns to
/// rendering on an empty queue and on nothing else, so every message that
/// was sent before is in the frame.
pub proof fn lemma_render_follows_empty_queue<R: Renderer>(v: RenderLoopView, event: LoopEvent)
    requires
        v.phase != LoopPhase::Rendering,
        loop_after::<R>(v, event).phase == LoopPhase::Rendering,
    ensures
        v.phase == LoopPhase::Draining,
        event is QueueEmpty,
        v.connected,
        !v.lost,
        loop_after::<R>(v, event).state == v.state,
{
}

/// The loop after a sequence of events, taken first to last.
pub open spec fn loop_after_all<R: Renderer>(
    v: RenderLoopView,
    events: Seq<LoopEvent>,
) -> RenderLoopView
    decreases events.len(),
{
    if events.len() == 0 {
        v
    } else {
        loop_after::<R>(loop_after_all::<R>(v, events.drop_last()), events.last())
    }
}

/// Messages taken while running are applied in the order they were sent:
/// after any number of them the loop is still taking messages and its
/// state is the one the messages make, first to last.
pub proof fn lemma_messages_apply_in_order<R: Renderer>(v: RenderLoopView, msgs: Seq<CorsairMsg>)
    requires
        v.phase == LoopPhase::Draining,
    ensures
        loop_after_all::<R>(v, msgs.map_values(|m: CorsairMsg| LoopEvent::Message(m))).phase
            == LoopPhase::Draining,
        loop_after_all::<R>(v, msgs.map_values(|m: CorsairMsg| LoopEvent::Message(m))).state
            == state_after_all(v.state, msgs),
    decreases msgs.len(),
{
    let events = msgs.map_values(|m: CorsairMsg| LoopEvent::Message(m));
    if msgs.len() > 0 {
        lemma_messages_apply_in_order::<R>(v, msgs.drop_last());
        assert(events.drop_last() =~= msgs.drop_last().map_values(
            |m: CorsairMsg| LoopEvent::Message(m),
        ));
        assert(events.last() == LoopEvent::Message(msgs.last()));
    }
}

/// Only a message changes the effect stack, and it changes it as the
/// message says, in whichever phase messages are taken.
pub proof fn lemma_stack_follows_messages<R: Renderer>(v: RenderLoopView, event: LoopEvent)
    ensures
        loop_after::<R>(v, event).state.effects == match event {
            LoopEvent::Message(msg) if v.phase == LoopPhase::Disconnected || v.phase
                == LoopPhase::Draining => state_after(v.state, msg).effects,
            _ => v.state.effects,
        },
        loop_after::<R>(v, event).state.key_effects == match event {
            LoopEvent::Message(msg) if v.phase == LoopPhase::Disconnected || v.phase
                == LoopPhase::Draining => state_after(v.state, msg).key_effects,
            _ => v.state.key_effects,
        },
{
}

impl<R: Renderer> RenderLoop<R> {
    /// A loop that has no session yet, no LED and no effect.
    pub fn new() -> (l: RenderLoop<R>)
        ensures
            l.state.leds.wf(),
            l.phase == LoopPhase::Disconnected,
            !l.connected,
            !l.lost,
            l.state@.leds.len() == 0,
            l.state@.effects.len() == 0,
            l.state@.key_effects.len() == 0,
            loop_inv(l@),
    {
        RenderLoop {
            state: CorsairState::new(),
            phase: LoopPhase::Disconnected,
            connected: false,
            lost: false,
        }
    }

    /// The action the loop has to perform now.
    pub fn action(&self) -> (a: LoopAction)
        ensures
            a == action_in(self.phase),
    {
        match self.phase {
            LoopPhase::Disconnected => LoopAction::AwaitMessage,
            LoopPhase::Setup => LoopAction::SetUp,
            LoopPhase::Draining => LoopAction::PollMessage,
            LoopPhase::Rendering => LoopAction::Render,
            LoopPhase::Stopped => LoopAction::Stop,
        }
    }

    /// Takes an event and returns the action to perform next.
    pub fn step(&mut self, event: LoopEvent) -> (a: LoopAction)
        requires
            old(self).state.leds.wf(),
        ensures
            final(self).state.leds.wf(),
            final(self)@ =~= loop_after::<R>(old(self)@, event),
            a == action_in(final(self).phase),
    {
        match self.phase {
            LoopPhase::Disconnected => match event {
                LoopEvent::Message(msg) => {
                    let mut connected = self.connected;
                    self.state.handle_msg(&mut connected, msg);
                    self.connected = connected;
                    if connected {
                        self.phase = LoopPhase::Setup;
                    }
                },
                LoopEvent::ChannelClosed => {
                    self.phase = LoopPhase::Stopped;
                },
                _ => {},
            },
            LoopPhase::Setup => match event {
                LoopEvent::DeviceReady(positions) => {
                    self.state.setup(&positions);
                    self.phase = LoopPhase::Draining;
                    self.lost = false;
                },
                LoopEvent::DeviceAbsent => {
                    self.phase = LoopPhase::Disconnected;
                    self.connected = false;
                    self.lost = false;
                },
                _ => {},
            },
            LoopPhase::Draining => match event {
                LoopEvent::Message(msg) => {
                    let dropped = match &msg {
                        CorsairMsg::NotConnected => true,
                        _ => false,
                    };
                    let mut connected = self.connected;
                    self.state.handle_msg(&mut connected, msg);
                    self.connected = connected;
                    self.lost = self.lost || dropped;
                },
                LoopEvent::QueueEmpty => {
                    if !self.connected {
                        self.phase = LoopPhase::Disconnected;
                        self.lost = false;
                    } else if self.lost {
                        self.phase = LoopPhase::Setup;
                    } else {
                        self.phase = LoopPhase::Rendering;
                    }
                },
                LoopEvent::ChannelClosed => {
                    self.phase = LoopPhase::Stopped;
                },
                _ => {},
            },
            LoopPhase::Rendering => match event {
                LoopEvent::FrameDone => {
                    self.phase = LoopPhase::Draining;
                },
                _ => {},
            },
            LoopPhase::Stopped => {},
        }
        self.action()
    }
}

} // verus!
