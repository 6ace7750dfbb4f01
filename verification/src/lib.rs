//! Lighting engine for a per-key RGB keyboard: the frame pipeline that turns
//! an ordered stack of effects into one 8-bit colour per LED.
//!
//! Each frame every LED starts opaque black, is painted with the effects of
//! the global stack in order and then with its own overrides, and is
//! exported as an identifier with four 8-bit channels. The engine decides
//! what is painted, where and in which order, keeps the framebuffer in the
//! layout of the chosen back-end, mixes the colours and quantises the
//! result.
//!
//! Colours and positions are single-precision numbers. The engine carries
//! them by their encodings and computes on those with integers alone, each
//! operation rounded once to the nearest number as the machine's own
//! arithmetic rounds it. The one thing it asks of the outside is the
//! direction of a wave, the cosine and the sine of its rotation; every
//! statement about a frame holds for whatever direction it is given.
//!
//! - [`number`], [`arith`], [`root`]: the numbers of the working colour
//!   space, their conversions to and from eight bits, and their arithmetic.
//! - [`color`]: colours, compositing and interpolation.
//! - [`animation`], [`effect`], [`kernel`]: keyframed gradients and their
//!   sampling, effect descriptors and the clock an effect runs on, and
//!   what an effect does to one LED.
//! - [`framebuffer`], [`packed`]: the back-ends, scalar and wide.
//! - [`state`], [`producer`], [`render_loop`]: the effect stack, the
//!   messages that change it, the composition of a frame and the render
//!   loop's decisions.
//! - [`sdk`]: the values exchanged with the vendor SDK.

pub mod number;
pub mod arith;
pub mod root;
pub mod color;
pub mod animation;
pub mod effect;
pub mod kernel;
pub mod framebuffer;
pub mod packed;
pub mod state;
pub mod producer;
pub mod render_loop;
pub mod sdk;
