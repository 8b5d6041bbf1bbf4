//! A verified status-line generator for the i3bar protocol.
//!
//! The library computes the renderable blocks (load average, CPU
//! temperature, clock), frames them as the protocol's JSON lines, and
//! models the one-shot-header emitter loop.  All system reads (load
//! average, sysctl, the clock) happen outside the library, which takes
//! their results as plain values.

pub mod color;
pub mod emitter;
pub mod fmt;
pub mod json;
pub mod model;
pub mod probes;

pub use color::color;
pub use color::Color;
pub use model::I3BarBlock;
pub use model::I3BarHeader;
pub use emitter::emit_step;
pub use emitter::EmitterState;
pub use json::decode_block;
pub use json::decode_header;
pub use json::decode_tick;
pub use json::startup_line;
pub use json::tick_line;
pub use probes::i3b_bsd_coretemp;
pub use probes::i3b_clock;
pub use probes::i3b_loadavg;
pub use probes::tick_blocks;
pub use probes::tick_blocks_basic;
pub use probes::ClockInstant;
