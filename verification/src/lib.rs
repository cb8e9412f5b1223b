//! A verified interpreter for an 8-bit fantasy microcontroller: 4096 bytes of
//! memory, sixteen 8-bit registers, a 16-bit index register, a call stack, two
//! saturating countdown timers, a 64x32 monochrome framebuffer and a 16-key
//! input snapshot.  The fetch-decode-execute cycle and all instruction
//! semantics are specified against a mathematical model of the machine and
//! proved; windowing, audio and file loading live outside this crate.

pub mod model;
pub mod font;
pub mod machine;
mod rng;
pub mod laws;
pub mod sprite;
