//! A flat binary emitter for a configurable RISC-V-family assembler.
//!
//! The emitter walks a parsed program and produces one contiguous byte image.
//! Labels and constants are resolved on the way; an instruction that refers to
//! a symbol which is not known yet is queued behind a placeholder and encoded
//! once the symbol is known.
//!
//! - [`node`] holds the program tree and the reduction of its expressions.
//! - [`arch`] holds the architecture description and the bit-level encoder.
//! - [`argv`] holds the list of values bound to the fields of an instruction.
//! - [`emit::model`] says, over mathematical values, what each step of the
//!   emission does.
//! - [`emit::flatbin`] is the emitter itself, each function proved against
//!   the model.
//! - [`emit::laws`] proves what holds of every emission.

pub mod arch;
pub mod argv;
pub mod emit;
pub mod node;
