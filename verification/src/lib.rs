//! A verified translator from a minimal eight-instruction tape language to
//! textual x86-64 assembly.
//!
//! The library turns a source text into one assembly file: a fixed preamble
//! declaring the tape and an input cell, one instruction block per recognized
//! source character, and a fixed process-exit trailer.  Loop brackets are
//! matched with a stack and receive globally unique numeric labels, the
//! smallest id never used before; unbalanced brackets are reported as errors.

pub mod emit;
pub mod laws;
pub mod translate;

pub use emit::preamble;
pub use emit::trailer;
pub use translate::translate;
pub use translate::CompileError;
