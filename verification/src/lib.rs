//! Core logic of a linker wrapper that services `--wrap=<symbol>` requests:
//! classifying linker arguments, reading symbol-table dumps, deciding per
//! requested symbol whether a default `__wrap_` stub must be synthesized, and
//! assembling the final argument list for the real linker.
//!
//! Process invocation, filesystem access and logging live outside this
//! library; every function here is pure computation over plain values.

pub mod classify;
pub mod resolve;
pub mod scan;
pub mod strutil;
pub mod synth;
