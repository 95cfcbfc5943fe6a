//! A verified execution engine for a tiny esoteric language.
//!
//! The [`parser`] module turns a byte stream of source text into a
//! structured program (a tree of instructions); the [`interpreter`]
//! module executes such a program against a fixed-size wrapping byte
//! tape, consuming an input byte stream and producing an output byte
//! stream.

pub mod interpreter;
pub mod parser;
