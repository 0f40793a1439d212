//! Compiler for a small textual music-notation language.
//!
//! Source text is scanned into tokens, parsed by recursive descent into a
//! sequence of top-level statements (a tempo declaration, a note sheet, a
//! playback directive), and the notes are resolved into timed pitch events:
//! a semitone offset from the 440 Hz reference pitch together with an exact
//! duration in seconds.  Every stage is a pure function of its input and is
//! specified against a functional model of the language.
//!
//! Audio output itself (turning events into audible waveforms) is left to the
//! caller; this crate only produces the event sequence.

pub mod ast;
pub mod music;
pub mod parser;
pub mod scanner;
pub mod token;
