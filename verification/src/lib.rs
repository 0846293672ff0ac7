//! A streaming, position-aware whitespace tokenizer for waveform-dump (VCD)
//! text.
//!
//! The library turns physical lines of text into words, each tagged with the
//! line it stands on and its place within that line, and hands them out one at
//! a time.
//!
//! - [`position`]: line numbers, word indices and cursors.
//! - [`tokenizer`]: splitting one line into words.
//! - [`reader`]: the word reader. It does no input of its own: it says when it
//!   wants a line and is given one.
//! - [`text`]: a word reader over a text held in memory.
//! - [`diagnostics`]: errors for callers that cannot go on without a word.
//! - [`model`]: the waveform model that the words are meant to fill.

pub mod diagnostics;
pub mod model;
pub mod position;
pub mod reader;
pub mod text;
pub mod tokenizer;
