//! A parser of SPIR-V binaries.
//!
//! [`Parser`] reads the header and the instructions of a module according to a
//! [`Grammar`](grammar::Grammar), and sends them to a [`Consumer`]. What is read off
//! which bytes is said in [`syntax`], what a consumer is told in [`parser`], and what
//! holds of the library as a whole in [`laws`].

pub mod consumer;
pub mod decoder;
pub mod grammar;
pub mod laws;
pub mod mr;
pub mod parser;
pub mod reader;
pub mod spirv;
pub mod state;
pub mod syntax;
pub mod text;
pub mod tracker;
pub mod version;

pub use crate::consumer::{Action, Consumer};
pub use crate::decoder::DecodeError;
pub use crate::parser::{parse_bytes, parse_words, Parser};
pub use crate::state::State;
