//! A small library for working with plain-text collections of quotations.
//!
//! A source file is cut into blocks of adjacent non-blank lines, each block
//! is tokenized into alternating (spoken text, author) pairs, and the
//! resulting records can be filtered, counted, rendered and serialized.

pub mod counts;
pub mod laws;
pub mod lines;
pub mod phrase;
pub mod quote;
pub mod text;
pub mod tokens;

pub use phrase::Phrase;
pub use quote::Quote;
