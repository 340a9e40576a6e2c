//! Filling in mad-libs style templates: literal text interspersed with
//! bracketed placeholders, which are replaced by words collected beforehand.
//!
//! A template is worked through twice. The collecting pass puts every
//! placeholder to the operator and stores the answers in a word bank. The
//! substituting pass writes the literal text out as it is and replaces every
//! placeholder by a word from the bank.
//!
//! - [`segmenter`] cuts a template into literal text and placeholders.
//! - [`text`] reads the bytes of a segment as text.
//! - [`placeholder`] reads the text inside a placeholder.
//! - [`word_bank`] holds the collected words of every identifier.
//! - [`input_parser`] is the collecting pass, one placeholder at a time.
//! - [`output_parser`] is the substituting pass.

pub mod input_parser;
pub mod output_parser;
pub mod placeholder;
pub mod segmenter;
pub mod text;
pub mod word_bank;
