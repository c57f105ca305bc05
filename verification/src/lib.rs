//! Lexical front-end for a human-readable script assembly notation.
//!
//! The library turns free-form assembly text into a stream of positioned
//! words, decodes hexadecimal literal words into raw bytes, and defines the
//! positioned error vocabulary that callers use to report malformed input.

pub mod error;
pub mod hex_decoder;
pub mod tokenizer;

pub use error::{asm_err, ParseAsmError, ParseAsmErrorKind};
pub use hex_decoder::try_parse_raw_hex;
pub use tokenizer::iter_words;
