//! A minimal tokenizer for a stream of `+` and `-` symbols.
//!
//! A [`Lexer`] walks a string slice one character at a time and hands out
//! [`Token`]s on demand.  A single `+` or `-` is a token of its own; two equal
//! symbols in a row are paired, greedily and from the left, into `++` or `--`.
//! Every other character is passed over in silence.  Each token carries the
//! half-open range of bytes that it occupies in the source, so the ranges stay
//! correct when the source holds characters that are several bytes wide.
//!
//! The modules:
//!
//! * [`token`]: the token types and their mathematical view;
//! * [`scan`]: the tokenizer as a function on character sequences;
//! * [`encoding`]: how character indices relate to byte offsets;
//! * [`lexer`]: the executable cursor, proved against [`scan`];
//! * [`laws`]: theorems about single tokens and about the token stream.

pub mod encoding;
pub mod laws;
pub mod lexer;
pub mod scan;
pub mod token;

pub use lexer::{tokenize, Lexer};
pub use token::{Kind, Token};
