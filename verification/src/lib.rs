//! A basic lexical scanner: it converts raw source text into a sequence of
//! typed tokens (integers, floats, symbols, identifiers, keywords, string
//! literals, comments, newlines) for consumption by a downstream parser.
//! Matching is done by per-token-class character rules, configurable at run
//! time (keyword sets, comment delimiters, singleton symbols).
//!
//! Three engines are provided:
//! - [`Str_tokenizer`]: a single-shot scanner over one in-memory buffer,
//!   with no multi-line constructs.
//! - [`File_tokenizer`]: a stateful line-oriented scanner that recognizes
//!   string literals and comments spanning line boundaries, and classifies
//!   keywords.  It consumes lines handed to it by its caller, so that the
//!   reading of those lines (an I/O concern) stays outside the library.
//! - [`zero_copy::StrTokenizer`]: a scanner over a borrowed buffer whose
//!   textual tokens are slices of that buffer, with line/column reporting
//!   and explicit error tokens.

#![allow(non_camel_case_types)]

pub mod chars;
pub mod numerals;
pub mod token;
pub mod single;
pub mod lines;
pub mod zero_copy;

pub use token::Token;
pub use token::TokView;
pub use single::Str_tokenizer;
pub use lines::File_tokenizer;
pub use lines::Mode;
pub use lines::ModeV;
pub use lines::FtView;
