//! A parser for a minimal Lisp-like notation: integer literals, names,
//! quoting, parenthesised groups and whitespace-separated lists.
//!
//! The grammar is stated once as a mathematical model over `Seq<char>`
//! (module `grammar`) and once as executable code over `&str` (module
//! `parser`); every executable rule is proved to return exactly what the model
//! yields. What holds of the model on every input is proved in `laws` and
//! `lookahead`. The scanners for runs of characters are those of `nom`
//! (module `scan`).
pub mod ast;
pub mod chars;
pub mod driver;
pub mod grammar;
pub mod laws;
pub mod lookahead;
pub mod numeral;
pub mod parser;
pub mod scan;
pub mod text;
