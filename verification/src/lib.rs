//! The lexical-analysis front end of a small scripting language: a verified,
//! single-pass, byte-by-byte scanner.
//!
//! [`scanner::Scanner`] owns a source text for one run and turns it into
//! either an ordered token list closed by an end-of-input sentinel, or a
//! non-empty list of line-stamped diagnostics. The spec function
//! [`scanner::spec_scan`] states exactly which tokens and diagnostics a
//! source text produces, and the executable scanner is proved to match it.

pub mod scanner;
pub mod token;
