//! A front-end checker for a small, case-insensitive, PL/0-like language.
//!
//! The crate turns source text into tokens ([`lex`]), validates the program
//! skeleton of `var` declarations followed by a `begin ... end` body
//! ([`pre_grammar`]), and records position-addressed diagnostics ([`error`])
//! that are rendered against a line index ([`line_pos`]). It builds no
//! syntax tree and never stops at an error: what is wrong is recorded, and
//! the scan goes on.
//!
//! Two modules hold what the rules of the others amount to: [`spans`] shows
//! that the tokens of a text account for every character exactly once, and
//! [`structure`] that declarations are kept and that undeclared identifiers
//! and unbalanced blocks are reported where they occur. [`text`] holds the
//! character classes and the string helpers that the rest is built on.

pub mod text;
pub mod line_pos;
pub mod error;
pub mod lex;
pub mod spans;
pub mod pre_grammar;
pub mod structure;
