//! A lossless-syntax-tree construction pipeline for scripts made of
//! semicolon-terminated statements interleaved with comments, newlines and
//! inter-token spacing.
//!
//! A tokenizer ([`lexer`]) classifies the input into trivia and statement
//! spans; a stack-based builder ([`builder`]) assembles them into an immutable
//! kind-tagged tree ([`green`]) while an interner deduplicates repeated text;
//! lexical failures are recorded as diagnostics without aborting the scan.
//! The driver ([`parser`]) guarantees that the leaves of the finished tree,
//! read left to right, reproduce the source text exactly; [`laws`] states and
//! proves that and the other pipeline-wide properties.

pub mod builder;
pub mod expr_parser;
pub mod green;
pub mod laws;
pub mod parser;
pub mod lexer;
pub mod syntax;
