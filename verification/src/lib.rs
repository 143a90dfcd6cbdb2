//! A scope-aware pattern-detection engine for source code.
//!
//! The engine turns raw source text into a normalized syntax tree (one
//! language adapter per supported language), matches a declarative rule set
//! against the tree, classifies each match by how directly the matched value
//! flows into the enclosing call (directly, nested inside a compound
//! expression, or through an intermediate binding), and aggregates the
//! classified matches into a deduplicated, deterministically ordered list of
//! findings per file.
#![verifier::loop_isolation(false)]

pub mod aggregate;
pub mod lexer;
pub mod matcher;
pub mod parser;
pub mod pipeline;
pub mod rules;
pub mod sample;
pub mod scope;
pub mod syntax;
