//! Expansion of substitution-compressed symbol trees.
//!
//! A compressed symbol replaces repeated subtrees with numbered
//! back-references ("substitutions").  This crate expands such a tree into
//! its fully materialized form, replaying the numbering discipline of the
//! encoder that compressed it: a substitution table per node category is
//! filled in the exact order the encoder would have filled it, and unchanged
//! subtrees are shared, never copied.

pub mod ast;
pub mod decompress;
pub mod laws;
pub mod model;

pub use crate::ast::{AbsolutePath, Arena, AstNode, PathPrefix, Symbol, Type};
pub use crate::decompress::{decompress_ext, Decompress, DecompressError};
pub use crate::model::TableEntry;
