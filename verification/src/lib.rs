//! Verified core of a compact hierarchical belief notation: a line classifier,
//! structural assembler, inline claim-grammar parser, validator, and an edit
//! engine that commits a candidate document only when it validates.

pub mod bytes;
pub mod classify;
pub mod diag;
pub mod inline;
pub mod doc;
pub mod assemble;
pub mod validate;
pub mod edit;
pub mod render;
pub mod laws;
