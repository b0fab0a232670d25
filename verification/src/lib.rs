//! Structural description of composite type layouts: sizes, alignments,
//! per-field byte offsets and per-variant discriminant encodings, together
//! with a deduplicated graph of every type reachable from a root type.

pub mod align;
pub mod assemble;
pub mod config;
pub mod defs;
pub mod discriminant;
pub mod error;
pub mod graph;
pub mod ground;
pub mod layout;
pub mod maybe;
pub mod reprs;
pub mod text;
pub mod typeset;

pub use graph::TypeLayoutGraph;
pub use layout::{Field, TypeLayoutInfo, TypeStructure, Variant};
pub use maybe::MaybeUninhabited;
