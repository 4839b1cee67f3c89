//! Inspection and recomposition of container image layers.
//!
//! A container image is stored as an ordered stack of tar archives, each one
//! describing the filesystem changes of one build step.  This crate holds the
//! verified core of a tool that reads such a stack: resolving signed layer
//! references to absolute positions, classifying archive entries (regular
//! content versus whiteout deletion markers), reporting the paths a layer adds
//! and removes, and composing a contiguous range of layers into a single
//! filesystem tree while honouring whiteout semantics.

pub mod compose;
pub mod diff;
pub mod entry;
pub mod error;
pub mod model;
pub mod paths;
pub mod resolve;
