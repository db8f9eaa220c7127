//! Spatial level-of-detail queries over a large immutable rooted tree.
//!
//! The library stores a tree whose nodes carry layout coordinates and sparse
//! dictionary-encoded attributes, and answers viewport queries through a
//! four-stage pipeline: a vertical-band filter, a grid-based overplotting
//! reducer, an ancestor-closure expander, and a response assembler that
//! rehydrates the dictionary codes.
//!
//! Layout coordinates are fixed-point integers in micro-units (one layout
//! unit is 1,000,000 micro-units), so every computation in the pipeline is
//! exact integer arithmetic.

pub mod closure;
pub mod config;
pub mod dict;
pub mod node;
pub mod num;
pub mod query;
pub mod store;
