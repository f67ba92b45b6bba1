//! A segmented index over an append-only commit graph: dense integer ids
//! for graph nodes, interval sets of ids, and ancestry queries answered
//! segment by segment.
pub mod codec;
pub mod dag;
pub mod errors;
pub mod idmap;
pub mod index;
pub mod spanset;
