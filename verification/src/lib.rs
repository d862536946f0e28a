//! Streaming of tiled terrain data: level-of-detail selection over a
//! quadtree of nodes, a fixed-capacity node atlas that caches node data, and
//! the preprocessing that turns source tiles into node images.

pub mod atlas_model;
pub mod codec;
pub mod config;
pub mod lod;
pub mod node;
pub mod node_atlas;
pub mod preprocess;
pub mod qoi;
pub mod quadtree;
pub mod raster;
pub mod source;
pub mod streaming;
