//! A small diagram rasterizer: drawing calls write characters into a sparse
//! grid of integer cells while a bounding box tracks the written extent, and a
//! final render pass materializes the sparse grid into lines of text.

pub mod bounds;
pub mod canvas;

pub mod label;
