//! A tile-parallel software rasterizer core working in fixed-point integer
//! arithmetic: screen tiling, tile framebuffers, edge-function coverage,
//! perspective-correct interpolation, depth testing, texture sampling,
//! half-Lambert shading and the merge of tiles into the presented frame.
pub mod tiling;
pub mod point;
pub mod geometry;
pub mod screen;
pub mod texture;
pub mod shading;
pub mod raster;
pub mod merge;
pub mod mesh;
pub mod paint;
pub mod bmp;
