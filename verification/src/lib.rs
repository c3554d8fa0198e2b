//! Core editing engine of a layered raster image editor: RGBA pixel buffers
//! with dirty-region tracking, a layer stack with an undo log, and the
//! pixel-level algorithms that mutate the canvas (brush strokes along a
//! rasterized line, flood and global fill with tolerance, and alpha-overlay
//! compositing). Presentation (textures, windows, file dialogs) is left to
//! the surrounding application; the engine only reports which rectangle of
//! pixels changed.

pub mod canvas;
pub mod color;
pub mod fill;
pub mod layer;
pub mod names;
pub mod raster;
pub mod rect;
pub mod stroke;
pub mod tools;
