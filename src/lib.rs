//! A CPU-side RGBA canvas: pixel storage, "over" alpha compositing,
//! rasterisation of lines and circles, flood fill, sub-image blits and
//! text layout, each stated and proved against a mathematical model.
pub mod color;
pub mod canvas;
pub mod raster;
pub mod flood;
pub mod blit;
pub mod text;
pub mod window;
