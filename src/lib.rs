//! A small software rasterizer: an RGB pixel canvas with a drawing cursor,
//! pixel writes, straight lines and filled circles, all computed with exact
//! integer arithmetic.
pub mod buffer;
pub mod raster;
pub mod canvas;

pub use canvas::{GraphicImage, Radius};
pub use slint::Rgb8Pixel;
