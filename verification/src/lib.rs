//! A minimal software rasterizer: an in-memory pixel canvas with flat fill,
//! rectangle fill, circle fill and Bresenham line drawing, and serialization
//! to the binary PPM (P6) image format.

pub mod bresenham;
pub mod canvas;
pub mod ppm;
