//! Encoders that frame an image as the bytes of a file.

pub mod png;
pub mod ppm;
