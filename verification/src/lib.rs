//! Decoders for PNG, BMP and TGA images, producing 8-bit RGBA pixel buffers.
//!
//! Each decoder owns the raw bytes of a file and fills public `width`,
//! `height` and `pixels` fields; the contracts state the decoded buffer over
//! mathematical models of the input bytes.

pub mod bytes;
pub mod format;
pub mod inflate;
pub mod png;
pub mod png_spec;
pub mod png_laws;
pub mod bmp;
pub mod tga;
