//! Codecs for a small family of container and image formats: the BigFile
//! archive of XOR-scrambled bitmaps, the S10Str archive of titled streams,
//! and the ImageFile paletted/packed image, together with the Windows bitmap
//! headers they embed.
//!
//! Every codec is a pure function on bytes. Each encoder comes with a `spec`
//! function that defines the bytes it produces, each decoder with one that
//! defines what it accepts and returns, and the round trips between them are
//! proved.
pub mod error;
pub mod wire;
pub mod cursor;
pub mod color;
pub mod pixels;
pub mod raster;
pub mod imagefile;
pub mod archive;
pub mod bigfile;
pub mod utf16;
pub mod s10str;
pub mod bmp;

pub use crate::bigfile::{BigFile, BigFileDescriptor};
pub use crate::color::ImageColor;
pub use crate::imagefile::ImageFile;
pub use crate::s10str::{S10StrFile, S10StrFileDescriptor};
