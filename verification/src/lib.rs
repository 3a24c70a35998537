//! Decoder for PCX raster images.
//!
//! A PCX file is a header of 128 bytes, the pixel data, run-length encoded
//! lane by lane, and, for images of 256 colors, a palette at the very end. A
//! lane is one plane of one row. An image is either paletted, with 1, 2, 4 or 8
//! bits per pixel, or RGB, with three planes of 8 bits.
//!
//! [`Reader`] reads such a file from a [`ByteStream`]: a source that can only
//! be read forward. It hands out the rows from top to bottom, and the palette
//! last.
//!
//! The modules, from the bottom up:
//! - `stream`: the byte source;
//! - `header`: the header and the lengths that follow from it;
//! - `rle`: the run-length decoder, and the model of decoding that the
//!   contracts of the reader speak of;
//! - `pixels`: rows with several pixels to a byte, and their unpacking in place;
//! - `palette`: the palette in the header and the palette at the end of the file;
//! - `reader`: the reader itself.

pub mod error;
pub mod header;
pub mod palette;
pub mod pixels;
pub mod reader;
pub mod rle;
pub mod stream;

pub use error::Error;
pub use header::{Header, Version};
pub use reader::Reader;
pub use rle::Decompressor;
pub use stream::ByteStream;
