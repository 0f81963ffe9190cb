//! Encoding of TIFF and BigTIFF files.

pub mod bytes;
pub mod encoder;
pub mod error;
pub mod laws;
pub mod reader;
pub mod tags;

pub use error::{TiffError, TiffFormatError, TiffResult, TiffUnsupportedError};
