//! The errors that encoding can end with.

use crate::tags::{CompressionMethod, PhotometricInterpretation};
use vstd::prelude::*;

verus! {

/// The error of an operation of the standard library on a stream, carried through as it is.
#[verifier::external_type_specification]
#[verifier::external_body]
pub struct ExIoError(std::io::Error);

/// Why an image could not be encoded.
#[non_exhaustive]
#[derive(Debug)]
pub enum TiffError {
    /// The image would break a rule of the file format.
    FormatError(TiffFormatError),
    /// The image asks for something that the encoder cannot do.
    UnsupportedError(TiffUnsupportedError),
    /// A compressor could not write its output.
    IoError(std::io::Error),
}

/// A rule of the file format that an image would break.
#[non_exhaustive]
#[derive(Debug, Clone, Copy, PartialEq, Eq, Structural)]
pub enum TiffFormatError {
    /// The width and the height of an image without pixels.
    InvalidDimensions(u32, u32),
}

/// Something that the encoder cannot do.
#[non_exhaustive]
#[derive(Debug, Clone, Copy, PartialEq, Eq, Structural)]
pub enum TiffUnsupportedError {
    /// The compression method does not go with the other settings.
    UnsupportedCompressionMethod(CompressionMethod),
    /// There is no number of samples per pixel for the interpretation.
    UnsupportedInterpretation(PhotometricInterpretation),
}

/// The outcome of an operation of the encoder.
pub type TiffResult<T> = Result<T, TiffError>;

} // verus!
