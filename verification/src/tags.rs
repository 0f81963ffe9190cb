//! The numbers that stand for tags, field types and tag values in a file.

use vstd::prelude::*;

verus! {

/// A tag of a directory entry.
#[non_exhaustive]
#[derive(Debug, Clone, Copy, PartialEq, Eq, Structural)]
pub enum Tag {
    NewSubfileType,
    SubfileType,
    ImageWidth,
    ImageLength,
    BitsPerSample,
    Compression,
    PhotometricInterpretation,
    FillOrder,
    ImageDescription,
    Make,
    Model,
    StripOffsets,
    Orientation,
    SamplesPerPixel,
    RowsPerStrip,
    StripByteCounts,
    MinSampleValue,
    MaxSampleValue,
    XResolution,
    YResolution,
    PlanarConfiguration,
    ResolutionUnit,
    Software,
    DateTime,
    Artist,
    HostComputer,
    Predictor,
    ColorMap,
    TileWidth,
    TileLength,
    TileOffsets,
    TileByteCounts,
    ExtraSamples,
    SampleFormat,
    Copyright,
    /// A tag with no name here, given by its number.
    Unknown(u16),
}

impl Tag {
    pub open spec fn code(self) -> u16 {
        match self {
            Tag::NewSubfileType => 254,
            Tag::SubfileType => 255,
            Tag::ImageWidth => 256,
            Tag::ImageLength => 257,
            Tag::BitsPerSample => 258,
            Tag::Compression => 259,
            Tag::PhotometricInterpretation => 262,
            Tag::FillOrder => 266,
            Tag::ImageDescription => 270,
            Tag::Make => 271,
            Tag::Model => 272,
            Tag::StripOffsets => 273,
            Tag::Orientation => 274,
            Tag::SamplesPerPixel => 277,
            Tag::RowsPerStrip => 278,
            Tag::StripByteCounts => 279,
            Tag::MinSampleValue => 280,
            Tag::MaxSampleValue => 281,
            Tag::XResolution => 282,
            Tag::YResolution => 283,
            Tag::PlanarConfiguration => 284,
            Tag::ResolutionUnit => 296,
            Tag::Software => 305,
            Tag::DateTime => 306,
            Tag::Artist => 315,
            Tag::HostComputer => 316,
            Tag::Predictor => 317,
            Tag::ColorMap => 320,
            Tag::TileWidth => 322,
            Tag::TileLength => 323,
            Tag::TileOffsets => 324,
            Tag::TileByteCounts => 325,
            Tag::ExtraSamples => 338,
            Tag::SampleFormat => 339,
            Tag::Copyright => 33432,
            Tag::Unknown(code) => code,
        }
    }

    /// The number that stands for the tag in a file.
    pub fn to_u16(&self) -> (code: u16)
        ensures
            code == self.code(),
    {
        match *self {
            Tag::NewSubfileType => 254,
            Tag::SubfileType => 255,
            Tag::ImageWidth => 256,
            Tag::ImageLength => 257,
            Tag::BitsPerSample => 258,
            Tag::Compression => 259,
            Tag::PhotometricInterpretation => 262,
            Tag::FillOrder => 266,
            Tag::ImageDescription => 270,
            Tag::Make => 271,
            Tag::Model => 272,
            Tag::StripOffsets => 273,
            Tag::Orientation => 274,
            Tag::SamplesPerPixel => 277,
            Tag::RowsPerStrip => 278,
            Tag::StripByteCounts => 279,
            Tag::MinSampleValue => 280,
            Tag::MaxSampleValue => 281,
            Tag::XResolution => 282,
            Tag::YResolution => 283,
            Tag::PlanarConfiguration => 284,
            Tag::ResolutionUnit => 296,
            Tag::Software => 305,
            Tag::DateTime => 306,
            Tag::Artist => 315,
            Tag::HostComputer => 316,
            Tag::Predictor => 317,
            Tag::ColorMap => 320,
            Tag::TileWidth => 322,
            Tag::TileLength => 323,
            Tag::TileOffsets => 324,
            Tag::TileByteCounts => 325,
            Tag::ExtraSamples => 338,
            Tag::SampleFormat => 339,
            Tag::Copyright => 33432,
            Tag::Unknown(code) => code,
        }
    }
}

/// The type of the values in a directory entry.
#[non_exhaustive]
#[derive(Debug, Clone, Copy, PartialEq, Eq, Structural)]
pub enum Type {
    /// 8-bit unsigned integer.
    BYTE,
    /// 8-bit byte that holds a character, the last one of a text is zero.
    ASCII,
    /// 16-bit unsigned integer.
    SHORT,
    /// 32-bit unsigned integer.
    LONG,
    /// Fraction of two 32-bit unsigned integers.
    RATIONAL,
    /// 64-bit unsigned integer, in BigTIFF files.
    LONG8,
}

impl Type {
    pub open spec fn code(self) -> u16 {
        match self {
            Type::BYTE => 1,
            Type::ASCII => 2,
            Type::SHORT => 3,
            Type::LONG => 4,
            Type::RATIONAL => 5,
            Type::LONG8 => 16,
        }
    }

    /// The number that stands for the type in a file.
    pub fn to_u16(&self) -> (code: u16)
        ensures
            code == self.code(),
    {
        match *self {
            Type::BYTE => 1,
            Type::ASCII => 2,
            Type::SHORT => 3,
            Type::LONG => 4,
            Type::RATIONAL => 5,
            Type::LONG8 => 16,
        }
    }
}

/// The number of bytes that one value takes whose type has the number `code`, zero for a number
/// that stands for none of the types here.
pub open spec fn type_size(code: u16) -> nat {
    if code == 1 || code == 2 {
        1
    } else if code == 3 {
        2
    } else if code == 4 {
        4
    } else if code == 5 || code == 16 {
        8
    } else {
        0
    }
}

/// How the strips of an image are compressed.
#[non_exhaustive]
#[derive(Debug, Clone, Copy, PartialEq, Eq, Structural)]
pub enum CompressionMethod {
    Uncompressed,
    LZW,
    Deflate,
    PackBits,
}

impl CompressionMethod {
    pub open spec fn code(self) -> u16 {
        match self {
            CompressionMethod::Uncompressed => 1,
            CompressionMethod::LZW => 5,
            CompressionMethod::Deflate => 8,
            CompressionMethod::PackBits => 32773,
        }
    }

    /// The number that stands for the method in a file.
    pub fn to_u16(&self) -> (code: u16)
        ensures
            code == self.code(),
    {
        match *self {
            CompressionMethod::Uncompressed => 1,
            CompressionMethod::LZW => 5,
            CompressionMethod::Deflate => 8,
            CompressionMethod::PackBits => 32773,
        }
    }
}

/// What the samples of a pixel mean.
#[non_exhaustive]
#[derive(Debug, Clone, Copy, PartialEq, Eq, Structural)]
pub enum PhotometricInterpretation {
    WhiteIsZero,
    BlackIsZero,
    RGB,
    RGBPalette,
    TransparencyMask,
    CMYK,
    YCbCr,
    CIELab,
}

impl PhotometricInterpretation {
    pub open spec fn code(self) -> u16 {
        match self {
            PhotometricInterpretation::WhiteIsZero => 0,
            PhotometricInterpretation::BlackIsZero => 1,
            PhotometricInterpretation::RGB => 2,
            PhotometricInterpretation::RGBPalette => 3,
            PhotometricInterpretation::TransparencyMask => 4,
            PhotometricInterpretation::CMYK => 5,
            PhotometricInterpretation::YCbCr => 6,
            PhotometricInterpretation::CIELab => 8,
        }
    }

    /// The number that stands for the interpretation in a file.
    pub fn to_u16(&self) -> (code: u16)
        ensures
            code == self.code(),
    {
        match *self {
            PhotometricInterpretation::WhiteIsZero => 0,
            PhotometricInterpretation::BlackIsZero => 1,
            PhotometricInterpretation::RGB => 2,
            PhotometricInterpretation::RGBPalette => 3,
            PhotometricInterpretation::TransparencyMask => 4,
            PhotometricInterpretation::CMYK => 5,
            PhotometricInterpretation::YCbCr => 6,
            PhotometricInterpretation::CIELab => 8,
        }
    }
}

/// The unit of length of a resolution.
#[derive(Debug, Clone, Copy, PartialEq, Eq, Structural)]
pub enum ResolutionUnit {
    /// The resolution gives the shape of a pixel, no length.
    Unitless,
    Inch,
    Centimeter,
}

impl ResolutionUnit {
    pub open spec fn code(self) -> u16 {
        match self {
            ResolutionUnit::Unitless => 1,
            ResolutionUnit::Inch => 2,
            ResolutionUnit::Centimeter => 3,
        }
    }

    /// The number that stands for the unit in a file.
    pub fn to_u16(&self) -> (code: u16)
        ensures
            code == self.code(),
    {
        match *self {
            ResolutionUnit::Unitless => 1,
            ResolutionUnit::Inch => 2,
            ResolutionUnit::Centimeter => 3,
        }
    }
}

/// How the bits of a sample are to be understood.
#[non_exhaustive]
#[derive(Debug, Clone, Copy, PartialEq, Eq, Structural)]
pub enum SampleFormat {
    Uint,
    Int,
    IEEEFP,
    Void,
    /// A format with no name here, given by its number.
    Unknown(u16),
}

impl SampleFormat {
    pub open spec fn code(self) -> u16 {
        match self {
            SampleFormat::Uint => 1,
            SampleFormat::Int => 2,
            SampleFormat::IEEEFP => 3,
            SampleFormat::Void => 4,
            SampleFormat::Unknown(code) => code,
        }
    }

    /// The number that stands for the format in a file.
    pub fn to_u16(&self) -> (code: u16)
        ensures
            code == self.code(),
    {
        match *self {
            SampleFormat::Uint => 1,
            SampleFormat::Int => 2,
            SampleFormat::IEEEFP => 3,
            SampleFormat::Void => 4,
            SampleFormat::Unknown(code) => code,
        }
    }
}

} // verus!
