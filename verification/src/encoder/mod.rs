//! Encoder for TIFF and BigTIFF files.
//!
//! A [`TiffEncoder`] keeps the settings and the tags of the images to come. Each image becomes a
//! [`StreamUpdate`], which says what to write to the stream that holds the file.

pub mod compression;
pub mod directory;
pub mod layout;
pub mod packbits;
pub mod value;

pub use compression::{Compression, DeflateLevel};

use crate::bytes::{
    le_bytes, lemma_le_bytes_len, lemma_le_bytes_of_low_bits, lemma_low_bits_small, low_bits,
    push_le, wrapping_sum,
};
use crate::encoder::compression::{compress, decoded, encoded};
use crate::encoder::directory::{
    all_well_formed, fields_of, lemma_tag_order, DirectoryEntry, Field, Fields,
};
use crate::encoder::layout::{
    contents, header, header_len, image_bytes, image_fields, next_pointer, push_image, word,
};
use crate::encoder::value::{field_of, shorts, Rational, TiffValue};
use crate::error::{TiffError, TiffFormatError, TiffResult, TiffUnsupportedError};
use crate::tags::{
    CompressionMethod, PhotometricInterpretation, ResolutionUnit, SampleFormat, Tag, Type,
};
use std::collections::BTreeMap;
use vstd::prelude::*;
use vstd::slice::slice_subrange;

verus! {

/// Encoder for TIFF and BigTIFF files.
///
/// With this type you can get a [`SubfileEncoder`] to encode directories with images.
#[derive(Debug, Clone)]
pub struct TiffEncoder {
    big_tiff: bool,
    ifd_pointer_pos: Option<u64>,
    // The order of the map is the order in which entries have to stand in a directory.
    ifd: BTreeMap<u16, DirectoryEntry>,
    compression: Compression,
    rows_per_strip: Option<u32>,
    sample_format: SampleFormat,
    bits_per_sample: u8,
    extra_samples: u16,
}

/// The settings and tags of an encoder.
#[verifier::ext_equal]
pub struct EncoderState {
    /// Whether the file is a BigTIFF file.
    pub big_tiff: bool,
    /// Where the offset of the next directory stands, once there is a directory.
    pub ifd_pointer_pos: Option<u64>,
    /// The entries for the next directory.
    pub fields: Fields,
    pub compression: Compression,
    pub rows_per_strip: Option<u32>,
    pub sample_format: SampleFormat,
    pub bits_per_sample: u8,
    pub extra_samples: u16,
}

impl View for TiffEncoder {
    type V = EncoderState;

    closed spec fn view(&self) -> EncoderState {
        EncoderState {
            big_tiff: self.big_tiff,
            ifd_pointer_pos: self.ifd_pointer_pos,
            fields: fields_of(self.ifd@),
            compression: self.compression,
            rows_per_strip: self.rows_per_strip,
            sample_format: self.sample_format,
            bits_per_sample: self.bits_per_sample,
            extra_samples: self.extra_samples,
        }
    }
}

impl EncoderState {
    /// The state of an encoder that nothing was done with.
    pub open spec fn initial(big_tiff: bool) -> EncoderState {
        EncoderState {
            big_tiff,
            ifd_pointer_pos: None,
            fields: Map::empty(),
            compression: Compression::Uncompressed,
            rows_per_strip: None,
            sample_format: SampleFormat::Uint,
            bits_per_sample: 8,
            extra_samples: 0,
        }
    }

    /// The state with the entry `field` for `tag`.
    pub open spec fn with_field(self, tag: Tag, field: Field) -> EncoderState {
        EncoderState { fields: self.fields.insert(tag.code(), field), ..self }
    }
}

impl TiffEncoder {
    /// Creates a new encoder for standard TIFF files.
    ///
    /// To create BigTIFF files, use [`new_big`](TiffEncoder::new_big).
    pub fn new() -> (encoder: Self)
        ensures
            encoder@ == EncoderState::initial(false),
    {
        let encoder = TiffEncoder {
            big_tiff: false,
            ifd_pointer_pos: None,
            ifd: BTreeMap::new(),
            compression: Compression::Uncompressed,
            rows_per_strip: None,
            sample_format: SampleFormat::Uint,
            bits_per_sample: 8,
            extra_samples: 0,
        };
        assert(encoder@.fields =~= Map::empty());
        encoder
    }

    /// Creates a new encoder for BigTIFF files.
    ///
    /// To create standard TIFF files, use [`new`](TiffEncoder::new).
    pub fn new_big() -> (encoder: Self)
        ensures
            encoder@ == EncoderState::initial(true),
    {
        let encoder = TiffEncoder {
            big_tiff: true,
            ifd_pointer_pos: None,
            ifd: BTreeMap::new(),
            compression: Compression::Uncompressed,
            rows_per_strip: None,
            sample_format: SampleFormat::Uint,
            bits_per_sample: 8,
            extra_samples: 0,
        };
        assert(encoder@.fields =~= Map::empty());
        encoder
    }

    pub fn set_compression(&mut self, compression: Compression)
        ensures
            final(self)@ == (EncoderState { compression, ..old(self)@ }),
    {
        self.compression = compression;
    }

    pub fn set_sample_format(&mut self, sample_format: SampleFormat)
        ensures
            final(self)@ == (EncoderState { sample_format, ..old(self)@ }),
    {
        self.sample_format = sample_format;
    }

    pub fn set_bits_per_sample(&mut self, bits_per_sample: u8)
        ensures
            final(self)@ == (EncoderState { bits_per_sample, ..old(self)@ }),
    {
        self.bits_per_sample = bits_per_sample;
    }

    pub fn set_extra_samples(&mut self, extra_samples: u16)
        ensures
            final(self)@ == (EncoderState { extra_samples, ..old(self)@ }),
    {
        self.extra_samples = extra_samples;
    }

    /// Set image number of lines per strip
    pub fn set_rows_per_strip(&mut self, value: u32)
        ensures
            final(self)@ == (EncoderState { rows_per_strip: Some(value), ..old(self)@ }),
    {
        self.rows_per_strip = Some(value);
    }

    /// Set image resolution
    pub fn set_resolution(&mut self, unit: ResolutionUnit, value: Rational)
        ensures
            final(self)@ == old(self)@.with_field(
                Tag::ResolutionUnit,
                field_of(unit.code()),
            ).with_field(Tag::XResolution, field_of(value)).with_field(
                Tag::YResolution,
                field_of(value),
            ),
            all_well_formed(old(self)@.fields) ==> all_well_formed(final(self)@.fields),
    {
        self.set_tag(Tag::ResolutionUnit, unit.to_u16());
        self.set_tag(Tag::XResolution, value);
        self.set_tag(Tag::YResolution, value);
    }

    /// Set image resolution unit
    pub fn resolution_unit(&mut self, unit: ResolutionUnit)
        ensures
            final(self)@ == old(self)@.with_field(Tag::ResolutionUnit, field_of(unit.code())),
            all_well_formed(old(self)@.fields) ==> all_well_formed(final(self)@.fields),
    {
        self.set_tag(Tag::ResolutionUnit, unit.to_u16())
    }

    /// Set image x-resolution
    pub fn x_resolution(&mut self, value: Rational)
        ensures
            final(self)@ == old(self)@.with_field(Tag::XResolution, field_of(value)),
            all_well_formed(old(self)@.fields) ==> all_well_formed(final(self)@.fields),
    {
        self.set_tag(Tag::XResolution, value)
    }

    /// Set image y-resolution
    pub fn y_resolution(&mut self, value: Rational)
        ensures
            final(self)@ == old(self)@.with_field(Tag::YResolution, field_of(value)),
            all_well_formed(old(self)@.fields) ==> all_well_formed(final(self)@.fields),
    {
        self.set_tag(Tag::YResolution, value)
    }

    /// Write a single ifd tag.
    pub fn set_tag<T: TiffValue>(&mut self, tag: Tag, value: T)
        ensures
            final(self)@ == old(self)@.with_field(tag, field_of(value)),
            all_well_formed(old(self)@.fields) ==> all_well_formed(final(self)@.fields),
    {
        let count: usize = value.count();
        let entry = DirectoryEntry {
            data_type: T::field_type().to_u16(),
            count: count as u64,
            data: value.data(),
        };
        let ghost before = self@;
        proof {
            lemma_tag_order();
            value.lemma_data_len();
        }
        self.ifd.insert(tag.to_u16(), entry);
        proof {
            assert(self@.fields =~= before.fields.insert(tag.code(), field_of(value)));
            assert(field_of(value).well_formed());
        }
    }
}

/// `a / b`, rounded up.
pub open spec fn ceil_div(a: nat, b: nat) -> nat
    recommends
        b > 0,
{
    if a % b == 0 {
        a / b
    } else {
        a / b + 1
    }
}

/// The least number of parts of the size `b` that hold `a`.
pub proof fn lemma_ceil_div(a: nat, b: nat)
    requires
        b > 0,
    ensures
        a <= b * ceil_div(a, b) < a + b,
{
    vstd::arithmetic::div_mod::lemma_fundamental_div_mod(a as int, b as int);
    let q = a / b;
    assert(b * (q + 1) == b * q + b) by (nonlinear_arith);
}

/// Strips hold about this many bytes, unless the number of rows per strip was set.
pub const STRIP_TARGET: u64 = 1_000_000;

/// How many samples a pixel has by its interpretation, not counting extra samples.
pub open spec fn color_samples(interpretation: PhotometricInterpretation) -> Option<u16> {
    match interpretation {
        PhotometricInterpretation::BlackIsZero
        | PhotometricInterpretation::WhiteIsZero
        | PhotometricInterpretation::TransparencyMask => Some(1),
        PhotometricInterpretation::RGB
        | PhotometricInterpretation::YCbCr
        | PhotometricInterpretation::CIELab => Some(3),
        PhotometricInterpretation::CMYK => Some(4),
        PhotometricInterpretation::RGBPalette => None,
    }
}

impl EncoderState {
    /// Why an image cannot be begun, if so.
    pub open spec fn image_error(
        self,
        width: u32,
        height: u32,
        interpretation: PhotometricInterpretation,
    ) -> Option<TiffError> {
        if width == 0 || height == 0 {
            Some(TiffError::FormatError(TiffFormatError::InvalidDimensions(width, height)))
        } else if self.compression == Compression::PackBits && (self.rows_per_strip matches Some(
            rows,
        ) && rows > 1) {
            Some(
                TiffError::UnsupportedError(
                    TiffUnsupportedError::UnsupportedCompressionMethod(CompressionMethod::PackBits),
                ),
            )
        } else if color_samples(interpretation) is None {
            Some(
                TiffError::UnsupportedError(
                    TiffUnsupportedError::UnsupportedInterpretation(interpretation),
                ),
            )
        } else {
            None
        }
    }

    /// How many samples a pixel has.
    pub open spec fn samples_per_pixel(self, interpretation: PhotometricInterpretation) -> nat {
        self.extra_samples as nat + color_samples(interpretation)->0 as nat
    }

    /// The number of bits of each of `count` samples.
    pub open spec fn sample_bits(self, count: nat) -> Seq<u16> {
        Seq::new(count, |i: int| self.bits_per_sample as u16)
    }

    /// The entry with the number of bits of each of `count` samples.
    pub open spec fn sample_bits_field(self, count: nat) -> Field {
        Field {
            data_type: Type::SHORT.code(),
            count: count as u64,
            data: shorts(self.sample_bits(count)),
        }
    }

    /// How many bytes a row takes.
    pub open spec fn row_bytes(
        self,
        width: u32,
        interpretation: PhotometricInterpretation,
    ) -> nat {
        ceil_div(
            width as nat * self.samples_per_pixel(interpretation) * self.bits_per_sample as nat,
            8,
        )
    }

    /// How many rows a strip has.
    pub open spec fn strip_rows(
        self,
        width: u32,
        interpretation: PhotometricInterpretation,
    ) -> nat {
        match self.rows_per_strip {
            Some(rows) => rows as nat,
            None => if self.compression == Compression::PackBits {
                1
            } else {
                ceil_div(STRIP_TARGET as nat, self.row_bytes(width, interpretation))
            },
        }
    }

    /// How many bytes a strip has, before it is compressed.
    pub open spec fn strip_bytes(
        self,
        width: u32,
        interpretation: PhotometricInterpretation,
    ) -> nat {
        self.row_bytes(width, interpretation) * self.strip_rows(width, interpretation)
    }

    /// Whether the image is one that can be counted: a pixel has no more samples than a tag can
    /// tell, samples have bits (but for PackBits, where that does not matter), strips have rows,
    /// and a strip fits in memory.
    pub open spec fn countable(
        self,
        width: u32,
        interpretation: PhotometricInterpretation,
    ) -> bool {
        &&& self.samples_per_pixel(interpretation) <= u16::MAX
        &&& self.bits_per_sample > 0 || self.compression == Compression::PackBits
        &&& self.rows_per_strip != Some(0u32)
        &&& self.strip_bytes(width, interpretation) <= usize::MAX
    }

    /// Whether `len` bytes of image data make as many strips as the image has.
    pub open spec fn covers(
        self,
        width: u32,
        height: u32,
        interpretation: PhotometricInterpretation,
        len: nat,
    ) -> bool {
        let size = self.strip_bytes(width, interpretation);
        &&& size > 0
        &&& ceil_div(height as nat, self.strip_rows(width, interpretation)) == ceil_div(
            len,
            size,
        ) as u32
    }

    /// The state with `field` for `tag`, unless there is an entry for the tag.
    pub open spec fn with_default(self, tag: Tag, field: Field) -> EncoderState {
        if self.fields.contains_key(tag.code()) {
            self
        } else {
            self.with_field(tag, field)
        }
    }

    /// The state without an entry for `tag`.
    pub open spec fn without(self, tag: Tag) -> EncoderState {
        EncoderState { fields: self.fields.remove(tag.code()), ..self }
    }

    /// The state with the entries that describe an image and its strips.
    pub open spec fn described(
        self,
        width: u32,
        height: u32,
        interpretation: PhotometricInterpretation,
    ) -> EncoderState {
        let samples = self.samples_per_pixel(interpretation);
        self.with_field(Tag::ImageWidth, field_of(width)).with_field(
            Tag::ImageLength,
            field_of(height),
        ).with_field(
            Tag::Compression,
            field_of(self.compression.spec_method().code()),
        ).with_field(
            Tag::PhotometricInterpretation,
            field_of(interpretation.code()),
        ).with_field(Tag::SamplesPerPixel, field_of(samples as u16)).with_field(
            Tag::SampleFormat,
            field_of(self.sample_format.code()),
        ).with_field(Tag::BitsPerSample, self.sample_bits_field(samples)).with_field(
            Tag::RowsPerStrip,
            field_of(self.strip_rows(width, interpretation) as u32),
        )
    }

    /// The state with entries for the resolution, which are not changed if they are there.
    pub open spec fn with_default_resolution(self) -> EncoderState {
        let one = Rational { n: 1, d: 1 };
        self.with_default(Tag::XResolution, field_of(one)).with_default(
            Tag::YResolution,
            field_of(one),
        ).with_default(Tag::ResolutionUnit, field_of(ResolutionUnit::Unitless.code()))
    }

    /// The state without entries that tell where the data of an image is.
    pub open spec fn without_locations(self) -> EncoderState {
        self.without(Tag::StripByteCounts).without(Tag::StripOffsets).without(
            Tag::TileByteCounts,
        ).without(Tag::TileOffsets)
    }

    /// The state once an image has been begun.
    pub open spec fn begun(
        self,
        width: u32,
        height: u32,
        interpretation: PhotometricInterpretation,
    ) -> EncoderState {
        self.described(
            width,
            height,
            interpretation,
        ).with_default_resolution().without_locations()
    }
}

/// `a / b`, rounded up.
fn div_ceil(a: u64, b: u64) -> (quotient: u64)
    requires
        b > 0,
    ensures
        quotient == ceil_div(a as nat, b as nat),
        quotient <= a,
        a > 0 ==> quotient > 0,
{
    proof {
        assert(a as int / b as int <= a) by (nonlinear_arith)
            requires
                b > 0,
        ;
        assert(a % b != 0 ==> a as int / b as int + 1 <= a) by (nonlinear_arith)
            requires
                b > 0,
        ;
        assert(a > 0 && a % b == 0 ==> a as int / b as int > 0) by (nonlinear_arith)
            requires
                b > 0,
        ;
    }
    if a % b == 0 {
        a / b
    } else {
        a / b + 1
    }
}

impl TiffEncoder {
    fn has_tag(&self, tag: Tag) -> (found: bool)
        ensures
            found == self@.fields.contains_key(tag.code()),
    {
        proof {
            lemma_tag_order();
        }
        self.ifd.contains_key(&tag.to_u16())
    }

    fn remove_tag(&mut self, tag: Tag)
        ensures
            final(self)@ == old(self)@.without(tag),
            all_well_formed(old(self)@.fields) ==> all_well_formed(final(self)@.fields),
    {
        let ghost before = self@;
        proof {
            lemma_tag_order();
        }
        self.ifd.remove(&tag.to_u16());
        assert(self@.fields =~= before.fields.remove(tag.code()));
    }

    /// How many samples a pixel of the image has, not counting extra samples, or why the image
    /// cannot be begun.
    fn accept(
        &self,
        width: u32,
        height: u32,
        photometric_interpretation: PhotometricInterpretation,
    ) -> (result: TiffResult<u16>)
        ensures
            match result {
                Ok(color) => {
                    &&& self@.image_error(width, height, photometric_interpretation) is None
                    &&& color_samples(photometric_interpretation) == Some(color)
                    &&& color > 0
                },
                Err(reason) => self@.image_error(width, height, photometric_interpretation)
                    == Some(reason),
            },
    {
        if width == 0 || height == 0 {
            return Err(TiffError::FormatError(TiffFormatError::InvalidDimensions(width, height)));
        }
        if self.compression == Compression::PackBits {
            if let Some(rows) = self.rows_per_strip {
                if rows > 1 {
                    return Err(
                        TiffError::UnsupportedError(
                            TiffUnsupportedError::UnsupportedCompressionMethod(
                                CompressionMethod::PackBits,
                            ),
                        ),
                    );
                }
            }
        }
        match photometric_interpretation {
            PhotometricInterpretation::BlackIsZero
            | PhotometricInterpretation::WhiteIsZero
            | PhotometricInterpretation::TransparencyMask => Ok(1),
            PhotometricInterpretation::RGB
            | PhotometricInterpretation::YCbCr
            | PhotometricInterpretation::CIELab => Ok(3),
            PhotometricInterpretation::CMYK => Ok(4),
            _ => Err(
                TiffError::UnsupportedError(
                    TiffUnsupportedError::UnsupportedInterpretation(photometric_interpretation),
                ),
            ),
        }
    }

    /// How many bytes a row takes that has `samples_per_pixel` samples in each pixel.
    fn count_row_bytes(
        &self,
        width: u32,
        samples_per_pixel: u16,
        Ghost(interpretation): Ghost<PhotometricInterpretation>,
    ) -> (row_bytes: u64)
        requires
            width > 0,
            samples_per_pixel == self@.samples_per_pixel(interpretation),
            samples_per_pixel > 0,
        ensures
            row_bytes == self@.row_bytes(width, interpretation),
            row_bytes <= 0xff_ffff_ffff_ffff,
            self@.bits_per_sample > 0 ==> row_bytes > 0,
    {
        proof {
            assert(0 < width as int * samples_per_pixel as int <= 0xffff_ffff * 0xffff)
                by (nonlinear_arith)
                requires
                    0 < width <= 0xffff_ffff,
                    0 < samples_per_pixel <= 0xffff,
            ;
        }
        let row_samples: u64 = width as u64 * samples_per_pixel as u64;
        proof {
            let bits = self.bits_per_sample;
            assert(row_samples as int * bits as int <= 0xffff_ffff * 0xffff * 0xff)
                by (nonlinear_arith)
                requires
                    row_samples <= 0xffff_ffff * 0xffff,
                    bits <= 0xff,
            ;
            assert(bits > 0 ==> row_samples as int * bits as int > 0) by (nonlinear_arith)
                requires
                    row_samples > 0,
            ;
        }
        div_ceil(row_samples * self.bits_per_sample as u64, 8)
    }

    /// How many rows a strip has, where a row takes `row_bytes` bytes.
    fn count_strip_rows(
        &self,
        row_bytes: u64,
        Ghost(width): Ghost<u32>,
        Ghost(interpretation): Ghost<PhotometricInterpretation>,
    ) -> (rows: u32)
        requires
            row_bytes == self@.row_bytes(width, interpretation),
            row_bytes > 0 || self@.compression == Compression::PackBits,
        ensures
            rows == self@.strip_rows(width, interpretation),
            rows > 0 || self@.rows_per_strip == Some(0u32),
    {
        // Limit the strip size to prevent potential memory and security issues.
        // Also keep the multiple strip handling 'oiled'
        match self.rows_per_strip {
            Some(rows) => rows,
            None => match self.compression {
                // Each row must be packed separately. Do not compress across row boundaries
                Compression::PackBits => 1,
                _ => div_ceil(STRIP_TARGET, row_bytes) as u32,
            },
        }
    }

    /// Whether an image may be handed to [`new_image`](TiffEncoder::new_image): it is refused
    /// there, or it is one that can be counted.
    pub fn can_begin(
        &self,
        width: u32,
        height: u32,
        photometric_interpretation: PhotometricInterpretation,
    ) -> (possible: bool)
        ensures
            possible == (self@.image_error(width, height, photometric_interpretation) is None
                ==> self@.countable(width, photometric_interpretation)),
    {
        let color: u16 = match self.accept(width, height, photometric_interpretation) {
            Ok(color) => color,
            Err(_) => {
                return true;
            },
        };
        if self.extra_samples > u16::MAX - color {
            return false;
        }
        if self.bits_per_sample == 0 && self.compression != Compression::PackBits {
            return false;
        }
        if self.rows_per_strip == Some(0u32) {
            return false;
        }
        let samples_per_pixel: u16 = self.extra_samples + color;
        let row_bytes: u64 = self.count_row_bytes(
            width,
            samples_per_pixel,
            Ghost(photometric_interpretation),
        );
        let rows: u32 = self.count_strip_rows(
            row_bytes,
            Ghost(width),
            Ghost(photometric_interpretation),
        );
        proof {
            assert(row_bytes as int * rows as int <= 0xff_ffff_ffff_ffff * 0xffff_ffff)
                by (nonlinear_arith)
                requires
                    row_bytes <= 0xff_ffff_ffff_ffff,
                    rows <= 0xffff_ffff,
            ;
        }
        row_bytes as u128 * rows as u128 <= usize::MAX as u128
    }

    /// Encodes an image with the bytes of all its rows. The stream that holds the file is at
    /// `position`.
    pub fn write_image(
        &mut self,
        width: u32,
        height: u32,
        photometric_interpretation: PhotometricInterpretation,
        data: &[u8],
        position: u64,
    ) -> (result: TiffResult<StreamUpdate>)
        requires
            old(self)@.image_error(width, height, photometric_interpretation) is None ==> {
                &&& old(self)@.countable(width, photometric_interpretation)
                &&& old(self)@.covers(width, height, photometric_interpretation, data@.len())
            },
        ensures
            viewed(result) == old(self)@.after_write_image(
                width,
                height,
                photometric_interpretation,
                data@,
                position,
            ).result,
            final(self)@ == old(self)@.after_write_image(
                width,
                height,
                photometric_interpretation,
                data@,
                position,
            ).state,
            result is Ok ==> {
                let begun = old(self)@.begun(width, height, photometric_interpretation);
                let parts = pieces(
                    data@,
                    old(self)@.strip_bytes(width, photometric_interpretation),
                );
                let compression = old(self)@.compression;
                &&& all_well_formed(old(self)@.fields) ==> all_well_formed(begun.fields)
                &&& all_decode(compression, all_encoded(compression, parts), parts)
            },
    {
        match self.new_image(width, height, photometric_interpretation) {
            Ok(image) => image.write(data, position),
            Err(error) => Err(error),
        }
    }

    /// Begins an image and sets the tags that describe it.
    pub fn new_image(
        &mut self,
        width: u32,
        height: u32,
        photometric_interpretation: PhotometricInterpretation,
    ) -> (result: TiffResult<SubfileEncoder<'_>>)
        requires
            old(self)@.image_error(width, height, photometric_interpretation) is None
                ==> old(self)@.countable(width, photometric_interpretation),
        ensures
            match result {
                Err(error) => {
                    &&& old(self)@.image_error(width, height, photometric_interpretation) == Some(
                        error,
                    )
                    &&& final(self)@ == old(self)@
                },
                Ok(image) => {
                    &&& old(self)@.image_error(width, height, photometric_interpretation) is None
                    &&& image.inner@ == old(self)@.begun(width, height, photometric_interpretation)
                    &&& all_well_formed(old(self)@.fields) ==> all_well_formed(image.inner@.fields)
                    &&& image.bytes_per_chunk == old(self)@.strip_bytes(
                        width,
                        photometric_interpretation,
                    )
                    &&& image.num_chunks == ceil_div(
                        height as nat,
                        old(self)@.strip_rows(width, photometric_interpretation),
                    )
                    &&& *final(self) == *final(image.inner)
                },
            },
    {
        let color: u16 = match self.accept(width, height, photometric_interpretation) {
            Ok(color) => color,
            Err(reason) => {
                return Err(reason);
            },
        };
        let ghost before = self@;
        let samples_per_pixel: u16 = self.extra_samples + color;
        let row_bytes: u64 = self.count_row_bytes(
            width,
            samples_per_pixel,
            Ghost(photometric_interpretation),
        );
        let rows_per_strip: u32 = self.count_strip_rows(
            row_bytes,
            Ghost(width),
            Ghost(photometric_interpretation),
        );
        proof {
            assert(row_bytes <= usize::MAX) by (nonlinear_arith)
                requires
                    row_bytes * rows_per_strip <= usize::MAX,
                    rows_per_strip >= 1,
            ;
        }
        let bytes_per_chunk: usize = row_bytes as usize * rows_per_strip as usize;
        let num_chunks: u32 = div_ceil(height as u64, rows_per_strip as u64) as u32;

        self.set_tag(Tag::ImageWidth, width);
        self.set_tag(Tag::ImageLength, height);
        self.set_tag(Tag::Compression, self.compression.method().to_u16());
        self.set_tag(Tag::PhotometricInterpretation, photometric_interpretation.to_u16());
        self.set_tag(Tag::SamplesPerPixel, samples_per_pixel);
        self.set_tag(Tag::SampleFormat, self.sample_format.to_u16());
        let mut bits: Vec<u16> = Vec::new();
        assert(bits@ =~= before.sample_bits(0));
        while bits.len() < samples_per_pixel as usize
            invariant
                bits@.len() <= samples_per_pixel,
                self@.bits_per_sample == before.bits_per_sample,
                bits@ == before.sample_bits(bits@.len()),
            decreases samples_per_pixel - bits@.len(),
        {
            bits.push(self.bits_per_sample as u16);
            assert(bits@ =~= before.sample_bits(bits@.len()));
        }
        let all_bits = bits.as_slice();
        assert(field_of(all_bits) == before.sample_bits_field(samples_per_pixel as nat));
        self.set_tag(Tag::BitsPerSample, all_bits);
        self.set_tag(Tag::RowsPerStrip, rows_per_strip);
        assert(self@ == before.described(width, height, photometric_interpretation));

        if !self.has_tag(Tag::XResolution) {
            self.set_tag(Tag::XResolution, Rational { n: 1, d: 1 });
        }
        if !self.has_tag(Tag::YResolution) {
            self.set_tag(Tag::YResolution, Rational { n: 1, d: 1 });
        }
        if !self.has_tag(Tag::ResolutionUnit) {
            self.set_tag(Tag::ResolutionUnit, ResolutionUnit::Unitless.to_u16());
        }
        assert(self@ == before.described(
            width,
            height,
            photometric_interpretation,
        ).with_default_resolution());
        self.remove_tag(Tag::StripByteCounts);
        self.remove_tag(Tag::StripOffsets);
        self.remove_tag(Tag::TileByteCounts);
        self.remove_tag(Tag::TileOffsets);

        Ok(SubfileEncoder { inner: self, bytes_per_chunk, num_chunks })
    }
}

/// Type to encode images strip by strip.
pub struct SubfileEncoder<'a> {
    /// The encoder of the file, with the tags of the image.
    pub inner: &'a mut TiffEncoder,
    /// How many bytes of the image make a strip. The last strip may have fewer.
    pub bytes_per_chunk: usize,
    /// How many strips the image has.
    pub num_chunks: u32,
}

/// What has to be done to the stream that holds a file for an image to become a part of it: the
/// bytes are written where the stream is, then the link is written over what stands in its place.
#[derive(Debug, Clone, PartialEq, Eq)]
pub struct StreamUpdate {
    /// The bytes to write where the stream is.
    pub bytes: Vec<u8>,
    /// What leads from the directory before this image to its directory, if there is one before.
    pub link: Option<Link>,
}

/// An offset of a directory, to be written over the one that stands at a position.
#[derive(Debug, Clone, PartialEq, Eq)]
pub struct Link {
    /// Where the offset stands, from the start of the stream.
    pub position: u64,
    /// The offset.
    pub bytes: Vec<u8>,
}

/// The bytes and the link of a stream update.
#[verifier::ext_equal]
pub struct Update {
    pub bytes: Seq<u8>,
    pub link: Option<(u64, Seq<u8>)>,
}

impl View for StreamUpdate {
    type V = Update;

    open spec fn view(&self) -> Update {
        Update {
            bytes: self.bytes@,
            link: match self.link {
                Some(link) => Some((link.position, link.bytes@)),
                None => None,
            },
        }
    }
}

impl Update {
    /// The bytes of a stream that holds `file` and is at its end, after the update.
    pub open spec fn applied(self, file: Seq<u8>) -> Seq<u8> {
        let longer = file + self.bytes;
        match self.link {
            Some((position, offset)) => longer.take(position as int) + offset + longer.skip(
                position + offset.len(),
            ),
            None => longer,
        }
    }
}

impl StreamUpdate {
    /// Does what is to be done to a stream that is held in memory and is at its end.
    pub fn apply_to(&self, file: &mut Vec<u8>)
        requires
            self@.link matches Some((position, offset)) ==> position + offset.len() <= old(
                file,
            )@.len(),
        ensures
            final(file)@ == self@.applied(old(file)@),
    {
        file.extend_from_slice(self.bytes.as_slice());
        let ghost longer = file@;
        assert(longer == old(file)@ + self@.bytes);
        assert(file.len() <= usize::MAX);
        if let Some(link) = &self.link {
            let position: usize = link.position as usize;
            let mut i: usize = 0;
            assert(longer =~= longer.take(position as int) + link.bytes@.take(0) + longer.skip(
                position + 0,
            ));
            while i < link.bytes.len()
                invariant
                    i <= link.bytes@.len(),
                    position + link.bytes@.len() <= longer.len(),
                    file@.len() == longer.len(),
                    longer.len() <= usize::MAX,
                    file@ == longer.take(position as int) + link.bytes@.take(i as int)
                        + longer.skip(position + i),
                decreases link.bytes@.len() - i,
            {
                file.set(position + i, link.bytes[i]);
                i = i + 1;
                assert(file@ =~= longer.take(position as int) + link.bytes@.take(i as int)
                    + longer.skip(position + i));
            }
            assert(link.bytes@.take(i as int) =~= link.bytes@);
            assert(self@.link == Some((link.position, link.bytes@)));
        }
    }
}

impl EncoderState {
    /// Where the directory of the next image will be, if the stream is at `position`.
    pub open spec fn next_directory(self, position: u64) -> nat {
        if self.ifd_pointer_pos is None {
            position as nat + header_len(self.big_tiff)
        } else {
            position as nat
        }
    }

    /// What makes an image with the strips `chunks` a part of a file whose stream is at
    /// `position`.
    pub open spec fn update(self, chunks: Seq<Seq<u8>>, position: u64) -> Update {
        let at = self.next_directory(position);
        let image = image_bytes(self.fields, chunks, self.big_tiff, at, 0);
        match self.ifd_pointer_pos {
            None => Update { bytes: header(self.big_tiff, at) + image, link: None },
            Some(pointer) => Update {
                bytes: image,
                link: Some((pointer, le_bytes(at, word(self.big_tiff)))),
            },
        }
    }

    /// The state once an image with the strips `chunks` has become a part of a file whose stream
    /// was at `position`.
    pub open spec fn ended(self, chunks: Seq<Seq<u8>>, position: u64) -> EncoderState {
        let at = self.next_directory(position);
        EncoderState {
            fields: image_fields(self.fields, chunks, self.big_tiff, at),
            ifd_pointer_pos: Some(
                low_bits(next_pointer(self.fields, chunks, self.big_tiff, at)) as u64,
            ),
            ..self
        }
    }
}

/// What a call does that is to write an image: its result, and the state of the encoder after it.
#[verifier::ext_equal]
pub struct Outcome {
    pub result: Result<Update, TiffError>,
    pub state: EncoderState,
}

/// A result with what its update holds.
pub open spec fn viewed(result: TiffResult<StreamUpdate>) -> Result<Update, TiffError> {
    match result {
        Ok(update) => Ok(update@),
        Err(error) => Err(error),
    }
}

impl EncoderState {
    /// What ending an image with the strips `chunks` does.
    pub open spec fn after_write_encoded(self, chunks: Seq<Seq<u8>>, position: u64) -> Outcome {
        Outcome { result: Ok(self.update(chunks, position)), state: self.ended(chunks, position) }
    }

    /// What ending an image with `data` does, of which `size` bytes make a strip.
    pub open spec fn after_write(self, size: nat, data: Seq<u8>, position: u64) -> Outcome {
        let chunks = all_encoded(self.compression, pieces(data, size));
        Outcome { result: Ok(self.update(chunks, position)), state: self.ended(chunks, position) }
    }

    /// What writing an image with `data` does.
    pub open spec fn after_write_image(
        self,
        width: u32,
        height: u32,
        interpretation: PhotometricInterpretation,
        data: Seq<u8>,
        position: u64,
    ) -> Outcome {
        match self.image_error(width, height, interpretation) {
            Some(error) => Outcome { result: Err(error), state: self },
            None => {
                let begun = self.begun(width, height, interpretation);
                let chunks = all_encoded(
                    self.compression,
                    pieces(data, self.strip_bytes(width, interpretation)),
                );
                Outcome {
                    result: Ok(begun.update(chunks, position)),
                    state: begun.ended(chunks, position),
                }
            },
        }
    }
}

/// `data` in pieces of `size` bytes, of which the last one may be shorter.
pub open spec fn pieces(data: Seq<u8>, size: nat) -> Seq<Seq<u8>>
    recommends
        size > 0,
{
    Seq::new(ceil_div(data.len(), size), |i: int| piece(data, size, i))
}

/// The piece with the number `i` of `data` in pieces of `size` bytes.
pub open spec fn piece(data: Seq<u8>, size: nat, i: int) -> Seq<u8> {
    let start = i * size;
    data.subrange(
        start,
        if start + size <= data.len() {
            start + size
        } else {
            data.len() as int
        },
    )
}

/// What becomes of each of `parts` under `compression`.
pub open spec fn all_encoded(compression: Compression, parts: Seq<Seq<u8>>) -> Seq<Seq<u8>> {
    parts.map_values(|part: Seq<u8>| encoded(compression, part))
}

/// Whether `chunks` are strips that stand for `parts`, one for one.
pub open spec fn all_decode(
    compression: Compression,
    chunks: Seq<Seq<u8>>,
    parts: Seq<Seq<u8>>,
) -> bool {
    &&& chunks.len() == parts.len()
    &&& forall|i: int|
        0 <= i < chunks.len() ==> decoded(compression.spec_method(), #[trigger] chunks[i]) == Some(
            parts[i],
        )
}

impl<'a> SubfileEncoder<'a> {
    /// The settings and tags of the encoder of the file.
    pub open spec fn state(&self) -> EncoderState {
        self.inner@
    }

    fn compress(&self, data: &[u8]) -> (result: TiffResult<Vec<u8>>)
        ensures
            result is Ok,
            result->Ok_0@ == encoded(self.state().compression, data@),
            decoded(self.state().compression.spec_method(), result->Ok_0@) == Some(data@),
    {
        compress(self.inner.compression, data)
    }

    /// Compresses each of `parts`.
    fn compress_all(&self, parts: &Vec<&[u8]>) -> (result: TiffResult<Vec<Vec<u8>>>)
        ensures
            result is Ok,
            result->Ok_0@.map_values(|part: Vec<u8>| part@) == all_encoded(
                self.state().compression,
                contents(parts@),
            ),
            all_decode(
                self.state().compression,
                all_encoded(self.state().compression, contents(parts@)),
                contents(parts@),
            ),
    {
        let ghost compression = self.state().compression;
        let ghost whole = contents(parts@);
        let mut encoded_parts: Vec<Vec<u8>> = Vec::new();
        let mut i: usize = 0;
        while i < parts.len()
            invariant
                i <= parts@.len(),
                compression == self.state().compression,
                whole == contents(parts@),
                encoded_parts@.len() == i,
                forall|k: int|
                    0 <= k < i ==> (#[trigger] encoded_parts@[k])@ == encoded(compression, whole[k])
                        && decoded(compression.spec_method(), encoded_parts@[k]@) == Some(whole[k]),
            decreases parts@.len() - i,
        {
            match self.compress(parts[i]) {
                Ok(out) => {
                    encoded_parts.push(out);
                },
                Err(error) => {
                    return Err(error);
                },
            }
            i = i + 1;
        }
        proof {
            let out = encoded_parts@.map_values(|part: Vec<u8>| part@);
            assert(out =~= all_encoded(compression, whole));
            assert forall|k: int| 0 <= k < out.len() implies decoded(
                compression.spec_method(),
                #[trigger] out[k],
            ) == Some(whole[k]) by {
                assert(out[k] == encoded_parts@[k]@);
            }
        }
        Ok(encoded_parts)
    }

    /// Compresses a strip as the encoder is set to.
    pub fn encode_chunk(&self, chunk: &[u8]) -> (result: TiffResult<Vec<u8>>)
        ensures
            result is Ok,
            result->Ok_0@ == encoded(self.state().compression, chunk@),
            decoded(self.state().compression.spec_method(), result->Ok_0@) == Some(chunk@),
    {
        self.compress(chunk)
    }

    /// Ends the image, with the bytes of all its rows. The stream that holds the file is at
    /// `position`.
    pub fn write(self, data: &[u8], position: u64) -> (result: TiffResult<StreamUpdate>)
        requires
            self.bytes_per_chunk > 0,
            self.num_chunks == ceil_div(data@.len(), self.bytes_per_chunk as nat) as u32,
        ensures
            result is Ok,
            viewed(result) == old(self.inner)@.after_write(
                self.bytes_per_chunk as nat,
                data@,
                position,
            ).result,
            final(self.inner)@ == old(self.inner)@.after_write(
                self.bytes_per_chunk as nat,
                data@,
                position,
            ).state,
            ({
                let parts = pieces(data@, self.bytes_per_chunk as nat);
                let compression = old(self.inner)@.compression;
                all_decode(compression, all_encoded(compression, parts), parts)
            }),
    {
        let ghost before = self.inner@;
        let ghost compression = before.compression;
        let parts: Vec<&[u8]> = split(data, self.bytes_per_chunk);
        let ghost whole = pieces(data@, self.bytes_per_chunk as nat);
        if self.inner.compression == Compression::Uncompressed {
            assert(all_encoded(compression, whole) =~= whole);
            return Ok(self.write_encoded(parts.as_slice(), position));
        }
        let encoded_parts: Vec<Vec<u8>> = match self.compress_all(&parts) {
            Ok(encoded_parts) => encoded_parts,
            Err(error) => {
                return Err(error);
            },
        };
        let mut chunks: Vec<&[u8]> = Vec::new();
        let mut j: usize = 0;
        while j < encoded_parts.len()
            invariant
                j <= encoded_parts@.len(),
                chunks@.len() == j,
                forall|k: int| 0 <= k < j ==> (#[trigger] chunks@[k])@ == encoded_parts@[k]@,
            decreases encoded_parts@.len() - j,
        {
            chunks.push(encoded_parts[j].as_slice());
            j = j + 1;
        }
        assert(contents(chunks@) =~= all_encoded(compression, whole)) by {
            assert(contents(chunks@) =~= encoded_parts@.map_values(|part: Vec<u8>| part@));
        }
        Ok(self.write_encoded(chunks.as_slice(), position))
    }

    /// Ends the image, with strips that are compressed already. The stream that holds the file is
    /// at `position`.
    pub fn write_encoded(self, chunks: &[&[u8]], position: u64) -> (update: StreamUpdate)
        requires
            self.num_chunks == chunks@.len() as u32,
        ensures
            old(self.inner)@.after_write_encoded(contents(chunks@), position).result == Ok::<
                Update,
                TiffError,
            >(update@),
            final(self.inner)@ == old(self.inner)@.after_write_encoded(
                contents(chunks@),
                position,
            ).state,
    {
        let ghost before = self.inner@;
        let ghost parts = contents(chunks@);
        let big_tiff: bool = self.inner.big_tiff;
        let mut bytes: Vec<u8> = Vec::new();
        let mut at: u64 = position;
        let ghost exact = before.next_directory(position);
        let width: usize = if big_tiff {
            8
        } else {
            4
        };
        proof {
            lemma_low_bits_small(position as nat);
        }
        let link: Option<Link> = match self.inner.ifd_pointer_pos {
            // Write the header if there is none yet.
            None => {
                push_header(&mut bytes, big_tiff, position);
                at = wrapping_sum(position, bytes.len() as u64);
                None
            },
            // Lead from the directory before to the new one.
            Some(pointer) => {
                let mut offset: Vec<u8> = Vec::new();
                push_le(&mut offset, position, width);
                assert(offset@ =~= le_bytes(exact, word(big_tiff)));
                Some(Link { position: pointer, bytes: offset })
            },
        };
        let next: u64 = push_image(
            &mut bytes,
            &mut self.inner.ifd,
            chunks,
            big_tiff,
            at,
            Ghost(exact),
        );
        self.inner.ifd_pointer_pos = Some(next);
        let update = StreamUpdate { bytes, link };
        assert(update@ =~= before.update(parts, position));
        update
    }
}

/// Appends the header of a file in a stream at `position`. The first directory follows.
fn push_header(out: &mut Vec<u8>, big_tiff: bool, position: u64)
    requires
        old(out)@.len() == 0,
    ensures
        final(out)@ == header(big_tiff, position as nat + header_len(big_tiff)),
        final(out)@.len() == header_len(big_tiff),
{
    let ghost exact = position as nat + header_len(big_tiff);
    proof {
        lemma_le_bytes_of_low_bits(exact, word(big_tiff));
        lemma_le_bytes_len(exact, word(big_tiff));
    }
    out.push(0x49);
    out.push(0x49);
    if big_tiff {
        out.push(43);
        out.push(0);
        out.push(8);
        out.push(0);
        out.push(0);
        out.push(0);
        push_le(out, wrapping_sum(position, 16), 8);
    } else {
        out.push(42);
        out.push(0);
        push_le(out, wrapping_sum(position, 8), 4);
    }
    assert(out@ =~= header(big_tiff, exact));
}

/// Splits `data` into pieces of `size` bytes, of which the last one may be shorter.
fn split<'a>(data: &'a [u8], size: usize) -> (parts: Vec<&'a [u8]>)
    requires
        size > 0,
    ensures
        contents(parts@) == pieces(data@, size as nat),
{
    let mut parts: Vec<&'a [u8]> = Vec::new();
    let mut start: usize = 0;
    proof {
        assert(contents(parts@) =~= pieces(data@, size as nat).take(0));
    }
    while start < data.len()
        invariant
            size > 0,
            start <= data@.len(),
            start == parts@.len() * size || start == data@.len(),
            parts@.len() <= ceil_div(data@.len(), size as nat),
            start == data@.len() ==> parts@.len() == ceil_div(data@.len(), size as nat),
            contents(parts@) == pieces(data@, size as nat).take(parts@.len() as int),
        decreases data@.len() - start,
    {
        let ghost n = parts@.len();
        let ghost all = pieces(data@, size as nat);
        proof {
            lemma_pieces_count(data@.len(), size as nat, n);
        }
        let end: usize = if data.len() - start < size {
            data.len()
        } else {
            start + size
        };
        parts.push(slice_subrange(data, start, end));
        proof {
            assert(all[n as int] == piece(data@, size as nat, n as int));
            assert(contents(parts@) =~= all.take(n as int + 1));
            assert((n + 1) * size == n * size + size) by (nonlinear_arith);
        }
        start = end;
    }
    assert(pieces(data@, size as nat).take(parts@.len() as int) =~= pieces(data@, size as nat));
    parts
}

/// Where `n` pieces of `size` bytes do not hold all of `len` bytes, there is a piece more, and if
/// it reaches the end it is the last one.
proof fn lemma_pieces_count(len: nat, size: nat, n: nat)
    requires
        size > 0,
        n * size < len,
    ensures
        n < ceil_div(len, size),
        n * size + size >= len ==> n + 1 == ceil_div(len, size),
{
    let m = ceil_div(len, size);
    lemma_ceil_div(len, size);
    assert(n < m && (n * size + size >= len ==> n + 1 == m)) by (nonlinear_arith)
        requires
            n * size < len,
            len <= size * m < len + size,
    ;
}

} // verus!
