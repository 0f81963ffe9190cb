//! What holds of one image, whatever was set before.

use crate::encoder::compression::encoded;
use crate::encoder::directory::{Field, Fields};
use crate::encoder::value::{field_of, Rational};
use crate::encoder::{
    all_encoded, ceil_div, color_samples, lemma_ceil_div, piece, pieces, Compression,
    EncoderState, Outcome, STRIP_TARGET,
};
use crate::tags::{PhotometricInterpretation, ResolutionUnit, Tag};
use vstd::prelude::*;

verus! {

/// Whether the entry for `tag` is `field`.
pub open spec fn entry_is(fields: Fields, tag: Tag, field: Field) -> bool {
    fields.contains_key(tag.code()) && fields[tag.code()] == field
}

/// The entries that describe an image, once it has been begun.
pub open spec fn describes(
    fields: Fields,
    state: EncoderState,
    width: u32,
    height: u32,
    interpretation: PhotometricInterpretation,
) -> bool {
    let samples = state.samples_per_pixel(interpretation);
    &&& entry_is(fields, Tag::ImageWidth, field_of(width))
    &&& entry_is(fields, Tag::ImageLength, field_of(height))
    &&& entry_is(fields, Tag::Compression, field_of(state.compression.spec_method().code()))
    &&& entry_is(fields, Tag::PhotometricInterpretation, field_of(interpretation.code()))
    &&& entry_is(fields, Tag::SamplesPerPixel, field_of(samples as u16))
    &&& entry_is(fields, Tag::SampleFormat, field_of(state.sample_format.code()))
    &&& entry_is(fields, Tag::BitsPerSample, state.sample_bits_field(samples))
    &&& entry_is(
        fields,
        Tag::RowsPerStrip,
        field_of(state.strip_rows(width, interpretation) as u32),
    )
}

/// Whether the entry for `tag` is the one that was set, or `field` if none was.
pub open spec fn has_default(fields: Fields, set: Fields, tag: Tag, field: Field) -> bool {
    entry_is(
        fields,
        tag,
        if set.contains_key(tag.code()) {
            set[tag.code()]
        } else {
            field
        },
    )
}

/// The directory of a begun image describes it, whatever tags were set before, and keeps the
/// other tags that were set, but for those that tell where the data of another image is.
pub proof fn law_begun_image_is_described(
    state: EncoderState,
    width: u32,
    height: u32,
    interpretation: PhotometricInterpretation,
)
    ensures
        ({
            let fields = state.begun(width, height, interpretation).fields;
            let one = Rational { n: 1, d: 1 };
            &&& describes(fields, state, width, height, interpretation)
            &&& has_default(fields, state.fields, Tag::XResolution, field_of(one))
            &&& has_default(fields, state.fields, Tag::YResolution, field_of(one))
            &&& has_default(
                fields,
                state.fields,
                Tag::ResolutionUnit,
                field_of(ResolutionUnit::Unitless.code()),
            )
            &&& !fields.contains_key(Tag::StripOffsets.code())
            &&& !fields.contains_key(Tag::StripByteCounts.code())
            &&& !fields.contains_key(Tag::TileOffsets.code())
            &&& !fields.contains_key(Tag::TileByteCounts.code())
            &&& forall|tag: u16|
                #![trigger state.fields.contains_key(tag)]
                state.fields.contains_key(tag) && !sets_tag(tag) ==> fields.contains_key(tag)
                    && fields[tag] == state.fields[tag]
        }),
{
}

/// Whether the entry for `tag` is made new for every image, or removed.
pub open spec fn sets_tag(tag: u16) -> bool {
    ||| tag == Tag::ImageWidth.code()
    ||| tag == Tag::ImageLength.code()
    ||| tag == Tag::Compression.code()
    ||| tag == Tag::PhotometricInterpretation.code()
    ||| tag == Tag::SamplesPerPixel.code()
    ||| tag == Tag::SampleFormat.code()
    ||| tag == Tag::BitsPerSample.code()
    ||| tag == Tag::RowsPerStrip.code()
    ||| tag == Tag::StripByteCounts.code()
    ||| tag == Tag::StripOffsets.code()
    ||| tag == Tag::TileByteCounts.code()
    ||| tag == Tag::TileOffsets.code()
}

/// Tags that were set hold for all images to come, but for those that every image sets.
pub proof fn law_tags_hold_for_later_images(
    state: EncoderState,
    width: u32,
    height: u32,
    interpretation: PhotometricInterpretation,
    chunks: Seq<Seq<u8>>,
    position: u64,
    tag: u16,
)
    requires
        state.fields.contains_key(tag),
        !sets_tag(tag),
    ensures
        ({
            let later = state.begun(width, height, interpretation).ended(chunks, position);
            later.fields.contains_key(tag) && later.fields[tag] == state.fields[tag]
        }),
{
}

/// With PackBits every row is packed separately.
pub proof fn law_packed_strips_are_rows(
    state: EncoderState,
    width: u32,
    height: u32,
    interpretation: PhotometricInterpretation,
)
    requires
        state.compression == Compression::PackBits,
        state.image_error(width, height, interpretation) is None,
        state.countable(width, interpretation),
    ensures
        state.strip_rows(width, interpretation) == 1,
        state.strip_bytes(width, interpretation) == state.row_bytes(width, interpretation),
{
    let row = state.row_bytes(width, interpretation);
    assert(row * 1 == row);
}

/// Where the number of rows per strip is not set, strips are as short as they can be with
/// [`STRIP_TARGET`] bytes or more.
pub proof fn law_default_strip_size(
    state: EncoderState,
    width: u32,
    interpretation: PhotometricInterpretation,
)
    requires
        state.rows_per_strip is None,
        state.compression != Compression::PackBits,
        state.row_bytes(width, interpretation) > 0,
    ensures
        ({
            let size = state.strip_bytes(width, interpretation);
            STRIP_TARGET <= size < STRIP_TARGET + state.row_bytes(width, interpretation)
        }),
{
    lemma_ceil_div(STRIP_TARGET as nat, state.row_bytes(width, interpretation));
}

/// Nothing but the least number of parts that hold `a` is less than one part too many.
proof fn lemma_ceil_div_unique(a: nat, b: nat, n: nat)
    requires
        b > 0,
        a <= b * n < a + b,
    ensures
        n == ceil_div(a, b),
{
    lemma_ceil_div(a, b);
    let m = ceil_div(a, b);
    assert(n == m) by (nonlinear_arith)
        requires
            b > 0,
            a <= b * n < a + b,
            a <= b * m < a + b,
    ;
}

/// The bytes of all rows of an image make as many strips as the image has.
pub proof fn law_all_rows_cover_the_image(
    state: EncoderState,
    width: u32,
    height: u32,
    interpretation: PhotometricInterpretation,
)
    requires
        state.image_error(width, height, interpretation) is None,
        state.countable(width, interpretation),
        state.bits_per_sample > 0,
    ensures
        state.covers(
            width,
            height,
            interpretation,
            state.row_bytes(width, interpretation) * height as nat,
        ),
{
    let row = state.row_bytes(width, interpretation);
    let rows = state.strip_rows(width, interpretation);
    let h = height as nat;
    let n = ceil_div(h, rows);
    lemma_row_has_bytes(state, width, interpretation);
    lemma_ceil_div(STRIP_TARGET as nat, row);
    lemma_ceil_div(h, rows);
    assert(row * rows > 0 && row * h <= (row * rows) * n < row * h + row * rows)
        by (nonlinear_arith)
        requires
            row > 0,
            rows > 0,
            h <= rows * n < h + rows,
    ;
    lemma_ceil_div_unique(row * h, row * rows, n);
    assert(n <= h) by (nonlinear_arith)
        requires
            rows > 0,
            h > 0,
            rows * n < h + rows,
    ;
}

proof fn lemma_row_has_bytes(
    state: EncoderState,
    width: u32,
    interpretation: PhotometricInterpretation,
)
    requires
        width > 0,
        color_samples(interpretation) is Some,
        state.bits_per_sample > 0,
    ensures
        state.row_bytes(width, interpretation) > 0,
{
    let samples = state.samples_per_pixel(interpretation);
    let bits = state.bits_per_sample as nat;
    assert(width as nat * samples > 0) by (nonlinear_arith)
        requires
            width > 0,
            samples > 0,
    ;
    assert(width as nat * samples * bits > 0) by (nonlinear_arith)
        requires
            width as nat * samples > 0,
            bits > 0,
    ;
    lemma_ceil_div(width as nat * samples * bits, 8);
}

/// To write an image is to begin it and to end it with its data.
pub proof fn law_write_image_begins_and_ends(
    state: EncoderState,
    width: u32,
    height: u32,
    interpretation: PhotometricInterpretation,
    data: Seq<u8>,
    position: u64,
)
    ensures
        ({
            let outcome = state.after_write_image(width, height, interpretation, data, position);
            match state.image_error(width, height, interpretation) {
                Some(error) => outcome == (Outcome { result: Err(error), state }),
                None => outcome == state.begun(width, height, interpretation).after_write(
                    state.strip_bytes(width, interpretation),
                    data,
                    position,
                ),
            }
        }),
{
}

/// To end an image with its data is to end it with the strips that the pieces of the data become,
/// each one compressed on its own, in their order.
pub proof fn law_write_encodes_the_pieces(
    state: EncoderState,
    size: nat,
    data: Seq<u8>,
    chunks: Seq<Seq<u8>>,
    position: u64,
)
    requires
        size > 0,
        chunks.len() == pieces(data, size).len(),
        forall|i: int|
            0 <= i < chunks.len() ==> #[trigger] chunks[i] == encoded(
                state.compression,
                piece(data, size, i),
            ),
    ensures
        state.after_write(size, data, position) == state.after_write_encoded(chunks, position),
{
    assert(chunks =~= all_encoded(state.compression, pieces(data, size)));
}

} // verus!
