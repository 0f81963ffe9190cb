//! What holds of a file as a whole, however many images were written to it.

use crate::bytes::{
    concat, fits, le_bytes, lemma_le_bytes_len, lemma_le_round_trip, lemma_low_bits_small,
};
use crate::encoder::compression::{decoded, Compression};
use crate::encoder::directory::{lemma_sorted, sorted, Field, Fields};
use crate::encoder::layout::{
    count_width, data_area, directory_len, header, header_len, image_bytes, image_fields,
    next_pointer, strips_start, table, word,
};
use crate::encoder::value::field_of;
use crate::encoder::{all_decode, ceil_div, lemma_ceil_div, piece, pieces, EncoderState};
use crate::reader::{
    all_decoded, find, holds, lemma_find, lemma_fits_small, lemma_holds_concat, lemma_holds_part,
    lemma_holds_prefix, lemma_holds_suffix, lemma_read_image_parts, lemma_read_number, lemma_table,
    method_with_code, read_directory, read_directory_offset, read_image, read_next, read_number,
    read_strips, representable, value_at,
};
use crate::laws::image::{describes, entry_is, law_begun_image_is_described};
use crate::tags::{PhotometricInterpretation, Tag};
use vstd::prelude::*;

verus! {

/// An image of a file: its strips and its directory entries but for those that tell where the
/// strips are.
#[verifier::ext_equal]
pub struct Image {
    pub fields: Fields,
    pub chunks: Seq<Seq<u8>>,
}

impl Image {
    /// The image as it stands in a file, with its directory at `at` and the next one at `next`.
    #[verifier::opaque]
    pub open spec fn bytes(self, big: bool, at: nat, next: nat) -> Seq<u8> {
        image_bytes(self.fields, self.chunks, big, at, next)
    }

    /// The entries of the image's directory at `at`.
    #[verifier::opaque]
    pub open spec fn directory(self, big: bool, at: nat) -> Fields {
        image_fields(self.fields, self.chunks, big, at)
    }

    /// Whether nothing of the image gets lost in the fields of a file with its directory at `at`.
    #[verifier::opaque]
    pub open spec fn representable(self, big: bool, at: nat) -> bool {
        representable(self.fields, self.chunks, big, at)
    }

    /// How many bytes of the image stand before the offset of the next directory.
    #[verifier::opaque]
    pub open spec fn bytes_before_link(self, big: bool, at: nat) -> nat {
        (next_pointer(self.fields, self.chunks, big, at) - at) as nat
    }
}

/// Where the directory with the number `n` is in a file that starts at `base`.
pub open spec fn directory_offset(images: Seq<Image>, big: bool, base: nat, n: nat) -> nat
    decreases n,
{
    if n == 0 {
        base + header_len(big)
    } else {
        let at = directory_offset(images, big, base, (n - 1) as nat);
        at + images[n - 1].bytes(big, at, 0).len()
    }
}

/// `images` one after the other, as they stand in a file that starts at `base`. The directory
/// after the last one of them is at `next`.
pub open spec fn body(images: Seq<Image>, big: bool, base: nat, next: nat) -> Seq<u8>
    decreases images.len(),
{
    if images.len() == 0 {
        Seq::empty()
    } else {
        let at = directory_offset(images, big, base, (images.len() - 1) as nat);
        body(images.drop_last(), big, base, at) + images.last().bytes(big, at, next)
    }
}

/// The stream that held `lead` and then got a file with `images`.
pub open spec fn stream(lead: Seq<u8>, images: Seq<Image>, big: bool) -> Seq<u8> {
    if images.len() == 0 {
        lead
    } else {
        lead + header(big, lead.len() + header_len(big)) + body(images, big, lead.len(), 0)
    }
}

/// Where, in a file with `images`, the offset of the directory after the last one stands.
pub open spec fn link_place(images: Seq<Image>, big: bool, base: nat) -> nat {
    let at = directory_offset(images, big, base, (images.len() - 1) as nat);
    at + images.last().bytes_before_link(big, at)
}

/// Whether the encoder is one that has written `images` to a stream that held `base` bytes.
pub open spec fn has_written(state: EncoderState, images: Seq<Image>, base: nat) -> bool {
    if images.len() == 0 {
        state.ifd_pointer_pos is None
    } else {
        state.ifd_pointer_pos matches Some(position) && position == link_place(
            images,
            state.big_tiff,
            base,
        )
    }
}

pub proof fn lemma_header_len(big: bool, first: nat)
    ensures
        header(big, first).len() == header_len(big),
{
    lemma_le_bytes_len(first, word(big));
}

/// `part` written over what stands in `whole` at `place`.
pub open spec fn overwritten(whole: Seq<u8>, place: int, part: Seq<u8>) -> Seq<u8> {
    whole.take(place) + part + whole.skip(place + part.len())
}

proof fn lemma_overwrite_in_concat(a: Seq<u8>, b: Seq<u8>, c: Seq<u8>, place: int, part: Seq<u8>)
    requires
        0 <= place,
        place + part.len() <= b.len(),
    ensures
        overwritten(a + b + c, a.len() + place, part) == a + overwritten(b, place, part) + c,
{
    let whole = a + b + c;
    assert(whole.take(a.len() + place) =~= a + b.take(place));
    assert(whole.skip(a.len() + place + part.len()) =~= b.skip(place + part.len()) + c);
    assert(overwritten(whole, a.len() + place, part) =~= a + overwritten(b, place, part) + c);
}

/// In an image, only the offset of the next directory depends on where that one is.
proof fn lemma_relink_image(image: Image, big: bool, at: nat, old_next: nat, next: nat)
    ensures
        image.bytes_before_link(big, at) + word(big) <= image.bytes(big, at, old_next).len(),
        image.bytes(big, at, next) == overwritten(
            image.bytes(big, at, old_next),
            image.bytes_before_link(big, at) as int,
            le_bytes(next, word(big)),
        ),
        image.bytes(big, at, next).len() == image.bytes(big, at, old_next).len(),
{
    reveal(Image::bytes);
    reveal(Image::bytes_before_link);
    let entries = sorted(image_fields(image.fields, image.chunks, big, at));
    let before = image_bytes(image.fields, image.chunks, big, at, old_next);
    let place = next_pointer(image.fields, image.chunks, big, at) - at;
    let count = le_bytes(entries.len(), count_width(big));
    let data_start = at + directory_len(big, entries.len());
    let rows = table(entries, big, data_start);
    let rest = data_area(entries, big) + concat(image.chunks);
    lemma_le_bytes_len(entries.len(), count_width(big));
    lemma_le_bytes_len(old_next, word(big));
    lemma_le_bytes_len(next, word(big));
    lemma_table(entries, big, data_start);
    lemma_overwrite_in_concat(
        count + rows,
        le_bytes(old_next, word(big)),
        rest,
        0,
        le_bytes(next, word(big)),
    );
    let old_link = le_bytes(old_next, word(big));
    let link = le_bytes(next, word(big));
    assert(overwritten(old_link, 0, link) =~= link);
    assert(before =~= (count + rows) + old_link + rest);
    assert(image_bytes(image.fields, image.chunks, big, at, next) =~= (count + rows) + link + rest);
}

/// Where a directory is depends on the images before it alone.
pub proof fn lemma_directory_offset_prefix(
    images: Seq<Image>,
    more: Seq<Image>,
    big: bool,
    base: nat,
    n: nat,
)
    requires
        n <= images.len() <= more.len(),
        more.take(images.len() as int) == images,
    ensures
        directory_offset(images, big, base, n) == directory_offset(more, big, base, n),
    decreases n,
{
    if n > 0 {
        lemma_directory_offset_prefix(images, more, big, base, (n - 1) as nat);
        assert(more[n - 1] == more.take(images.len() as int)[n - 1]);
    }
}

pub proof fn lemma_body_len(images: Seq<Image>, big: bool, base: nat, next: nat)
    ensures
        base + header_len(big) + body(images, big, base, next).len() == directory_offset(
            images,
            big,
            base,
            images.len(),
        ),
    decreases images.len(),
{
    if images.len() > 0 {
        let front = images.drop_last();
        let at = directory_offset(images, big, base, front.len());
        lemma_body_len(front, big, base, at);
        assert(images.take(front.len() as int) =~= front);
        lemma_directory_offset_prefix(front, images, big, base, front.len());
        lemma_relink_image(images.last(), big, at, 0, next);
    }
}

/// In a file, only the offset in the last directory depends on where the next directory is.
proof fn lemma_relink_body(
    start: Seq<u8>,
    images: Seq<Image>,
    big: bool,
    base: nat,
    next: nat,
)
    requires
        images.len() > 0,
        start.len() == base + header_len(big),
    ensures
        link_place(images, big, base) + word(big) <= (start + body(images, big, base, 0)).len(),
        start + body(images, big, base, next) == overwritten(
            start + body(images, big, base, 0),
            link_place(images, big, base) as int,
            le_bytes(next, word(big)),
        ),
{
    let front = images.drop_last();
    let last = images.last();
    let at = directory_offset(images, big, base, front.len());
    let head = start + body(front, big, base, at);
    let place = last.bytes_before_link(big, at) as int;
    let link = le_bytes(next, word(big));
    lemma_le_bytes_len(next, word(big));
    lemma_relink_image(last, big, at, 0, next);
    assert(images.take(front.len() as int) =~= front);
    lemma_body_len(front, big, base, at);
    lemma_directory_offset_prefix(front, images, big, base, front.len());
    lemma_overwrite_in_concat(head, last.bytes(big, at, 0), Seq::empty(), place, link);
    assert(start + body(images, big, base, 0) =~= head + last.bytes(big, at, 0) + Seq::empty());
    assert(start + body(images, big, base, next) =~= head + last.bytes(big, at, next)
        + Seq::empty());
}

/// What an update is, in terms of the image that it adds.
proof fn lemma_update(state: EncoderState, chunks: Seq<Seq<u8>>, position: u64)
    ensures
        ({
            let image = Image { fields: state.fields, chunks };
            let big = state.big_tiff;
            let at = state.next_directory(position);
            let update = state.update(chunks, position);
            &&& match state.ifd_pointer_pos {
                None => update.link is None && update.bytes == header(big, at) + image.bytes(
                    big,
                    at,
                    0,
                ),
                Some(pointer) => update.link == Some((pointer, le_bytes(at, word(big))))
                    && update.bytes == image.bytes(big, at, 0),
            }
            &&& at + image.bytes_before_link(big, at) <= u64::MAX ==> state.ended(
                chunks,
                position,
            ).ifd_pointer_pos == Some((at + image.bytes_before_link(big, at)) as u64)
            &&& state.ended(chunks, position).big_tiff == big
        }),
{
    reveal(Image::bytes);
    reveal(Image::bytes_before_link);
    let at = state.next_directory(position);
    let pointer = next_pointer(state.fields, chunks, state.big_tiff, at);
    if pointer <= u64::MAX {
        lemma_low_bits_small(pointer);
    }
}

/// Writing an image appends it to the images of the file and changes nothing of the others.
///
/// The stream held `lead` when the first image was written and is always at its end when the next
/// one is.
pub proof fn law_image_is_appended(
    lead: Seq<u8>,
    images: Seq<Image>,
    state: EncoderState,
    chunks: Seq<Seq<u8>>,
)
    requires
        has_written(state, images, lead.len()),
        stream(
            lead,
            images.push(Image { fields: state.fields, chunks }),
            state.big_tiff,
        ).len() <= u64::MAX,
    ensures
        ({
            let big = state.big_tiff;
            let before = stream(lead, images, big);
            let position = before.len() as u64;
            let more = images.push(Image { fields: state.fields, chunks });
            let update = state.update(chunks, position);
            &&& before.len() <= u64::MAX
            &&& update.link matches Some((pointer, offset)) ==> pointer + offset.len()
                <= before.len()
            &&& update.applied(before) == stream(lead, more, big)
            &&& has_written(state.ended(chunks, position), more, lead.len())
            &&& state.next_directory(position) == directory_offset(
                more,
                big,
                lead.len(),
                images.len(),
            )
        }),
{
    let big = state.big_tiff;
    let base = lead.len();
    let image = Image { fields: state.fields, chunks };
    let more = images.push(image);
    let before = stream(lead, images, big);
    let position = before.len() as u64;
    let n = images.len();
    let first = base + header_len(big);
    let start = lead + header(big, first);
    let at = directory_offset(more, big, base, n);
    let added = image.bytes(big, at, 0);
    assert(more.drop_last() =~= images);
    assert(more.take(n as int) =~= images);
    lemma_directory_offset_prefix(images, more, big, base, n);
    lemma_header_len(big, first);
    lemma_body_len(images, big, base, 0);
    lemma_body_len(more, big, base, 0);
    lemma_relink_image(image, big, at, 0, 0);
    lemma_concat_three(start, body(images, big, base, at), added);
    assert(stream(lead, more, big) == start + body(images, big, base, at) + added);
    assert(before.len() <= u64::MAX);
    assert(state.next_directory(position) == at);
    lemma_update(state, chunks, position);
    if n == 0 {
        assert(body(images, big, base, at) =~= Seq::empty());
        lemma_concat_three(lead, header(big, first), added);
        assert(start + body(images, big, base, at) =~= start);
    } else {
        let pointer = state.ifd_pointer_pos->0 as int;
        let link = le_bytes(at, word(big));
        lemma_relink_body(start, images, big, base, at);
        lemma_le_bytes_len(at, word(big));
        lemma_overwrite_in_concat(Seq::empty(), before, added, pointer, link);
        assert(Seq::<u8>::empty() + before =~= before);
        assert(Seq::<u8>::empty() + overwritten(before, pointer, link) =~= overwritten(
            before,
            pointer,
            link,
        ));
    }
}

proof fn lemma_concat_three(a: Seq<u8>, b: Seq<u8>, c: Seq<u8>)
    ensures
        a + (b + c) == a + b + c,
{
    assert(a + (b + c) =~= a + b + c);
}

/// Whether nothing of `images` gets lost in the fields of a file that starts at `base`.
pub open spec fn all_representable(images: Seq<Image>, big: bool, base: nat) -> bool {
    forall|n: int|
        0 <= n < images.len() ==> (#[trigger] images[n]).representable(
            big,
            directory_offset(images, big, base, n as nat),
        )
}

/// Where the directory after the one with the number `n` is, or zero if there is none.
pub open spec fn following_offset(images: Seq<Image>, big: bool, base: nat, n: nat) -> nat {
    if n + 1 < images.len() {
        directory_offset(images, big, base, n + 1)
    } else {
        0
    }
}

proof fn lemma_body_holds(images: Seq<Image>, big: bool, base: nat, next: nat, n: nat)
    requires
        n < images.len(),
    ensures
        ({
            let at = directory_offset(images, big, base, n);
            let following = if n + 1 < images.len() {
                directory_offset(images, big, base, n + 1)
            } else {
                next
            };
            holds(
                body(images, big, base, next),
                at - base - header_len(big),
                images[n as int].bytes(big, at, following),
            )
        }),
    decreases images.len(),
{
    let front = images.drop_last();
    let last_at = directory_offset(images, big, base, front.len());
    let end = images.last().bytes(big, last_at, next);
    let start = body(front, big, base, last_at);
    lemma_body_len(front, big, base, last_at);
    assert(images.take(front.len() as int) =~= front);
    lemma_directory_offset_prefix(front, images, big, base, front.len());
    if n < front.len() {
        lemma_body_holds(front, big, base, last_at, n);
        lemma_directory_offset_prefix(front, images, big, base, n);
        lemma_directory_offset_prefix(front, images, big, base, n + 1);
        let at = directory_offset(images, big, base, n);
        let following = directory_offset(images, big, base, n + 1);
        assert(front[n as int] == images[n as int]);
        lemma_holds_prefix(
            start,
            end,
            at - base - header_len(big),
            images[n as int].bytes(big, at, following),
        );
    } else {
        lemma_holds_suffix(start, end);
    }
}

/// Every image stands in the stream where its directory is said to be.
proof fn lemma_stream_holds(lead: Seq<u8>, images: Seq<Image>, big: bool, n: nat)
    requires
        n < images.len(),
    ensures
        ({
            let at = directory_offset(images, big, lead.len(), n);
            holds(
                stream(lead, images, big),
                at as int,
                images[n as int].bytes(
                    big,
                    at,
                    following_offset(images, big, lead.len(), n),
                ),
            )
        }),
{
    let base = lead.len();
    let first = base + header_len(big);
    let start = lead + header(big, first);
    let at = directory_offset(images, big, base, n);
    lemma_header_len(big, first);
    lemma_body_holds(images, big, base, 0, n);
    lemma_holds_suffix(start, body(images, big, base, 0));
    lemma_holds_part(
        stream(lead, images, big),
        start.len() as int,
        body(images, big, base, 0),
        at - base - header_len(big),
        images[n as int].bytes(big, at, following_offset(images, big, base, n)),
    );
}

proof fn lemma_fits_less(value: nat, more: nat, width: nat)
    requires
        value <= more,
        fits(more, width),
    ensures
        fits(value, width),
{
}

/// Every offset of a directory fits in its field.
proof fn lemma_offsets_fit(images: Seq<Image>, big: bool, base: nat, n: nat)
    requires
        all_representable(images, big, base),
        n < images.len(),
    ensures
        fits(directory_offset(images, big, base, n), word(big)),
        fits(following_offset(images, big, base, n), word(big)),
{
    let at = directory_offset(images, big, base, n);
    let next = directory_offset(images, big, base, n + 1);
    assert(images[n as int].representable(big, at));
    lemma_offset_fits(images[n as int], big, at);
    if n + 1 < images.len() {
        let following = images[n as int + 1];
        assert(following.representable(big, next));
        lemma_offset_fits(following, big, next);
    }
}

proof fn lemma_offset_fits(image: Image, big: bool, at: nat)
    requires
        image.representable(big, at),
    ensures
        fits(at, word(big)),
        fits(0, word(big)),
{
    reveal(Image::representable);
    let start = strips_start(image.fields, image.chunks, big, at);
    lemma_fits_less(at, start, word(big));
    lemma_fits_less(0, start, word(big));
}

/// Of every image, the directory is read back with its tags in ascending order, and so are the
/// strips and the offset of the next directory, which is zero after the last one.
pub proof fn law_images_are_read_back(lead: Seq<u8>, images: Seq<Image>, big: bool, n: nat)
    requires
        all_representable(images, big, lead.len()),
        n < images.len(),
    ensures
        ({
            let file = stream(lead, images, big);
            let at = directory_offset(images, big, lead.len(), n);
            let image = images[n as int];
            &&& read_directory(file, big, at as int) == sorted(image.directory(big, at))
            &&& read_strips(file, big, at as int) == image.chunks
            &&& read_next(file, big, at as int) == following_offset(images, big, lead.len(), n)
        }),
{
    let file = stream(lead, images, big);
    let at = directory_offset(images, big, lead.len(), n);
    let image = images[n as int];
    let following = following_offset(images, big, lead.len(), n);
    lemma_stream_holds(lead, images, big, n);
    lemma_offsets_fit(images, big, lead.len(), n);
    reveal(Image::bytes);
    reveal(Image::directory);
    reveal(Image::representable);
    lemma_read_image_parts(file, image.fields, image.chunks, big, at, following);
}

/// In every directory the tags ascend.
pub proof fn law_tags_ascend(
    lead: Seq<u8>,
    images: Seq<Image>,
    big: bool,
    n: nat,
    i: int,
    j: int,
)
    requires
        all_representable(images, big, lead.len()),
        n < images.len(),
        0 <= i < j < read_directory(
            stream(lead, images, big),
            big,
            directory_offset(images, big, lead.len(), n) as int,
        ).len(),
    ensures
        ({
            let entries = read_directory(
                stream(lead, images, big),
                big,
                directory_offset(images, big, lead.len(), n) as int,
            );
            entries[i].0 < entries[j].0
        }),
{
    let at = directory_offset(images, big, lead.len(), n);
    let fields = images[n as int].directory(big, at);
    law_images_are_read_back(lead, images, big, n);
    lemma_sorted(fields);
    assert(sorted(fields)[i].0 < sorted(fields)[j].0);
}

/// The header is read back.
proof fn lemma_first_offset(lead: Seq<u8>, rest: Seq<u8>, big: bool)
    requires
        fits(lead.len() + header_len(big), word(big)),
    ensures
        ({
            let first = lead.len() + header_len(big);
            read_number(
                lead + header(big, first) + rest,
                lead.len() as int + word(big),
                word(big),
            ) == first
        }),
{
    let first = lead.len() + header_len(big);
    let file = lead + header(big, first) + rest;
    let offset = le_bytes(first, word(big));
    let magic = if big {
        seq![0x49u8, 0x49, 43, 0, 8, 0, 0, 0]
    } else {
        seq![0x49u8, 0x49, 42, 0]
    };
    lemma_le_bytes_len(first, word(big));
    lemma_holds_suffix(lead, header(big, first));
    lemma_holds_prefix(lead + header(big, first), rest, lead.len() as int, header(big, first));
    lemma_holds_concat(file, lead.len() as int, magic, offset);
    lemma_read_number(file, lead.len() as int + word(big), first, word(big));
}

/// A reader that starts at the header and goes on from directory to directory finds the directory
/// of every image, in the order in which the images were written.
pub proof fn law_directories_are_found(lead: Seq<u8>, images: Seq<Image>, big: bool, n: nat)
    requires
        all_representable(images, big, lead.len()),
        n < images.len(),
    ensures
        read_directory_offset(stream(lead, images, big), big, lead.len() as int, n)
            == directory_offset(images, big, lead.len(), n),
    decreases n,
{
    let file = stream(lead, images, big);
    let base = lead.len();
    if n == 0 {
        lemma_offsets_fit(images, big, base, 0);
        lemma_first_offset(lead, body(images, big, base, 0), big);
    } else {
        law_directories_are_found(lead, images, big, (n - 1) as nat);
        law_images_are_read_back(lead, images, big, (n - 1) as nat);
    }
}

proof fn lemma_concat_pieces(data: Seq<u8>, size: nat, n: nat)
    requires
        size > 0,
        n <= ceil_div(data.len(), size),
    ensures
        concat(pieces(data, size).take(n as int)) == data.take(
            if n * size <= data.len() {
                (n * size) as int
            } else {
                data.len() as int
            },
        ),
    decreases n,
{
    let all = pieces(data, size);
    let some = all.take(n as int);
    if n == 0 {
        assert(n * size == 0) by (nonlinear_arith)
            requires
                n == 0,
        ;
        assert(some =~= Seq::empty());
        assert(data.take(0) =~= Seq::empty());
    } else {
        let m = (n - 1) as nat;
        lemma_concat_pieces(data, size, m);
        assert(some.drop_last() =~= all.take(m as int));
        assert(some.last() == piece(data, size, m as int));
        assert(n * size == m * size + size) by (nonlinear_arith)
            requires
                n == m + 1,
        ;
        lemma_before_last_piece(data.len(), size, m);
        assert(concat(some) =~= data.take(
            if n * size <= data.len() {
                (n * size) as int
            } else {
                data.len() as int
            },
        ));
    }
}

/// The pieces before the last one do not hold all the data.
proof fn lemma_before_last_piece(len: nat, size: nat, n: nat)
    requires
        size > 0,
        n < ceil_div(len, size),
    ensures
        n * size < len,
        n + 1 == ceil_div(len, size) ==> n * size + size >= len,
{
    let m = ceil_div(len, size);
    lemma_ceil_div(len, size);
    assert(n * size < len && (n + 1 == m ==> n * size + size >= len)) by (nonlinear_arith)
        requires
            n < m,
            len <= size * m < len + size,
    ;
}

/// Data that was split into pieces is all of the pieces, one after the other.
pub proof fn law_pieces_make_the_data(data: Seq<u8>, size: nat)
    requires
        size > 0,
    ensures
        concat(pieces(data, size)) == data,
{
    let all = pieces(data, size);
    let n = ceil_div(data.len(), size);
    lemma_concat_pieces(data, size, n);
    assert(all.take(n as int) =~= all);
    if n > 0 {
        lemma_before_last_piece(data.len(), size, (n - 1) as nat);
        assert(n * size == (n - 1) * size + size) by (nonlinear_arith);
    } else {
        lemma_ceil_div(data.len(), size);
        assert(size * 0 == 0);
    }
    assert(data.take(data.len() as int) =~= data);
}

/// Strips that stand for the pieces of some data give the data back.
proof fn lemma_strips_give_the_data(
    compression: Compression,
    chunks: Seq<Seq<u8>>,
    data: Seq<u8>,
    size: nat,
)
    requires
        size > 0,
        all_decode(compression, chunks, pieces(data, size)),
    ensures
        all_decoded(compression.spec_method(), chunks) == Some(data),
{
    let method = compression.spec_method();
    let parts = chunks.map_values(|strip: Seq<u8>| decoded(method, strip)->0);
    assert(parts =~= pieces(data, size));
    law_pieces_make_the_data(data, size);
}

/// A compression method is found by what a directory says of it.
proof fn lemma_method_is_read_back(compression: Compression)
    ensures
        method_with_code(value_at(field_of(compression.spec_method().code()), 0)) == Some(
            compression.spec_method(),
        ),
{
    let code = compression.spec_method().code() as nat;
    let data = le_bytes(code, 2);
    lemma_le_bytes_len(code, 2);
    lemma_fits_small(code, false);
    lemma_le_round_trip(code, 2);
    assert(data.subrange(0, 2) =~= data);
}

/// Whether the entry for `tag` tells where the strips are.
pub open spec fn tells_strips(tag: Tag) -> bool {
    tag.code() == Tag::StripByteCounts.code() || tag.code() == Tag::StripOffsets.code()
}

/// The entries that tell where the strips are replace no others.
pub proof fn lemma_entry_stays(image: Image, big: bool, at: nat, tag: Tag, field: Field)
    requires
        entry_is(image.fields, tag, field),
        !tells_strips(tag),
    ensures
        entry_is(image.directory(big, at), tag, field),
{
    reveal(Image::directory);
}

/// What a reader gets of an image whose directory and strips are known.
proof fn lemma_read_image(
    file: Seq<u8>,
    big: bool,
    at: int,
    fields: Fields,
    compression: Compression,
    data: Seq<u8>,
    size: nat,
)
    requires
        read_directory(file, big, at) == sorted(fields),
        entry_is(fields, Tag::Compression, field_of(compression.spec_method().code())),
        size > 0,
        all_decode(compression, read_strips(file, big, at), pieces(data, size)),
    ensures
        read_image(file, big, at) == Some(data),
{
    lemma_find(fields, Tag::Compression);
    lemma_method_is_read_back(compression);
    lemma_strips_give_the_data(compression, read_strips(file, big, at), data, size);
}

/// The data of every image is read back: if its strips stand for the pieces of some data, as they
/// do when the encoder made them, and its directory names their compression, then a reader gets
/// that data.
pub proof fn law_image_data_is_read_back(
    lead: Seq<u8>,
    images: Seq<Image>,
    big: bool,
    n: nat,
    compression: Compression,
    data: Seq<u8>,
    size: nat,
)
    requires
        all_representable(images, big, lead.len()),
        n < images.len(),
        entry_is(
            images[n as int].fields,
            Tag::Compression,
            field_of(compression.spec_method().code()),
        ),
        size > 0,
        all_decode(compression, images[n as int].chunks, pieces(data, size)),
    ensures
        read_image(
            stream(lead, images, big),
            big,
            directory_offset(images, big, lead.len(), n) as int,
        ) == Some(data),
{
    let image = images[n as int];
    let at = directory_offset(images, big, lead.len(), n);
    law_images_are_read_back(lead, images, big, n);
    lemma_entry_stays(
        image,
        big,
        at,
        Tag::Compression,
        field_of(compression.spec_method().code()),
    );
    lemma_read_image(
        stream(lead, images, big),
        big,
        at as int,
        image.directory(big, at),
        compression,
        data,
        size,
    );
}

/// What was written is read back: where the data of an image became strips, a reader that starts
/// at the header finds the image after all others, with that data and with every entry that the
/// encoder held.
pub proof fn law_written_image_is_read_back(
    lead: Seq<u8>,
    images: Seq<Image>,
    state: EncoderState,
    compression: Compression,
    chunks: Seq<Seq<u8>>,
    data: Seq<u8>,
    size: nat,
)
    requires
        has_written(state, images, lead.len()),
        all_representable(
            images.push(Image { fields: state.fields, chunks }),
            state.big_tiff,
            lead.len(),
        ),
        stream(
            lead,
            images.push(Image { fields: state.fields, chunks }),
            state.big_tiff,
        ).len() <= u64::MAX,
        entry_is(
            state.fields,
            Tag::Compression,
            field_of(compression.spec_method().code()),
        ),
        size > 0,
        all_decode(compression, chunks, pieces(data, size)),
    ensures
        ({
            let big = state.big_tiff;
            let before = stream(lead, images, big);
            let position = before.len() as u64;
            let after = state.update(chunks, position).applied(before);
            let at = read_directory_offset(after, big, lead.len() as int, images.len()) as int;
            &&& read_image(after, big, at) == Some(data)
            &&& read_strips(after, big, at) == chunks
            &&& read_next(after, big, at) == 0
            &&& forall|tag: Tag, field: Field|
                #![trigger entry_is(state.fields, tag, field)]
                entry_is(state.fields, tag, field) && !tells_strips(tag) ==> find(
                    read_directory(after, big, at),
                    tag,
                ) == Some(field)
        }),
{
    let big = state.big_tiff;
    let base = lead.len();
    let image = Image { fields: state.fields, chunks };
    let more = images.push(image);
    let n = images.len();
    let at = directory_offset(more, big, base, n);
    law_image_is_appended(lead, images, state, chunks);
    law_directories_are_found(lead, more, big, n);
    law_images_are_read_back(lead, more, big, n);
    law_image_data_is_read_back(lead, more, big, n, compression, data, size);
    assert forall|tag: Tag, field: Field|
        #![trigger entry_is(state.fields, tag, field)]
        entry_is(state.fields, tag, field) && !tells_strips(tag) implies find(
        sorted(image.directory(big, at)),
        tag,
    ) == Some(field) by {
        lemma_entry_stays(image, big, at, tag, field);
        lemma_find(image.directory(big, at), tag);
    }
}

/// An image that was written with all its data is read back, with entries that describe it.
pub proof fn law_image_round_trip(
    lead: Seq<u8>,
    images: Seq<Image>,
    state: EncoderState,
    width: u32,
    height: u32,
    interpretation: PhotometricInterpretation,
    data: Seq<u8>,
    chunks: Seq<Seq<u8>>,
)
    requires
        has_written(state, images, lead.len()),
        state.strip_bytes(width, interpretation) > 0,
        all_decode(
            state.compression,
            chunks,
            pieces(data, state.strip_bytes(width, interpretation)),
        ),
        all_representable(
            images.push(
                Image { fields: state.begun(width, height, interpretation).fields, chunks },
            ),
            state.big_tiff,
            lead.len(),
        ),
        stream(
            lead,
            images.push(
                Image { fields: state.begun(width, height, interpretation).fields, chunks },
            ),
            state.big_tiff,
        ).len() <= u64::MAX,
    ensures
        ({
            let big = state.big_tiff;
            let begun = state.begun(width, height, interpretation);
            let before = stream(lead, images, big);
            let after = begun.update(chunks, before.len() as u64).applied(before);
            let at = read_directory_offset(after, big, lead.len() as int, images.len()) as int;
            &&& read_image(after, big, at) == Some(data)
            &&& describes(begun.fields, state, width, height, interpretation)
            &&& forall|tag: Tag, field: Field|
                #![trigger entry_is(begun.fields, tag, field)]
                entry_is(begun.fields, tag, field) ==> find(read_directory(after, big, at), tag)
                    == Some(field)
            &&& has_written(
                begun.ended(chunks, before.len() as u64),
                images.push(Image { fields: begun.fields, chunks }),
                lead.len(),
            )
        }),
{
    let begun = state.begun(width, height, interpretation);
    let more = images.push(Image { fields: begun.fields, chunks });
    law_begun_image_is_described(state, width, height, interpretation);
    law_image_is_appended(lead, images, begun, chunks);
    law_written_image_is_read_back(
        lead,
        images,
        begun,
        state.compression,
        chunks,
        data,
        state.strip_bytes(width, interpretation),
    );
}

/// Writing one more image changes nothing of what is read of the others.
pub proof fn law_other_images_stay(
    lead: Seq<u8>,
    images: Seq<Image>,
    added: Image,
    big: bool,
    n: nat,
)
    requires
        all_representable(images.push(added), big, lead.len()),
        n < images.len(),
    ensures
        ({
            let before = stream(lead, images, big);
            let after = stream(lead, images.push(added), big);
            let base = lead.len() as int;
            let at = read_directory_offset(before, big, base, n);
            &&& read_directory_offset(after, big, base, n) == at
            &&& read_directory(after, big, at as int) == read_directory(before, big, at as int)
            &&& read_strips(after, big, at as int) == read_strips(before, big, at as int)
            &&& read_image(after, big, at as int) == read_image(before, big, at as int)
        }),
{
    let more = images.push(added);
    assert(more.take(images.len() as int) =~= images);
    assert forall|i: int| 0 <= i < images.len() implies (#[trigger] images[i]).representable(
        big,
        directory_offset(images, big, lead.len(), i as nat),
    ) by {
        lemma_directory_offset_prefix(images, more, big, lead.len(), i as nat);
        assert(more[i] == images[i]);
    }
    lemma_directory_offset_prefix(images, more, big, lead.len(), n);
    assert(more[n as int] == images[n as int]);
    law_directories_are_found(lead, images, big, n);
    law_directories_are_found(lead, more, big, n);
    law_images_are_read_back(lead, images, big, n);
    law_images_are_read_back(lead, more, big, n);
}

} // verus!
