//! What a reader finds in a file.
//!
//! The functions here say what the bytes of a TIFF or BigTIFF file mean, from the file alone. The
//! lemmas show that the meaning of what the encoder writes is what was to be written.

use crate::bytes::{
    concat, fits, le_bytes, le_value, lemma_le_bytes_len, lemma_le_round_trip, lemma_padded_len,
    padded, zeros,
};
use crate::encoder::compression::decoded;
use crate::encoder::directory::{all_well_formed, lemma_sorted, sorted, Field, Fields};
use crate::encoder::layout::{
    count_width, data_area, directory_bytes, directory_len, entry_bytes, entry_len, image_bytes,
    image_fields, lemma_same_shape, lemma_strip_entry_lens, outside, same_shape, strip_counts,
    strip_field, strip_offsets, strips_start, table, value_bytes, with_strips, word,
};
use crate::tags::{type_size, CompressionMethod, Tag};
use vstd::arithmetic::power::pow;
use vstd::prelude::*;

verus! {

/// The number in the `width` bytes at `at`.
pub open spec fn read_number(file: Seq<u8>, at: int, width: nat) -> nat {
    le_value(file.subrange(at, at + width))
}

/// The directory entry at `at`.
pub open spec fn read_entry(file: Seq<u8>, big: bool, at: int) -> (u16, Field) {
    let data_type = read_number(file, at + 2, 2) as u16;
    let count = read_number(file, at + 4, word(big)) as u64;
    let size = type_size(data_type) * count;
    let value = at + 4 + word(big);
    let start = if size > word(big) {
        read_number(file, value, word(big)) as int
    } else {
        value
    };
    (
        read_number(file, at, 2) as u16,
        Field { data_type, count, data: file.subrange(start, start + size) },
    )
}

/// The number of entries of the directory at `at`.
pub open spec fn read_entry_count(file: Seq<u8>, big: bool, at: int) -> nat {
    read_number(file, at, count_width(big))
}

/// The entries of the directory at `at`.
pub open spec fn read_directory(file: Seq<u8>, big: bool, at: int) -> Seq<(u16, Field)> {
    Seq::new(
        read_entry_count(file, big, at),
        |i: int| read_entry(file, big, at + count_width(big) + i * entry_len(big)),
    )
}

/// Where the directory after the one at `at` is. There is none if this is zero.
pub open spec fn read_next(file: Seq<u8>, big: bool, at: int) -> nat {
    read_number(
        file,
        at + count_width(big) + read_entry_count(file, big, at) * entry_len(big),
        word(big),
    )
}

/// The entry for `tag` among `entries`.
pub open spec fn find(entries: Seq<(u16, Field)>, tag: Tag) -> Option<Field> {
    if exists|i: int| 0 <= i < entries.len() && (#[trigger] entries[i]).0 == tag.code() {
        let i = choose|i: int| 0 <= i < entries.len() && (#[trigger] entries[i]).0 == tag.code();
        Some(entries[i].1)
    } else {
        None
    }
}

/// The value with the number `i` of an entry.
pub open spec fn value_at(field: Field, i: int) -> nat {
    let size = type_size(field.data_type);
    le_value(field.data.subrange(i * size, i * size + size))
}

/// The strips of the image with the directory at `at`, as they stand in the file.
pub open spec fn read_strips(file: Seq<u8>, big: bool, at: int) -> Seq<Seq<u8>> {
    let entries = read_directory(file, big, at);
    let offsets = find(entries, Tag::StripOffsets)->0;
    let counts = find(entries, Tag::StripByteCounts)->0;
    Seq::new(
        counts.count as nat,
        |i: int|
            file.subrange(
                value_at(offsets, i) as int,
                value_at(offsets, i) as int + value_at(counts, i) as int,
            ),
    )
}

/// The compression method with the number `code`.
pub open spec fn method_with_code(code: nat) -> Option<CompressionMethod> {
    if code == CompressionMethod::Uncompressed.code() {
        Some(CompressionMethod::Uncompressed)
    } else if code == CompressionMethod::LZW.code() {
        Some(CompressionMethod::LZW)
    } else if code == CompressionMethod::Deflate.code() {
        Some(CompressionMethod::Deflate)
    } else if code == CompressionMethod::PackBits.code() {
        Some(CompressionMethod::PackBits)
    } else {
        None
    }
}

/// What all of `strips` stand for, one after the other, or `None` if one stands for nothing.
pub open spec fn all_decoded(method: CompressionMethod, strips: Seq<Seq<u8>>) -> Option<Seq<u8>> {
    if forall|i: int| 0 <= i < strips.len() ==> decoded(method, #[trigger] strips[i]) is Some {
        Some(concat(strips.map_values(|strip: Seq<u8>| decoded(method, strip)->0)))
    } else {
        None
    }
}

/// The data of the image with the directory at `at`.
pub open spec fn read_image(file: Seq<u8>, big: bool, at: int) -> Option<Seq<u8>> {
    match find(read_directory(file, big, at), Tag::Compression) {
        Some(field) => match method_with_code(value_at(field, 0)) {
            Some(method) => all_decoded(method, read_strips(file, big, at)),
            None => None,
        },
        None => None,
    }
}

/// Where the directory with the number `n` is, in a file that starts at `base`.
pub open spec fn read_directory_offset(file: Seq<u8>, big: bool, base: int, n: nat) -> nat
    decreases n,
{
    if n == 0 {
        read_number(file, base + word(big), word(big))
    } else {
        read_next(file, big, read_directory_offset(file, big, base, (n - 1) as nat) as int)
    }
}

/// Whether `part` stands in `file` at `at`.
pub open spec fn holds(file: Seq<u8>, at: int, part: Seq<u8>) -> bool {
    &&& 0 <= at
    &&& at + part.len() <= file.len()
    &&& file.subrange(at, at + part.len()) == part
}

pub proof fn lemma_holds_concat(file: Seq<u8>, at: int, a: Seq<u8>, b: Seq<u8>)
    requires
        holds(file, at, a + b),
    ensures
        holds(file, at, a),
        holds(file, at + a.len(), b),
{
    let both = file.subrange(at, at + (a + b).len());
    assert(file.subrange(at, at + a.len()) =~= both.take(a.len() as int));
    assert(both.take(a.len() as int) =~= a);
    assert(file.subrange(at + a.len(), at + a.len() + b.len()) =~= both.skip(a.len() as int));
    assert(both.skip(a.len() as int) =~= b);
}

pub proof fn lemma_holds_part(file: Seq<u8>, at: int, whole: Seq<u8>, start: int, part: Seq<u8>)
    requires
        holds(file, at, whole),
        holds(whole, start, part),
    ensures
        holds(file, at + start, part),
{
    assert(file.subrange(at + start, at + start + part.len()) =~= file.subrange(
        at,
        at + whole.len(),
    ).subrange(start, start + part.len()));
}

/// A number that fits in its field is read back.
pub proof fn lemma_read_number(file: Seq<u8>, at: int, value: nat, width: nat)
    requires
        holds(file, at, le_bytes(value, width)),
        fits(value, width),
    ensures
        read_number(file, at, width) == value,
{
    lemma_le_bytes_len(value, width);
    lemma_le_round_trip(value, width);
}

pub proof fn lemma_holds_prefix(a: Seq<u8>, b: Seq<u8>, at: int, part: Seq<u8>)
    requires
        holds(a, at, part),
    ensures
        holds(a + b, at, part),
{
    assert((a + b).subrange(at, at + part.len()) =~= a.subrange(at, at + part.len()));
}

pub proof fn lemma_holds_suffix(a: Seq<u8>, b: Seq<u8>)
    ensures
        holds(a + b, a.len() as int, b),
{
    assert((a + b).subrange(a.len() as int, (a + b).len() as int) =~= b);
}

pub proof fn lemma_entry_bytes_len(entry: (u16, Field), big: bool, offset: nat)
    ensures
        entry_bytes(entry, big, offset).len() == entry_len(big),
{
    lemma_le_bytes_len(entry.0 as nat, 2);
    lemma_le_bytes_len(entry.1.data_type as nat, 2);
    lemma_le_bytes_len(entry.1.count as nat, word(big));
    lemma_le_bytes_len(offset, word(big));
}

/// The entries of a directory stand one after the other.
pub proof fn lemma_table(entries: Seq<(u16, Field)>, big: bool, data_start: nat)
    ensures
        table(entries, big, data_start).len() == entries.len() * entry_len(big),
        forall|i: int|
            #![trigger entries[i]]
            0 <= i < entries.len() ==> holds(
                table(entries, big, data_start),
                i * entry_len(big),
                entry_bytes(
                    entries[i],
                    big,
                    data_start + data_area(entries.take(i), big).len(),
                ),
            ),
    decreases entries.len(),
{
    if entries.len() > 0 {
        let front = entries.drop_last();
        let n = front.len();
        let start = table(front, big, data_start);
        let offset = data_start + data_area(front, big).len();
        let end = entry_bytes(entries.last(), big, offset);
        lemma_table(front, big, data_start);
        lemma_entry_bytes_len(entries.last(), big, offset);
        assert(entries.len() * entry_len(big) == n * entry_len(big) + entry_len(big))
            by (nonlinear_arith)
            requires
                entries.len() == n + 1,
        ;
        assert forall|i: int|
            #![trigger entries[i]]
            0 <= i < entries.len() implies holds(
            table(entries, big, data_start),
            i * entry_len(big),
            entry_bytes(entries[i], big, data_start + data_area(entries.take(i), big).len()),
        ) by {
            if i < n {
                assert(front[i] == entries[i]);
                assert(front.take(i) =~= entries.take(i));
                lemma_holds_prefix(
                    start,
                    end,
                    i * entry_len(big),
                    entry_bytes(
                        front[i],
                        big,
                        data_start + data_area(front.take(i), big).len(),
                    ),
                );
            } else {
                assert(entries.take(i) =~= front);
                lemma_holds_suffix(start, end);
            }
        }
    }
}

/// The data that does not fit in the entries stands one after the other.
pub proof fn lemma_data_area(entries: Seq<(u16, Field)>, big: bool)
    ensures
        forall|i: int|
            #![trigger entries[i]]
            0 <= i < entries.len() ==> holds(
                data_area(entries, big),
                data_area(entries.take(i), big).len() as int,
                outside(entries[i].1.data, big),
            ),
    decreases entries.len(),
{
    if entries.len() > 0 {
        let front = entries.drop_last();
        let start = data_area(front, big);
        let end = outside(entries.last().1.data, big);
        lemma_data_area(front, big);
        assert forall|i: int| #![trigger entries[i]] 0 <= i < entries.len() implies holds(
            data_area(entries, big),
            data_area(entries.take(i), big).len() as int,
            outside(entries[i].1.data, big),
        ) by {
            if i < front.len() {
                assert(front[i] == entries[i]);
                assert(front.take(i) =~= entries.take(i));
                lemma_holds_prefix(
                    start,
                    end,
                    data_area(front.take(i), big).len() as int,
                    outside(front[i].1.data, big),
                );
            } else {
                assert(entries.take(i) =~= front);
                lemma_holds_suffix(start, end);
            }
        }
    }
}

/// The strips stand one after the other.
pub proof fn lemma_strips_stand(chunks: Seq<Seq<u8>>)
    ensures
        forall|i: int|
            #![trigger chunks[i]]
            0 <= i < chunks.len() ==> holds(
                concat(chunks),
                concat(chunks.take(i)).len() as int,
                chunks[i],
            ),
    decreases chunks.len(),
{
    if chunks.len() > 0 {
        let front = chunks.drop_last();
        let start = concat(front);
        let end = chunks.last();
        lemma_strips_stand(front);
        assert forall|i: int| #![trigger chunks[i]] 0 <= i < chunks.len() implies holds(
            concat(chunks),
            concat(chunks.take(i)).len() as int,
            chunks[i],
        ) by {
            if i < front.len() {
                assert(front[i] == chunks[i]);
                assert(front.take(i) =~= chunks.take(i));
                lemma_holds_prefix(start, end, concat(front.take(i)).len() as int, front[i]);
            } else {
                assert(chunks.take(i) =~= front);
                lemma_holds_suffix(start, end);
            }
        }
    }
}

/// The numbers of an entry with one number for each strip stand one after the other.
pub proof fn lemma_strip_values(chunks: Seq<Seq<u8>>, big: bool, start: nat)
    ensures
        forall|i: int|
            #![trigger chunks[i]]
            0 <= i < chunks.len() ==> {
                &&& holds(
                    strip_counts(chunks, big),
                    i * word(big),
                    le_bytes(chunks[i].len(), word(big)),
                )
                &&& holds(
                    strip_offsets(chunks, big, start),
                    i * word(big),
                    le_bytes(start + concat(chunks.take(i)).len(), word(big)),
                )
            },
    decreases chunks.len(),
{
    if chunks.len() > 0 {
        let front = chunks.drop_last();
        let n = front.len();
        let len = le_bytes(chunks.last().len(), word(big));
        let offset = le_bytes(start + concat(front).len(), word(big));
        lemma_strip_values(front, big, start);
        lemma_strip_entry_lens(front, big, start);
        assert forall|i: int| #![trigger chunks[i]] 0 <= i < chunks.len() implies {
            &&& holds(
                strip_counts(chunks, big),
                i * word(big),
                le_bytes(chunks[i].len(), word(big)),
            )
            &&& holds(
                strip_offsets(chunks, big, start),
                i * word(big),
                le_bytes(start + concat(chunks.take(i)).len(), word(big)),
            )
        } by {
            if i < n {
                assert(front[i] == chunks[i]);
                assert(front.take(i) =~= chunks.take(i));
                lemma_holds_prefix(
                    strip_counts(front, big),
                    len,
                    i * word(big),
                    le_bytes(front[i].len(), word(big)),
                );
                lemma_holds_prefix(
                    strip_offsets(front, big, start),
                    offset,
                    i * word(big),
                    le_bytes(start + concat(front.take(i)).len(), word(big)),
                );
            } else {
                assert(chunks.take(i) =~= front);
                lemma_holds_suffix(strip_counts(front, big), len);
                lemma_holds_suffix(strip_offsets(front, big, start), offset);
            }
        }
    }
}

/// Every number below 65536 fits in a field of 2 bytes, and small ones fit in all fields.
pub proof fn lemma_fits_small(value: nat, big: bool)
    ensures
        value < 0x1_0000 ==> fits(value, 2),
        value <= 8 ==> fits(value, word(big)),
        fits(0, word(big)),
{
    assert(pow(256, 2) == 0x1_0000) by {
        reveal_with_fuel(pow, 3);
    }
    assert(pow(256, 4) == 0x1_0000_0000) by {
        reveal_with_fuel(pow, 5);
    }
    assert(pow(256, 8) == 0x1_0000_0000_0000_0000) by {
        reveal_with_fuel(pow, 9);
    }
}

/// An entry is read back.
pub proof fn lemma_read_entry(
    file: Seq<u8>,
    big: bool,
    at: int,
    entry: (u16, Field),
    offset: nat,
    end: nat,
)
    requires
        holds(file, at, entry_bytes(entry, big, offset)),
        holds(file, offset as int, outside(entry.1.data, big)),
        entry.1.well_formed(),
        offset + outside(entry.1.data, big).len() <= end,
        fits(end, word(big)),
    ensures
        read_entry(file, big, at) == entry,
{
    let w = word(big);
    let data = entry.1.data;
    let tag = le_bytes(entry.0 as nat, 2);
    let kind = le_bytes(entry.1.data_type as nat, 2);
    let count = le_bytes(entry.1.count as nat, w);
    let value = value_bytes(data, big, offset);
    lemma_le_bytes_len(entry.0 as nat, 2);
    lemma_le_bytes_len(entry.1.data_type as nat, 2);
    lemma_le_bytes_len(entry.1.count as nat, w);
    lemma_holds_concat(file, at, tag + kind + count, value);
    lemma_holds_concat(file, at, tag + kind, count);
    lemma_holds_concat(file, at, tag, kind);
    lemma_fits_small(entry.0 as nat, big);
    lemma_fits_small(entry.1.data_type as nat, big);
    lemma_fits_small(entry.1.count as nat, big);
    let size = type_size(entry.1.data_type);
    assert(entry.1.count <= data.len()) by (nonlinear_arith)
        requires
            data.len() == size * entry.1.count,
            size >= 1,
    ;
    if data.len() > w {
        lemma_padded_len(data, w);
        assert(padded(data, w).len() >= data.len());
        lemma_read_number(file, at + 4 + w, offset, w);
        lemma_holds_concat(
            file,
            offset as int,
            data,
            zeros((padded(data, w).len() - data.len()) as nat),
        );
    } else {
        lemma_holds_concat(file, at + 4 + w, data, zeros((w - data.len()) as nat));
    }
    lemma_read_number(file, at, entry.0 as nat, 2);
    lemma_read_number(file, at + 2, entry.1.data_type as nat, 2);
    lemma_read_number(file, at + 4, entry.1.count as nat, w);
    assert(read_entry(file, big, at).1 =~= entry.1);
}

/// A directory is read back, and so is the offset of the next one.
pub proof fn lemma_read_directory(
    file: Seq<u8>,
    big: bool,
    at: nat,
    entries: Seq<(u16, Field)>,
    next: nat,
)
    requires
        holds(file, at as int, directory_bytes(entries, big, at, next)),
        forall|i: int| 0 <= i < entries.len() ==> (#[trigger] entries[i]).1.well_formed(),
        fits(entries.len(), count_width(big)),
        fits(at + directory_bytes(entries, big, at, next).len(), word(big)),
        fits(next, word(big)),
    ensures
        read_directory(file, big, at as int) == entries,
        read_next(file, big, at as int) == next,
        read_entry_count(file, big, at as int) == entries.len(),
{
    let w = word(big);
    let n = entries.len();
    let data_start = at + directory_len(big, n);
    let count = le_bytes(n, count_width(big));
    let rows = table(entries, big, data_start);
    let link = le_bytes(next, w);
    let area = data_area(entries, big);
    let end = at + directory_bytes(entries, big, at, next).len();
    lemma_le_bytes_len(n, count_width(big));
    lemma_le_bytes_len(next, w);
    lemma_table(entries, big, data_start);
    lemma_data_area(entries, big);
    lemma_holds_concat(file, at as int, count + rows + link, area);
    lemma_holds_concat(file, at as int, count + rows, link);
    lemma_holds_concat(file, at as int, count, rows);
    lemma_read_number(file, at as int, n, count_width(big));
    let first = at + count_width(big);
    lemma_read_number(file, (first + n * entry_len(big)) as int, next, w);
    assert(data_start == at + (count + rows + link).len());
    assert forall|i: int| 0 <= i < n implies read_entry(file, big, first + i * entry_len(big))
        == #[trigger] entries[i] by {
        let prior = data_area(entries.take(i), big).len();
        let bytes = entry_bytes(entries[i], big, data_start + prior);
        lemma_holds_part(file, first as int, rows, i * entry_len(big), bytes);
        lemma_holds_part(
            file,
            data_start as int,
            area,
            prior as int,
            outside(entries[i].1.data, big),
        );
        lemma_read_entry(
            file,
            big,
            first + i * entry_len(big),
            entries[i],
            data_start + prior,
            end,
        );
    }
    assert(read_directory(file, big, at as int) =~= entries);
}

/// An entry is found by its tag.
pub proof fn lemma_find(fields: Fields, tag: Tag)
    ensures
        find(sorted(fields), tag) == if fields.contains_key(tag.code()) {
            Some(fields[tag.code()])
        } else {
            None
        },
{
    let entries = sorted(fields);
    lemma_sorted(fields);
    if fields.contains_key(tag.code()) {
        let i = choose|i: int| 0 <= i < entries.len() && (#[trigger] entries[i]).0 == tag.code();
        assert(entries[i].0 == tag.code());
    }
}

pub proof fn lemma_directory_bytes_len(
    entries: Seq<(u16, Field)>,
    big: bool,
    at: nat,
    next: nat,
)
    ensures
        directory_bytes(entries, big, at, next).len() == directory_len(big, entries.len())
            + data_area(entries, big).len(),
{
    lemma_le_bytes_len(entries.len(), count_width(big));
    lemma_le_bytes_len(next, word(big));
    lemma_table(entries, big, at + directory_len(big, entries.len()));
}

/// The strips follow on the directory and the data of its entries, wherever these are.
pub proof fn lemma_image_shape(
    fields: Fields,
    chunks: Seq<Seq<u8>>,
    big: bool,
    at: nat,
    next: nat,
)
    ensures
        sorted(image_fields(fields, chunks, big, at)).len() == sorted(
            with_strips(fields, chunks, big, 0),
        ).len(),
        strips_start(fields, chunks, big, at) == at + directory_bytes(
            sorted(image_fields(fields, chunks, big, at)),
            big,
            at,
            next,
        ).len(),
        image_bytes(fields, chunks, big, at, next).len() == strips_start(fields, chunks, big, 0)
            + concat(chunks).len(),
{
    let draft = with_strips(fields, chunks, big, 0);
    let complete = image_fields(fields, chunks, big, at);
    lemma_strip_entry_lens(chunks, big, 0);
    lemma_strip_entry_lens(chunks, big, strips_start(fields, chunks, big, at));
    assert(same_shape(draft, complete)) by {
        assert(draft.dom() =~= complete.dom());
    }
    lemma_same_shape(draft, complete, big);
    lemma_directory_bytes_len(sorted(complete), big, at, next);
}

/// Whether nothing of the image gets lost in the fields of a file: its entries have known types
/// and matching lengths, and their number, every offset and the length of every strip fit in
/// their fields.
pub open spec fn representable(
    fields: Fields,
    chunks: Seq<Seq<u8>>,
    big: bool,
    at: nat,
) -> bool {
    &&& all_well_formed(fields)
    &&& fits(sorted(image_fields(fields, chunks, big, at)).len(), count_width(big))
    &&& fits(strips_start(fields, chunks, big, at), word(big))
    &&& strips_fit(chunks, big, strips_start(fields, chunks, big, at))
}

/// Whether the offset and the length of every strip fit in their fields, where the strips start
/// at `start`.
pub open spec fn strips_fit(chunks: Seq<Seq<u8>>, big: bool, start: nat) -> bool {
    forall|i: int|
        #![trigger chunks[i]]
        0 <= i < chunks.len() ==> {
            &&& fits(start + concat(chunks.take(i)).len(), word(big))
            &&& fits(chunks[i].len(), word(big))
        }
}

/// A strip is where its offset says, and as long as its byte count says.
proof fn lemma_read_strip(file: Seq<u8>, chunks: Seq<Seq<u8>>, big: bool, start: nat, i: int)
    requires
        0 <= i < chunks.len(),
        holds(file, start as int, concat(chunks)),
        strips_fit(chunks, big, start),
    ensures
        ({
            let offsets = strip_field(chunks, big, strip_offsets(chunks, big, start));
            let counts = strip_field(chunks, big, strip_counts(chunks, big));
            file.subrange(
                value_at(offsets, i) as int,
                value_at(offsets, i) as int + value_at(counts, i) as int,
            ) == chunks[i]
        }),
{
    let w = word(big);
    let prior = concat(chunks.take(i)).len();
    lemma_strip_values(chunks, big, start);
    lemma_strips_stand(chunks);
    lemma_holds_part(file, start as int, concat(chunks), prior as int, chunks[i]);
    lemma_read_number(strip_offsets(chunks, big, start), i * w, start + prior, w);
    lemma_read_number(strip_counts(chunks, big), i * w, chunks[i].len(), w);
}

/// All entries of an image have known types and matching lengths if those do that do not tell
/// where the strips are.
proof fn lemma_image_entries(
    fields: Fields,
    chunks: Seq<Seq<u8>>,
    big: bool,
    at: nat,
    next: nat,
)
    requires
        all_well_formed(fields),
        fits(
            at + directory_bytes(
                sorted(image_fields(fields, chunks, big, at)),
                big,
                at,
                next,
            ).len(),
            word(big),
        ),
    ensures
        chunks.len() <= u64::MAX,
        all_well_formed(image_fields(fields, chunks, big, at)),
        forall|i: int|
            0 <= i < sorted(image_fields(fields, chunks, big, at)).len() ==> (#[trigger] sorted(
                image_fields(fields, chunks, big, at),
            )[i]).1.well_formed(),
{
    let complete = image_fields(fields, chunks, big, at);
    let w = word(big);
    lemma_strip_entry_lens(chunks, big, strips_start(fields, chunks, big, at));
    lemma_many_strips(complete, chunks, big, at, next);
    lemma_sorted(complete);
    assert(chunks.len() * w == w * chunks.len()) by (nonlinear_arith);
    assert forall|tag: u16| #[trigger] complete.contains_key(tag) implies complete[
        tag
    ].well_formed() by {
        if tag != Tag::StripByteCounts.code() && tag != Tag::StripOffsets.code() {
            assert(fields.contains_key(tag));
        }
    }
}

/// The directory of an image, the offset of the next directory and the strips are read back.
#[verifier::rlimit(30)]
pub proof fn lemma_read_image_parts(
    file: Seq<u8>,
    fields: Fields,
    chunks: Seq<Seq<u8>>,
    big: bool,
    at: nat,
    next: nat,
)
    requires
        holds(file, at as int, image_bytes(fields, chunks, big, at, next)),
        representable(fields, chunks, big, at),
        fits(next, word(big)),
    ensures
        read_directory(file, big, at as int) == sorted(image_fields(fields, chunks, big, at)),
        read_next(file, big, at as int) == next,
        read_strips(file, big, at as int) == chunks,
{
    let w = word(big);
    let start = strips_start(fields, chunks, big, at);
    let complete = image_fields(fields, chunks, big, at);
    let entries = sorted(complete);
    let front = directory_bytes(entries, big, at, next);
    let area = concat(chunks);
    lemma_image_shape(fields, chunks, big, at, next);
    lemma_holds_concat(file, at as int, front, area);
    let counts = complete[Tag::StripByteCounts.code()];
    let offsets = complete[Tag::StripOffsets.code()];
    lemma_image_entries(fields, chunks, big, at, next);
    lemma_read_directory(file, big, at, entries, next);
    lemma_find(complete, Tag::StripOffsets);
    lemma_find(complete, Tag::StripByteCounts);
    assert forall|i: int| 0 <= i < chunks.len() implies file.subrange(
        value_at(offsets, i) as int,
        value_at(offsets, i) as int + value_at(counts, i) as int,
    ) == #[trigger] chunks[i] by {
        lemma_read_strip(file, chunks, big, start, i);
    }
    assert(read_strips(file, big, at as int) =~= chunks);
}

/// The number of strips is less than the length of the image, unless there is at most one.
proof fn lemma_many_strips(
    complete: Fields,
    chunks: Seq<Seq<u8>>,
    big: bool,
    at: nat,
    next: nat,
)
    requires
        complete.contains_key(Tag::StripByteCounts.code()),
        complete[Tag::StripByteCounts.code()].data.len() == chunks.len() * word(big),
        fits(at + directory_bytes(sorted(complete), big, at, next).len(), word(big)),
    ensures
        chunks.len() <= u64::MAX,
{
    let entries = sorted(complete);
    lemma_sorted(complete);
    lemma_data_area(entries, big);
    lemma_directory_bytes_len(entries, big, at, next);
    assert(pow(256, word(big)) <= 0x1_0000_0000_0000_0000) by {
        reveal_with_fuel(pow, 9);
    }
    let i = choose|i: int|
        0 <= i < entries.len() && (#[trigger] entries[i]).0 == Tag::StripByteCounts.code();
    let data = entries[i].1.data;
    assert(data.len() >= chunks.len()) by (nonlinear_arith)
        requires
            data.len() == chunks.len() * word(big),
            word(big) >= 1,
    ;
    if data.len() > word(big) {
        lemma_padded_len(data, word(big));
    }
}

} // verus!
