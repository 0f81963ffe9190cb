//! Where everything stands in a file: the header, and for each image its directory, the data of
//! the directory entries and the strips.
//!
//! Offsets are taken from the start of the stream and are stored with the width of the file's
//! offsets, 4 bytes in a TIFF and 8 bytes in a BigTIFF file. An offset that does not fit in that
//! width is stored without its high-order bytes.

use crate::bytes::{
    concat, le_bytes, lemma_le_bytes_len, lemma_le_bytes_of_low_bits, lemma_low_bits_small,
    lemma_low_bits_sum, lemma_padded_len, low_bits, padded, push_le, push_padded, push_zeros,
    round_up, wrapping_sum, zeros,
};
use crate::encoder::directory::{
    fields_of, lemma_sorted, lemma_tag_order, listing, sorted, sorted_below, DirectoryEntry,
    Field, Fields,
};
use crate::tags::{Tag, Type};
use std::collections::BTreeMap;
use vstd::prelude::*;

verus! {

/// The width of an offset.
pub open spec fn word(big: bool) -> nat {
    if big {
        8
    } else {
        4
    }
}

/// The width of the number of entries at the start of a directory.
pub open spec fn count_width(big: bool) -> nat {
    if big {
        8
    } else {
        2
    }
}

/// The length of a directory entry: tag and type, then count and value.
pub open spec fn entry_len(big: bool) -> nat {
    4 + 2 * word(big)
}

/// The length of a directory with `count` entries.
pub open spec fn directory_len(big: bool, count: nat) -> nat {
    count_width(big) + count * entry_len(big) + word(big)
}

/// The length of the header.
pub open spec fn header_len(big: bool) -> nat {
    2 * word(big)
}

/// The header of a file whose first directory is at `first`.
pub open spec fn header(big: bool, first: nat) -> Seq<u8> {
    if big {
        seq![0x49u8, 0x49, 43, 0, 8, 0, 0, 0] + le_bytes(first, 8)
    } else {
        seq![0x49u8, 0x49, 42, 0] + le_bytes(first, 4)
    }
}

/// What `data` of an entry takes outside its directory: nothing where it fits in the entry.
pub open spec fn outside(data: Seq<u8>, big: bool) -> Seq<u8> {
    if data.len() > word(big) {
        padded(data, word(big))
    } else {
        Seq::empty()
    }
}

/// The data of `entries` that does not fit in them.
pub open spec fn data_area(entries: Seq<(u16, Field)>, big: bool) -> Seq<u8>
    decreases entries.len(),
{
    if entries.len() == 0 {
        Seq::empty()
    } else {
        data_area(entries.drop_last(), big) + outside(entries.last().1.data, big)
    }
}

/// The value of an entry with `data`, which stands at `offset` if it does not fit in the entry.
pub open spec fn value_bytes(data: Seq<u8>, big: bool, offset: nat) -> Seq<u8> {
    if data.len() > word(big) {
        le_bytes(offset, word(big))
    } else {
        data + zeros((word(big) - data.len()) as nat)
    }
}

/// An entry whose data stands at `offset` if it does not fit in the entry.
pub open spec fn entry_bytes(entry: (u16, Field), big: bool, offset: nat) -> Seq<u8> {
    le_bytes(entry.0 as nat, 2) + le_bytes(entry.1.data_type as nat, 2) + le_bytes(
        entry.1.count as nat,
        word(big),
    ) + value_bytes(entry.1.data, big, offset)
}

/// The entries of a directory, with the data that does not fit in them from `data_start` on.
pub open spec fn table(entries: Seq<(u16, Field)>, big: bool, data_start: nat) -> Seq<u8>
    decreases entries.len(),
{
    if entries.len() == 0 {
        Seq::empty()
    } else {
        let front = entries.drop_last();
        table(front, big, data_start) + entry_bytes(
            entries.last(),
            big,
            data_start + data_area(front, big).len(),
        )
    }
}

/// The directory at `at`, followed by the data of its entries. The next directory is at `next`.
pub open spec fn directory_bytes(
    entries: Seq<(u16, Field)>,
    big: bool,
    at: nat,
    next: nat,
) -> Seq<u8> {
    le_bytes(entries.len(), count_width(big)) + table(
        entries,
        big,
        at + directory_len(big, entries.len()),
    ) + le_bytes(next, word(big)) + data_area(entries, big)
}

/// The lengths of the strips, as the values of an entry.
pub open spec fn strip_counts(chunks: Seq<Seq<u8>>, big: bool) -> Seq<u8>
    decreases chunks.len(),
{
    if chunks.len() == 0 {
        Seq::empty()
    } else {
        strip_counts(chunks.drop_last(), big) + le_bytes(chunks.last().len(), word(big))
    }
}

/// The offsets of the strips from `start` on, as the values of an entry.
pub open spec fn strip_offsets(chunks: Seq<Seq<u8>>, big: bool, start: nat) -> Seq<u8>
    decreases chunks.len(),
{
    if chunks.len() == 0 {
        Seq::empty()
    } else {
        let front = chunks.drop_last();
        strip_offsets(front, big, start) + le_bytes(
            start + concat(front).len(),
            word(big),
        )
    }
}

/// An entry with one number for each strip.
pub open spec fn strip_field(chunks: Seq<Seq<u8>>, big: bool, data: Seq<u8>) -> Field {
    Field {
        data_type: if big {
            Type::LONG8.code()
        } else {
            Type::LONG.code()
        },
        count: chunks.len() as u64,
        data,
    }
}

/// `fields` with the entries for strips from `start` on.
pub open spec fn with_strips(
    fields: Fields,
    chunks: Seq<Seq<u8>>,
    big: bool,
    start: nat,
) -> Fields {
    fields.insert(
        Tag::StripByteCounts.code(),
        strip_field(chunks, big, strip_counts(chunks, big)),
    ).insert(Tag::StripOffsets.code(), strip_field(chunks, big, strip_offsets(chunks, big, start)))
}

/// Where the strips of an image start whose directory is at `at`. The lengths do not depend on
/// the offsets that the directory holds, so any offsets do to find them.
pub open spec fn strips_start(fields: Fields, chunks: Seq<Seq<u8>>, big: bool, at: nat) -> nat {
    let entries = sorted(with_strips(fields, chunks, big, 0));
    at + directory_len(big, entries.len()) + data_area(entries, big).len()
}

/// The entries of the directory at `at` of an image with other entries `fields`.
pub open spec fn image_fields(
    fields: Fields,
    chunks: Seq<Seq<u8>>,
    big: bool,
    at: nat,
) -> Fields {
    with_strips(fields, chunks, big, strips_start(fields, chunks, big, at))
}

/// An image whose directory is at `at`: its directory with the data of the entries, then its
/// strips, one after the other. The next directory is at `next`.
pub open spec fn image_bytes(
    fields: Fields,
    chunks: Seq<Seq<u8>>,
    big: bool,
    at: nat,
    next: nat,
) -> Seq<u8> {
    directory_bytes(sorted(image_fields(fields, chunks, big, at)), big, at, next) + concat(chunks)
}

/// Where, in an image whose directory is at `at`, the offset of the next directory stands.
pub open spec fn next_pointer(
    fields: Fields,
    chunks: Seq<Seq<u8>>,
    big: bool,
    at: nat,
) -> nat {
    let entries = sorted(image_fields(fields, chunks, big, at));
    at + count_width(big) + entries.len() * entry_len(big)
}

pub proof fn lemma_strip_entry_lens(chunks: Seq<Seq<u8>>, big: bool, start: nat)
    ensures
        strip_counts(chunks, big).len() == chunks.len() * word(big),
        strip_offsets(chunks, big, start).len() == chunks.len() * word(big),
    decreases chunks.len(),
{
    if chunks.len() > 0 {
        let front = chunks.drop_last();
        lemma_strip_entry_lens(front, big, start);
        lemma_le_bytes_len(chunks.last().len(), word(big));
        lemma_le_bytes_len(start + concat(front).len(), word(big));
        assert(chunks.len() * word(big) == front.len() * word(big) + word(big)) by (nonlinear_arith)
            requires
                chunks.len() == front.len() + 1,
        ;
    }
}

/// Whether the entries differ in nothing but the bytes of their data.
pub open spec fn same_shape(one: Fields, other: Fields) -> bool {
    &&& one.dom() == other.dom()
    &&& forall|tag: u16| #[trigger]
        one.contains_key(tag) ==> one[tag].data.len() == other[tag].data.len()
}

proof fn lemma_same_shape_below(one: Fields, other: Fields, big: bool, bound: nat)
    requires
        same_shape(one, other),
    ensures
        sorted_below(one, bound).len() == sorted_below(other, bound).len(),
        data_area(sorted_below(one, bound), big).len() == data_area(
            sorted_below(other, bound),
            big,
        ).len(),
    decreases bound,
{
    if bound > 0 {
        lemma_same_shape_below(one, other, big, (bound - 1) as nat);
        let tag = (bound - 1) as u16;
        assert(one.dom().contains(tag) == other.dom().contains(tag));
        if one.contains_key(tag) {
            let a = sorted_below(one, bound);
            let b = sorted_below(other, bound);
            assert(a.drop_last() =~= sorted_below(one, (bound - 1) as nat));
            assert(b.drop_last() =~= sorted_below(other, (bound - 1) as nat));
            if one[tag].data.len() > word(big) {
                lemma_padded_len(one[tag].data, word(big));
                lemma_padded_len(other[tag].data, word(big));
            }
        }
    }
}

/// Directories that differ in nothing but the bytes of their data take the same space.
pub proof fn lemma_same_shape(one: Fields, other: Fields, big: bool)
    requires
        same_shape(one, other),
    ensures
        sorted(one).len() == sorted(other).len(),
        data_area(sorted(one), big).len() == data_area(sorted(other), big).len(),
{
    lemma_same_shape_below(one, other, big, 0x1_0000);
}

/// The bytes of each chunk.
pub open spec fn contents(chunks: Seq<&[u8]>) -> Seq<Seq<u8>> {
    chunks.map_values(|chunk: &[u8]| chunk@)
}

/// Appends the strips, and the length of each one as a value of an entry. Gives back where each
/// strip starts after the start of the first one.
fn push_strips(
    chunks: &[&[u8]],
    big: bool,
    area: &mut Vec<u8>,
    counts: &mut Vec<u8>,
) -> (starts: Vec<u64>)
    requires
        old(area)@.len() == 0,
        old(counts)@.len() == 0,
    ensures
        final(area)@ == concat(contents(chunks@)),
        final(counts)@ == strip_counts(contents(chunks@), big),
        starts@.len() == chunks@.len(),
        forall|i: int|
            0 <= i < starts@.len() ==> (#[trigger] starts@[i]) as nat == concat(
                contents(chunks@).take(i),
            ).len(),
{
    let width: usize = if big {
        8
    } else {
        4
    };
    let ghost parts = contents(chunks@);
    let mut starts: Vec<u64> = Vec::new();
    let mut i: usize = 0;
    assert(parts.take(0) =~= Seq::empty());
    while i < chunks.len()
        invariant
            i <= chunks@.len(),
            parts == contents(chunks@),
            width as nat == word(big),
            area@ == concat(parts.take(i as int)),
            counts@ == strip_counts(parts.take(i as int), big),
            starts@.len() == i,
            forall|k: int|
                0 <= k < starts@.len() ==> (#[trigger] starts@[k]) as nat == concat(
                    parts.take(k),
                ).len(),
        decreases chunks@.len() - i,
    {
        starts.push(area.len() as u64);
        push_le(counts, chunks[i].len() as u64, width);
        area.extend_from_slice(chunks[i]);
        i = i + 1;
        assert(parts.take(i as int).drop_last() =~= parts.take(i - 1));
        assert(parts.take(i as int).last() == chunks@[i - 1]@);
    }
    assert(parts.take(i as int) =~= parts);
    starts
}

/// The offset of each strip as a value of an entry, where the first one starts at `start` and
/// the others `starts` after it.
fn strip_offset_values(
    Ghost(parts): Ghost<Seq<Seq<u8>>>,
    starts: &Vec<u64>,
    big: bool,
    start: u64,
    Ghost(exact): Ghost<nat>,
) -> (values: Vec<u8>)
    requires
        start == low_bits(exact),
        starts@.len() == parts.len(),
        forall|i: int|
            0 <= i < starts@.len() ==> (#[trigger] starts@[i]) as nat == concat(
                parts.take(i),
            ).len(),
    ensures
        values@ == strip_offsets(parts, big, exact),
{
    let width: usize = if big {
        8
    } else {
        4
    };
    let mut values: Vec<u8> = Vec::new();
    let mut i: usize = 0;
    assert(parts.take(0) =~= Seq::empty());
    while i < starts.len()
        invariant
            i <= starts@.len(),
            starts@.len() == parts.len(),
            start == low_bits(exact),
            width as nat == word(big),
            forall|k: int|
                0 <= k < starts@.len() ==> (#[trigger] starts@[k]) as nat == concat(
                    parts.take(k),
                ).len(),
            values@ == strip_offsets(parts.take(i as int), big, exact),
        decreases starts@.len() - i,
    {
        let offset: u64 = wrapping_sum(start, starts[i]);
        push_le(&mut values, offset, width);
        proof {
            let front = parts.take(i as int);
            assert(parts.take(i + 1).drop_last() =~= front);
            lemma_low_bits_sum(exact, concat(front).len());
            lemma_le_bytes_of_low_bits(exact + concat(front).len(), word(big));
        }
        i = i + 1;
    }
    assert(parts.take(i as int) =~= parts);
    values
}

/// The length of the data of the listed entries that does not fit in them.
fn data_area_len(list: &Vec<(u16, &DirectoryEntry)>, big: bool) -> (len: u64)
    ensures
        len == low_bits(data_area(entries_of(list@), big).len()),
{
    let width: usize = if big {
        8
    } else {
        4
    };
    let ghost entries = entries_of(list@);
    let mut len: u64 = 0;
    proof {
        lemma_low_bits_small(0);
    }
    let mut i: usize = 0;
    assert(entries.take(0) =~= Seq::empty());
    while i < list.len()
        invariant
            i <= list@.len(),
            entries == entries_of(list@),
            width as nat == word(big),
            len == low_bits(data_area(entries.take(i as int), big).len()),
        decreases list@.len() - i,
    {
        let size: usize = list[i].1.data.len();
        proof {
            assert(entries.take(i + 1).drop_last() =~= entries.take(i as int));
            assert(entries.take(i + 1).last() == entries[i as int]);
            if size > width {
                lemma_padded_len(entries[i as int].1.data, word(big));
            }
        }
        if size > width {
            let gap: usize = (width - size % width) % width;
            let ghost prior = data_area(entries.take(i as int), big).len();
            let part: u64 = wrapping_sum(len, size as u64);
            len = wrapping_sum(part, gap as u64);
            proof {
                lemma_low_bits_sum(prior, size as nat);
                lemma_low_bits_sum(prior + size as nat, gap as nat);
                assert(round_up(size as nat, word(big)) == size + gap);
                assert(data_area(entries.take(i + 1), big).len() == prior + size + gap);
            }
        }
        i = i + 1;
    }
    assert(entries.take(i as int) =~= entries);
    len
}

/// The entries in a list of them.
pub open spec fn entries_of(list: Seq<(u16, &DirectoryEntry)>) -> Seq<(u16, Field)> {
    list.map_values(|entry: (u16, &DirectoryEntry)| (entry.0, entry.1@))
}

/// Appends an entry, whose data stands at `position` if it does not fit in the entry.
fn push_entry(
    out: &mut Vec<u8>,
    tag: u16,
    entry: &DirectoryEntry,
    big: bool,
    position: u64,
    Ghost(exact): Ghost<nat>,
)
    requires
        position == low_bits(exact),
    ensures
        final(out)@ == old(out)@ + entry_bytes((tag, entry@), big, exact),
{
    let width: usize = if big {
        8
    } else {
        4
    };
    let ghost before = out@;
    push_le(out, tag as u64, 2);
    push_le(out, entry.data_type as u64, 2);
    push_le(out, entry.count, width);
    if entry.data.len() > width {
        push_le(out, position, width);
        proof {
            lemma_le_bytes_of_low_bits(exact, word(big));
        }
    } else {
        out.extend_from_slice(entry.data.as_slice());
        push_zeros(out, width - entry.data.len());
    }
    assert(out@ =~= before + entry_bytes((tag, entry@), big, exact));
}

/// Appends the last directory of a file, with the data of its entries. The directory is at `at`.
fn push_directory(
    out: &mut Vec<u8>,
    list: &Vec<(u16, &DirectoryEntry)>,
    big: bool,
    at: u64,
    Ghost(exact): Ghost<nat>,
)
    requires
        at == low_bits(exact),
        list@.len() <= 0x1_0000,
    ensures
        final(out)@ == old(out)@ + directory_bytes(entries_of(list@), big, exact, 0),
{
    let width: usize = if big {
        8
    } else {
        4
    };
    let ghost before = out@;
    let ghost entries = entries_of(list@);
    let ghost exact_start = exact + directory_len(big, entries.len());
    let ghost lead = le_bytes(entries.len(), count_width(big));
    let fixed: u64 = if big {
        8 + 20 * list.len() as u64 + 8
    } else {
        2 + 12 * list.len() as u64 + 4
    };
    let data_start: u64 = wrapping_sum(at, fixed);
    proof {
        let count = entries.len();
        if big {
            assert(count * entry_len(big) == 20 * count) by (nonlinear_arith)
                requires
                    entry_len(big) == 20,
            ;
        } else {
            assert(count * entry_len(big) == 12 * count) by (nonlinear_arith)
                requires
                    entry_len(big) == 12,
            ;
        }
        lemma_low_bits_sum(exact, directory_len(big, count));
    }
    if big {
        push_le(out, list.len() as u64, 8);
    } else {
        push_le(out, list.len() as u64, 2);
    }
    let mut area: Vec<u8> = Vec::new();
    let mut i: usize = 0;
    assert(entries.take(0) =~= Seq::empty());
    assert(out@ =~= before + lead + table(entries.take(0), big, exact_start));
    while i < list.len()
        invariant
            i <= list@.len(),
            entries == entries_of(list@),
            width as nat == word(big),
            data_start == low_bits(exact_start),
            area@ == data_area(entries.take(i as int), big),
            out@ == before + lead + table(entries.take(i as int), big, exact_start),
        decreases list@.len() - i,
    {
        let entry: (u16, &DirectoryEntry) = list[i];
        let ghost front = entries.take(i as int);
        let ghost offset = exact_start + data_area(front, big).len();
        let position: u64 = wrapping_sum(data_start, area.len() as u64);
        proof {
            lemma_low_bits_sum(exact_start, data_area(front, big).len());
            assert(entries.take(i + 1).drop_last() =~= front);
            assert(entries.take(i + 1).last() == (entry.0, entry.1@));
        }
        let ghost done = out@;
        push_entry(out, entry.0, entry.1, big, position, Ghost(offset));
        if entry.1.data.len() > width {
            push_padded(&mut area, entry.1.data.as_slice(), width);
        }
        proof {
            let added = entry_bytes((entry.0, entry.1@), big, offset);
            assert(done + added =~= before + lead + (table(front, big, exact_start) + added));
            assert(area@ =~= data_area(entries.take(i + 1), big));
        }
        i = i + 1;
    }
    assert(entries.take(i as int) =~= entries);
    push_le(out, 0, width);
    out.extend_from_slice(area.as_slice());
    assert(out@ =~= before + directory_bytes(entries, big, exact, 0));
}

proof fn lemma_insert_entry(ifd: Map<u16, DirectoryEntry>, tag: u16, entry: DirectoryEntry)
    ensures
        fields_of(ifd.insert(tag, entry)) == fields_of(ifd).insert(tag, entry@),
{
    assert(fields_of(ifd.insert(tag, entry)) =~= fields_of(ifd).insert(tag, entry@));
}

/// Puts an entry with one number for each strip into `ifd`.
fn insert_strip_entry(
    ifd: &mut BTreeMap<u16, DirectoryEntry>,
    tag: Tag,
    chunks: &[&[u8]],
    big: bool,
    data: Vec<u8>,
)
    ensures
        fields_of(final(ifd)@) == fields_of(old(ifd)@).insert(
            tag.code(),
            strip_field(contents(chunks@), big, data@),
        ),
{
    let data_type: u16 = if big {
        Type::LONG8.to_u16()
    } else {
        Type::LONG.to_u16()
    };
    let entry = DirectoryEntry { data_type, count: chunks.len() as u64, data };
    proof {
        lemma_tag_order();
        lemma_insert_entry(ifd@, tag.code(), entry);
    }
    ifd.insert(tag.to_u16(), entry);
}

/// Appends the last image of a file, whose directory is at `at` and has the entries in `ifd` and
/// those for the strips, which are put into `ifd`. Gives back where the offset of the next
/// directory stands.
#[verifier::rlimit(30)]
pub(crate) fn push_image(
    out: &mut Vec<u8>,
    ifd: &mut BTreeMap<u16, DirectoryEntry>,
    chunks: &[&[u8]],
    big: bool,
    at: u64,
    Ghost(exact): Ghost<nat>,
) -> (next: u64)
    requires
        at == low_bits(exact),
    ensures
        fields_of(final(ifd)@) == image_fields(
            fields_of(old(ifd)@),
            contents(chunks@),
            big,
            exact,
        ),
        final(out)@ == old(out)@ + image_bytes(
            fields_of(old(ifd)@),
            contents(chunks@),
            big,
            exact,
            0,
        ),
        next == low_bits(next_pointer(fields_of(old(ifd)@), contents(chunks@), big, exact)),
{
    let ghost before = out@;
    let ghost fields = fields_of(ifd@);
    let ghost parts = contents(chunks@);
    let mut area: Vec<u8> = Vec::new();
    let mut counts: Vec<u8> = Vec::new();
    let starts = push_strips(chunks, big, &mut area, &mut counts);
    let mut unknown: Vec<u8> = Vec::new();
    push_zeros(&mut unknown, counts.len());
    insert_strip_entry(ifd, Tag::StripByteCounts, chunks, big, counts);
    insert_strip_entry(ifd, Tag::StripOffsets, chunks, big, unknown);
    let ghost draft = fields_of(ifd@);
    let list = listing(&*ifd);
    let count: usize = list.len();
    proof {
        assert(entries_of(list@) =~= sorted(draft));
        lemma_sorted(draft);
        lemma_strip_entry_lens(parts, big, 0);
        assert(same_shape(draft, with_strips(fields, parts, big, 0))) by {
            assert(draft.dom() =~= with_strips(fields, parts, big, 0).dom());
        }
        lemma_same_shape(draft, with_strips(fields, parts, big, 0), big);
    }
    let fixed: u64 = if big {
        8 + 20 * count as u64 + 8
    } else {
        2 + 12 * count as u64 + 4
    };
    let data_start: u64 = wrapping_sum(at, fixed);
    let len: u64 = data_area_len(&list, big);
    let start: u64 = wrapping_sum(data_start, len);
    let ghost exact_start = strips_start(fields, parts, big, exact);
    proof {
        if big {
            assert(count * entry_len(big) == 20 * count) by (nonlinear_arith)
                requires
                    entry_len(big) == 20,
            ;
        } else {
            assert(count * entry_len(big) == 12 * count) by (nonlinear_arith)
                requires
                    entry_len(big) == 12,
            ;
        }
        let data_len = data_area(sorted(draft), big).len();
        lemma_low_bits_sum(exact, fixed as nat);
        lemma_low_bits_sum(exact + fixed as nat, low_bits(data_len));
        lemma_low_bits_sum(data_len, exact + fixed as nat);
        assert(start == low_bits(exact_start));
    }
    let offsets = strip_offset_values(Ghost(parts), &starts, big, start, Ghost(exact_start));
    insert_strip_entry(ifd, Tag::StripOffsets, chunks, big, offsets);
    let ghost complete = image_fields(fields, parts, big, exact);
    assert(fields_of(ifd@) =~= complete);
    let list = listing(&*ifd);
    proof {
        assert(entries_of(list@) =~= sorted(complete));
        lemma_sorted(complete);
        assert(same_shape(draft, complete)) by {
            lemma_strip_entry_lens(parts, big, exact_start);
            assert(draft.dom() =~= complete.dom());
        }
        lemma_same_shape(draft, complete, big);
    }
    push_directory(out, &list, big, at, Ghost(exact));
    out.extend_from_slice(area.as_slice());
    assert(out@ =~= before + image_bytes(fields, parts, big, exact, 0));
    let width: u64 = if big {
        8
    } else {
        4
    };
    let next: u64 = wrapping_sum(at, fixed - width);
    proof {
        lemma_low_bits_sum(exact, (fixed - width) as nat);
    }
    next
}

} // verus!
