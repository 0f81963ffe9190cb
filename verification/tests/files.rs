use tiff::encoder::value::Rational;
use tiff::encoder::{Compression, StreamUpdate, TiffEncoder};
use tiff::tags::{PhotometricInterpretation, ResolutionUnit, SampleFormat, Tag};

fn number(file: &[u8], at: usize, width: usize) -> usize {
    file[at..at + width].iter().rev().fold(0, |value, byte| value * 256 + *byte as usize)
}

/// An entry: its tag, type, count and data.
type Entry = (usize, usize, usize, Vec<u8>);

/// The entries of the directory at `at` and the offset of the next one.
fn directory(file: &[u8], big: bool, at: usize) -> (Vec<Entry>, usize) {
    let (count_width, word) = if big { (8, 8) } else { (2, 4) };
    let count = number(file, at, count_width);
    let mut entries = Vec::new();
    let mut place = at + count_width;
    for _ in 0..count {
        let kind = number(file, place + 2, 2);
        let size = match kind {
            1 | 2 => 1,
            3 => 2,
            4 => 4,
            5 | 16 => 8,
            unexpected => panic!("unexpected type {}", unexpected),
        };
        let values = number(file, place + 4, word);
        let len = size * values;
        let value = place + 4 + word;
        let start = if len > word { number(file, value, word) } else { value };
        let data = file[start..start + len].to_vec();
        entries.push((number(file, place, 2), kind, values, data));
        place += 4 + 2 * word;
    }
    (entries, number(file, place, word))
}

fn first_directory(file: &[u8], big: bool, base: usize) -> usize {
    if big {
        assert_eq!(file[base..base + 8], [0x49, 0x49, 43, 0, 8, 0, 0, 0]);
        number(file, base + 8, 8)
    } else {
        assert_eq!(file[base..base + 4], [0x49, 0x49, 42, 0]);
        number(file, base + 4, 4)
    }
}

fn data_of(entries: &[Entry], tag: usize) -> Vec<u8> {
    entries.iter().find(|entry| entry.0 == tag).unwrap().3.clone()
}

fn strips(file: &[u8], big: bool, entries: &[Entry]) -> Vec<Vec<u8>> {
    let word = if big { 8 } else { 4 };
    let offsets = data_of(entries, 273);
    let lengths = data_of(entries, 279);
    (0..offsets.len() / word)
        .map(|i| {
            let start = number(&offsets, i * word, word);
            file[start..start + number(&lengths, i * word, word)].to_vec()
        })
        .collect()
}

fn gray(encoder: &mut TiffEncoder, width: u32, height: u32, data: &[u8], at: u64) -> StreamUpdate {
    encoder.write_image(width, height, PhotometricInterpretation::BlackIsZero, data, at).unwrap()
}

#[test]
fn small_file_byte_for_byte() {
    let mut encoder = TiffEncoder::new();
    let update = gray(&mut encoder, 2, 1, &[0xAB, 0xCD], 0);
    assert_eq!(update.link, None);
    let expected: Vec<u8> = vec![
        0x49, 0x49, 42, 0, 8, 0, 0, 0, // header
        13, 0, // number of entries
        0, 1, 4, 0, 1, 0, 0, 0, 2, 0, 0, 0, // ImageWidth
        1, 1, 4, 0, 1, 0, 0, 0, 1, 0, 0, 0, // ImageLength
        2, 1, 3, 0, 1, 0, 0, 0, 8, 0, 0, 0, // BitsPerSample
        3, 1, 3, 0, 1, 0, 0, 0, 1, 0, 0, 0, // Compression
        6, 1, 3, 0, 1, 0, 0, 0, 1, 0, 0, 0, // PhotometricInterpretation
        17, 1, 4, 0, 1, 0, 0, 0, 186, 0, 0, 0, // StripOffsets
        21, 1, 3, 0, 1, 0, 0, 0, 1, 0, 0, 0, // SamplesPerPixel
        22, 1, 4, 0, 1, 0, 0, 0, 0x20, 0xA1, 7, 0, // RowsPerStrip, 500,000
        23, 1, 4, 0, 1, 0, 0, 0, 2, 0, 0, 0, // StripByteCounts
        26, 1, 5, 0, 1, 0, 0, 0, 170, 0, 0, 0, // XResolution
        27, 1, 5, 0, 1, 0, 0, 0, 178, 0, 0, 0, // YResolution
        40, 1, 3, 0, 1, 0, 0, 0, 1, 0, 0, 0, // ResolutionUnit
        83, 1, 3, 0, 1, 0, 0, 0, 1, 0, 0, 0, // SampleFormat
        0, 0, 0, 0, // no further directory
        1, 0, 0, 0, 1, 0, 0, 0, // XResolution
        1, 0, 0, 0, 1, 0, 0, 0, // YResolution
        0xAB, 0xCD, // strip
    ];
    assert_eq!(update.bytes, expected);
}

#[test]
fn small_big_file_byte_for_byte() {
    let mut encoder = TiffEncoder::new_big();
    encoder.set_rows_per_strip(1);
    let update = gray(&mut encoder, 1, 1, &[0xAB], 0);
    assert_eq!(update.link, None);
    let entry = |tag: u16, kind: u16, value: u64| -> Vec<u8> {
        let mut bytes = tag.to_le_bytes().to_vec();
        bytes.extend_from_slice(&kind.to_le_bytes());
        bytes.extend_from_slice(&1u64.to_le_bytes());
        bytes.extend_from_slice(&value.to_le_bytes());
        bytes
    };
    let mut expected: Vec<u8> = vec![0x49, 0x49, 43, 0, 8, 0, 0, 0, 16, 0, 0, 0, 0, 0, 0, 0];
    expected.extend_from_slice(&13u64.to_le_bytes());
    for (tag, kind, value) in [
        (256, 4, 1),
        (257, 4, 1),
        (258, 3, 8),
        (259, 3, 1),
        (262, 3, 1),
        (273, 16, 292),
        (277, 3, 1),
        (278, 4, 1),
        (279, 16, 1),
        (282, 5, 0x1_0000_0001),
        (283, 5, 0x1_0000_0001),
        (296, 3, 1),
        (339, 3, 1),
    ] {
        expected.extend(entry(tag, kind, value));
    }
    expected.extend_from_slice(&0u64.to_le_bytes());
    expected.push(0xAB);
    assert_eq!(update.bytes, expected);
}

#[test]
fn many_images_are_linked_and_read_back() {
    for big in [false, true] {
        for lead in [0usize, 10] {
            let mut file = vec![0xEE; lead];
            let mut encoder = if big { TiffEncoder::new_big() } else { TiffEncoder::new() };
            encoder.set_rows_per_strip(3);
            let images: Vec<Vec<u8>> = (1..6u8)
                .map(|n| (0..5 * 10).map(|i: u8| i.wrapping_mul(n)).collect())
                .collect();
            for image in &images {
                gray(&mut encoder, 5, 10, image, file.len() as u64).apply_to(&mut file);
            }
            assert!(file[..lead].iter().all(|byte| *byte == 0xEE));
            let mut at = first_directory(&file, big, lead);
            for (n, image) in images.iter().enumerate() {
                let (entries, next) = directory(&file, big, at);
                assert!(entries.windows(2).all(|pair| pair[0].0 < pair[1].0));
                let strips = strips(&file, big, &entries);
                assert_eq!(strips.len(), 4);
                assert_eq!(&strips.concat(), image);
                assert_eq!(next == 0, n + 1 == images.len());
                at = next;
            }
        }
    }
}

#[test]
fn further_images_change_the_link_alone() {
    let mut encoder = TiffEncoder::new();
    let mut file = Vec::new();
    gray(&mut encoder, 3, 2, &[1, 2, 3, 4, 5, 6], 0).apply_to(&mut file);
    let before = file.clone();
    let update = gray(&mut encoder, 1, 1, &[9], file.len() as u64);
    let link = update.link.clone().unwrap();
    // The link stands after the 13 entries of the first directory.
    assert_eq!(link.position, 8 + 2 + 13 * 12);
    assert_eq!(link.bytes, (before.len() as u32).to_le_bytes());
    update.apply_to(&mut file);
    let place = link.position as usize;
    assert_eq!(file[..place], before[..place]);
    assert_eq!(file[place..place + 4], link.bytes);
    assert_eq!(file[place + 4..before.len()], before[place + 4..]);
    assert_eq!(file[before.len()..], update.bytes);
}

#[test]
fn strips_stand_one_after_the_other() {
    let mut encoder = TiffEncoder::new();
    encoder.set_rows_per_strip(1);
    let update = gray(&mut encoder, 3, 2, &[1, 2, 3, 4, 5, 6], 0);
    assert_eq!(update.bytes[update.bytes.len() - 6..], [1, 2, 3, 4, 5, 6]);
    let (entries, _) = directory(&update.bytes, false, 8);
    let start = (update.bytes.len() - 6) as u32;
    let mut offsets = start.to_le_bytes().to_vec();
    offsets.extend_from_slice(&(start + 3).to_le_bytes());
    assert_eq!(data_of(&entries, 273), offsets);
    assert_eq!(data_of(&entries, 279), [3, 0, 0, 0, 3, 0, 0, 0]);
}

#[test]
fn next_directory_follows_the_last_strip() {
    let mut encoder = TiffEncoder::new();
    let mut file = Vec::new();
    encoder.set_bits_per_sample(16);
    encoder
        .write_image(1, 7, PhotometricInterpretation::RGB, &[0; 42], 0)
        .unwrap()
        .apply_to(&mut file);
    assert_eq!(file.len(), 236);
    encoder.set_bits_per_sample(8);
    let data: Vec<u8> = (0..210).collect();
    gray(&mut encoder, 21, 10, &data, 236).apply_to(&mut file);
    assert_eq!(file[166..170], [236, 0, 0, 0]);
    let (entries, next) = directory(&file, false, 236);
    assert_eq!(next, 0);
    assert_eq!(strips(&file, false, &entries), [data]);
}

#[test]
fn every_image_has_its_own_settings() {
    let mut encoder = TiffEncoder::new();
    let mut file = Vec::new();
    encoder.set_tag(Tag::Artist, "somebody");
    for bits in 1..=16u8 {
        encoder.set_bits_per_sample(bits);
        encoder.set_rows_per_strip(bits as u32);
        let data = vec![bits; 10 * (9 * bits as usize).div_ceil(8)];
        gray(&mut encoder, 9, 10, &data, file.len() as u64).apply_to(&mut file);
    }
    let mut at = first_directory(&file, false, 0);
    for bits in 1..=16u8 {
        let (entries, next) = directory(&file, false, at);
        assert_eq!(data_of(&entries, 258), [bits, 0]);
        assert_eq!(data_of(&entries, 278), [bits, 0, 0, 0]);
        assert_eq!(data_of(&entries, 315), b"somebody\0");
        let data = vec![bits; 10 * (9 * bits as usize).div_ceil(8)];
        assert_eq!(strips(&file, false, &entries).concat(), data);
        assert_eq!(next == 0, bits == 16);
        at = next;
    }
}

#[test]
fn writing_an_image_is_beginning_and_ending_it() {
    let mut encoder = TiffEncoder::new();
    gray(&mut encoder, 1, 1, &[1], 0);
    let mut other = encoder.clone();
    let whole = gray(&mut encoder, 3, 2, &[1, 2, 3, 4, 5, 6], 1000);
    let parts = other
        .new_image(3, 2, PhotometricInterpretation::BlackIsZero)
        .unwrap()
        .write(&[1, 2, 3, 4, 5, 6], 1000)
        .unwrap();
    assert_eq!(whole, parts);
    // Both encoders go on in the same way.
    assert_eq!(gray(&mut encoder, 1, 1, &[2], 2000), gray(&mut other, 1, 1, &[2], 2000));
}

#[test]
fn position_beyond_four_gigabytes_is_cut_off() {
    let mut encoder = TiffEncoder::new();
    let update = gray(&mut encoder, 1, 1, &[1], 0x1_0000_0000);
    assert_eq!(update.bytes[..8], [0x49, 0x49, 42, 0, 8, 0, 0, 0]);
    let mut encoder = TiffEncoder::new_big();
    let update = gray(&mut encoder, 1, 1, &[1], 0x1_0000_0000);
    assert_eq!(update.bytes[8..16], 0x1_0000_0010u64.to_le_bytes());
}

#[test]
fn tags_describe_the_image() {
    let mut encoder = TiffEncoder::new();
    encoder.set_bits_per_sample(16);
    encoder.set_extra_samples(1);
    encoder.set_sample_format(SampleFormat::Int);
    encoder.set_compression(Compression::Lzw);
    encoder.set_rows_per_strip(2);
    let update = encoder
        .write_image(3, 5, PhotometricInterpretation::RGB, &[0; 3 * 5 * 4 * 2], 0)
        .unwrap();
    let (entries, next) = directory(&update.bytes, false, 8);
    assert_eq!(next, 0);
    let entry = |tag: usize| entries.iter().find(|entry| entry.0 == tag).unwrap().clone();
    assert_eq!(entry(256), (256, 4, 1, vec![3, 0, 0, 0]));
    assert_eq!(entry(257), (257, 4, 1, vec![5, 0, 0, 0]));
    assert_eq!(entry(258), (258, 3, 4, vec![16, 0, 16, 0, 16, 0, 16, 0]));
    assert_eq!(entry(259), (259, 3, 1, vec![5, 0]));
    assert_eq!(entry(262), (262, 3, 1, vec![2, 0]));
    assert_eq!(entry(277), (277, 3, 1, vec![4, 0]));
    assert_eq!(entry(278), (278, 4, 1, vec![2, 0, 0, 0]));
    assert_eq!(entry(279).1, 4);
    assert_eq!(entry(279).2, 3);
    assert_eq!(entry(273).2, 3);
    assert_eq!(entry(282), (282, 5, 1, vec![1, 0, 0, 0, 1, 0, 0, 0]));
    assert_eq!(entry(283), (283, 5, 1, vec![1, 0, 0, 0, 1, 0, 0, 0]));
    assert_eq!(entry(296), (296, 3, 1, vec![1, 0]));
    assert_eq!(entry(339), (339, 3, 1, vec![2, 0]));
    assert_eq!(entries.len(), 13);
}

#[test]
fn resolution_that_was_set_stays() {
    let mut encoder = TiffEncoder::new();
    encoder.set_resolution(ResolutionUnit::Inch, Rational { n: 300, d: 1 });
    let update = gray(&mut encoder, 1, 1, &[1], 0);
    let (entries, _) = directory(&update.bytes, false, 8);
    assert_eq!(data_of(&entries, 282), [44, 1, 0, 0, 1, 0, 0, 0]);
    assert_eq!(data_of(&entries, 283), [44, 1, 0, 0, 1, 0, 0, 0]);
    assert_eq!(data_of(&entries, 296), [2, 0]);
    // The next image has it too, but for what is set anew.
    encoder.x_resolution(Rational { n: 7, d: 2 });
    encoder.y_resolution(Rational { n: 9, d: 4 });
    encoder.resolution_unit(ResolutionUnit::Centimeter);
    let mut file = update.bytes.clone();
    let second = gray(&mut encoder, 1, 1, &[1], file.len() as u64);
    let at = file.len();
    second.apply_to(&mut file);
    let (entries, _) = directory(&file, false, at);
    assert_eq!(data_of(&entries, 282), [7, 0, 0, 0, 2, 0, 0, 0]);
    assert_eq!(data_of(&entries, 283), [9, 0, 0, 0, 4, 0, 0, 0]);
    assert_eq!(data_of(&entries, 296), [3, 0]);
}

#[test]
fn tags_hold_values_of_every_type() {
    let mut encoder = TiffEncoder::new();
    encoder.set_tag(Tag::Software, "tester");
    encoder.set_tag(Tag::Artist, "me");
    encoder.set_tag(Tag::Orientation, 1u16);
    encoder.set_tag(Tag::Unknown(60000), 7u8);
    encoder.set_tag(Tag::Unknown(60001), 0x0102_0304u32);
    encoder.set_tag(Tag::Unknown(60002), 0x0102_0304_0506_0708u64);
    encoder.set_tag(Tag::Unknown(60003), &[1u8, 2, 3, 4, 5][..]);
    encoder.set_tag(Tag::Unknown(60004), &[1u16, 2, 3][..]);
    encoder.set_tag(Tag::Unknown(60005), &[0u8; 0][..]);
    let first = gray(&mut encoder, 1, 1, &[1], 0);
    let mut file = first.bytes.clone();
    let at = file.len();
    gray(&mut encoder, 1, 1, &[1], at as u64).apply_to(&mut file);
    // Tags that were set are in the directories of all later images.
    for place in [8, at] {
        let (entries, _) = directory(&file, false, place);
        let entry = |tag: usize| entries.iter().find(|entry| entry.0 == tag).unwrap().clone();
        assert_eq!(entry(305), (305, 2, 7, b"tester\0".to_vec()));
        assert_eq!(entry(315), (315, 2, 3, b"me\0".to_vec()));
        assert_eq!(entry(274), (274, 3, 1, vec![1, 0]));
        assert_eq!(entry(60000), (60000, 1, 1, vec![7]));
        assert_eq!(entry(60001), (60001, 4, 1, vec![4, 3, 2, 1]));
        assert_eq!(entry(60002), (60002, 16, 1, vec![8, 7, 6, 5, 4, 3, 2, 1]));
        assert_eq!(entry(60003), (60003, 1, 5, vec![1, 2, 3, 4, 5]));
        assert_eq!(entry(60004), (60004, 3, 3, vec![1, 0, 2, 0, 3, 0]));
        assert_eq!(entry(60005), (60005, 1, 0, vec![]));
        assert!(entries.windows(2).all(|pair| pair[0].0 < pair[1].0));
    }
}

#[test]
fn last_value_of_a_tag_counts() {
    let mut encoder = TiffEncoder::new();
    encoder.set_tag(Tag::Artist, "nobody");
    encoder.set_tag(Tag::Artist, 5u16);
    // What describes the image, or tells where other data is, does not stay.
    encoder.set_tag(Tag::ImageWidth, 77u16);
    encoder.set_tag(Tag::TileOffsets, 77u32);
    encoder.set_tag(Tag::TileByteCounts, 77u32);
    encoder.set_tag(Tag::StripOffsets, "no offsets");
    let update = gray(&mut encoder, 1, 1, &[1], 0);
    let (entries, _) = directory(&update.bytes, false, 8);
    assert_eq!(data_of(&entries, 315), [5, 0]);
    assert_eq!(data_of(&entries, 256), [1, 0, 0, 0]);
    assert!(entries.iter().all(|entry| entry.0 != 324 && entry.0 != 325));
    assert_eq!(strips(&update.bytes, false, &entries), [[1]]);
}

#[test]
fn refused_image_leaves_the_file_as_it_is() {
    let mut encoder = TiffEncoder::new();
    let mut file = Vec::new();
    gray(&mut encoder, 1, 1, &[1], 0).apply_to(&mut file);
    let mut other = encoder.clone();
    assert!(encoder
        .write_image(0, 1, PhotometricInterpretation::RGB, &[], file.len() as u64)
        .is_err());
    let at = file.len() as u64;
    assert_eq!(gray(&mut encoder, 1, 1, &[2], at), gray(&mut other, 1, 1, &[2], at));
}

#[test]
fn numbers_of_tag_values() {
    assert_eq!(Tag::Copyright.to_u16(), 33432);
    assert_eq!(Tag::Unknown(700).to_u16(), 700);
    assert_eq!(tiff::tags::Type::LONG8.to_u16(), 16);
    assert_eq!(tiff::tags::Type::RATIONAL.to_u16(), 5);
    assert_eq!(tiff::tags::CompressionMethod::PackBits.to_u16(), 32773);
    assert_eq!(PhotometricInterpretation::CIELab.to_u16(), 8);
    assert_eq!(SampleFormat::IEEEFP.to_u16(), 3);
    assert_eq!(ResolutionUnit::Centimeter.to_u16(), 3);
}
