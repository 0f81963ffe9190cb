use std::io::Read;

use tiff::encoder::compression::compress;
use tiff::encoder::packbits::pack;
use tiff::encoder::{Compression, DeflateLevel, TiffEncoder};
use tiff::tags::PhotometricInterpretation;
use tiff::{TiffError, TiffFormatError, TiffUnsupportedError};

fn random_bytes(len: usize) -> Vec<u8> {
    (0..len).map(|_| fastrand::u8(..)).collect()
}

fn lzw_decode(encoded: &[u8]) -> Vec<u8> {
    weezl::decode::Decoder::with_tiff_size_switch(weezl::BitOrder::Msb, 8)
        .decode(encoded)
        .unwrap()
}

fn zlib_decode(encoded: &[u8]) -> Vec<u8> {
    let mut data = Vec::new();
    flate2::read::ZlibDecoder::new(encoded).read_to_end(&mut data).unwrap();
    data
}

fn samples() -> Vec<Vec<u8>> {
    vec![
        Vec::new(),
        vec![7],
        vec![0; 5000],
        (0..=255).collect(),
        b"a man a plan a canal panama".to_vec(),
        random_bytes(100_000),
        (0..200_000u32).map(|i| (i / 7 % 11) as u8).collect(),
    ]
}

#[test]
fn no_compression_keeps_the_data() {
    for data in samples() {
        assert_eq!(compress(Compression::Uncompressed, &data).unwrap(), data);
    }
}

#[test]
fn lzw_is_decoded() {
    for data in samples() {
        let encoded = compress(Compression::Lzw, &data).unwrap();
        assert_ne!(encoded, data);
        assert_eq!(lzw_decode(&encoded), data);
    }
}

#[test]
fn lzw_is_decoded_around_every_change_of_code_size() {
    for colors in [1u8, 2, 3, 255] {
        let data: Vec<u8> = (0..9000).map(|_| fastrand::u8(0..colors)).collect();
        for len in (0..1100).chain(1700..1900).chain(3700..4200).chain(7500..7900) {
            let encoded = compress(Compression::Lzw, &data[..len]).unwrap();
            assert_eq!(lzw_decode(&encoded), data[..len]);
        }
    }
}

#[test]
fn lzw_of_nothing_is_two_markers() {
    // The clear code 256 and the end code 257, of 9 bits each.
    assert_eq!(compress(Compression::Lzw, &[]).unwrap(), [0x80, 0x40, 0x40]);
}

#[test]
fn deflate_is_decoded() {
    for level in [DeflateLevel::Fast, DeflateLevel::Balanced, DeflateLevel::Best] {
        for data in samples() {
            let encoded = compress(Compression::Deflate(level), &data).unwrap();
            assert_ne!(encoded, data);
            assert_eq!(zlib_decode(&encoded), data);
        }
    }
}

#[test]
fn deflate_levels_differ() {
    assert_eq!(DeflateLevel::Fast.to_u32(), 1);
    assert_eq!(DeflateLevel::Balanced.to_u32(), 6);
    assert_eq!(DeflateLevel::Best.to_u32(), 9);
    let data: Vec<u8> = (0..100_000u32).map(|i| (i * i / 1000 % 251) as u8).collect();
    let fast = compress(Compression::Deflate(DeflateLevel::Fast), &data).unwrap();
    let best = compress(Compression::Deflate(DeflateLevel::Best), &data).unwrap();
    assert!(best.len() < fast.len());
}

#[test]
fn packets() {
    assert_eq!(pack(&[]), Vec::<u8>::new());
    assert_eq!(pack(&[5]), [0, 5]);
    assert_eq!(pack(&[5, 5]), [255, 5]);
    assert_eq!(pack(&[1, 2, 3]), [2, 1, 2, 3]);
    // Two equal bytes do not end a packet of different bytes, three do.
    assert_eq!(pack(&[1, 2, 2, 3]), [3, 1, 2, 2, 3]);
    assert_eq!(pack(&[1, 2, 2, 2]), [0, 1, 254, 2]);
    // A well-known example.
    let data = [
        0xAA, 0xAA, 0xAA, 0x80, 0x00, 0x2A, 0xAA, 0xAA, 0xAA, 0xAA, 0x80, 0x00, 0x2A, 0x22, 0xAA,
        0xAA, 0xAA, 0xAA, 0xAA, 0xAA, 0xAA, 0xAA, 0xAA, 0xAA,
    ];
    let expected = [
        0xFE, 0xAA, 0x02, 0x80, 0x00, 0x2A, 0xFD, 0xAA, 0x03, 0x80, 0x00, 0x2A, 0x22, 0xF7, 0xAA,
    ];
    assert_eq!(pack(&data), expected);
}

#[test]
fn long_packets() {
    assert_eq!(pack(&[9; 128]), [129, 9]);
    assert_eq!(pack(&[9; 130]), [129, 9, 255, 9]);
    assert_eq!(pack(&[9; 129]), [129, 9, 0, 9]);
    let different: Vec<u8> = (0..200).collect();
    let mut expected = vec![127];
    expected.extend(0..128);
    expected.push(71);
    expected.extend(128..200);
    assert_eq!(pack(&different), expected);
}

#[test]
fn packbits_is_unpacked() {
    for data in samples() {
        let packed = compress(Compression::PackBits, &data).unwrap();
        let mut out = Vec::new();
        let mut i = 0;
        while i < packed.len() {
            let header = packed[i] as usize;
            assert_ne!(header, 128);
            if header < 128 {
                out.extend_from_slice(&packed[i + 1..i + 2 + header]);
                i += 2 + header;
            } else {
                out.extend(vec![packed[i + 1]; 257 - header]);
                i += 2;
            }
        }
        assert_eq!(out, data);
    }
}

#[test]
fn image_without_pixels_is_refused() {
    let mut encoder = TiffEncoder::new();
    for (width, height) in [(0, 5), (5, 0), (0, 0)] {
        let error = encoder
            .write_image(width, height, PhotometricInterpretation::RGB, &[], 0)
            .unwrap_err();
        assert!(matches!(
            error,
            TiffError::FormatError(TiffFormatError::InvalidDimensions(w, h))
                if w == width && h == height
        ));
    }
}

#[test]
fn packed_strips_of_many_rows_are_refused() {
    let mut encoder = TiffEncoder::new();
    encoder.set_compression(Compression::PackBits);
    encoder.set_rows_per_strip(2);
    let error = encoder
        .write_image(1, 4, PhotometricInterpretation::BlackIsZero, &[0; 4], 0)
        .unwrap_err();
    assert!(matches!(
        error,
        TiffError::UnsupportedError(TiffUnsupportedError::UnsupportedCompressionMethod(
            tiff::tags::CompressionMethod::PackBits
        ))
    ));
    encoder.set_rows_per_strip(1);
    assert!(encoder
        .write_image(1, 4, PhotometricInterpretation::BlackIsZero, &[0; 4], 0)
        .is_ok());
}

#[test]
fn palette_is_refused() {
    let mut encoder = TiffEncoder::new();
    let error = encoder
        .write_image(1, 1, PhotometricInterpretation::RGBPalette, &[0], 0)
        .unwrap_err();
    assert!(matches!(
        error,
        TiffError::UnsupportedError(TiffUnsupportedError::UnsupportedInterpretation(
            PhotometricInterpretation::RGBPalette
        ))
    ));
}

#[test]
fn first_error_wins() {
    let mut encoder = TiffEncoder::new();
    encoder.set_compression(Compression::PackBits);
    encoder.set_rows_per_strip(2);
    let error = encoder
        .write_image(0, 1, PhotometricInterpretation::RGBPalette, &[0], 0)
        .unwrap_err();
    assert!(matches!(error, TiffError::FormatError(_)));
    let error = encoder
        .write_image(1, 1, PhotometricInterpretation::RGBPalette, &[0], 0)
        .unwrap_err();
    assert!(matches!(
        error,
        TiffError::UnsupportedError(TiffUnsupportedError::UnsupportedCompressionMethod(_))
    ));
}

#[test]
fn samples_per_interpretation() {
    let cases = [
        (PhotometricInterpretation::WhiteIsZero, 1),
        (PhotometricInterpretation::BlackIsZero, 1),
        (PhotometricInterpretation::TransparencyMask, 1),
        (PhotometricInterpretation::RGB, 3),
        (PhotometricInterpretation::YCbCr, 3),
        (PhotometricInterpretation::CIELab, 3),
        (PhotometricInterpretation::CMYK, 4),
    ];
    for (interpretation, samples) in cases {
        let mut encoder = TiffEncoder::new();
        encoder.set_rows_per_strip(1);
        let image = encoder.new_image(10, 1, interpretation).unwrap();
        assert_eq!(image.bytes_per_chunk, 10 * samples);
        encoder.set_extra_samples(2);
        let image = encoder.new_image(10, 1, interpretation).unwrap();
        assert_eq!(image.bytes_per_chunk, 10 * (samples + 2));
    }
}

#[test]
fn rows_end_at_byte_boundaries() {
    let mut encoder = TiffEncoder::new();
    encoder.set_bits_per_sample(1);
    encoder.set_rows_per_strip(3);
    // 11 bits take 2 bytes, and 10 rows take 4 strips.
    let image = encoder.new_image(11, 10, PhotometricInterpretation::BlackIsZero).unwrap();
    assert_eq!(image.bytes_per_chunk, 6);
    assert_eq!(image.num_chunks, 4);
}

#[test]
fn default_strips_hold_a_million_bytes() {
    let mut encoder = TiffEncoder::new();
    let image = encoder.new_image(3000, 1000, PhotometricInterpretation::BlackIsZero).unwrap();
    // 333 rows would be 999,000 bytes.
    assert_eq!(image.bytes_per_chunk, 334 * 3000);
    assert_eq!(image.num_chunks, 3);
    let image = encoder.new_image(1000, 1000, PhotometricInterpretation::BlackIsZero).unwrap();
    assert_eq!(image.bytes_per_chunk, 1_000_000);
    assert_eq!(image.num_chunks, 1);
    let image = encoder.new_image(2_000_000, 2, PhotometricInterpretation::BlackIsZero).unwrap();
    assert_eq!(image.bytes_per_chunk, 2_000_000);
    assert_eq!(image.num_chunks, 2);
}

#[test]
fn packed_strips_hold_one_row() {
    let mut encoder = TiffEncoder::new();
    encoder.set_compression(Compression::PackBits);
    let image = encoder.new_image(20, 30, PhotometricInterpretation::RGB).unwrap();
    assert_eq!(image.bytes_per_chunk, 60);
    assert_eq!(image.num_chunks, 30);
}

#[test]
fn all_rows_make_all_strips() {
    for (width, height, rows) in [(7, 13, 1), (7, 13, 5), (1, 1, 9), (100, 64, 64), (3, 65, 64)] {
        let mut encoder = TiffEncoder::new();
        encoder.set_rows_per_strip(rows);
        let image = encoder.new_image(width, height, PhotometricInterpretation::RGB).unwrap();
        let all = (3 * width * height) as usize;
        assert_eq!(all.div_ceil(image.bytes_per_chunk), image.num_chunks as usize);
    }
}

#[test]
fn chunks_are_compressed_as_set() {
    let data = b"abababababababab".to_vec();
    let mut encoder = TiffEncoder::new();
    let image = encoder.new_image(16, 1, PhotometricInterpretation::BlackIsZero).unwrap();
    assert_eq!(image.encode_chunk(&data).unwrap(), data);
    encoder.set_compression(Compression::Lzw);
    let image = encoder.new_image(16, 1, PhotometricInterpretation::BlackIsZero).unwrap();
    assert_eq!(lzw_decode(&image.encode_chunk(&data).unwrap()), data);
    encoder.set_compression(Compression::Deflate(DeflateLevel::Best));
    let image = encoder.new_image(16, 1, PhotometricInterpretation::BlackIsZero).unwrap();
    assert_eq!(zlib_decode(&image.encode_chunk(&data).unwrap()), data);
    encoder.set_compression(Compression::PackBits);
    let image = encoder.new_image(16, 1, PhotometricInterpretation::BlackIsZero).unwrap();
    assert_eq!(image.encode_chunk(&[3; 16]).unwrap(), [241, 3]);
}

#[test]
fn encoded_chunks_make_the_same_image() {
    let data = random_bytes(3 * 20 * 9);
    for compression in [
        Compression::Uncompressed,
        Compression::PackBits,
        Compression::Lzw,
        Compression::Deflate(DeflateLevel::Balanced),
    ] {
        let mut encoder = TiffEncoder::new_big();
        encoder.set_compression(compression);
        encoder.set_rows_per_strip(1);
        let mut other = encoder.clone();
        let whole =
            encoder.write_image(20, 9, PhotometricInterpretation::RGB, &data, 0).unwrap();
        let image = other.new_image(20, 9, PhotometricInterpretation::RGB).unwrap();
        let strips: Vec<Vec<u8>> = data
            .chunks(image.bytes_per_chunk)
            .map(|chunk| image.encode_chunk(chunk).unwrap())
            .collect();
        let chunks: Vec<&[u8]> = strips.iter().map(|strip| strip.as_slice()).collect();
        assert_eq!(image.write_encoded(&chunks, 0), whole);
    }
}

#[test]
fn images_that_cannot_be_counted() {
    let rgb = PhotometricInterpretation::RGB;
    let mut encoder = TiffEncoder::new();
    assert!(encoder.can_begin(100, 100, rgb));
    encoder.set_extra_samples(65532);
    assert!(encoder.can_begin(100, 100, rgb));
    encoder.set_extra_samples(65533);
    assert!(!encoder.can_begin(100, 100, rgb));
    // An image that is refused may be begun, to get the error.
    assert!(encoder.can_begin(0, 100, rgb));
    encoder.set_extra_samples(0);
    encoder.set_bits_per_sample(0);
    assert!(!encoder.can_begin(100, 100, rgb));
    encoder.set_compression(Compression::PackBits);
    assert!(encoder.can_begin(100, 100, rgb));
    encoder.set_bits_per_sample(8);
    encoder.set_rows_per_strip(0);
    assert!(!encoder.can_begin(100, 100, rgb));
    encoder.set_compression(Compression::Uncompressed);
    encoder.set_rows_per_strip(u32::MAX);
    assert!(encoder.can_begin(100, 100, rgb));
    encoder.set_bits_per_sample(255);
    encoder.set_extra_samples(65532);
    assert!(!encoder.can_begin(u32::MAX, 100, rgb));
}
