use std::io::Read;

use tiff::encoder::{Compression, DeflateLevel, TiffEncoder};
use tiff::tags::PhotometricInterpretation;

/// A reader of TIFF files with strips, as far as these tests need one.
struct Decoder {
    file: Vec<u8>,
    directory: usize,
}

impl Decoder {
    fn new(file: Vec<u8>) -> Decoder {
        assert_eq!(file[..4], [0x49, 0x49, 42, 0]);
        let mut decoder = Decoder { file, directory: 0 };
        decoder.directory = decoder.number(4, 4);
        decoder
    }

    fn number(&self, at: usize, width: usize) -> usize {
        let bytes = &self.file[at..at + width];
        bytes.iter().rev().fold(0, |value, byte| value * 256 + *byte as usize)
    }

    fn entry_count(&self) -> usize {
        self.number(self.directory, 2)
    }

    fn next_image(&mut self) {
        self.directory = self.number(self.directory + 2 + 12 * self.entry_count(), 4);
        assert_ne!(self.directory, 0);
    }

    fn values(&self, tag: usize) -> Vec<usize> {
        for i in 0..self.entry_count() {
            let at = self.directory + 2 + 12 * i;
            if self.number(at, 2) == tag {
                let size = match self.number(at + 2, 2) {
                    3 => 2,
                    4 => 4,
                    unexpected => panic!("unexpected type {}", unexpected),
                };
                let count = self.number(at + 4, 4);
                let start = if size * count > 4 { self.number(at + 8, 4) } else { at + 8 };
                return (0..count).map(|n| self.number(start + n * size, size)).collect();
            }
        }
        panic!("no tag {}", tag)
    }

    fn read_image(&self) -> Vec<u8> {
        let offsets = self.values(273);
        let lengths = self.values(279);
        assert_eq!(offsets.len(), lengths.len());
        let rows = self.values(278)[0];
        let height = self.values(257)[0];
        assert_eq!(offsets.len(), height.div_ceil(rows));
        let mut image = Vec::new();
        for (offset, length) in offsets.iter().zip(lengths.iter()) {
            let strip = &self.file[*offset..*offset + *length];
            match self.values(259)[0] {
                1 => image.extend_from_slice(strip),
                5 => image.extend(
                    weezl::decode::Decoder::with_tiff_size_switch(weezl::BitOrder::Msb, 8)
                        .decode(strip)
                        .unwrap(),
                ),
                8 => {
                    flate2::read::ZlibDecoder::new(strip).read_to_end(&mut image).unwrap();
                }
                32773 => unpack(strip, &mut image),
                unexpected => panic!("unexpected compression {}", unexpected),
            }
        }
        image
    }
}

fn unpack(packed: &[u8], out: &mut Vec<u8>) {
    let mut i = 0;
    while i < packed.len() {
        let header = packed[i] as usize;
        if header < 128 {
            out.extend_from_slice(&packed[i + 1..i + 2 + header]);
            i += 2 + header;
        } else if header == 128 {
            i += 1;
        } else {
            out.extend(vec![packed[i + 1]; 257 - header]);
            i += 2;
        }
    }
}

fn encode_decode_with_compression(compression: Compression) {
    let mut image_rgb = vec![0u16; 3 * 7];
    for v in &mut image_rgb {
        *v = fastrand::u16(..);
    }

    let mut image_grayscale = vec![0u8; 21 * 10];
    for v in &mut image_grayscale {
        *v = fastrand::u8(..);
    }

    // Encode tiff with compression
    let mut data: Vec<u8> = Vec::new();
    {
        // Create a multipage image with 2 images
        let mut encoder = TiffEncoder::new();
        encoder.set_compression(compression);

        encoder.set_bits_per_sample(16);
        encoder
            .write_image(
                1,
                7,
                PhotometricInterpretation::RGB,
                bytemuck::cast_slice(&image_rgb),
                data.len() as u64,
            )
            .unwrap()
            .apply_to(&mut data);

        encoder.set_bits_per_sample(8);
        encoder
            .write_image(
                21,
                10,
                PhotometricInterpretation::BlackIsZero,
                &image_grayscale,
                data.len() as u64,
            )
            .unwrap()
            .apply_to(&mut data);
    }

    // Decode tiff
    {
        let mut decoder = Decoder::new(data);

        // Check the RGB image
        assert_eq!(decoder.values(256), [1]);
        assert_eq!(decoder.values(257), [7]);
        assert_eq!(decoder.values(258), [16, 16, 16]);
        assert_eq!(decoder.values(262), [2]);
        assert_eq!(decoder.values(277), [3]);
        let bytes = decoder.read_image();
        let samples: Vec<u16> =
            bytes.chunks(2).map(|pair| u16::from_ne_bytes([pair[0], pair[1]])).collect();
        assert_eq!(samples, image_rgb);

        // Check the grayscale image
        decoder.next_image();
        assert_eq!(decoder.values(256), [21]);
        assert_eq!(decoder.values(257), [10]);
        assert_eq!(decoder.values(258), [8]);
        assert_eq!(decoder.values(262), [1]);
        assert_eq!(decoder.values(277), [1]);
        assert_eq!(decoder.read_image(), image_grayscale);
    }
}

#[test]
fn encode_decode_without_compression() {
    encode_decode_with_compression(Compression::Uncompressed);
}

#[test]
fn encode_decode_with_lzw() {
    encode_decode_with_compression(Compression::Lzw);
}

#[test]
fn encode_decode_with_deflate() {
    encode_decode_with_compression(Compression::Deflate(DeflateLevel::Fast));
    encode_decode_with_compression(Compression::Deflate(DeflateLevel::Balanced));
    encode_decode_with_compression(Compression::Deflate(DeflateLevel::Best));
}

#[test]
fn encode_decode_with_packbits() {
    encode_decode_with_compression(Compression::PackBits);
}
