use ferris_viewer::png::{Png, PngError};
use flate2::write::ZlibEncoder;
use flate2::Compression;
use std::io::Write;

fn zlib(data: &[u8]) -> Vec<u8> {
    let mut e = ZlibEncoder::new(Vec::new(), Compression::default());
    e.write_all(data).unwrap();
    e.finish().unwrap()
}

fn chunk(out: &mut Vec<u8>, tag: &[u8; 4], data: &[u8]) {
    out.extend_from_slice(&(data.len() as u32).to_be_bytes());
    out.extend_from_slice(tag);
    out.extend_from_slice(data);
    out.extend_from_slice(&[0, 0, 0, 0]);
}

const SIG: [u8; 8] = [0x89, 0x50, 0x4E, 0x47, 0x0D, 0x0A, 0x1A, 0x0A];

fn ihdr(width: u32, height: u32, depth: u8, color: u8, comp: u8, filter: u8, interlace: u8) -> Vec<u8> {
    let mut v = Vec::new();
    v.extend_from_slice(&width.to_be_bytes());
    v.extend_from_slice(&height.to_be_bytes());
    v.extend_from_slice(&[depth, color, comp, filter, interlace]);
    v
}

/// A PNG with the given header, extra chunks before IDAT, and IDAT holding
/// the zlib stream of `scanlines`.
fn build(width: u32, height: u32, depth: u8, color: u8, extra: &[(&[u8; 4], Vec<u8>)], scanlines: &[u8]) -> Vec<u8> {
    let mut out = SIG.to_vec();
    chunk(&mut out, b"IHDR", &ihdr(width, height, depth, color, 0, 0, 0));
    for (tag, data) in extra {
        chunk(&mut out, tag, data);
    }
    chunk(&mut out, b"IDAT", &zlib(scanlines));
    chunk(&mut out, b"IEND", &[]);
    out
}

fn decode(bytes: Vec<u8>) -> (Result<(), PngError>, Png) {
    let mut p = Png::new(bytes);
    let r = p.parse();
    (r, p)
}

#[test]
fn rgb_filter_none() {
    let (r, p) = decode(build(2, 1, 8, 2, &[], &[0, 1, 2, 3, 4, 5, 6]));
    assert_eq!(r, Ok(()));
    assert_eq!((p.width, p.height), (2, 1));
    assert_eq!(p.pixels, vec![1, 2, 3, 255, 4, 5, 6, 255]);
}

#[test]
fn rgb_filter_sub() {
    // Sub adds the byte one pixel (3 bytes) to the left.
    let (r, p) = decode(build(2, 1, 8, 2, &[], &[1, 10, 20, 30, 1, 2, 3]));
    assert_eq!(r, Ok(()));
    assert_eq!(p.pixels, vec![10, 20, 30, 255, 11, 22, 33, 255]);
}

#[test]
fn gray_filter_up_and_wrapping() {
    // Second row adds the row above, modulo 256.
    let (r, p) = decode(build(2, 2, 8, 0, &[], &[0, 200, 7, 2, 100, 1]));
    assert_eq!(r, Ok(()));
    assert_eq!(
        p.pixels,
        vec![200, 200, 200, 255, 7, 7, 7, 255, 44, 44, 44, 255, 8, 8, 8, 255]
    );
}

#[test]
fn gray_filter_average() {
    // Row 1: 10, 20. Row 2 (average): 5 + (0 + 10) / 2 = 10; 6 + (10 + 20) / 2 = 21.
    let (r, p) = decode(build(2, 2, 8, 0, &[], &[0, 10, 20, 3, 5, 6]));
    assert_eq!(r, Ok(()));
    assert_eq!(p.pixels[8..], [10, 10, 10, 255, 21, 21, 21, 255]);
}

#[test]
fn gray_filter_paeth() {
    // Row 1: 10, 20. Row 2 byte 0: left 0, above 10, upper-left 0 -> predictor 10, 1 + 10 = 11.
    // Byte 1: left 11, above 20, upper-left 10 -> p = 21, picks above (20): 2 + 20 = 22.
    let (r, p) = decode(build(2, 2, 8, 0, &[], &[0, 10, 20, 4, 1, 2]));
    assert_eq!(r, Ok(()));
    assert_eq!(p.pixels[8..], [11, 11, 11, 255, 22, 22, 22, 255]);
}

#[test]
fn paeth_predictor_values() {
    assert_eq!(Png::paeth_predictor(10, 20, 10), 20);
    assert_eq!(Png::paeth_predictor(20, 10, 10), 20);
    assert_eq!(Png::paeth_predictor(5, 5, 5), 5);
    assert_eq!(Png::paeth_predictor(0, 0, 255), 0);
    assert_eq!(Png::paeth_predictor(100, 50, 60), 100);
    // p = 3 + 8 - 4 = 7: |7-3| = 4, |7-8| = 1, |7-4| = 3, so above.
    assert_eq!(Png::paeth_predictor(3, 8, 4), 8);
    // p = 9 + 2 - 6 = 5: |5-9| = 4, |5-2| = 3, |5-6| = 1, so upper left.
    assert_eq!(Png::paeth_predictor(9, 2, 6), 6);
}

#[test]
fn gray_one_bit_unpacked_to_width() {
    // Width 3 at one bit: samples 1, 0, 1 from 0b1010_0000, the rest ignored.
    let (r, p) = decode(build(3, 1, 1, 0, &[], &[0, 0b1010_1111]));
    assert_eq!(r, Ok(()));
    assert_eq!(
        p.pixels,
        vec![255, 255, 255, 255, 0, 0, 0, 255, 255, 255, 255, 255]
    );
}

#[test]
fn gray_two_and_four_bit_scaling() {
    let (r, p) = decode(build(4, 1, 2, 0, &[], &[0, 0b00_01_10_11]));
    assert_eq!(r, Ok(()));
    let grays: Vec<u8> = p.pixels.chunks(4).map(|c| c[0]).collect();
    assert_eq!(grays, vec![0, 85, 170, 255]);
    let (r, p) = decode(build(3, 1, 4, 0, &[], &[0, 0x1F, 0x80]));
    assert_eq!(r, Ok(()));
    let grays: Vec<u8> = p.pixels.chunks(4).map(|c| c[0]).collect();
    assert_eq!(grays, vec![17, 255, 136]);
}

#[test]
fn indexed_with_palette_and_transparency() {
    let palette = vec![255, 0, 0, 0, 255, 0, 0, 0, 255];
    let trns = vec![128];
    let (r, p) = decode(build(
        3,
        1,
        8,
        3,
        &[(b"PLTE", palette), (b"tRNS", trns)],
        &[0, 0, 1, 2],
    ));
    assert_eq!(r, Ok(()));
    assert_eq!(
        p.pixels,
        vec![255, 0, 0, 128, 0, 255, 0, 255, 0, 0, 255, 255]
    );
}

#[test]
fn indexed_two_bit() {
    let palette = vec![1, 2, 3, 4, 5, 6, 7, 8, 9, 10, 11, 12];
    let (r, p) = decode(build(2, 1, 2, 3, &[(b"PLTE", palette)], &[0, 0b11_01_0000]));
    assert_eq!(r, Ok(()));
    assert_eq!(p.pixels, vec![10, 11, 12, 255, 4, 5, 6, 255]);
}

#[test]
fn indexed_past_palette_is_error() {
    let (r, _) = decode(build(1, 1, 8, 3, &[(b"PLTE", vec![1, 2, 3])], &[0, 1]));
    assert_eq!(r, Err(PngError::UnexpectedEndOfFile));
}

#[test]
fn indexed_error_keeps_pixels_before_bad_index() {
    let (r, p) = decode(build(3, 1, 8, 3, &[(b"PLTE", vec![1, 2, 3])], &[0, 0, 1, 0]));
    assert_eq!(r, Err(PngError::UnexpectedEndOfFile));
    assert_eq!(p.pixels, vec![1, 2, 3, 255]);
}

#[test]
fn gray_alpha_and_rgba() {
    let (r, p) = decode(build(2, 1, 8, 4, &[], &[0, 9, 100, 8, 200]));
    assert_eq!(r, Ok(()));
    assert_eq!(p.pixels, vec![9, 9, 9, 100, 8, 8, 8, 200]);
    let (r, p) = decode(build(1, 2, 8, 6, &[], &[0, 1, 2, 3, 4, 2, 1, 1, 1, 1]));
    assert_eq!(r, Ok(()));
    assert_eq!(p.pixels, vec![1, 2, 3, 4, 2, 3, 4, 5]);
}

#[test]
fn idat_split_over_chunks() {
    let z = zlib(&[0, 1, 2, 3]);
    let mut out = SIG.to_vec();
    chunk(&mut out, b"IHDR", &ihdr(1, 1, 8, 2, 0, 0, 0));
    chunk(&mut out, b"IDAT", &z[..3]);
    chunk(&mut out, b"tEXt", b"comment");
    chunk(&mut out, b"IDAT", &z[3..]);
    chunk(&mut out, b"IEND", &[]);
    let (r, p) = decode(out);
    assert_eq!(r, Ok(()));
    assert_eq!(p.pixels, vec![1, 2, 3, 255]);
}

#[test]
fn rgba_buffer_is_four_bytes_per_pixel() {
    let w = 5u32;
    let h = 3u32;
    let mut lines = Vec::new();
    for _ in 0..h {
        lines.push(1);
        lines.extend(std::iter::repeat(7u8).take((w * 3) as usize));
    }
    let (r, p) = decode(build(w, h, 8, 2, &[], &lines));
    assert_eq!(r, Ok(()));
    assert_eq!(p.pixels.len(), (4 * w * h) as usize);
}

#[test]
fn color_below_eight_bits_rejected() {
    // RGB, gray-alpha and RGBA are supported at 8 bits per sample only.
    for (depth, color) in [(1, 2), (2, 2), (4, 6), (2, 4)] {
        let (r, p) = decode(build(1, 1, depth, color, &[], &[0, 0]));
        assert_eq!(r, Err(PngError::UnsupportedBitDepth(depth)));
        assert!(p.pixels.is_empty());
    }
}

#[test]
fn chunk_walk_fails_only_on_cut_chunks() {
    let mut p = Png::new(vec![0; 8]);
    assert_eq!(p.parse_chunks(), Ok(()));
    let mut p = Png::new(vec![0xFF; 20]);
    assert_eq!(p.parse_chunks(), Err(PngError::UnexpectedEndOfFile));
    let mut p = Png::new(vec![0; 30]);
    assert_eq!(p.parse_chunks(), Ok(()));
}

#[test]
fn decode_pixels_dispatches_on_color_type() {
    let mut p = Png::new(vec![]);
    assert_eq!(p.decode_pixels(), Ok(()));
    assert!(p.pixels.is_empty());
    let mut bytes = build(1, 1, 8, 2, &[], &[0, 1, 2, 3]);
    let mut q = Png::new(bytes.clone());
    assert_eq!(q.parse(), Ok(()));
    // Corrupting the color type after the header: no decoder applies.
    bytes[25] = 7;
    let mut r = Png::new(bytes);
    assert_eq!(r.parse(), Err(PngError::UnsupportedColorType(7)));
}

#[test]
fn short_file_is_unexpected_end() {
    let (r, _) = decode(vec![0x89, 0x50, 0x4E]);
    assert_eq!(r, Err(PngError::UnexpectedEndOfFile));
}

#[test]
fn bad_signature() {
    let mut bytes = build(1, 1, 8, 0, &[], &[0, 0]);
    bytes[1] = b'X';
    let (r, _) = decode(bytes);
    assert_eq!(r, Err(PngError::InvalidSignature));
}

#[test]
fn header_too_short() {
    let mut bytes = SIG.to_vec();
    bytes.extend_from_slice(&[0; 20]);
    let (r, _) = decode(bytes);
    assert_eq!(r, Err(PngError::UnexpectedEndOfFile));
}

#[test]
fn sixteen_bit_rejected() {
    let (r, p) = decode(build(7, 9, 16, 2, &[], &[]));
    assert_eq!(r, Err(PngError::UnsupportedBitDepth(16)));
    assert_eq!((p.width, p.height), (7, 9));
    assert!(p.pixels().is_empty());
}

#[test]
fn bad_color_type_rejected() {
    let (r, _) = decode(build(1, 1, 8, 5, &[], &[]));
    assert_eq!(r, Err(PngError::UnsupportedColorType(5)));
}

#[test]
fn compression_and_interlace_rejected() {
    let mut out = SIG.to_vec();
    chunk(&mut out, b"IHDR", &ihdr(1, 1, 8, 0, 1, 0, 0));
    let (r, _) = decode(out);
    assert_eq!(r, Err(PngError::UnsupportedCompression(1)));
    let mut out = SIG.to_vec();
    chunk(&mut out, b"IHDR", &ihdr(1, 1, 8, 0, 0, 0, 1));
    let (r, p) = decode(out);
    assert_eq!(r, Err(PngError::UnsupportedInterlace(1)));
    assert!(p.pixels.is_empty());
    assert_eq!((p.width(), p.height()), (1, 1));
}

#[test]
fn unknown_filter_rejected() {
    let (r, _) = decode(build(1, 1, 8, 0, &[], &[5, 0]));
    assert_eq!(r, Err(PngError::UnsupportedFilter(5)));
}

#[test]
fn missing_scanline_data() {
    let (r, _) = decode(build(2, 2, 8, 0, &[], &[0, 1, 2]));
    assert_eq!(r, Err(PngError::UnexpectedEndOfFile));
}

#[test]
fn corrupt_zlib_stream() {
    let mut out = SIG.to_vec();
    chunk(&mut out, b"IHDR", &ihdr(1, 1, 8, 0, 0, 0, 0));
    chunk(&mut out, b"IDAT", &[1, 2, 3, 4]);
    chunk(&mut out, b"IEND", &[]);
    let (r, _) = decode(out);
    assert_eq!(r, Err(PngError::DecompressionFailed));
}

#[test]
fn chunk_longer_than_file() {
    let mut out = SIG.to_vec();
    chunk(&mut out, b"IHDR", &ihdr(1, 1, 8, 0, 0, 0, 0));
    out.extend_from_slice(&[0, 0, 1, 0]);
    out.extend_from_slice(b"IDAT");
    out.extend_from_slice(&[1, 2, 3]);
    let (r, _) = decode(out);
    assert_eq!(r, Err(PngError::UnexpectedEndOfFile));
}

#[test]
fn chunk_header_cut_short() {
    let mut out = SIG.to_vec();
    chunk(&mut out, b"IHDR", &ihdr(1, 1, 8, 0, 0, 0, 0));
    out.extend_from_slice(&[0, 0, 0]);
    let (r, _) = decode(out);
    assert_eq!(r, Err(PngError::UnexpectedEndOfFile));
}

#[test]
fn decode_from_given_inflated_bytes() {
    // The structure is read from the file; the decompressed bytes are given.
    let mut out = SIG.to_vec();
    chunk(&mut out, b"IHDR", &ihdr(2, 1, 8, 0, 0, 0, 0));
    chunk(&mut out, b"IEND", &[]);
    let mut p = Png::new(out);
    assert_eq!(p.parse_structure(), Ok(()));
    assert_eq!(p.decode_inflated(vec![1, 3, 4]), Ok(()));
    assert_eq!(p.pixels, vec![3, 3, 3, 255, 7, 7, 7, 255]);
}

#[test]
fn inflated_bytes_are_not_the_compressed_ones() {
    // Fails if decompression handed back its input: the compressed stream is
    // longer than one scanline and starts with 0x78, not a filter type.
    let (r, p) = decode(build(1, 1, 8, 0, &[], &[0, 42]));
    assert_eq!(r, Ok(()));
    assert_eq!(p.pixels, vec![42, 42, 42, 255]);
}

#[test]
fn parse_equals_structure_then_decode_of_inflated_data() {
    let lines = [2, 10, 20, 30, 40, 0, 1, 2, 3, 4];
    let bytes = build(4, 2, 8, 0, &[], &lines);
    let (r, whole) = decode(bytes.clone());
    assert_eq!(r, Ok(()));
    let mut staged = Png::new(bytes);
    assert_eq!(staged.parse_structure(), Ok(()));
    assert_eq!(staged.decode_inflated(lines.to_vec()), Ok(()));
    assert_eq!(whole.pixels, staged.pixels);
    assert_eq!((whole.width, whole.height), (staged.width, staged.height));
}
