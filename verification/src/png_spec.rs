//! The mathematical meaning of PNG decoding: each stage of the decoder as a
//! function from a model of the decoder's state to the next state or an error.

use vstd::prelude::*;
use crate::bytes::be_u32_at;
use crate::png::PngError;
use crate::inflate::zlib_inflate;

verus! {

/// The abstract state of a `Png` decoder.
pub struct PngModel {
    pub image: Seq<u8>,
    pub width: u32,
    pub height: u32,
    pub bit_depth: u8,
    pub color_type: u8,
    pub compression: u8,
    pub filter: u8,
    pub interlace: u8,
    pub idat: Seq<u8>,
    pub decompressed: Seq<u8>,
    pub reconstructed: Seq<u8>,
    pub palette: Seq<u8>,
    pub trns: Seq<u8>,
    pub pixels: Seq<u8>,
}

/// A decoder that has been handed `image` and has done nothing yet.
pub open spec fn initial_model(image: Seq<u8>) -> PngModel {
    PngModel {
        image,
        width: 0,
        height: 0,
        bit_depth: 0,
        color_type: 0,
        compression: 0,
        filter: 0,
        interlace: 0,
        idat: Seq::empty(),
        decompressed: Seq::empty(),
        reconstructed: Seq::empty(),
        palette: Seq::empty(),
        trns: Seq::empty(),
        pixels: Seq::empty(),
    }
}

/// `r` and `after` are the result of a stage and the decoder after it, as
/// `expected` says: the state the stage leaves and what it returns.
pub open spec fn outcome(r: Result<(), PngError>, after: PngModel, expected: (PngModel, Result<(), PngError>)) -> bool {
    after == expected.0 && r == expected.1
}

/// The eight bytes every PNG file starts with.
pub open spec fn png_signature() -> Seq<u8> {
    seq![0x89u8, 0x50u8, 0x4Eu8, 0x47u8, 0x0Du8, 0x0Au8, 0x1Au8, 0x0Au8]
}

pub open spec fn spec_check_signature(image: Seq<u8>) -> Result<(), PngError> {
    if image.len() < 8 {
        Err(PngError::UnexpectedEndOfFile)
    } else if image.take(8) != png_signature() {
        Err(PngError::InvalidSignature)
    } else {
        Ok(())
    }
}

pub open spec fn is_supported_bit_depth(d: u8) -> bool {
    d == 1 || d == 2 || d == 4 || d == 8
}

pub open spec fn is_supported_color_type(c: u8) -> bool {
    c == 0 || c == 2 || c == 3 || c == 4 || c == 6
}

/// RGB, gray-alpha and RGBA images are supported at 8 bits per sample only;
/// gray and indexed images at every supported depth.
pub open spec fn depth_allowed_for(color_type: u8, bit_depth: u8) -> bool {
    color_type == 0 || color_type == 3 || bit_depth == 8
}

/// Reading the IHDR fields, which sit at fixed offsets after the signature
/// and the first chunk's length and type. Each field is stored before it is
/// checked, so a rejected header leaves the fields read up to the rejected
/// one in place.
pub open spec fn spec_parse_ihdr(m: PngModel) -> (PngModel, Result<(), PngError>) {
    let img = m.image;
    if img.len() < 33 {
        (m, Err(PngError::UnexpectedEndOfFile))
    } else {
        let m1 = PngModel {
            width: be_u32_at(img, 16) as u32,
            height: be_u32_at(img, 20) as u32,
            bit_depth: img[24],
            ..m
        };
        let m2 = PngModel { color_type: img[25], ..m1 };
        let m3 = PngModel { compression: img[26], ..m2 };
        let m4 = PngModel { filter: img[27], interlace: img[28], ..m3 };
        if !is_supported_bit_depth(img[24]) {
            (m1, Err(PngError::UnsupportedBitDepth(img[24])))
        } else if !is_supported_color_type(img[25]) {
            (m2, Err(PngError::UnsupportedColorType(img[25])))
        } else if !depth_allowed_for(img[25], img[24]) {
            (m2, Err(PngError::UnsupportedBitDepth(img[24])))
        } else if img[26] != 0 {
            (m3, Err(PngError::UnsupportedCompression(img[26])))
        } else if img[28] != 0 {
            (m4, Err(PngError::UnsupportedInterlace(img[28])))
        } else {
            (m4, Ok(()))
        }
    }
}

/// The four bytes at `img[pos + 4..pos + 8]` (a chunk's type) are `t`.
pub open spec fn chunk_type_is(img: Seq<u8>, pos: int, t: Seq<u8>) -> bool {
    img[pos + 4] == t[0] && img[pos + 5] == t[1] && img[pos + 6] == t[2] && img[pos + 7] == t[3]
}

pub open spec fn idat_tag() -> Seq<u8> {
    seq![0x49u8, 0x44u8, 0x41u8, 0x54u8]
}

pub open spec fn plte_tag() -> Seq<u8> {
    seq![0x50u8, 0x4Cu8, 0x54u8, 0x45u8]
}

pub open spec fn trns_tag() -> Seq<u8> {
    seq![0x74u8, 0x52u8, 0x4Eu8, 0x53u8]
}

pub open spec fn iend_tag() -> Seq<u8> {
    seq![0x49u8, 0x45u8, 0x4Eu8, 0x44u8]
}

/// Walking the chunk list from offset `pos`: each chunk is a big-endian
/// length, a type and that many data bytes, followed by a four-byte CRC.
/// IDAT data is appended, the PLTE data replaces the palette, tRNS data is
/// appended, IEND stops the walk, and every other chunk is skipped. A chunk
/// cut short stops the walk with what the chunks before it gathered.
pub open spec fn scan_chunks(pos: int, m: PngModel) -> (PngModel, Result<(), PngError>)
    decreases m.image.len() + 4 - pos,
{
    let img = m.image;
    if pos >= img.len() {
        (m, Ok(()))
    } else if pos + 8 > img.len() {
        (m, Err(PngError::UnexpectedEndOfFile))
    } else {
        let len = be_u32_at(img, pos);
        let start = pos + 8;
        if start + len > img.len() {
            (m, Err(PngError::UnexpectedEndOfFile))
        } else if chunk_type_is(img, pos, iend_tag()) {
            (m, Ok(()))
        } else {
            let data = img.subrange(start, start + len);
            let next = if chunk_type_is(img, pos, idat_tag()) {
                PngModel { idat: m.idat + data, ..m }
            } else if chunk_type_is(img, pos, plte_tag()) {
                PngModel { palette: data, ..m }
            } else if chunk_type_is(img, pos, trns_tag()) {
                PngModel { trns: m.trns + data, ..m }
            } else {
                m
            };
            scan_chunks(start + len + 4, next)
        }
    }
}

pub open spec fn spec_parse_chunks(m: PngModel) -> (PngModel, Result<(), PngError>) {
    scan_chunks(8, m)
}

/// Signature, header and chunk list: everything before decompression.
pub open spec fn spec_parse_structure(m: PngModel) -> (PngModel, Result<(), PngError>) {
    match spec_check_signature(m.image) {
        Err(e) => (m, Err(e)),
        Ok(_) => {
            let (m1, r1) = spec_parse_ihdr(m);
            if r1 is Err {
                (m1, r1)
            } else {
                spec_parse_chunks(m1)
            }
        },
    }
}

/// Bytes per complete pixel, rounded up to one byte, for each color type.
pub open spec fn spec_bytes_per_pixel(color_type: u8) -> Option<int> {
    if color_type == 0 {
        Some(1)
    } else if color_type == 2 {
        Some(3)
    } else if color_type == 3 {
        Some(1)
    } else if color_type == 4 {
        Some(2)
    } else if color_type == 6 {
        Some(4)
    } else {
        None
    }
}

/// Bytes of pixel data in one scanline (the filter byte excluded).
pub open spec fn spec_scanline_bytes(color_type: u8, bit_depth: u8, width: u32) -> Option<int> {
    if color_type == 0 || color_type == 3 {
        Some((width * bit_depth + 7) / 8)
    } else if color_type == 2 {
        Some(width * 3 * (bit_depth / 8))
    } else if color_type == 4 {
        Some(width * 2 * (bit_depth / 8))
    } else if color_type == 6 {
        Some(width * 4 * (bit_depth / 8))
    } else {
        None
    }
}

/// Addition modulo 256.
pub open spec fn add_mod(a: u8, b: u8) -> u8 {
    ((a + b) % 256) as u8
}

pub open spec fn abs(x: int) -> int {
    if x < 0 { -x } else { x }
}

/// The Paeth predictor: of the left, above and upper-left bytes, the one
/// closest to `left + above - upper_left`, ties broken in that order.
pub open spec fn paeth(a: u8, b: u8, c: u8) -> u8 {
    let p = a + b - c;
    let pa = abs(p - a);
    let pb = abs(p - b);
    let pc = abs(p - c);
    if pa <= pb && pa <= pc {
        a
    } else if pb <= pc {
        b
    } else {
        c
    }
}

/// The byte that a filtered byte stands for, under one of the five filters.
pub open spec fn unfilter_byte(filter: u8, raw: u8, left: u8, above: u8, upper_left: u8) -> u8 {
    if filter == 0 {
        raw
    } else if filter == 1 {
        add_mod(raw, left)
    } else if filter == 2 {
        add_mod(raw, above)
    } else if filter == 3 {
        add_mod(raw, ((left + above) / 2) as u8)
    } else {
        add_mod(raw, paeth(left, above, upper_left))
    }
}

/// The first `i` bytes of a reconstructed scanline. `raw` holds the filtered
/// bytes, `prev` the reconstructed scanline above, `bpp` the distance to the
/// byte on the left; bytes left of the first pixel count as zero.
pub open spec fn unfilter_prefix(filter: u8, raw: Seq<u8>, prev: Seq<u8>, bpp: int, i: nat) -> Seq<u8>
    decreases i,
{
    if i == 0 {
        Seq::empty()
    } else {
        let cur = unfilter_prefix(filter, raw, prev, bpp, (i - 1) as nat);
        let k = i - 1;
        let left = if k >= bpp { cur[k - bpp] } else { 0u8 };
        let upper_left = if k >= bpp { prev[k - bpp] } else { 0u8 };
        cur.push(unfilter_byte(filter, raw[k], left, prev[k], upper_left))
    }
}

/// One scanline of `s` bytes whose filter byte stands at `data[base]`.
pub open spec fn recon_row(data: Seq<u8>, s: int, bpp: int, base: int, prev: Seq<u8>) -> Result<Seq<u8>, PngError> {
    if base >= data.len() {
        Err(PngError::UnexpectedEndOfFile)
    } else if s == 0 {
        Ok(Seq::empty())
    } else if base + 1 >= data.len() {
        Err(PngError::UnexpectedEndOfFile)
    } else if data[base] > 4 {
        Err(PngError::UnsupportedFilter(data[base]))
    } else if base + s >= data.len() {
        Err(PngError::UnexpectedEndOfFile)
    } else {
        Ok(unfilter_prefix(data[base], data.subrange(base + 1, base + 1 + s), prev, bpp, s as nat))
    }
}

/// The first `n` scanlines, concatenated, the last of them (a row of zeros
/// when `n` is 0), and whether all of them reconstructed. Scanline `r` starts
/// at `r * (s + 1)`; the first scanline that fails stops the work, and only
/// the scanlines before it are kept.
pub open spec fn recon_rows(data: Seq<u8>, s: int, bpp: int, n: nat) -> (Seq<u8>, Seq<u8>, Result<(), PngError>)
    decreases n,
{
    if n == 0 {
        (Seq::empty(), Seq::new(s as nat, |i: int| 0u8), Ok(()))
    } else {
        let (bytes, prev, r) = recon_rows(data, s, bpp, (n - 1) as nat);
        if r is Err {
            (bytes, prev, r)
        } else {
            match recon_row(data, s, bpp, (n - 1) * (s + 1), prev) {
                Err(e) => (bytes, prev, Err(e)),
                Ok(row) => (bytes + row, row, Ok(())),
            }
        }
    }
}

/// Undoing the scanline filters of the decompressed data; the scanlines
/// reconstructed are appended to the reconstructed data.
pub open spec fn spec_reconstruct(m: PngModel) -> (PngModel, Result<(), PngError>) {
    match (spec_bytes_per_pixel(m.color_type), spec_scanline_bytes(m.color_type, m.bit_depth, m.width)) {
        (Some(bpp), Some(s)) => {
            let (bytes, _, r) = recon_rows(m.decompressed, s, bpp, m.height as nat);
            (PngModel { reconstructed: m.reconstructed + bytes, ..m }, r)
        },
        _ => (m, Err(PngError::UnsupportedColorType(m.color_type))),
    }
}

} // verus!

verus! {

/// The mask that keeps one sample of `d` bits.
pub open spec fn sample_mask(d: u8) -> u8 {
    if d == 1 {
        1
    } else if d == 2 {
        3
    } else {
        15
    }
}

/// Sample `j` of a byte packed with `d`-bit samples, the first sample in the
/// most significant bits.
pub open spec fn sample_of(b: u8, d: u8, j: int) -> u8 {
    (b >> ((8 - d * (j + 1)) as u8)) & sample_mask(d)
}

/// The samples of one packed scanline, as many as the image is wide (or as
/// the scanline holds, if fewer).
pub open spec fn unpack_row(bytes: Seq<u8>, d: u8, width: u32) -> Seq<u8> {
    let spb = 8int / (d as int);
    let n = if width < bytes.len() * spb { width as int } else { bytes.len() * spb };
    Seq::new(n as nat, |i: int| sample_of(bytes[i / spb], d, i % spb))
}

/// The samples of the first `n` packed scanlines of `s` bytes each.
pub open spec fn unpack_rows(packed: Seq<u8>, s: int, d: u8, width: u32, n: nat) -> Seq<u8>
    decreases n,
{
    if n == 0 {
        Seq::empty()
    } else {
        let base = (n - 1) * s;
        unpack_rows(packed, s, d, width, (n - 1) as nat) + unpack_row(
            packed.subrange(base, base + s),
            d,
            width,
        )
    }
}

/// Splitting samples of fewer than eight bits into one byte each. The
/// reconstructed data is taken out first, so an error leaves it empty.
pub open spec fn spec_unpack(m: PngModel) -> (PngModel, Result<(), PngError>) {
    let d = m.bit_depth;
    let cleared = PngModel { reconstructed: Seq::empty(), ..m };
    if d == 8 {
        (m, Ok(()))
    } else if d == 1 || d == 2 || d == 4 {
        if m.height == 0 {
            (cleared, Ok(()))
        } else {
            match spec_scanline_bytes(m.color_type, d, m.width) {
                None => (cleared, Err(PngError::UnsupportedColorType(m.color_type))),
                Some(s) => (
                    PngModel {
                        reconstructed: unpack_rows(m.reconstructed, s, d, m.width, m.height as nat),
                        ..m
                    },
                    Ok(()),
                ),
            }
        }
    } else {
        (cleared, Err(PngError::UnsupportedBitDepth(d)))
    }
}

/// The reconstructed data holds every scanline that unpacking reads.
pub open spec fn unpack_input_ok(m: PngModel) -> bool {
    (m.bit_depth == 1 || m.bit_depth == 2 || m.bit_depth == 4) && m.height > 0 ==> match spec_scanline_bytes(
        m.color_type,
        m.bit_depth,
        m.width,
    ) {
        Some(s) => m.reconstructed.len() >= m.height * s,
        None => true,
    }
}

/// The factor that scales a gray sample of `d` bits to eight bits.
pub open spec fn gray_scale(d: u8) -> int {
    if d == 1 {
        255
    } else if d == 2 {
        85
    } else if d == 4 {
        17
    } else {
        1
    }
}

/// RGBA for the first `n` gray samples.
pub open spec fn gray_pixels(data: Seq<u8>, d: u8, n: nat) -> Seq<u8>
    decreases n,
{
    if n == 0 {
        Seq::empty()
    } else {
        let g = (data[n - 1] * gray_scale(d)) as u8;
        gray_pixels(data, d, (n - 1) as nat) + seq![g, g, g, 0xFFu8]
    }
}

/// RGBA for the first `n` RGB triples.
pub open spec fn rgb_pixels(data: Seq<u8>, n: nat) -> Seq<u8>
    decreases n,
{
    if n == 0 {
        Seq::empty()
    } else {
        let k = 3 * (n - 1);
        rgb_pixels(data, (n - 1) as nat) + seq![data[k], data[k + 1], data[k + 2], 0xFFu8]
    }
}

/// RGBA for the first `n` gray-alpha pairs.
pub open spec fn gray_alpha_pixels(data: Seq<u8>, n: nat) -> Seq<u8>
    decreases n,
{
    if n == 0 {
        Seq::empty()
    } else {
        let k = 2 * (n - 1);
        gray_alpha_pixels(data, (n - 1) as nat) + seq![data[k], data[k], data[k], data[k + 1]]
    }
}

/// RGBA for the first `n` RGBA quadruples: the quadruples themselves.
pub open spec fn rgba_pixels(data: Seq<u8>, n: nat) -> Seq<u8>
    decreases n,
{
    if n == 0 {
        Seq::empty()
    } else {
        let k = 4 * (n - 1);
        rgba_pixels(data, (n - 1) as nat) + seq![data[k], data[k + 1], data[k + 2], data[k + 3]]
    }
}

/// RGBA for the first `n` palette indices, and whether all of them were in
/// the palette: each index becomes the palette's color, with the alpha from
/// tRNS where it has an entry for the index and opaque otherwise. The first
/// index past the palette's end stops the work, keeping the pixels before it.
pub open spec fn index_pixels(data: Seq<u8>, palette: Seq<u8>, trns: Seq<u8>, n: nat) -> (Seq<u8>, Result<(), PngError>)
    decreases n,
{
    if n == 0 {
        (Seq::empty(), Ok(()))
    } else {
        let (px, r) = index_pixels(data, palette, trns, (n - 1) as nat);
        if r is Err {
            (px, r)
        } else {
            let i = data[n - 1] as int;
            if palette.len() < 3 * i + 3 {
                (px, Err(PngError::UnexpectedEndOfFile))
            } else {
                let a = if trns.len() > i { trns[i] } else { 0xFFu8 };
                (px + seq![palette[3 * i], palette[3 * i + 1], palette[3 * i + 2], a], Ok(()))
            }
        }
    }
}

/// Gray samples to opaque gray pixels, appended to `pixels`; an unsupported
/// depth is an error, raised only when there is a sample to scale.
pub open spec fn spec_decode_gray(m: PngModel) -> (PngModel, Result<(), PngError>) {
    let data = m.reconstructed;
    if data.len() == 0 {
        (m, Ok(()))
    } else if !is_supported_bit_depth(m.bit_depth) {
        (m, Err(PngError::UnsupportedBitDepthForGrayscale(m.bit_depth)))
    } else {
        (PngModel { pixels: m.pixels + gray_pixels(data, m.bit_depth, data.len()), ..m }, Ok(()))
    }
}

/// RGB triples to opaque pixels, appended; a trailing partial triple is
/// ignored.
pub open spec fn spec_decode_rgb(m: PngModel) -> PngModel {
    PngModel { pixels: m.pixels + rgb_pixels(m.reconstructed, m.reconstructed.len() / 3), ..m }
}

/// Gray-alpha pairs to gray pixels with that alpha, appended; a trailing
/// partial pair is ignored.
pub open spec fn spec_decode_gray_alpha(m: PngModel) -> PngModel {
    PngModel { pixels: m.pixels + gray_alpha_pixels(m.reconstructed, m.reconstructed.len() / 2), ..m }
}

/// RGBA quadruples appended as they are; a trailing partial quadruple is
/// ignored.
pub open spec fn spec_decode_rgba(m: PngModel) -> PngModel {
    PngModel { pixels: m.pixels + rgba_pixels(m.reconstructed, m.reconstructed.len() / 4), ..m }
}

/// Palette indices to pixels, appended, up to the first index past the
/// palette's end.
pub open spec fn spec_decode_index(m: PngModel) -> (PngModel, Result<(), PngError>) {
    let (px, r) = index_pixels(m.reconstructed, m.palette, m.trns, m.reconstructed.len());
    (PngModel { pixels: m.pixels + px, ..m }, r)
}

/// Turning the unpacked samples into RGBA pixels by color type.
pub open spec fn spec_decode(m: PngModel) -> (PngModel, Result<(), PngError>) {
    let ct = m.color_type;
    if ct == 0 {
        spec_decode_gray(m)
    } else if ct == 2 {
        (spec_decode_rgb(m), Ok(()))
    } else if ct == 3 {
        spec_decode_index(m)
    } else if ct == 4 {
        (spec_decode_gray_alpha(m), Ok(()))
    } else if ct == 6 {
        (spec_decode_rgba(m), Ok(()))
    } else {
        (m, Err(PngError::UnsupportedColorType(ct)))
    }
}

/// Every sample is small enough to be scaled to an eight-bit gray.
pub open spec fn gray_fits(m: PngModel) -> bool {
    forall|i: int|
        0 <= i < m.reconstructed.len() ==> #[trigger] m.reconstructed[i] * gray_scale(m.bit_depth) <= 255
}

/// Gray samples are small enough to be scaled to eight bits.
pub open spec fn decode_input_ok(m: PngModel) -> bool {
    m.color_type == 0 ==> gray_fits(m)
}

/// Everything after decompression: undoing the filters, unpacking small
/// samples and decoding the pixels, each stage stopping the work on error.
pub open spec fn spec_decode_decompressed(m: PngModel) -> (PngModel, Result<(), PngError>) {
    let (m2, r2) = spec_reconstruct(m);
    if r2 is Err {
        (m2, r2)
    } else {
        let (m3, r3) = spec_unpack(m2);
        if r3 is Err {
            (m3, r3)
        } else {
            spec_decode(m3)
        }
    }
}

/// Everything after decompression, given the decompressed bytes.
pub open spec fn spec_decode_inflated(m: PngModel, inflated: Seq<u8>) -> (PngModel, Result<(), PngError>) {
    spec_decode_decompressed(PngModel { decompressed: m.decompressed + inflated, ..m })
}

/// Inflating the IDAT data: what the decoder produced is appended to the
/// decompressed data, complete stream or not.
pub open spec fn spec_decompress(m: PngModel) -> (PngModel, Result<(), PngError>) {
    let (out, complete) = zlib_inflate(m.idat);
    (
        PngModel { decompressed: m.decompressed + out, ..m },
        if complete { Ok(()) } else { Err(PngError::DecompressionFailed) },
    )
}

/// The whole decoder, with the zlib stream inflated as `zlib_inflate` says.
pub open spec fn spec_parse(m: PngModel) -> (PngModel, Result<(), PngError>) {
    let (m1, r1) = spec_parse_structure(m);
    if r1 is Err {
        (m1, r1)
    } else {
        let (m2, r2) = spec_decompress(m1);
        if r2 is Err {
            (m2, r2)
        } else {
            spec_decode_decompressed(m2)
        }
    }
}

} // verus!

verus! {

/// A reconstructed scanline prefix has one byte per filtered byte read.
pub proof fn lemma_unfilter_prefix_len(filter: u8, raw: Seq<u8>, prev: Seq<u8>, bpp: int, i: nat)
    ensures
        unfilter_prefix(filter, raw, prev, bpp, i).len() == i,
    decreases i,
{
    if i > 0 {
        lemma_unfilter_prefix_len(filter, raw, prev, bpp, (i - 1) as nat);
    }
}

} // verus!

verus! {

/// Once a scanline fails, reconstructing more scanlines fails the same way.
pub proof fn lemma_recon_rows_err_persists(data: Seq<u8>, s: int, bpp: int, n: nat, m: nat)
    requires
        n <= m,
        recon_rows(data, s, bpp, n).2 is Err,
    ensures
        recon_rows(data, s, bpp, m) == recon_rows(data, s, bpp, n),
    decreases m - n,
{
    if n < m {
        lemma_recon_rows_err_persists(data, s, bpp, n, (m - 1) as nat);
    }
}

} // verus!

verus! {

/// A scanline that reconstructs has `s` bytes, and `n` of them have `n * s`.
pub proof fn lemma_recon_rows_len(data: Seq<u8>, s: int, bpp: int, n: nat)
    requires
        s >= 0,
        recon_rows(data, s, bpp, n).2 is Ok,
    ensures
        recon_rows(data, s, bpp, n).0.len() == n * s,
        recon_rows(data, s, bpp, n).1.len() == s,
    decreases n,
{
    if n > 0 {
        lemma_recon_rows_len(data, s, bpp, (n - 1) as nat);
        let (bytes, prev, _) = recon_rows(data, s, bpp, (n - 1) as nat);
        let base = (n - 1) * (s + 1);
        if s > 0 {
            lemma_unfilter_prefix_len(
                data[base],
                data.subrange(base + 1, base + 1 + s),
                prev,
                bpp,
                s as nat,
            );
        }
        assert((n - 1) * s + s == n * s) by (nonlinear_arith);
    }
}

/// Masking keeps a byte within the mask.
pub proof fn lemma_and_le(x: u8, m: u8)
    ensures
        x & m <= m,
{
    assert(x & m <= m) by (bit_vector);
}

/// Every unpacked sample fits in `d` bits.
pub proof fn lemma_unpack_rows_bounded(packed: Seq<u8>, s: int, d: u8, width: u32, n: nat)
    requires
        d == 1 || d == 2 || d == 4,
    ensures
        forall|i: int|
            0 <= i < unpack_rows(packed, s, d, width, n).len() ==> #[trigger] unpack_rows(
                packed,
                s,
                d,
                width,
                n,
            )[i] <= sample_mask(d),
    decreases n,
{
    if n > 0 {
        lemma_unpack_rows_bounded(packed, s, d, width, (n - 1) as nat);
        let base = (n - 1) * s;
        let row = unpack_row(packed.subrange(base, base + s), d, width);
        let prefix = unpack_rows(packed, s, d, width, (n - 1) as nat);
        assert forall|i: int| 0 <= i < row.len() implies #[trigger] row[i] <= sample_mask(d) by {
            let spb = 8int / (d as int);
            let b = packed.subrange(base, base + s)[i / spb];
            lemma_and_le(b >> ((8 - d * (i % spb + 1)) as u8), sample_mask(d));
        }
        assert forall|i: int| 0 <= i < (prefix + row).len() implies #[trigger] (prefix + row)[i]
            <= sample_mask(d) by {
            if i >= prefix.len() {
                assert((prefix + row)[i] == row[i - prefix.len()]);
            }
        }
    }
}

} // verus!

verus! {

/// Once a palette lookup fails, looking up more indices fails the same way.
pub proof fn lemma_index_pixels_err_persists(data: Seq<u8>, palette: Seq<u8>, trns: Seq<u8>, n: nat, m: nat)
    requires
        n <= m,
        index_pixels(data, palette, trns, n).1 is Err,
    ensures
        index_pixels(data, palette, trns, m) == index_pixels(data, palette, trns, n),
    decreases m - n,
{
    if n < m {
        lemma_index_pixels_err_persists(data, palette, trns, n, (m - 1) as nat);
    }
}

} // verus!

verus! {

/// Reconstruction leaves every scanline that unpacking reads in place.
pub proof fn lemma_reconstruct_feeds_unpack(m: PngModel)
    requires
        spec_reconstruct(m).1 is Ok,
    ensures
        unpack_input_ok(spec_reconstruct(m).0),
{
    let bpp = spec_bytes_per_pixel(m.color_type)->Some_0;
    let s = spec_scanline_bytes(m.color_type, m.bit_depth, m.width)->Some_0;
    assert(s >= 0) by (nonlinear_arith)
        requires
            s == (if m.color_type == 0 || m.color_type == 3 {
                (m.width * m.bit_depth + 7) / 8
            } else if m.color_type == 2 {
                m.width * 3 * (m.bit_depth / 8)
            } else if m.color_type == 4 {
                m.width * 2 * (m.bit_depth / 8)
            } else {
                m.width * 4 * (m.bit_depth / 8)
            }),
    ;
    lemma_recon_rows_len(m.decompressed, s, bpp, m.height as nat);
}

/// Unpacking leaves gray samples small enough to scale to eight bits.
pub proof fn lemma_unpack_feeds_decode(m: PngModel)
    requires
        spec_unpack(m).1 is Ok,
    ensures
        decode_input_ok(spec_unpack(m).0),
{
    let m2 = spec_unpack(m).0;
    let d = m.bit_depth;
    if m.color_type == 0 && d != 8 && m.height > 0 {
        let s = spec_scanline_bytes(m.color_type, d, m.width)->Some_0;
        lemma_unpack_rows_bounded(m.reconstructed, s, d, m.width, m.height as nat);
        assert forall|i: int| 0 <= i < m2.reconstructed.len() implies #[trigger] m2.reconstructed[i]
            * gray_scale(d) <= 255 by {
            assert(m2.reconstructed[i] <= sample_mask(d));
        }
    }
}

} // verus!
