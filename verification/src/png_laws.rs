//! Properties of PNG decoding as a whole.

use vstd::prelude::*;
use crate::png::PngError;
use crate::png_spec::{
    PngModel, initial_model, spec_parse, spec_parse_structure, spec_decode_inflated,
    spec_check_signature, spec_parse_ihdr, spec_parse_chunks, scan_chunks, png_signature,
    spec_reconstruct, spec_unpack, spec_scanline_bytes, spec_bytes_per_pixel, spec_decompress,
    spec_decode_decompressed, spec_decode,
    lemma_recon_rows_len, unpack_rows, unpack_row, gray_pixels, rgb_pixels,
    gray_alpha_pixels, rgba_pixels, index_pixels, unfilter_prefix, paeth, chunk_type_is, iend_tag,
    idat_tag, plte_tag, trns_tag, depth_allowed_for, recon_rows, recon_row, unfilter_byte,
    lemma_unfilter_prefix_len, is_supported_bit_depth, gray_scale, sample_mask, lemma_and_le,
};
use crate::bytes::be_u32_at;
use crate::inflate::zlib_inflate;

verus! {

/// Walking the chunk list changes only the IDAT data, palette and tRNS data.
proof fn lemma_scan_chunks_frame(pos: int, m: PngModel)
    ensures
        ({
            let m2 = scan_chunks(pos, m).0;
            &&& m2.image == m.image
            &&& m2.width == m.width
            &&& m2.height == m.height
            &&& m2.bit_depth == m.bit_depth
            &&& m2.color_type == m.color_type
            &&& m2.decompressed == m.decompressed
            &&& m2.reconstructed == m.reconstructed
            &&& m2.pixels == m.pixels
        }),
    decreases m.image.len() + 4 - pos,
{
    let img = m.image;
    if pos < img.len() && pos + 8 <= img.len() {
        let len = be_u32_at(img, pos);
        let start = pos + 8;
        if start + len <= img.len() && !chunk_type_is(img, pos, iend_tag()) {
            let data = img.subrange(start, start + len);
            let next = if chunk_type_is(img, pos, idat_tag()) {
                PngModel { idat: m.idat + data, ..m }
            } else if chunk_type_is(img, pos, plte_tag()) {
                PngModel { palette: data, ..m }
            } else if chunk_type_is(img, pos, trns_tag()) {
                PngModel { trns: m.trns + data, ..m }
            } else {
                m
            };
            lemma_scan_chunks_frame(start + len + 4, next);
        }
    }
}

proof fn lemma_gray_pixels_len(data: Seq<u8>, d: u8, n: nat)
    ensures
        gray_pixels(data, d, n).len() == 4 * n,
    decreases n,
{
    if n > 0 {
        lemma_gray_pixels_len(data, d, (n - 1) as nat);
    }
}

proof fn lemma_rgb_pixels_len(data: Seq<u8>, n: nat)
    ensures
        rgb_pixels(data, n).len() == 4 * n,
    decreases n,
{
    if n > 0 {
        lemma_rgb_pixels_len(data, (n - 1) as nat);
    }
}

proof fn lemma_gray_alpha_pixels_len(data: Seq<u8>, n: nat)
    ensures
        gray_alpha_pixels(data, n).len() == 4 * n,
    decreases n,
{
    if n > 0 {
        lemma_gray_alpha_pixels_len(data, (n - 1) as nat);
    }
}

proof fn lemma_rgba_pixels_len(data: Seq<u8>, n: nat)
    ensures
        rgba_pixels(data, n).len() == 4 * n,
    decreases n,
{
    if n > 0 {
        lemma_rgba_pixels_len(data, (n - 1) as nat);
    }
}

proof fn lemma_index_pixels_len(data: Seq<u8>, palette: Seq<u8>, trns: Seq<u8>, n: nat)
    requires
        index_pixels(data, palette, trns, n).1 is Ok,
    ensures
        index_pixels(data, palette, trns, n).0.len() == 4 * n,
    decreases n,
{
    if n > 0 {
        lemma_index_pixels_len(data, palette, trns, (n - 1) as nat);
    }
}

/// Unpacking `n` scanlines of `s` bytes yields `k` samples per scanline,
/// `k` being the image width where the scanline holds that many samples.
proof fn lemma_unpack_rows_len(packed: Seq<u8>, s: int, d: u8, width: u32, n: nat, k: int)
    requires
        d == 1 || d == 2 || d == 4,
        s >= 0,
        packed.len() >= n * s,
        k == (if width < s * (8int / (d as int)) { width as int } else { s * (8int / (d as int)) }),
    ensures
        unpack_rows(packed, s, d, width, n).len() == n * k,
    decreases n,
{
    if n > 0 {
        assert((n - 1) * s + s == n * s && (n - 1) * s >= 0 && (n - 1) * k + k == n * k) by (nonlinear_arith)
            requires
                n >= 1,
                s >= 0,
        ;
        assert(packed.len() >= (n - 1) * s) by (nonlinear_arith)
            requires
                packed.len() >= n * s,
                n >= 1,
                s >= 0,
        ;
        lemma_unpack_rows_len(packed, s, d, width, (n - 1) as nat, k);
        let base = (n - 1) * s;
        assert(packed.subrange(base, base + s).len() == s);
        assert(unpack_row(packed.subrange(base, base + s), d, width).len() == k);
        assert(unpack_rows(packed, s, d, width, (n - 1) as nat).len() == (n - 1) * k);
        assert(unpack_rows(packed, s, d, width, n) == unpack_rows(packed, s, d, width, (n - 1) as nat) + unpack_row(packed.subrange(base, base + s), d, width));
    } else {
        assert(n * k == 0) by (nonlinear_arith)
            requires
                n == 0,
        ;
    }
}

/// Every successful decode of a fresh decoder's decompressed data, for a
/// header the decoder accepts, yields `4 * width * height` bytes.
proof fn lemma_decode_decompressed_size(ma: PngModel)
    requires
        ma.reconstructed.len() == 0,
        ma.pixels.len() == 0,
        depth_allowed_for(ma.color_type, ma.bit_depth),
    ensures
        ({
            let (m, r) = spec_decode_decompressed(ma);
            r is Ok ==> m.pixels.len() == 4 * m.width * m.height
        }),
{
    let (m, r) = spec_decode_decompressed(ma);
    if r is Ok {
        {
            let ct = ma.color_type;
            let d = ma.bit_depth;
            let w = ma.width as int;
            let h = ma.height as int;
            let bpp = spec_bytes_per_pixel(ct)->Some_0;
            let s = spec_scanline_bytes(ct, d, ma.width)->Some_0;
            assert(s >= 0) by (nonlinear_arith)
                requires
                    s == (if ct == 0 || ct == 3 {
                        (w * d + 7) / 8
                    } else if ct == 2 {
                        w * 3 * (d / 8)
                    } else if ct == 4 {
                        w * 2 * (d / 8)
                    } else {
                        w * 4 * (d / 8)
                    }),
                    w >= 0,
                    d >= 0,
            ;
            lemma_recon_rows_len(ma.decompressed, s, bpp, h as nat);
            let m2 = spec_reconstruct(ma).0;
            let m3 = spec_unpack(m2).0;
            assert(m2.reconstructed.len() == h * s);
            // The samples left after unpacking: one per pixel for gray and
            // indexed images, `s` bytes per scanline otherwise.
            if d == 8 {
                assert(m3.reconstructed.len() == h * s);
                if ct == 0 || ct == 3 {
                    assert(s == w);
                } else if ct == 2 {
                    assert(s == w * 3) by (nonlinear_arith)
                        requires
                            d == 8,
                            s == w * 3 * (d / 8),
                    ;
                    assert((h * (w * 3)) / 3 == h * w) by (nonlinear_arith);
                } else if ct == 4 {
                    assert(s == w * 2) by (nonlinear_arith)
                        requires
                            d == 8,
                            s == w * 2 * (d / 8),
                    ;
                    assert((h * (w * 2)) / 2 == h * w) by (nonlinear_arith);
                } else {
                    assert(s == w * 4) by (nonlinear_arith)
                        requires
                            d == 8,
                            s == w * 4 * (d / 8),
                    ;
                    assert((h * (w * 4)) / 4 == h * w) by (nonlinear_arith);
                }
            } else {
                if h > 0 {
                    let spb = 8int / (d as int);
                    assert(s * spb >= w) by (nonlinear_arith)
                        requires
                            d == 1 || d == 2 || d == 4,
                            spb == 8int / (d as int),
                            s == (w * d + 7) / 8,
                            w >= 0,
                    ;
                    lemma_unpack_rows_len(m2.reconstructed, s, d, ma.width, h as nat, w);
                } else {
                    assert(h * w == 0) by (nonlinear_arith)
                        requires
                            h == 0,
                    ;
                }
                assert(m3.reconstructed.len() == h * w);
            }
            let n = m3.reconstructed.len();
            if ct == 0 {
                lemma_gray_pixels_len(m3.reconstructed, d, n);
            } else if ct == 2 {
                lemma_rgb_pixels_len(m3.reconstructed, n / 3);
            } else if ct == 3 {
                lemma_index_pixels_len(m3.reconstructed, m3.palette, m3.trns, n);
            } else if ct == 4 {
                lemma_gray_alpha_pixels_len(m3.reconstructed, n / 2);
            } else {
                lemma_rgba_pixels_len(m3.reconstructed, n / 4);
            }
            assert(4 * (h * w) == 4 * w * h) by (nonlinear_arith);
        }
    }
}

/// A decoded PNG is a `width` x `height` RGBA buffer: four bytes per pixel.
pub proof fn law_png_rgba_buffer_size(image: Seq<u8>)
    ensures
        ({
            let (m, r) = spec_parse(initial_model(image));
            r is Ok ==> m.pixels.len() == 4 * m.width * m.height
        }),
{
    let m0 = initial_model(image);
    let (m1, r1) = spec_parse_structure(m0);
    if r1 is Ok {
        let mh = spec_parse_ihdr(m0).0;
        lemma_scan_chunks_frame(8, mh);
        let (m2, r2) = spec_decompress(m1);
        if r2 is Ok {
            lemma_decode_decompressed_size(m2);
        }
    }
}

/// A file that does not start with the PNG signature is rejected: as too
/// short when it has fewer than eight bytes, as not a PNG otherwise.
pub proof fn law_png_signature_checked(m: PngModel)
    ensures
        m.image.len() < 8 ==> spec_parse(m) == (m, Err::<(), PngError>(PngError::UnexpectedEndOfFile)),
        m.image.len() >= 8 && m.image.take(8) != png_signature() ==> spec_parse(m) == (
            m,
            Err::<(), PngError>(PngError::InvalidSignature),
        ),
        // The signature is the bytes 0x89, "PNG", CR, LF, 0x1A, LF.
        m.image.len() >= 8 ==> (spec_check_signature(m.image) is Ok <==> (m.image[0] == 0x89
            && m.image[1] == 'P' as u8 && m.image[2] == 'N' as u8 && m.image[3] == 'G' as u8
            && m.image[4] == 0x0D && m.image[5] == 0x0A && m.image[6] == 0x1A && m.image[7] == 0x0A)),
{
    if m.image.len() >= 8 {
        let t = m.image.take(8);
        assert(t[0] == m.image[0] && t[1] == m.image[1] && t[2] == m.image[2] && t[3] == m.image[3]
            && t[4] == m.image[4] && t[5] == m.image[5] && t[6] == m.image[6] && t[7] == m.image[7]);
        if m.image[0] == 0x89 && m.image[1] == 'P' as u8 && m.image[2] == 'N' as u8 && m.image[3]
            == 'G' as u8 && m.image[4] == 0x0D && m.image[5] == 0x0A && m.image[6] == 0x1A
            && m.image[7] == 0x0A {
            assert(t =~= png_signature());
        }
    }
}

/// 16-bit images are rejected, as is any other depth but 1, 2, 4 and 8, with
/// no pixels decoded.
pub proof fn law_png_bit_depth_checked(m: PngModel)
    requires
        spec_check_signature(m.image) is Ok,
        m.image.len() >= 33,
        !(m.image[24] == 1 || m.image[24] == 2 || m.image[24] == 4 || m.image[24] == 8),
    ensures
        spec_parse(m).1 == Err::<(), PngError>(PngError::UnsupportedBitDepth(m.image[24])),
        spec_parse(m).0.pixels == m.pixels,
{
}

/// RGB, gray-alpha and RGBA images with fewer than eight bits per sample
/// are rejected, with no pixels decoded.
pub proof fn law_png_low_depth_color_rejected(m: PngModel)
    requires
        spec_check_signature(m.image) is Ok,
        m.image.len() >= 33,
        m.image[24] == 1 || m.image[24] == 2 || m.image[24] == 4,
        m.image[25] == 2 || m.image[25] == 4 || m.image[25] == 6,
    ensures
        spec_parse(m).1 == Err::<(), PngError>(PngError::UnsupportedBitDepth(m.image[24])),
        spec_parse(m).0.pixels == m.pixels,
{
}

/// Interlaced images are rejected, with no pixels decoded.
pub proof fn law_png_interlace_rejected(m: PngModel)
    requires
        spec_check_signature(m.image) is Ok,
        m.image.len() >= 33,
        m.image[24] == 1 || m.image[24] == 2 || m.image[24] == 4 || m.image[24] == 8,
        m.image[25] == 0 || m.image[25] == 2 || m.image[25] == 3 || m.image[25] == 4 || m.image[25] == 6,
        depth_allowed_for(m.image[25], m.image[24]),
        m.image[26] == 0,
        m.image[28] != 0,
    ensures
        spec_parse(m).1 == Err::<(), PngError>(PngError::UnsupportedInterlace(m.image[28])),
        spec_parse(m).0.pixels == m.pixels,
{
}

/// Filter type 0 (None) leaves a scanline's bytes as they are.
pub proof fn law_filter_none_is_identity(raw: Seq<u8>, prev: Seq<u8>, bpp: int, n: nat)
    requires
        n <= raw.len(),
    ensures
        unfilter_prefix(0, raw, prev, bpp, n) == raw.take(n as int),
    decreases n,
{
    if n > 0 {
        law_filter_none_is_identity(raw, prev, bpp, (n - 1) as nat);
        assert(raw.take(n as int) =~= raw.take(n - 1).push(raw[n - 1]));
    }
}

/// The Paeth predictor always picks one of its three neighbours.
pub proof fn law_paeth_picks_a_neighbour(a: u8, b: u8, c: u8)
    ensures
        paeth(a, b, c) == a || paeth(a, b, c) == b || paeth(a, b, c) == c,
{
}

/// Decoding the whole file is the same as reading its structure, inflating
/// the IDAT data and decoding the inflated bytes: `parse` does what
/// `parse_structure` followed by `decode_inflated` does with the inflated
/// data. When the stream is corrupt or truncated, what was inflated before
/// the failure is kept in the decompressed data.
pub proof fn law_parse_composes(m: PngModel)
    ensures
        ({
            let (m1, r1) = spec_parse_structure(m);
            let (inflated, complete) = zlib_inflate(m1.idat);
            spec_parse(m) == if r1 is Err {
                (m1, r1)
            } else if !complete {
                (
                    PngModel { decompressed: m1.decompressed + inflated, ..m1 },
                    Err::<(), PngError>(PngError::DecompressionFailed),
                )
            } else {
                spec_decode_inflated(m1, inflated)
            }
        }),
{
}

/// The decoded image's dimensions are the ones in the IHDR chunk: the
/// big-endian words at offsets 16 and 20.
pub proof fn law_png_dimensions_from_header(m: PngModel)
    ensures
        spec_parse(m).1 is Ok ==> ({
            let img = m.image;
            let (m2, _) = spec_parse(m);
            &&& m2.width == img[16] * 0x100_0000 + img[17] * 0x1_0000 + img[18] * 0x100 + img[19]
            &&& m2.height == img[20] * 0x100_0000 + img[21] * 0x1_0000 + img[22] * 0x100 + img[23]
            &&& m2.bit_depth == img[24]
            &&& m2.color_type == img[25]
        }),
{
    let (m1, r1) = spec_parse_structure(m);
    if r1 is Ok {
        let mh = spec_parse_ihdr(m).0;
        lemma_scan_chunks_frame(8, mh);
        assert(be_u32_at(m.image, 16) <= u32::MAX && be_u32_at(m.image, 20) <= u32::MAX);
    }
}

/// Each palette index becomes the palette's color at three times the index,
/// with the tRNS entry for the index as alpha, or opaque where tRNS has none.
pub proof fn law_png_index_pixel(data: Seq<u8>, palette: Seq<u8>, trns: Seq<u8>, n: nat, i: int)
    requires
        index_pixels(data, palette, trns, n).1 is Ok,
        0 <= i < n,
    ensures
        ({
            let px = index_pixels(data, palette, trns, n).0;
            let k = data[i] as int;
            &&& px[4 * i] == palette[3 * k]
            &&& px[4 * i + 1] == palette[3 * k + 1]
            &&& px[4 * i + 2] == palette[3 * k + 2]
            &&& px[4 * i + 3] == (if trns.len() > k { trns[k] } else { 0xFFu8 })
        }),
    decreases n,
{
    lemma_index_pixels_len(data, palette, trns, (n - 1) as nat);
    if i < n - 1 {
        law_png_index_pixel(data, palette, trns, (n - 1) as nat, i);
    }
}

/// Walking the chunk list either succeeds or finds a chunk cut short by the
/// end of the file; no other error comes out of it.
pub proof fn law_chunk_walk_errors(pos: int, m: PngModel)
    ensures
        scan_chunks(pos, m).1 is Ok || scan_chunks(pos, m).1 == Err::<(), PngError>(
            PngError::UnexpectedEndOfFile,
        ),
    decreases m.image.len() + 4 - pos,
{
    let img = m.image;
    if pos < img.len() && pos + 8 <= img.len() {
        let len = be_u32_at(img, pos);
        let start = pos + 8;
        if start + len <= img.len() && !chunk_type_is(img, pos, iend_tag()) {
            let data = img.subrange(start, start + len);
            let next = if chunk_type_is(img, pos, idat_tag()) {
                PngModel { idat: m.idat + data, ..m }
            } else if chunk_type_is(img, pos, plte_tag()) {
                PngModel { palette: data, ..m }
            } else if chunk_type_is(img, pos, trns_tag()) {
                PngModel { trns: m.trns + data, ..m }
            } else {
                m
            };
            law_chunk_walk_errors(start + len + 4, next);
        }
    }
}

/// One step of the chunk walk, stated on the chunk's bytes. At `pos` a
/// chunk holds a big-endian length, a four-byte type and that many data
/// bytes, then a four-byte CRC; the walk starts right after the eight-byte
/// signature. IDAT data is appended to the IDAT data, PLTE data becomes the
/// palette, tRNS data is appended to the tRNS data, IEND ends the walk, and a
/// chunk of any other type changes nothing: the walk goes on after it.
pub proof fn law_chunk_step(pos: int, m: PngModel)
    requires
        0 <= pos,
        pos + 8 <= m.image.len(),
        ({
            let img = m.image;
            pos + 8 + (img[pos] * 0x100_0000 + img[pos + 1] * 0x1_0000 + img[pos + 2] * 0x100 + img[pos
                + 3]) <= img.len()
        }),
    ensures
        spec_parse_chunks(m) == scan_chunks(8, m),
        ({
            let img = m.image;
            let len = img[pos] * 0x100_0000 + img[pos + 1] * 0x1_0000 + img[pos + 2] * 0x100 + img[pos + 3];
            let data = img.subrange(pos + 8, pos + 8 + len);
            let next = pos + 12 + len;
            let (t0, t1, t2, t3) = (img[pos + 4], img[pos + 5], img[pos + 6], img[pos + 7]);
            let is_iend = t0 == 0x49 && t1 == 0x45 && t2 == 0x4E && t3 == 0x44;
            let is_idat = t0 == 0x49 && t1 == 0x44 && t2 == 0x41 && t3 == 0x54;
            let is_plte = t0 == 0x50 && t1 == 0x4C && t2 == 0x54 && t3 == 0x45;
            let is_trns = t0 == 0x74 && t1 == 0x52 && t2 == 0x4E && t3 == 0x53;
            &&& is_iend ==> scan_chunks(pos, m) == (m, Ok::<(), PngError>(()))
            &&& is_idat ==> scan_chunks(pos, m) == scan_chunks(next, PngModel { idat: m.idat + data, ..m })
            &&& is_plte ==> scan_chunks(pos, m) == scan_chunks(next, PngModel { palette: data, ..m })
            &&& is_trns ==> scan_chunks(pos, m) == scan_chunks(next, PngModel { trns: m.trns + data, ..m })
            &&& !is_iend && !is_idat && !is_plte && !is_trns ==> scan_chunks(pos, m) == scan_chunks(next, m)
        }),
{
}

/// Sample `i` of scanline `r` of `n` unpacked scanlines of `k` samples each
/// comes from scanline `r`'s packed bytes `packed[r * s..r * s + s]`.
proof fn lemma_unpack_rows_index(packed: Seq<u8>, s: int, d: u8, width: u32, n: nat, k: int, r: int, i: int)
    requires
        d == 1 || d == 2 || d == 4,
        s >= 0,
        packed.len() >= n * s,
        k == (if width < s * (8int / (d as int)) { width as int } else { s * (8int / (d as int)) }),
        0 <= r < n,
        0 <= i < k,
    ensures
        r * k + i < unpack_rows(packed, s, d, width, n).len(),
        unpack_rows(packed, s, d, width, n)[r * k + i] == unpack_row(
            packed.subrange(r * s, r * s + s),
            d,
            width,
        )[i],
    decreases n,
{
    assert(packed.len() >= (n - 1) * s && (n - 1) * s + s == n * s) by (nonlinear_arith)
        requires
            packed.len() >= n * s,
            n >= 1,
            s >= 0,
    ;
    lemma_unpack_rows_len(packed, s, d, width, n, k);
    lemma_unpack_rows_len(packed, s, d, width, (n - 1) as nat, k);
    let prefix = unpack_rows(packed, s, d, width, (n - 1) as nat);
    let base = (n - 1) * s;
    let row = unpack_row(packed.subrange(base, base + s), d, width);
    assert(packed.subrange(base, base + s).len() == s);
    assert(row.len() == k);
    if r < n - 1 {
        assert(r * k + i < (n - 1) * k) by (nonlinear_arith)
            requires
                0 <= r < n - 1,
                0 <= i < k,
        ;
        lemma_unpack_rows_index(packed, s, d, width, (n - 1) as nat, k, r, i);
        assert((prefix + row)[r * k + i] == prefix[r * k + i]);
    } else {
        assert(r * k + i - (n - 1) * k == i) by (nonlinear_arith)
            requires
                r == n - 1,
        ;
        assert((prefix + row)[r * k + i] == row[i]);
        assert(r * s == base);
    }
}

/// Unpacking a gray or indexed image of 1, 2 or 4 bits per sample gives
/// one byte per pixel, `width` per scanline. Sample `i` of scanline `r` is
/// the `i`-th field of `d` bits, most significant bits first, of scanline
/// `r`'s packed bytes: scanline `r` occupies bytes `r * s..r * s + s`, with
/// `s` the scanline's size in bytes, `ceil(width * d / 8)`. Nothing else in
/// the decoder changes.
pub proof fn law_unpack_sample(m: PngModel, r: int, i: int)
    requires
        m.bit_depth == 1 || m.bit_depth == 2 || m.bit_depth == 4,
        m.color_type == 0 || m.color_type == 3,
        0 <= r < m.height,
        0 <= i < m.width,
        m.reconstructed.len() >= m.height * ((m.width * m.bit_depth + 7) / 8),
    ensures
        ({
            let d = m.bit_depth;
            let w = m.width as int;
            let s = (w * d + 7) / 8;
            let per_byte = 8int / (d as int);
            let b = m.reconstructed[r * s + i / per_byte];
            let mask: u8 = if d == 1 { 1 } else if d == 2 { 3 } else { 15 };
            let (m2, res) = spec_unpack(m);
            &&& res == Ok::<(), PngError>(())
            &&& m2 == (PngModel { reconstructed: m2.reconstructed, ..m })
            &&& m2.reconstructed.len() == m.height * w
            &&& m2.reconstructed[r * w + i] == (b >> ((8 - d * (i % per_byte + 1)) as u8)) & mask
        }),
{
    let d = m.bit_depth;
    let w = m.width as int;
    let h = m.height as int;
    let s = (w * d + 7) / 8;
    let spb = 8int / (d as int);
    assert(s >= 0 && s * spb >= w) by (nonlinear_arith)
        requires
            d == 1 || d == 2 || d == 4,
            spb == 8int / (d as int),
            s == (w * d + 7) / 8,
            w >= 0,
    ;
    lemma_unpack_rows_len(m.reconstructed, s, d, m.width, h as nat, w);
    lemma_unpack_rows_index(m.reconstructed, s, d, m.width, h as nat, w, r, i);
    let bytes = m.reconstructed.subrange(r * s, r * s + s);
    assert(i / spb < s && 0 <= i / spb && 0 <= i % spb < spb) by (nonlinear_arith)
        requires
            0 <= i < w,
            w <= s * spb,
            spb >= 2,
    ;
    assert(0 <= r * s && r * s + s <= h * s) by (nonlinear_arith)
        requires
            0 <= r < h,
            s >= 0,
    ;
    assert(bytes[i / spb] == m.reconstructed[r * s + i / spb]);
    assert(h * w == m.height * w);
}

/// The value a PNG filter adds to a filtered byte, given the reconstructed
/// bytes to the left, above and above-left (zero outside the image): none,
/// left (Sub), above (Up), the floor of their mean (Average), or the Paeth
/// choice among the three: the one closest to `left + above - upper_left`,
/// ties going to left, then above.
pub open spec fn filter_prediction(filter: u8, left: u8, above: u8, upper_left: u8) -> int {
    let p = left + above - upper_left;
    let pa = if p >= left { p - left } else { left - p };
    let pb = if p >= above { p - above } else { above - p };
    let pc = if p >= upper_left { p - upper_left } else { upper_left - p };
    if filter == 0 {
        0
    } else if filter == 1 {
        left as int
    } else if filter == 2 {
        above as int
    } else if filter == 3 {
        (left + above) / 2
    } else if pa <= pb && pa <= pc {
        left as int
    } else if pb <= pc {
        above as int
    } else {
        upper_left as int
    }
}

/// A prefix of a reconstructed scanline does not change as the scanline
/// grows.
proof fn lemma_unfilter_prefix_stable(filter: u8, raw: Seq<u8>, prev: Seq<u8>, bpp: int, i: nat, j: nat)
    requires
        j <= i,
    ensures
        unfilter_prefix(filter, raw, prev, bpp, i).take(j as int) == unfilter_prefix(filter, raw, prev, bpp, j),
    decreases i,
{
    lemma_unfilter_prefix_len(filter, raw, prev, bpp, i);
    lemma_unfilter_prefix_len(filter, raw, prev, bpp, j);
    if j < i {
        lemma_unfilter_prefix_stable(filter, raw, prev, bpp, (i - 1) as nat, j);
        lemma_unfilter_prefix_len(filter, raw, prev, bpp, (i - 1) as nat);
        let a = unfilter_prefix(filter, raw, prev, bpp, i);
        let b = unfilter_prefix(filter, raw, prev, bpp, (i - 1) as nat);
        assert(a.take(j as int) =~= b.take(j as int));
    } else {
        assert(unfilter_prefix(filter, raw, prev, bpp, i).take(j as int) =~= unfilter_prefix(filter, raw, prev, bpp, i));
    }
}

/// Byte `k` of a reconstructed scanline, from the byte `bpp` places to its
/// left in the same scanline and the bytes of the scanline above.
proof fn lemma_unfilter_prefix_elem(filter: u8, raw: Seq<u8>, prev: Seq<u8>, bpp: int, i: nat, k: int)
    requires
        0 <= k < i,
        bpp >= 1,
        filter <= 4,
    ensures
        ({
            let out = unfilter_prefix(filter, raw, prev, bpp, i);
            let left = if k >= bpp { out[k - bpp] } else { 0u8 };
            let upper_left = if k >= bpp { prev[k - bpp] } else { 0u8 };
            out[k] as int == (raw[k] + filter_prediction(filter, left, prev[k], upper_left)) % 256
        }),
{
    let out = unfilter_prefix(filter, raw, prev, bpp, i);
    let cur = unfilter_prefix(filter, raw, prev, bpp, k as nat);
    lemma_unfilter_prefix_stable(filter, raw, prev, bpp, i, (k + 1) as nat);
    lemma_unfilter_prefix_stable(filter, raw, prev, bpp, i, k as nat);
    lemma_unfilter_prefix_len(filter, raw, prev, bpp, i);
    lemma_unfilter_prefix_len(filter, raw, prev, bpp, k as nat);
    assert(out[k] == unfilter_prefix(filter, raw, prev, bpp, (k + 1) as nat)[k]);
    if k >= bpp {
        assert(out[k - bpp] == out.take(k)[k - bpp]);
        assert(cur[k - bpp] == out[k - bpp]);
    }
    let left = if k >= bpp { out[k - bpp] } else { 0u8 };
    let upper_left = if k >= bpp { prev[k - bpp] } else { 0u8 };
    let v = unfilter_byte(filter, raw[k], left, prev[k], upper_left);
    assert(out[k] == v);
}

/// The last of `n` reconstructed scanlines is the last `s` bytes of them.
proof fn lemma_recon_rows_last(data: Seq<u8>, s: int, bpp: int, n: nat)
    requires
        s >= 0,
        n >= 1,
        recon_rows(data, s, bpp, n).2 is Ok,
    ensures
        recon_rows(data, s, bpp, n).1 == recon_rows(data, s, bpp, n).0.subrange((n - 1) * s, n * s),
{
    lemma_recon_rows_len(data, s, bpp, n);
    lemma_recon_rows_len(data, s, bpp, (n - 1) as nat);
    let (bytes, _, _) = recon_rows(data, s, bpp, (n - 1) as nat);
    let (all, row, _) = recon_rows(data, s, bpp, n);
    assert((n - 1) * s + s == n * s) by (nonlinear_arith);
    assert(all.subrange((n - 1) * s, n * s) =~= row);
}

/// Byte `k` of scanline `r` of `n` reconstructed scanlines of `s` bytes.
proof fn lemma_recon_rows_elem(data: Seq<u8>, s: int, bpp: int, n: nat, r: int, k: int)
    requires
        recon_rows(data, s, bpp, n).2 is Ok,
        bpp >= 1,
        0 <= r < n,
        0 <= k < s,
    ensures
        ({
            let out = recon_rows(data, s, bpp, n).0;
            let base = r * (s + 1);
            let f = data[base];
            let left = if k >= bpp { out[r * s + k - bpp] } else { 0u8 };
            let above = if r > 0 { out[(r - 1) * s + k] } else { 0u8 };
            let upper_left = if r > 0 && k >= bpp { out[(r - 1) * s + k - bpp] } else { 0u8 };
            &&& base + 1 + k < data.len()
            &&& f <= 4
            &&& out[r * s + k] as int == (data[base + 1 + k] + filter_prediction(f, left, above, upper_left)) % 256
        }),
    decreases n,
{
    let (bytes, prev, res) = recon_rows(data, s, bpp, (n - 1) as nat);
    assert(res is Ok);
    lemma_recon_rows_len(data, s, bpp, (n - 1) as nat);
    lemma_recon_rows_len(data, s, bpp, n);
    let out = recon_rows(data, s, bpp, n).0;
    let b0 = (n - 1) * (s + 1);
    let row = recon_row(data, s, bpp, b0, prev)->Ok_0;
    assert(out == bytes + row);
    assert(bytes.len() == (n - 1) * s);
    if r < n - 1 {
        lemma_recon_rows_elem(data, s, bpp, (n - 1) as nat, r, k);
        assert(r * s + k < (n - 1) * s && (r * s + k - bpp < (n - 1) * s) && (r > 0 ==> (r - 1) * s + k < (n - 1) * s)) by (nonlinear_arith)
            requires
                0 <= r < n - 1,
                0 <= k < s,
                bpp >= 1,
        ;
        assert(r > 0 ==> 0 <= (r - 1) * s) by (nonlinear_arith)
            requires
                s >= 0,
        ;
        assert(0 <= r * s) by (nonlinear_arith)
            requires
                r >= 0,
                s >= 0,
        ;
    } else {
        let f = data[b0];
        let raw = data.subrange(b0 + 1, b0 + 1 + s);
        assert(row == unfilter_prefix(f, raw, prev, bpp, s as nat));
        lemma_unfilter_prefix_len(f, raw, prev, bpp, s as nat);
        lemma_unfilter_prefix_elem(f, raw, prev, bpp, s as nat, k);
        assert(r * s == (n - 1) * s);
        assert(b0 == r * (s + 1));
        assert(out[r * s + k] == row[k]);
        if k >= bpp {
            assert(out[r * s + k - bpp] == row[k - bpp]);
        }
        if r > 0 {
            lemma_recon_rows_last(data, s, bpp, (n - 1) as nat);
            assert((r - 1) * s + s == r * s && 0 <= (r - 1) * s) by (nonlinear_arith)
                requires
                    r >= 1,
                    s >= 0,
            ;
            assert(prev[k] == bytes[(r - 1) * s + k]);
            assert(out[(r - 1) * s + k] == bytes[(r - 1) * s + k]);
            if k >= bpp {
                assert(prev[k - bpp] == bytes[(r - 1) * s + k - bpp]);
                assert(out[(r - 1) * s + k - bpp] == bytes[(r - 1) * s + k - bpp]);
            }
        } else {
            assert(n == 1);
            assert(prev == Seq::new(s as nat, |i: int| 0u8));
        }
    }
}

/// Undoing the filters of a PNG: the reconstructed scanlines are appended to
/// the reconstructed data, `s` bytes each, where `s` is the scanline's size
/// for the color type and depth; scanline `r` is filtered at
/// `r * (s + 1)` of the decompressed data, its filter type byte first. Each
/// reconstructed byte is the filtered byte plus the filter's prediction,
/// modulo 256, from the reconstructed byte one pixel (`bpp` bytes, per color
/// type) to the left in the same scanline, the byte above in the previous
/// scanline, and the byte above that left one (each zero outside the image).
/// Nothing else in the decoder changes.
pub proof fn law_unfilter_byte(m: PngModel, r: int, k: int)
    requires
        spec_reconstruct(m).1 is Ok,
        0 <= r < m.height,
        0 <= k,
        k < (if m.color_type == 0 || m.color_type == 3 {
            (m.width * m.bit_depth + 7) / 8
        } else if m.color_type == 2 {
            m.width * 3 * (m.bit_depth / 8)
        } else if m.color_type == 4 {
            m.width * 2 * (m.bit_depth / 8)
        } else {
            m.width * 4 * (m.bit_depth / 8)
        }),
    ensures
        ({
            let ct = m.color_type;
            let s = if ct == 0 || ct == 3 {
                (m.width * m.bit_depth + 7) / 8
            } else if ct == 2 {
                m.width * 3 * (m.bit_depth / 8)
            } else if ct == 4 {
                m.width * 2 * (m.bit_depth / 8)
            } else {
                m.width * 4 * (m.bit_depth / 8)
            };
            let bpp = if ct == 2 { 3int } else if ct == 4 { 2int } else if ct == 6 { 4int } else { 1int };
            let o = m.reconstructed.len();
            let out = spec_reconstruct(m).0.reconstructed;
            let data = m.decompressed;
            let base = r * (s + 1);
            let f = data[base];
            let left = if k >= bpp { out[o + r * s + k - bpp] } else { 0u8 };
            let above = if r > 0 { out[o + (r - 1) * s + k] } else { 0u8 };
            let upper_left = if r > 0 && k >= bpp { out[o + (r - 1) * s + k - bpp] } else { 0u8 };
            &&& spec_reconstruct(m).0 == (PngModel { reconstructed: out, ..m })
            &&& out.len() == o + m.height * s
            &&& out.subrange(0, o as int) == m.reconstructed
            &&& f <= 4
            &&& out[o + r * s + k] as int == (data[base + 1 + k] + filter_prediction(f, left, above, upper_left)) % 256
        }),
{
    let ct = m.color_type;
    let bpp = spec_bytes_per_pixel(ct)->Some_0;
    let s = spec_scanline_bytes(ct, m.bit_depth, m.width)->Some_0;
    let o = m.reconstructed.len() as int;
    assert(s >= 0) by (nonlinear_arith)
        requires
            s == (if ct == 0 || ct == 3 {
                (m.width * m.bit_depth + 7) / 8
            } else if ct == 2 {
                m.width * 3 * (m.bit_depth / 8)
            } else if ct == 4 {
                m.width * 2 * (m.bit_depth / 8)
            } else {
                m.width * 4 * (m.bit_depth / 8)
            }),
    ;
    let (bytes, _, _) = recon_rows(m.decompressed, s, bpp, m.height as nat);
    lemma_recon_rows_len(m.decompressed, s, bpp, m.height as nat);
    lemma_recon_rows_elem(m.decompressed, s, bpp, m.height as nat, r, k);
    let out = spec_reconstruct(m).0.reconstructed;
    assert(out == m.reconstructed + bytes);
    assert(out.subrange(0, o) =~= m.reconstructed);
    assert(0 <= r * s && r * s + k < m.height * s && (r > 0 ==> 0 <= (r - 1) * s && (r - 1) * s == r * s - s)) by (nonlinear_arith)
        requires
            0 <= r < m.height,
            0 <= k < s,
    ;
    assert(out[o + r * s + k] == bytes[r * s + k]);
    if k >= bpp {
        assert(out[o + r * s + k - bpp] == bytes[r * s + k - bpp]);
    }
    if r > 0 {
        assert(out[o + (r - 1) * s + k] == bytes[(r - 1) * s + k]);
        if k >= bpp {
            assert(out[o + (r - 1) * s + k - bpp] == bytes[(r - 1) * s + k - bpp]);
        }
    }
}

/// Unpacking leaves 8-bit samples as they are.
pub proof fn law_unpack_eight_bit_unchanged(m: PngModel)
    requires
        m.bit_depth == 8,
    ensures
        spec_unpack(m) == (m, Ok::<(), PngError>(())),
{
}

/// How each color type becomes RGBA pixels, appended to the pixels: gray
/// samples become opaque grays scaled so that the largest sample of the
/// depth is 255; RGB triples become opaque pixels; gray-alpha pairs become
/// grays with that alpha; RGBA quadruples are kept. Pixel `i` comes from
/// sample `i` (gray), bytes `3i..3i+3` (RGB), `2i..2i+2` (gray-alpha) or
/// `4i..4i+4` (RGBA), and a trailing partial group is dropped.
pub proof fn law_decode_pixel(m: PngModel, i: int, c: int)
    requires
        m.color_type == 0 || m.color_type == 2 || m.color_type == 4 || m.color_type == 6,
        m.color_type == 0 ==> is_supported_bit_depth(m.bit_depth),
        0 <= c < 4,
        0 <= i,
    ensures
        ({
            let ct = m.color_type;
            let data = m.reconstructed;
            let group = if ct == 0 { 1int } else if ct == 2 { 3int } else if ct == 4 { 2int } else { 4int };
            let n = data.len() as int / group;
            let o = m.pixels.len();
            let (m2, res) = spec_decode(m);
            let px = m2.pixels;
            let max = if m.bit_depth == 1 { 1int } else if m.bit_depth == 2 { 3int } else if m.bit_depth == 4 {
                15int
            } else {
                255int
            };
            let expected = if ct == 0 {
                if c < 3 { data[i] * 255 / max } else { 255 }
            } else if ct == 2 {
                if c < 3 { data[3 * i + c] as int } else { 255 }
            } else if ct == 4 {
                if c < 3 { data[2 * i] as int } else { data[2 * i + 1] as int }
            } else {
                data[4 * i + c] as int
            };
            &&& res == Ok::<(), PngError>(())
            &&& m2 == (PngModel { pixels: px, ..m })
            &&& px.len() == o + 4 * n
            &&& px.subrange(0, o as int) == m.pixels
            &&& (i < n && (ct == 0 ==> data[i] <= max) ==> px[o + 4 * i + c] as int == expected)
        }),
{
    let ct = m.color_type;
    let data = m.reconstructed;
    let o = m.pixels.len() as int;
    let (m2, res) = spec_decode(m);
    if ct == 0 {
        let d = m.bit_depth;
        let n = data.len();
        lemma_gray_pixels_len(data, d, n);
        if n > 0 {
            if i < n {
                lemma_gray_pixels_elem(data, d, n, i, c);
            }
            assert(m2.pixels.subrange(0, o) =~= m.pixels);
        } else {
            assert(m2.pixels.subrange(0, o) =~= m.pixels);
        }
    } else if ct == 2 {
        let n = data.len() / 3;
        lemma_rgb_pixels_len(data, n);
        if i < n {
            lemma_group_pixels_elem(data, 2, n, i, c);
        }
        assert(m2.pixels.subrange(0, o) =~= m.pixels);
    } else if ct == 4 {
        let n = data.len() / 2;
        lemma_gray_alpha_pixels_len(data, n);
        if i < n {
            lemma_group_pixels_elem(data, 4, n, i, c);
        }
        assert(m2.pixels.subrange(0, o) =~= m.pixels);
    } else {
        let n = data.len() / 4;
        lemma_rgba_pixels_len(data, n);
        if i < n {
            lemma_group_pixels_elem(data, 6, n, i, c);
        }
        assert(m2.pixels.subrange(0, o) =~= m.pixels);
    }
}

/// Byte `c` of gray pixel `i`.
proof fn lemma_gray_pixels_elem(data: Seq<u8>, d: u8, n: nat, i: int, c: int)
    requires
        0 <= i < n,
        0 <= c < 4,
        is_supported_bit_depth(d),
    ensures
        ({
            let max = if d == 1 { 1int } else if d == 2 { 3int } else if d == 4 { 15int } else { 255int };
            data[i] <= max ==> gray_pixels(data, d, n)[4 * i + c] as int == (if c < 3 { data[i] * 255 / max } else { 255 })
        }),
    decreases n,
{
    lemma_gray_pixels_len(data, d, (n - 1) as nat);
    if i < n - 1 {
        lemma_gray_pixels_elem(data, d, (n - 1) as nat, i, c);
    } else {
        let max = if d == 1 { 1int } else if d == 2 { 3int } else if d == 4 { 15int } else { 255int };
        let g = data[i] as int;
        if g <= max {
            assert(g * 255 / max == g * gray_scale(d)) by (nonlinear_arith)
                requires
                    max == (if d == 1 { 1int } else if d == 2 { 3int } else if d == 4 { 15int } else { 255int }),
                    d == 1 || d == 2 || d == 4 || d == 8,
                    gray_scale(d) == (if d == 1 { 255int } else if d == 2 { 85int } else if d == 4 { 17int } else { 1int }),
                    0 <= g <= max,
            ;
            assert(g * gray_scale(d) <= 255) by (nonlinear_arith)
                requires
                    max == (if d == 1 { 1int } else if d == 2 { 3int } else if d == 4 { 15int } else { 255int }),
                    d == 1 || d == 2 || d == 4 || d == 8,
                    gray_scale(d) == (if d == 1 { 255int } else if d == 2 { 85int } else if d == 4 { 17int } else { 1int }),
                    0 <= g <= max,
            ;
        }
    }
}

/// Byte `c` of pixel `i` for RGB (2), gray-alpha (4) and RGBA (6) data.
proof fn lemma_group_pixels_elem(data: Seq<u8>, ct: u8, n: nat, i: int, c: int)
    requires
        ct == 2 || ct == 4 || ct == 6,
        0 <= i < n,
        0 <= c < 4,
    ensures
        ct == 2 ==> rgb_pixels(data, n)[4 * i + c] as int == (if c < 3 { data[3 * i + c] as int } else { 255 }),
        ct == 4 ==> gray_alpha_pixels(data, n)[4 * i + c] as int == (if c < 3 { data[2 * i] as int } else { data[2 * i + 1] as int }),
        ct == 6 ==> rgba_pixels(data, n)[4 * i + c] == data[4 * i + c],
    decreases n,
{
    lemma_rgb_pixels_len(data, (n - 1) as nat);
    lemma_gray_alpha_pixels_len(data, (n - 1) as nat);
    lemma_rgba_pixels_len(data, (n - 1) as nat);
    if i < n - 1 {
        lemma_group_pixels_elem(data, ct, (n - 1) as nat, i, c);
    }
}

/// Decoding fails exactly when some index has no color in the palette, and
/// then with `UnexpectedEndOfFile`.
proof fn lemma_index_pixels_ok(data: Seq<u8>, palette: Seq<u8>, trns: Seq<u8>, n: nat)
    requires
        n <= data.len(),
    ensures
        (index_pixels(data, palette, trns, n).1 is Ok) <==> (forall|j: int|
            0 <= j < n ==> 3 * (#[trigger] data[j]) + 3 <= palette.len()),
        index_pixels(data, palette, trns, n).1 is Err ==> index_pixels(data, palette, trns, n).1
            == Err::<(), PngError>(PngError::UnexpectedEndOfFile),
    decreases n,
{
    if n > 0 {
        lemma_index_pixels_ok(data, palette, trns, (n - 1) as nat);
        if index_pixels(data, palette, trns, (n - 1) as nat).1 is Err {
            let j = choose|j: int| 0 <= j < n - 1 && !(3 * (#[trigger] data[j]) + 3 <= palette.len());
            assert(0 <= j < n && !(3 * data[j] + 3 <= palette.len()));
        }
    }
}

/// Indexed pixels: decoding succeeds exactly when every index has a color
/// in the palette (three bytes at three times the index), and fails with
/// `UnexpectedEndOfFile` otherwise. Pixel `i` is then the palette's color
/// for sample `i`, with the tRNS entry for that index as alpha, or opaque
/// where tRNS has none; the pixels are appended and nothing else changes.
pub proof fn law_decode_index(m: PngModel, i: int)
    requires
        m.color_type == 3,
        0 <= i < m.reconstructed.len(),
    ensures
        ({
            let data = m.reconstructed;
            let pal = m.palette;
            let o = m.pixels.len();
            let k = data[i] as int;
            let (m2, res) = spec_decode(m);
            let px = m2.pixels;
            &&& (res is Ok) <==> (forall|j: int|
                0 <= j < data.len() ==> 3 * (#[trigger] data[j]) + 3 <= pal.len())
            &&& res is Err ==> res == Err::<(), PngError>(PngError::UnexpectedEndOfFile)
            &&& m2 == (PngModel { pixels: px, ..m })
            &&& px.subrange(0, o as int) == m.pixels
            &&& res is Ok ==> {
                &&& px.len() == o + 4 * data.len()
                &&& px[o + 4 * i] == pal[3 * k]
                &&& px[o + 4 * i + 1] == pal[3 * k + 1]
                &&& px[o + 4 * i + 2] == pal[3 * k + 2]
                &&& px[o + 4 * i + 3] == (if m.trns.len() > k { m.trns[k] } else { 0xFFu8 })
            }
        }),
{
    let data = m.reconstructed;
    let n = data.len();
    let o = m.pixels.len() as int;
    lemma_index_pixels_ok(data, m.palette, m.trns, n);
    let (m2, res) = spec_decode(m);
    assert(m2.pixels.subrange(0, o) =~= m.pixels);
    if res is Ok {
        lemma_index_pixels_len(data, m.palette, m.trns, n);
        law_png_index_pixel(data, m.palette, m.trns, n, i);
    }
}

/// Where the chunk walk stops short of IEND: at the end of the file it
/// succeeds with what it gathered; a chunk whose length and type, or whose
/// data, run past the end of the file stops it with `UnexpectedEndOfFile`,
/// with what the chunks before it gathered and nothing of that chunk.
pub proof fn law_chunk_walk_end(pos: int, m: PngModel)
    ensures
        pos >= m.image.len() ==> scan_chunks(pos, m) == (m, Ok::<(), PngError>(())),
        pos < m.image.len() < pos + 8 ==> scan_chunks(pos, m) == (m, Err::<(), PngError>(
            PngError::UnexpectedEndOfFile,
        )),
        ({
            let img = m.image;
            0 <= pos && pos + 8 <= img.len() && pos + 8 + (img[pos] * 0x100_0000 + img[pos + 1]
                * 0x1_0000 + img[pos + 2] * 0x100 + img[pos + 3]) > img.len()
        }) ==> scan_chunks(pos, m) == (m, Err::<(), PngError>(PngError::UnexpectedEndOfFile)),
{
}

/// Which IHDR headers are taken: the file holds the whole header, the bit
/// depth (byte 24) is 1, 2, 4 or 8, the color type (byte 25) is gray (0),
/// RGB (2), indexed (3), gray-alpha (4) or RGBA (6), depths under 8 only
/// for gray and indexed images, compression method (byte 26) 0, and no
/// interlacing (byte 28 is 0). A header with a good depth but another color
/// type is refused for its color type, one with a good depth and color type
/// but another compression method for its compression. The width and height
/// are the big-endian words at offsets 16 and 20.
pub proof fn law_png_header_accepted(m: PngModel)
    ensures
        ({
            let img = m.image;
            let (m2, r) = spec_parse_ihdr(m);
            let depth_ok = img[24] == 1 || img[24] == 2 || img[24] == 4 || img[24] == 8;
            let color_ok = img[25] == 0 || img[25] == 2 || img[25] == 3 || img[25] == 4 || img[25]
                == 6;
            &&& (r is Ok) <==> (img.len() >= 33 && depth_ok && color_ok && (img[25] == 0 || img[25]
                == 3 || img[24] == 8) && img[26] == 0 && img[28] == 0)
            &&& img.len() >= 33 && depth_ok && !color_ok ==> r == Err::<(), PngError>(
                PngError::UnsupportedColorType(img[25]),
            )
            &&& img.len() >= 33 && depth_ok && color_ok && (img[25] == 0 || img[25] == 3 || img[24]
                == 8) && img[26] != 0 ==> r == Err::<(), PngError>(
                PngError::UnsupportedCompression(img[26]),
            )
            &&& r is Ok ==> {
                &&& m2.width == img[16] * 0x100_0000 + img[17] * 0x1_0000 + img[18] * 0x100 + img[19]
                &&& m2.height == img[20] * 0x100_0000 + img[21] * 0x1_0000 + img[22] * 0x100
                    + img[23]
                &&& m2.bit_depth == img[24]
                &&& m2.color_type == img[25]
            }
        }),
{
    if m.image.len() >= 33 {
        assert(be_u32_at(m.image, 16) <= u32::MAX && be_u32_at(m.image, 20) <= u32::MAX);
    }
}

/// The filter type byte of scanline `r`, when each scanline is `s` bytes
/// after its filter type byte.
pub open spec fn filter_type_of(data: Seq<u8>, s: int, r: int) -> u8 {
    data[r * (s + 1)]
}

/// Reconstructing `n` scanlines succeeds exactly when the data holds them
/// all and, for scanlines that are not empty, each filter type is at most 4.
/// A failure is a missing byte, or a filter type over 4 that is reported.
proof fn lemma_recon_rows_ok(data: Seq<u8>, s: int, bpp: int, n: nat)
    requires
        s >= 0,
    ensures
        ({
            let res = recon_rows(data, s, bpp, n).2;
            let filters_ok = s > 0 ==> forall|r: int| 0 <= r < n ==> #[trigger] filter_type_of(data, s, r) <= 4;
            &&& (res is Ok) <==> (n * (s + 1) <= data.len() && filters_ok)
            &&& res is Err ==> (res == Err::<(), PngError>(PngError::UnexpectedEndOfFile) || (res->Err_0 is UnsupportedFilter && res->Err_0->UnsupportedFilter_0 > 4))
            &&& res is Err && n * (s + 1) <= data.len() ==> (res->Err_0 is UnsupportedFilter && res->Err_0->UnsupportedFilter_0 > 4)
            &&& res is Err && filters_ok ==> res == Err::<(), PngError>(PngError::UnexpectedEndOfFile)
        }),
    decreases n,
{
    if n > 0 {
        let k = (n - 1) as nat;
        lemma_recon_rows_ok(data, s, bpp, k);
        assert(k * (s + 1) + s + 1 == n * (s + 1) && k * (s + 1) <= n * (s + 1) && k * (s + 1) >= 0) by (nonlinear_arith)
            requires
                k == n - 1,
                s >= 0,
        ;
        let base = k * (s + 1);
        let res = recon_rows(data, s, bpp, n).2;
        let prev_filters_ok = s > 0 ==> forall|r: int| 0 <= r < k ==> #[trigger] filter_type_of(data, s, r) <= 4;
        let filters_ok = s > 0 ==> forall|r: int| 0 <= r < n ==> #[trigger] filter_type_of(data, s, r) <= 4;
        assert(filter_type_of(data, s, k as int) == data[base]);
        if filters_ok {
            assert(prev_filters_ok);
        }
        if s > 0 && !prev_filters_ok {
            let r0 = choose|r: int| 0 <= r < k && !(#[trigger] filter_type_of(data, s, r) <= 4);
            assert(0 <= r0 < n && !(filter_type_of(data, s, r0) <= 4));
        }
        if s > 0 && prev_filters_ok && data.len() > base + 1 && data[base] > 4 {
            assert(!(filter_type_of(data, s, k as int) <= 4));
        }
        if s > 0 && prev_filters_ok && data[base] <= 4 {
            assert forall|r: int| 0 <= r < n implies #[trigger] filter_type_of(data, s, r) <= 4 by {
                if r < k {
                    assert(filter_type_of(data, s, r) <= 4);
                }
            }
        }
    }
}

/// When undoing the filters succeeds, and how it fails. With `s` the bytes
/// of a scanline for the color type and depth, it succeeds exactly when the
/// color type is one of 0, 2, 3, 4 and 6, the decompressed data holds
/// `height` scanlines of `s + 1` bytes, and (unless scanlines are empty)
/// each scanline's filter type is at most 4. An unknown color type is
/// reported as such; with all the bytes there, a failure is a filter type
/// over 4; with every filter type known, a failure is a missing byte.
/// Bytes in one scanline after its filter type byte: `width` samples of
/// `bit_depth` bits, rounded up to whole bytes, for gray and indexed images;
/// three, two or four samples of `bit_depth / 8` bytes per pixel for RGB,
/// gray-alpha and RGBA images.
pub open spec fn scanline_size(ct: u8, bit_depth: u8, width: u32) -> int {
    if ct == 0 || ct == 3 {
        (width * bit_depth + 7) / 8
    } else if ct == 2 {
        width * 3 * (bit_depth / 8)
    } else if ct == 4 {
        width * 2 * (bit_depth / 8)
    } else {
        width * 4 * (bit_depth / 8)
    }
}

pub proof fn law_reconstruct_result(m: PngModel)
    ensures
        ({
            let ct = m.color_type;
            let data = m.decompressed;
            let h = m.height as int;
            let s = scanline_size(ct, m.bit_depth, m.width);
            let known = ct == 0 || ct == 2 || ct == 3 || ct == 4 || ct == 6;
            let filters_ok = s > 0 ==> forall|r: int| 0 <= r < h ==> #[trigger] filter_type_of(data, s, r) <= 4;
            let res = spec_reconstruct(m).1;
            &&& (res is Ok) <==> (known && h * (s + 1) <= data.len() && filters_ok)
            &&& !known ==> res == Err::<(), PngError>(PngError::UnsupportedColorType(ct))
            &&& known && res is Err && h * (s + 1) <= data.len() ==> (res->Err_0 is UnsupportedFilter && res->Err_0->UnsupportedFilter_0 > 4)
            &&& known && res is Err && filters_ok ==> res == Err::<(), PngError>(PngError::UnexpectedEndOfFile)
        }),
{
    let ct = m.color_type;
    if ct == 0 || ct == 2 || ct == 3 || ct == 4 || ct == 6 {
        let s = spec_scanline_bytes(ct, m.bit_depth, m.width)->Some_0;
        let bpp = spec_bytes_per_pixel(ct)->Some_0;
        assert(s >= 0) by (nonlinear_arith)
            requires
                s == (if ct == 0 || ct == 3 {
                    (m.width * m.bit_depth + 7) / 8
                } else if ct == 2 {
                    m.width * 3 * (m.bit_depth / 8)
                } else if ct == 4 {
                    m.width * 2 * (m.bit_depth / 8)
                } else {
                    m.width * 4 * (m.bit_depth / 8)
                }),
                m.width >= 0,
                m.bit_depth >= 0,
        ;
        lemma_recon_rows_ok(m.decompressed, s, bpp, m.height as nat);
        assert(spec_reconstruct(m).1 == recon_rows(m.decompressed, s, bpp, m.height as nat).2);
        assert(s == scanline_size(ct, m.bit_depth, m.width));
    }
}

/// Sample `x` of scanline `r` of gray or indexed data with `d`-bit samples
/// and `s`-byte scanlines: byte `x` of the scanline at 8 bits, else the
/// `x`-th field of `d` bits, most significant first.
pub open spec fn packed_sample(rec: Seq<u8>, s: int, d: u8, r: int, x: int) -> u8 {
    let per = 8int / (d as int);
    let mask: u8 = if d == 1 { 1 } else if d == 2 { 3 } else { 15 };
    if d == 8 {
        rec[r * s + x]
    } else {
        (rec[r * s + x / per] >> ((8 - d * (x % per + 1)) as u8)) & mask
    }
}

/// Byte `c` of the RGBA pixel `x` of scanline `r`, for reconstructed data
/// `rec` of `s`-byte scanlines: a gray sample `v` becomes the opaque gray
/// `v * 255 / (2^d - 1)`; an index `k` the palette's color at `3k`, with
/// tRNS entry `k` as alpha or opaque where tRNS has none; RGB, gray-alpha and
/// RGBA samples are the 3, 2 or 4 bytes at `x` times that many.
pub open spec fn expected_pixel_byte(m: PngModel, rec: Seq<u8>, s: int, r: int, x: int, c: int) -> int {
    let ct = m.color_type;
    let d = m.bit_depth;
    let max = if d == 1 { 1int } else if d == 2 { 3int } else if d == 4 { 15int } else { 255int };
    let sample = packed_sample(rec, s, d, r, x);
    let k = sample as int;
    if ct == 0 {
        if c < 3 { sample * 255 / max } else { 255 }
    } else if ct == 3 {
        if c < 3 {
            m.palette[3 * k + c] as int
        } else if m.trns.len() > k {
            m.trns[k] as int
        } else {
            255
        }
    } else if ct == 2 {
        if c < 3 { rec[r * s + 3 * x + c] as int } else { 255 }
    } else if ct == 4 {
        if c < 3 { rec[r * s + 2 * x] as int } else { rec[r * s + 2 * x + 1] as int }
    } else {
        rec[r * s + 4 * x + c] as int
    }
}

/// A successful decode of decompressed data passes through each stage.
proof fn lemma_decode_stages(m: PngModel)
    requires
        spec_decode_decompressed(m).1 is Ok,
    ensures
        spec_reconstruct(m).1 is Ok,
        spec_unpack(spec_reconstruct(m).0).1 is Ok,
        spec_decode_decompressed(m) == spec_decode(spec_unpack(spec_reconstruct(m).0).0),
{
}

/// Pixel `x` of row `r` after unpacking and decoding reconstructed data.
proof fn lemma_pixel_from_reconstructed(m2: PngModel, r: int, x: int, c: int)
    requires
        m2.pixels.len() == 0,
        m2.bit_depth == 1 || m2.bit_depth == 2 || m2.bit_depth == 4 || m2.bit_depth == 8,
        m2.color_type == 0 || m2.color_type == 2 || m2.color_type == 3 || m2.color_type == 4
            || m2.color_type == 6,
        m2.color_type == 2 || m2.color_type == 4 || m2.color_type == 6 ==> m2.bit_depth == 8,
        spec_unpack(m2).1 is Ok,
        spec_decode(spec_unpack(m2).0).1 is Ok,
        m2.reconstructed.len() == m2.height * scanline_size(m2.color_type, m2.bit_depth, m2.width),
        scanline_size(m2.color_type, m2.bit_depth, m2.width) == (if m2.color_type == 0 || m2.color_type == 3 {
            (m2.width * m2.bit_depth + 7) / 8
        } else if m2.color_type == 2 {
            3 * m2.width
        } else if m2.color_type == 4 {
            2 * m2.width
        } else {
            4 * m2.width
        }),
        0 <= r < m2.height,
        0 <= x < m2.width,
        0 <= c < 4,
    ensures
        spec_decode(spec_unpack(m2).0).0.pixels[4 * (r * m2.width + x) + c] as int == expected_pixel_byte(
            m2,
            m2.reconstructed,
            scanline_size(m2.color_type, m2.bit_depth, m2.width),
            r,
            x,
            c,
        ),
{
    let ct = m2.color_type;
    let d = m2.bit_depth;
    let w = m2.width as int;
    let h = m2.height as int;
    let s = scanline_size(ct, d, m2.width);
    let rec = m2.reconstructed;
    let m3 = spec_unpack(m2).0;
    let q = r * w + x;
    assert(0 <= q < h * w) by (nonlinear_arith)
        requires
            0 <= r < h,
            0 <= x < w,
            q == r * w + x,
    ;
    let data = m3.reconstructed;
    if d == 8 {
        law_unpack_eight_bit_unchanged(m2);
        assert(m3 == m2);
        if ct == 0 || ct == 3 {
            assert(s == w);
            assert(r * s + x == q);
            assert(data[q] == packed_sample(rec, s, d, r, x));
        } else if ct == 2 {
            assert(r * s + 3 * x == 3 * q) by (nonlinear_arith)
                requires
                    s == 3 * w,
                    q == r * w + x,
            ;
        } else if ct == 4 {
            assert(r * s + 2 * x == 2 * q) by (nonlinear_arith)
                requires
                    s == 2 * w,
                    q == r * w + x,
            ;
        } else {
            assert(r * s + 4 * x == 4 * q) by (nonlinear_arith)
                requires
                    s == 4 * w,
                    q == r * w + x,
            ;
        }
    } else {
        law_unpack_sample(m2, r, x);
        let per = 8int / (d as int);
        assert(x / per < s && 0 <= x / per) by (nonlinear_arith)
            requires
                0 <= x < w,
                d == 1 || d == 2 || d == 4,
                per == 8int / (d as int),
                s == (w * d + 7) / 8,
        ;
        assert(0 <= r * s && r * s + s <= h * s) by (nonlinear_arith)
            requires
                0 <= r < h,
                s >= 0,
        ;
        let b = rec[r * s + x / per];
        lemma_and_le(b >> ((8 - d * (x % per + 1)) as u8), sample_mask(d));
        assert(data[q] == packed_sample(rec, s, d, r, x));
    }
    let px3 = spec_decode(m3).0.pixels;
    let e = expected_pixel_byte(m2, rec, s, r, x, c);
    assert(4 * (r * m2.width + x) + c == 4 * q + c);
    if ct == 3 {
        law_decode_index(m3, q);
        assert(px3[4 * q + c] as int == e);
    } else {
        law_decode_pixel(m3, q, c);
        if ct == 0 {
            let max = if d == 1 { 1int } else if d == 2 { 3int } else if d == 4 { 15int } else { 255int };
            assert(data[q] <= max);
            assert(px3[4 * q + c] as int == e);
        } else {
            let g = if ct == 2 { 3int } else if ct == 4 { 2int } else { 4int };
            assert(s == g * w);
            assert(data.len() == h * (g * w));
            assert((h * (g * w)) / g == h * w && 0 <= q < h * w) by (nonlinear_arith)
                requires
                    g >= 1,
                    0 <= q < h * w,
            ;
            assert(q < data.len() as int / g);
            assert(px3[4 * q + c] as int == e);
        }
    }
}

/// From the reconstructed scanlines to RGBA pixels, for a fresh decoder whose
/// header was accepted. Pixel `x` of row `r` of the decoded image comes from
/// scanline `r` of the reconstructed bytes (`s` bytes each): for gray and
/// indexed images its sample is byte `x` of the scanline at 8 bits, or the
/// `x`-th field of `d` bits, most significant first, at `d` = 1, 2 or 4 bits;
/// for RGB, gray-alpha and RGBA images its samples are the 3, 2 or 4 bytes
/// at `x` times that many in the scanline. A gray sample `v` becomes the
/// opaque gray `v * 255 / (2^d - 1)`; an index `k` becomes the palette's
/// color at `3k`, with tRNS entry `k` as alpha or opaque where tRNS has none.
pub proof fn law_decoded_pixel_source(m: PngModel, r: int, x: int, c: int)
    requires
        m.reconstructed.len() == 0,
        m.pixels.len() == 0,
        m.bit_depth == 1 || m.bit_depth == 2 || m.bit_depth == 4 || m.bit_depth == 8,
        m.color_type == 0 || m.color_type == 2 || m.color_type == 3 || m.color_type == 4 || m.color_type
            == 6,
        m.color_type == 2 || m.color_type == 4 || m.color_type == 6 ==> m.bit_depth == 8,
        spec_decode_decompressed(m).1 is Ok,
        0 <= r < m.height,
        0 <= x < m.width,
        0 <= c < 4,
    ensures
        ({
            let s = scanline_size(m.color_type, m.bit_depth, m.width);
            let rec = spec_reconstruct(m).0.reconstructed;
            let px = spec_decode_decompressed(m).0.pixels;
            &&& rec.len() == m.height * s
            &&& px.len() == 4 * m.width * m.height
            &&& px[4 * (r * m.width + x) + c] as int == expected_pixel_byte(m, rec, s, r, x, c)
        }),
{
    let ct = m.color_type;
    let d = m.bit_depth;
    let w = m.width as int;
    let h = m.height as int;
    let s = scanline_size(ct, d, m.width);
    lemma_decode_stages(m);
    let m2 = spec_reconstruct(m).0;
    let m3 = spec_unpack(m2).0;
    let bpp = spec_bytes_per_pixel(ct)->Some_0;
    assert(s == spec_scanline_bytes(ct, d, m.width)->Some_0);
    if ct == 0 || ct == 3 {
        assert(w * d >= 1) by (nonlinear_arith)
            requires
                w >= 1,
                d >= 1,
        ;
        assert(s == (w * d + 7) / 8);
    } else {
        assert(d / 8 == 1);
    }
    assert(s >= 1 && s == (if ct == 0 || ct == 3 { (w * d + 7) / 8 } else if ct == 2 { 3 * w } else if ct
        == 4 { 2 * w } else { 4 * w }));
    lemma_recon_rows_len(m.decompressed, s, bpp, h as nat);
    let rec = m2.reconstructed;
    assert(rec.len() == h * s);
    let q = r * w + x;
    assert(0 <= q < h * w) by (nonlinear_arith)
        requires
            0 <= r < h,
            0 <= x < w,
            q == r * w + x,
    ;
    lemma_decode_decompressed_size(m);
    lemma_pixel_from_reconstructed(m2, r, x, c);
    assert(m2 == (PngModel { reconstructed: rec, ..m }));

}

} // verus!
