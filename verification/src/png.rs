//! The PNG decoder.

use vstd::prelude::*;
use crate::bytes::read_be_u32;
use crate::inflate::inflate_zlib;
use crate::png_spec::{
    PngModel, initial_model, outcome, png_signature, spec_check_signature, spec_parse_ihdr,
    spec_bytes_per_pixel, spec_scanline_bytes, scan_chunks, spec_parse_chunks, paeth,
    unfilter_byte, unfilter_prefix, recon_row, recon_rows, spec_reconstruct,
    lemma_unfilter_prefix_len, lemma_recon_rows_err_persists, sample_of, unpack_row,
    unpack_rows, spec_unpack, unpack_input_ok, gray_scale, gray_pixels, rgb_pixels,
    gray_alpha_pixels, rgba_pixels, index_pixels, spec_decode, decode_input_ok,
    is_supported_bit_depth, lemma_index_pixels_err_persists, spec_parse_structure,
    spec_decode_inflated, spec_parse, lemma_reconstruct_feeds_unpack, lemma_unpack_feeds_decode,
    spec_decode_gray, spec_decode_rgb, spec_decode_gray_alpha, spec_decode_rgba, spec_decode_index,
    gray_fits, spec_decompress, spec_decode_decompressed,
};

verus! {

/// Why a PNG could not be decoded.
#[derive(Debug, Clone, Copy, PartialEq, Eq)]
pub enum PngError {
    InvalidSignature,
    UnsupportedBitDepth(u8),
    UnsupportedBitDepthForGrayscale(u8),
    UnsupportedColorType(u8),
    UnsupportedCompression(u8),
    UnsupportedInterlace(u8),
    UnsupportedFilter(u8),
    UnexpectedEndOfFile,
    CorruptChunk,
    DecompressionFailed,
    FileReadFailed,
}

/// A PNG decoder over the bytes of one file. After a successful `parse`,
/// `pixels` holds the image as RGBA, row by row from the top.
pub struct Png {
    image: Vec<u8>,
    pub width: u32,
    pub height: u32,
    bit_depth: u8,
    color_type: u8,
    compression: u8,
    filter: u8,
    interlace: u8,
    idat_data: Vec<u8>,
    decompressed_data: Vec<u8>,
    pub pixels: Vec<u8>,
    reconstructed_data: Vec<u8>,
    palette: Vec<u8>,
    trns: Vec<u8>,
}

impl View for Png {
    type V = PngModel;

    closed spec fn view(&self) -> PngModel {
        PngModel {
            image: self.image@,
            width: self.width,
            height: self.height,
            bit_depth: self.bit_depth,
            color_type: self.color_type,
            compression: self.compression,
            filter: self.filter,
            interlace: self.interlace,
            idat: self.idat_data@,
            decompressed: self.decompressed_data@,
            reconstructed: self.reconstructed_data@,
            palette: self.palette@,
            trns: self.trns@,
            pixels: self.pixels@,
        }
    }
}

/// Appends `src[start..end]` to `dst`.
fn append_range(dst: &mut Vec<u8>, src: &Vec<u8>, start: usize, end: usize)
    requires
        start <= end <= src.len(),
    ensures
        final(dst)@ == old(dst)@ + src@.subrange(start as int, end as int),
{
    let ghost d0 = dst@;
    let mut i = start;
    while i < end
        invariant
            start <= i <= end <= src.len(),
            dst@ == d0 + src@.subrange(start as int, i as int),
        decreases end - i,
    {
        dst.push(src[i]);
        i = i + 1;
        assert(dst@ =~= d0 + src@.subrange(start as int, i as int));
    }
}

impl Png {
    /// A decoder for the file whose bytes are `image`; nothing is read yet.
    pub fn new(image: Vec<u8>) -> (p: Png)
        ensures
            p@ == initial_model(image@),
    {
        Png {
            image,
            width: 0,
            height: 0,
            bit_depth: 0,
            color_type: 0,
            compression: 0,
            filter: 0,
            interlace: 0,
            idat_data: Vec::new(),
            decompressed_data: Vec::new(),
            pixels: Vec::new(),
            reconstructed_data: Vec::new(),
            palette: Vec::new(),
            trns: Vec::new(),
        }
    }

    /// Checks the eight-byte PNG signature.
    fn check_signature(&self) -> (r: Result<(), PngError>)
        ensures
            r == spec_check_signature(self@.image),
    {
        if self.image.len() < 8 {
            return Err(PngError::UnexpectedEndOfFile);
        }
        let img = &self.image;
        if img[0] == 0x89 && img[1] == 0x50 && img[2] == 0x4E && img[3] == 0x47 && img[4] == 0x0D
            && img[5] == 0x0A && img[6] == 0x1A && img[7] == 0x0A {
            assert(img@.take(8) =~= png_signature());
            Ok(())
        } else {
            assert(img@.take(8)[0] == img@[0] && img@.take(8)[1] == img@[1] && img@.take(8)[2]
                == img@[2] && img@.take(8)[3] == img@[3] && img@.take(8)[4] == img@[4]
                && img@.take(8)[5] == img@[5] && img@.take(8)[6] == img@[6] && img@.take(8)[7]
                == img@[7]);
            Err(PngError::InvalidSignature)
        }
    }

    /// Reads the IHDR fields and rejects what the decoder does not support.
    fn parse_ihdr(&mut self) -> (r: Result<(), PngError>)
        ensures
            outcome(r, final(self)@, spec_parse_ihdr(old(self)@)),
    {
        if self.image.len() < 33 {
            return Err(PngError::UnexpectedEndOfFile);
        }
        let mut pos: usize = 16;
        self.width = read_be_u32(&self.image, pos);
        pos += 4;
        self.height = read_be_u32(&self.image, pos);
        pos += 4;
        self.bit_depth = self.image[pos];
        pos += 1;
        if !(self.bit_depth == 1 || self.bit_depth == 2 || self.bit_depth == 4 || self.bit_depth
            == 8) {
            return Err(PngError::UnsupportedBitDepth(self.bit_depth));
        }
        self.color_type = self.image[pos];
        pos += 1;
        if !(self.color_type == 0 || self.color_type == 2 || self.color_type == 3
            || self.color_type == 4 || self.color_type == 6) {
            return Err(PngError::UnsupportedColorType(self.color_type));
        }
        if !(self.color_type == 0 || self.color_type == 3 || self.bit_depth == 8) {
            return Err(PngError::UnsupportedBitDepth(self.bit_depth));
        }
        self.compression = self.image[pos];
        pos += 1;
        if self.compression != 0 {
            return Err(PngError::UnsupportedCompression(self.compression));
        }
        self.filter = self.image[pos];
        pos += 1;
        self.interlace = self.image[pos];
        if self.interlace != 0 {
            return Err(PngError::UnsupportedInterlace(self.interlace));
        }
        Ok(())
    }

    /// Bytes per complete pixel for the color type (at least one).
    fn bytes_per_pixel(&self) -> (r: Result<usize, PngError>)
        ensures
            match spec_bytes_per_pixel(self@.color_type) {
                Some(n) => r matches Ok(v) && v == n,
                None => r == Err::<usize, PngError>(PngError::UnsupportedColorType(self@.color_type)),
            },
    {
        match self.color_type {
            0 => Ok(1),
            2 => Ok(3),
            3 => Ok(1),
            4 => Ok(2),
            6 => Ok(4),
            _ => Err(PngError::UnsupportedColorType(self.color_type)),
        }
    }

    /// Bytes of pixel data in one scanline, the filter byte excluded.
    fn scanline_data_bytes(&self) -> (r: Result<u64, PngError>)
        ensures
            match spec_scanline_bytes(self@.color_type, self@.bit_depth, self@.width) {
                Some(n) => r matches Ok(v) && v == n,
                None => r == Err::<u64, PngError>(PngError::UnsupportedColorType(self@.color_type)),
            },
    {
        let w = self.width as u64;
        let d = self.bit_depth as u64;
        let q = d / 8;
        assert(w * d + 7 <= 0xffff_ffff * 0xff + 7 && w * 4 * q <= 0xffff_ffff * 4 * 31
            && w * 3 * q <= 0xffff_ffff * 3 * 31 && w * 2 * q <= 0xffff_ffff * 2 * 31)
            by (nonlinear_arith)
            requires
                w <= 0xffff_ffff,
                d <= 0xff,
                q <= 31,
        ;
        match self.color_type {
            0 | 3 => Ok((w * d + 7) / 8),
            2 => Ok(w * 3 * (d / 8)),
            4 => Ok(w * 2 * (d / 8)),
            6 => Ok(w * 4 * (d / 8)),
            _ => Err(PngError::UnsupportedColorType(self.color_type)),
        }
    }

    /// Walks the chunk list, gathering IDAT data, the palette and tRNS data.
    pub fn parse_chunks(&mut self) -> (r: Result<(), PngError>)
        ensures
            outcome(r, final(self)@, spec_parse_chunks(old(self)@)),
    {
        let ghost target = spec_parse_chunks(old(self)@);
        let mut pos: usize = 8;
        while pos < self.image.len()
            invariant
                target == spec_parse_chunks(old(self)@),
                scan_chunks(pos as int, self@) == target,
            decreases self.image.len() - pos,
        {
            if self.image.len() - pos < 8 {
                return Err(PngError::UnexpectedEndOfFile);
            }
            let len = read_be_u32(&self.image, pos);
            let start = pos + 8;
            if len as usize > self.image.len() - start {
                return Err(PngError::UnexpectedEndOfFile);
            }
            let end = start + len as usize;
            let t0 = self.image[pos + 4];
            let t1 = self.image[pos + 5];
            let t2 = self.image[pos + 6];
            let t3 = self.image[pos + 7];
            if t0 == 0x49 && t1 == 0x45 && t2 == 0x4E && t3 == 0x44 {
                return Ok(());
            }
            let ghost m0 = self@;
            if t0 == 0x49 && t1 == 0x44 && t2 == 0x41 && t3 == 0x54 {
                append_range(&mut self.idat_data, &self.image, start, end);
            } else if t0 == 0x50 && t1 == 0x4C && t2 == 0x54 && t3 == 0x45 {
                let mut data = Vec::new();
                append_range(&mut data, &self.image, start, end);
                assert(data@ =~= self.image@.subrange(start as int, end as int));
                self.palette = data;
            } else if t0 == 0x74 && t1 == 0x52 && t2 == 0x4E && t3 == 0x53 {
                append_range(&mut self.trns, &self.image, start, end);
            }
            assert(scan_chunks(pos as int, m0) == scan_chunks(end + 4, self@));
            if self.image.len() - end <= 4 {
                assert(scan_chunks(end + 4, self@) == (self@, Ok::<(), PngError>(())));
                return Ok(());
            }
            pos = end + 4;
        }
        Ok(())
    }

    /// The Paeth predictor of PNG filter type 4: of `a` (left), `b` (above)
    /// and `c` (upper left), the one closest to `a + b - c`, ties going to
    /// `a`, then `b`.
    pub fn paeth_predictor(a: u8, b: u8, c: u8) -> (r: u8)
        ensures
            r == paeth(a, b, c),
    {
        let left = a as i32;
        let above = b as i32;
        let upper_left = c as i32;
        let pr = left + above - upper_left;
        let p_left_r = if pr >= left { pr - left } else { left - pr };
        let p_above_r = if pr >= above { pr - above } else { above - pr };
        let p_upper_left = if pr >= upper_left { pr - upper_left } else { upper_left - pr };
        if p_left_r <= p_upper_left && p_left_r <= p_above_r {
            a
        } else if p_above_r <= p_upper_left {
            b
        } else {
            c
        }
    }

    /// The byte that `raw` stands for under `filter`.
    fn unfilter_one(filter: u8, raw: u8, left: u8, above: u8, upper_left: u8) -> (v: u8)
        requires
            filter <= 4,
        ensures
            v == unfilter_byte(filter, raw, left, above, upper_left),
    {
        match filter {
            0 => raw,
            1 => raw.wrapping_add(left),
            2 => raw.wrapping_add(above),
            3 => raw.wrapping_add(((left as u16 + above as u16) / 2) as u8),
            _ => raw.wrapping_add(Self::paeth_predictor(left, above, upper_left)),
        }
    }

    /// Reconstructs one scanline of `s` bytes whose filtered bytes start at
    /// `data[start]`, given the reconstructed scanline above.
    fn unfilter_row(data: &Vec<u8>, start: usize, s: usize, filter: u8, bpp: usize, prev: &Vec<u8>) -> (cur: Vec<u8>)
        requires
            start + s <= data.len(),
            prev.len() == s,
            filter <= 4,
            bpp >= 1,
        ensures
            cur@ == unfilter_prefix(filter, data@.subrange(start as int, start + s), prev@, bpp as int, s as nat),
    {
        let ghost raw = data@.subrange(start as int, start + s);
        let mut cur: Vec<u8> = Vec::new();
        let mut idx: usize = 0;
        while idx < s
            invariant
                start + s <= data.len(),
                prev.len() == s,
                filter <= 4,
                bpp >= 1,
                raw == data@.subrange(start as int, start + s),
                idx <= s,
                cur@ == unfilter_prefix(filter, raw, prev@, bpp as int, idx as nat),
            decreases s - idx,
        {
            proof {
                lemma_unfilter_prefix_len(filter, raw, prev@, bpp as int, idx as nat);
            }
            let raw_byte = data[start + idx];
            let left = if idx >= bpp { cur[idx - bpp] } else { 0 };
            let above = prev[idx];
            let upper_left = if idx >= bpp { prev[idx - bpp] } else { 0 };
            let v = Self::unfilter_one(filter, raw_byte, left, above, upper_left);
            cur.push(v);
            idx = idx + 1;
        }
        cur
    }

    /// Undoes the scanline filters, appending the reconstructed scanlines to
    /// the reconstructed data.
    fn reconstruct_scanlines(&mut self) -> (r: Result<(), PngError>)
        ensures
            outcome(r, final(self)@, spec_reconstruct(old(self)@)),
    {
        let bpp = self.bytes_per_pixel()?;
        let s = self.scanline_data_bytes()?;
        let data_len = self.decompressed_data.len();
        let ghost data = self.decompressed_data@;
        let ghost old_recon = self.reconstructed_data@;
        let ghost mut bytes: Seq<u8> = Seq::empty();
        let ghost mut prev_spec: Seq<u8> = Seq::new(s as nat, |i: int| 0u8);
        let mut prev: Vec<u8> = Vec::new();
        let mut base: usize = 0;
        let mut row: u32 = 0;
        assert(recon_rows(data, s as int, bpp as int, 0) == (bytes, prev_spec, Ok::<(), PngError>(())));
        while row < self.height
            invariant
                self@ == (PngModel { reconstructed: old_recon + bytes, ..old(self)@ }),
                data == old(self)@.decompressed,
                data_len == data.len(),
                spec_bytes_per_pixel(old(self)@.color_type) == Some(bpp as int),
                spec_scanline_bytes(old(self)@.color_type, old(self)@.bit_depth, old(self)@.width) == Some(s as int),
                old_recon == old(self)@.reconstructed,
                row <= self.height,
                base == row * (s + 1),
                base <= data_len,
                recon_rows(data, s as int, bpp as int, row as nat) == (bytes, prev_spec, Ok::<(), PngError>(())),
                row > 0 ==> prev@ == prev_spec,
                prev_spec.len() == s,
            decreases self.height - row,
        {
            let ghost row_spec = recon_row(data, s as int, bpp as int, base as int, prev_spec);
            assert(recon_rows(data, s as int, bpp as int, (row + 1) as nat) == match row_spec {
                Err(e) => (bytes, prev_spec, Err(e)),
                Ok(r) => (bytes + r, r, Ok::<(), PngError>(())),
            });
            proof {
                if row_spec is Err {
                    lemma_recon_rows_err_persists(data, s as int, bpp as int, (row + 1) as nat, old(self)@.height as nat);
                }
            }
            if base >= data_len {
                return Err(PngError::UnexpectedEndOfFile);
            }
            let next_base: usize;
            if s == 0 {
                assert(row_spec == Ok::<Seq<u8>, PngError>(Seq::empty()));
                proof {
                    prev_spec = Seq::empty();
                }
                prev = Vec::new();
                next_base = base + 1;
            } else {
                if base + 1 >= data_len {
                    return Err(PngError::UnexpectedEndOfFile);
                }
                let filter = self.decompressed_data[base];
                if filter > 4 {
                    return Err(PngError::UnsupportedFilter(filter));
                }
                if s >= (data_len - base) as u64 {
                    return Err(PngError::UnexpectedEndOfFile);
                }
                let su = s as usize;
                if row == 0 {
                    let mut zeros: Vec<u8> = Vec::new();
                    let mut k: usize = 0;
                    while k < su
                        invariant
                            k <= su,
                            zeros@ == Seq::new(k as nat, |i: int| 0u8),
                        decreases su - k,
                    {
                        zeros.push(0);
                        k = k + 1;
                        assert(zeros@ =~= Seq::new(k as nat, |i: int| 0u8));
                    }
                    assert(zeros@ =~= prev_spec);
                    prev = zeros;
                }
                let cur = Self::unfilter_row(&self.decompressed_data, base + 1, su, filter, bpp, &prev);
                assert(row_spec == Ok::<Seq<u8>, PngError>(cur@));
                proof {
                    lemma_unfilter_prefix_len(filter, data.subrange(base + 1, base + 1 + s), prev_spec, bpp as int, s as nat);
                }
                append_range(&mut self.reconstructed_data, &cur, 0, su);
                assert(cur@.subrange(0, su as int) =~= cur@);
                proof {
                    bytes = bytes + cur@;
                    prev_spec = cur@;
                }
                assert(self.reconstructed_data@ =~= old_recon + bytes);
                prev = cur;
                next_base = base + 1 + su;
            }
            proof {
                assert((row + 1) * (s + 1) == row * (s + 1) + s + 1) by (nonlinear_arith);
            }
            assert(recon_rows(data, s as int, bpp as int, (row + 1) as nat) == (bytes, prev_spec, Ok::<(), PngError>(())));
            base = next_base;
            row = row + 1;
        }
        Ok(())
    }

    /// Sample `j` of a byte packed with `d`-bit samples.
    fn sample(b: u8, d: u8, j: u64) -> (v: u8)
        requires
            d == 1 || d == 2 || d == 4,
            j < 8int / (d as int),
        ensures
            v == sample_of(b, d, j as int),
    {
        assert(d * (j + 1) <= 8) by (nonlinear_arith)
            requires
                d == 1 || d == 2 || d == 4,
                j < 8int / (d as int),
        ;
        let shift: u8 = 8 - d * (j as u8 + 1);
        let mask: u8 = if d == 1 {
            1
        } else if d == 2 {
            3
        } else {
            15
        };
        (b >> shift) & mask
    }

    /// Appends the unpacked samples of the scanline `packed[start..start + s]`.
    fn unpack_scanline(packed: &Vec<u8>, start: usize, s: usize, d: u8, width: u32, out: &mut Vec<u8>)
        requires
            start + s <= packed.len(),
            d == 1 || d == 2 || d == 4,
        ensures
            final(out)@ == old(out)@ + unpack_row(packed@.subrange(start as int, start + s), d, width),
    {
        let ghost bytes = packed@.subrange(start as int, start + s);
        let ghost o0 = out@;
        let spb: u64 = if d == 1 {
            8
        } else if d == 2 {
            4
        } else {
            2
        };
        assert(spb == 8int / (d as int));
        let n: u64 = if (s as u64) >= (width as u64) {
            width as u64
        } else {
            assert(s * spb <= 0xffff_ffff * 8) by (nonlinear_arith)
                requires
                    s <= 0xffff_ffff,
                    spb <= 8,
            ;
            let total = s as u64 * spb;
            if (width as u64) < total {
                width as u64
            } else {
                total
            }
        };
        let ghost total = s * spb;
        assert(n == if width < total { width as int } else { total }) by (nonlinear_arith)
            requires
                n == (if s >= width { width as int } else if width < s * spb { width as int } else { s * spb }),
                total == s * spb,
                spb >= 1,
                s >= 0,
        ;
        let ghost row = unpack_row(bytes, d, width);
        assert(row.len() == n);
        let mut i: u64 = 0;
        while i < n
            invariant
                start + s <= packed.len(),
                d == 1 || d == 2 || d == 4,
                bytes == packed@.subrange(start as int, start + s),
                row == unpack_row(bytes, d, width),
                spb == 8int / (d as int),
                total == s * spb,
                n <= total,
                row.len() == n,
                i <= n,
                out@ == o0 + row.subrange(0, i as int),
            decreases n - i,
        {
            let k = i / spb;
            let j = i % spb;
            assert(k < s) by (nonlinear_arith)
                requires
                    i < total,
                    total == s * spb,
                    spb > 0,
                    k == i / spb,
            ;
            let v = Self::sample(packed[start + k as usize], d, j);
            out.push(v);
            i = i + 1;
            assert(out@ =~= o0 + row.subrange(0, i as int));
        }
        assert(row.subrange(0, n as int) =~= row);
    }

    /// Splits samples of fewer than eight bits into one byte each, scanline
    /// by scanline, keeping as many samples per scanline as the image is wide.
    fn unpack_pixels(&mut self) -> (r: Result<(), PngError>)
        requires
            unpack_input_ok(old(self)@),
        ensures
            outcome(r, final(self)@, spec_unpack(old(self)@)),
    {
        let mut packed: Vec<u8> = Vec::new();
        std::mem::swap(&mut packed, &mut self.reconstructed_data);
        let d = self.bit_depth;
        if d == 8 {
            self.reconstructed_data = packed;
            return Ok(());
        }
        if !(d == 1 || d == 2 || d == 4) {
            return Err(PngError::UnsupportedBitDepth(d));
        }
        if self.height == 0 {
            return Ok(());
        }
        let s = self.scanline_data_bytes()?;
        let ghost height = self.height as int;
        assert(packed@.len() >= height * s);
        proof {
            assert(s <= height * s) by (nonlinear_arith)
                requires
                    height >= 1,
                    s >= 0,
            ;
        }
        assert(s <= packed.len());
        let su = s as usize;
        let mut base: usize = 0;
        let mut row: u32 = 0;
        assert(self.reconstructed_data@ =~= unpack_rows(packed@, s as int, d, self.width, 0));
        while row < self.height
            invariant
                self@ == (PngModel {
                    reconstructed: unpack_rows(packed@, s as int, d, old(self)@.width, row as nat),
                    ..old(self)@
                }),
                packed@ == old(self)@.reconstructed,
                d == old(self)@.bit_depth,
                d == 1 || d == 2 || d == 4,
                su == s,
                packed.len() >= self.height * s,
                row <= self.height,
                base == row * s,
            decreases self.height - row,
        {
            let ghost r = row as int;
            let ghost h = self.height as int;
            proof {
                assert((r + 1) * s <= h * s) by (nonlinear_arith)
                    requires
                        r + 1 <= h,
                        s >= 0,
                ;
                assert((r + 1) * s == r * s + s) by (nonlinear_arith);
            }
            Self::unpack_scanline(&packed, base, su, d, self.width, &mut self.reconstructed_data);
            base = base + su;
            row = row + 1;
        }
        Ok(())
    }

    /// Gray samples: each becomes an opaque gray pixel, scaled to 8 bits.
    fn decode_grayscale(&mut self) -> (r: Result<(), PngError>)
        requires
            gray_fits(old(self)@),
        ensures
            outcome(r, final(self)@, spec_decode_gray(old(self)@)),
    {
        let n = self.reconstructed_data.len();
        let d = self.bit_depth;
        if n > 0 && !(d == 1 || d == 2 || d == 4 || d == 8) {
            return Err(PngError::UnsupportedBitDepthForGrayscale(d));
        }
        let ghost p0 = self.pixels@;
        let mut i: usize = 0;
        while i < n
            invariant
                self@ == (PngModel { pixels: p0 + gray_pixels(old(self)@.reconstructed, d, i as nat), ..old(self)@ }),
                p0 == old(self)@.pixels,
                n == old(self)@.reconstructed.len(),
                d == old(self)@.bit_depth,
                n > 0 ==> is_supported_bit_depth(d),
                gray_fits(old(self)@),
                i <= n,
            decreases n - i,
        {
            let g = self.reconstructed_data[i];
            assert(g * gray_scale(d) <= 255);
            let gray = match d {
                1 => g * 255,
                2 => g * 85,
                4 => g * 17,
                _ => g,
            };
            self.pixels.push(gray);
            self.pixels.push(gray);
            self.pixels.push(gray);
            self.pixels.push(0xFF);
            i = i + 1;
            assert(self.pixels@ =~= p0 + gray_pixels(old(self)@.reconstructed, d, i as nat));
        }
        Ok(())
    }

    /// RGB triples: each becomes an opaque pixel; a trailing partial triple
    /// is ignored.
    fn decode_rgb(&mut self) -> (r: Result<(), PngError>)
        ensures
            r == Ok::<(), PngError>(()),
            final(self)@ == spec_decode_rgb(old(self)@),
    {
        let n = self.reconstructed_data.len() / 3;
        let ghost p0 = self.pixels@;
        let mut p: usize = 0;
        while p < n
            invariant
                self@ == (PngModel { pixels: p0 + rgb_pixels(old(self)@.reconstructed, p as nat), ..old(self)@ }),
                p0 == old(self)@.pixels,
                n == old(self)@.reconstructed.len() / 3,
                p <= n,
            decreases n - p,
        {
            let ghost len = self.reconstructed_data.len() as int;
            assert(3 * p + 3 <= len) by (nonlinear_arith)
                requires
                    p < n,
                    n == len / 3,
            ;
            let k = 3 * p;
            let r = self.reconstructed_data[k];
            let g = self.reconstructed_data[k + 1];
            let b = self.reconstructed_data[k + 2];
            self.pixels.push(r);
            self.pixels.push(g);
            self.pixels.push(b);
            self.pixels.push(0xFF);
            p = p + 1;
            assert(self.pixels@ =~= p0 + rgb_pixels(old(self)@.reconstructed, p as nat));
        }
        Ok(())
    }

    /// Gray-alpha pairs: each becomes a gray pixel with that alpha; a trailing
    /// partial pair is ignored.
    fn decode_grayscale_alpha(&mut self) -> (r: Result<(), PngError>)
        ensures
            r == Ok::<(), PngError>(()),
            final(self)@ == spec_decode_gray_alpha(old(self)@),
    {
        let n = self.reconstructed_data.len() / 2;
        let ghost p0 = self.pixels@;
        let mut p: usize = 0;
        while p < n
            invariant
                self@ == (PngModel { pixels: p0 + gray_alpha_pixels(old(self)@.reconstructed, p as nat), ..old(self)@ }),
                p0 == old(self)@.pixels,
                n == old(self)@.reconstructed.len() / 2,
                p <= n,
            decreases n - p,
        {
            let ghost len = self.reconstructed_data.len() as int;
            assert(2 * p + 2 <= len) by (nonlinear_arith)
                requires
                    p < n,
                    n == len / 2,
            ;
            let k = 2 * p;
            let gray = self.reconstructed_data[k];
            let alpha = self.reconstructed_data[k + 1];
            self.pixels.push(gray);
            self.pixels.push(gray);
            self.pixels.push(gray);
            self.pixels.push(alpha);
            p = p + 1;
            assert(self.pixels@ =~= p0 + gray_alpha_pixels(old(self)@.reconstructed, p as nat));
        }
        Ok(())
    }

    /// RGBA quadruples are copied as they are; a trailing partial quadruple is
    /// ignored.
    fn decode_rgba(&mut self) -> (r: Result<(), PngError>)
        ensures
            r == Ok::<(), PngError>(()),
            final(self)@ == spec_decode_rgba(old(self)@),
    {
        let n = self.reconstructed_data.len() / 4;
        let ghost p0 = self.pixels@;
        let mut p: usize = 0;
        while p < n
            invariant
                self@ == (PngModel { pixels: p0 + rgba_pixels(old(self)@.reconstructed, p as nat), ..old(self)@ }),
                p0 == old(self)@.pixels,
                n == old(self)@.reconstructed.len() / 4,
                p <= n,
            decreases n - p,
        {
            let ghost len = self.reconstructed_data.len() as int;
            assert(4 * p + 4 <= len) by (nonlinear_arith)
                requires
                    p < n,
                    n == len / 4,
            ;
            let k = 4 * p;
            let r = self.reconstructed_data[k];
            let g = self.reconstructed_data[k + 1];
            let b = self.reconstructed_data[k + 2];
            let a = self.reconstructed_data[k + 3];
            self.pixels.push(r);
            self.pixels.push(g);
            self.pixels.push(b);
            self.pixels.push(a);
            p = p + 1;
            assert(self.pixels@ =~= p0 + rgba_pixels(old(self)@.reconstructed, p as nat));
        }
        Ok(())
    }

    /// Palette indices: each becomes the palette's color, with the alpha from
    /// tRNS where it has an entry for the index; an index past the palette's
    /// end is an error, and the pixels for the indices before it stay.
    fn decode_index(&mut self) -> (r: Result<(), PngError>)
        ensures
            outcome(r, final(self)@, spec_decode_index(old(self)@)),
    {
        let n = self.reconstructed_data.len();
        let ghost p0 = self.pixels@;
        let ghost m0 = old(self)@;
        let ghost mut px: Seq<u8> = Seq::empty();
        let mut i: usize = 0;
        while i < n
            invariant
                m0 == old(self)@,
                self@ == (PngModel { pixels: p0 + px, ..m0 }),
                p0 == m0.pixels,
                n == m0.reconstructed.len(),
                index_pixels(m0.reconstructed, m0.palette, m0.trns, i as nat) == (px, Ok::<(), PngError>(())),
                i <= n,
            decreases n - i,
        {
            let pixel = self.reconstructed_data[i];
            let palette_pos = pixel as usize * 3;
            if self.palette.len() < palette_pos + 3 {
                proof {
                    lemma_index_pixels_err_persists(m0.reconstructed, m0.palette, m0.trns, (i + 1) as nat, n as nat);
                }
                return Err(PngError::UnexpectedEndOfFile);
            }
            let r = self.palette[palette_pos];
            let g = self.palette[palette_pos + 1];
            let b = self.palette[palette_pos + 2];
            let a: u8 = if self.trns.len() > pixel as usize {
                self.trns[pixel as usize]
            } else {
                255
            };
            self.pixels.push(r);
            self.pixels.push(g);
            self.pixels.push(b);
            self.pixels.push(a);
            proof {
                px = px + seq![r, g, b, a];
            }
            i = i + 1;
            assert(self.pixels@ =~= p0 + px);
        }
        Ok(())
    }

    /// Turns the unpacked samples into RGBA pixels by color type.
    pub fn decode_pixels(&mut self) -> (r: Result<(), PngError>)
        requires
            decode_input_ok(old(self)@),
        ensures
            outcome(r, final(self)@, spec_decode(old(self)@)),
    {
        match self.color_type {
            0 => {
                assert(spec_decode(old(self)@) == spec_decode_gray(old(self)@));
                self.decode_grayscale()
            },
            2 => self.decode_rgb(),
            3 => self.decode_index(),
            4 => self.decode_grayscale_alpha(),
            6 => self.decode_rgba(),
            _ => Err(PngError::UnsupportedColorType(self.color_type)),
        }
    }

    /// Checks the signature, reads the header and gathers the chunks: every
    /// step before decompression.
    pub fn parse_structure(&mut self) -> (r: Result<(), PngError>)
        ensures
            outcome(r, final(self)@, spec_parse_structure(old(self)@)),
    {
        self.check_signature()?;
        self.parse_ihdr()?;
        self.parse_chunks()
    }

    /// Inflates the gathered IDAT data, appending what the decoder produced
    /// to the decompressed data; a corrupt or truncated stream is an error.
    fn decompress_data(&mut self) -> (r: Result<(), PngError>)
        ensures
            outcome(r, final(self)@, spec_decompress(old(self)@)),
    {
        let (out, complete) = inflate_zlib(self.idat_data.as_slice());
        append_range(&mut self.decompressed_data, &out, 0, out.len());
        assert(out@.subrange(0, out.len() as int) =~= out@);
        if complete {
            Ok(())
        } else {
            Err(PngError::DecompressionFailed)
        }
    }

    /// Every step after decompression: undoes the filters, unpacks small
    /// samples and decodes the pixels.
    fn decode_decompressed(&mut self) -> (r: Result<(), PngError>)
        ensures
            outcome(r, final(self)@, spec_decode_decompressed(old(self)@)),
    {
        let ghost m1 = self@;
        self.reconstruct_scanlines()?;
        proof {
            lemma_reconstruct_feeds_unpack(m1);
        }
        let ghost m2 = self@;
        self.unpack_pixels()?;
        proof {
            lemma_unpack_feeds_decode(m2);
        }
        self.decode_pixels()
    }

    /// Appends `inflated` to the decompressed data, then does every step after
    /// decompression.
    pub fn decode_inflated(&mut self, inflated: Vec<u8>) -> (r: Result<(), PngError>)
        ensures
            outcome(r, final(self)@, spec_decode_inflated(old(self)@, inflated@)),
    {
        append_range(&mut self.decompressed_data, &inflated, 0, inflated.len());
        assert(inflated@.subrange(0, inflated.len() as int) =~= inflated@);
        self.decode_decompressed()
    }

    /// Decodes the image: on success `width` and `height` hold the header's
    /// dimensions and `pixels` the image as RGBA, row by row from the top.
    pub fn parse(&mut self) -> (r: Result<(), PngError>)
        ensures
            outcome(r, final(self)@, spec_parse(old(self)@)),
    {
        self.parse_structure()?;
        self.decompress_data()?;
        self.decode_decompressed()
    }

    /// The image's width, as in the model.
    pub fn width(&self) -> (w: u32)
        ensures
            w == self@.width,
    {
        self.width
    }

    /// The image's height, as in the model.
    pub fn height(&self) -> (h: u32)
        ensures
            h == self@.height,
    {
        self.height
    }

    /// The decoded RGBA pixels, as in the model.
    pub fn pixels(&self) -> (p: &Vec<u8>)
        ensures
            p@ == self@.pixels,
    {
        &self.pixels
    }
}

} // verus!
