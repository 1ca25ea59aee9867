//! The BMP decoder: uncompressed 24-bit and 32-bit Windows bitmaps.

use vstd::prelude::*;
use crate::bytes::{le_u16_at, le_u32_at, read_le_u16, read_le_u32};

verus! {

/// Why a bitmap cannot be decoded.
#[derive(Debug, Clone, Copy, PartialEq, Eq)]
pub enum BmpError {
    /// The file ends before a header field or a pixel that is read.
    Truncated,
    /// The pixel format is neither 24 nor 32 bits per pixel.
    UnsupportedFormat(u16),
    /// A row size or pixel offset does not fit in 32 bits.
    Overflow,
}

/// The abstract state of a `Bmp` decoder.
pub struct BmpModel {
    pub image: Seq<u8>,
    pub width: u32,
    pub height: u32,
    pub pixels: Seq<u8>,
    pub bits_per_pixel: u16,
    pub pixel_offset: u32,
}

/// The file starts with "BM".
pub open spec fn bmp_signature_ok(img: Seq<u8>) -> bool {
    img[0] == 0x42 && img[1] == 0x4D
}

pub open spec fn bmp_width(img: Seq<u8>) -> int {
    le_u32_at(img, 18)
}

pub open spec fn bmp_height(img: Seq<u8>) -> int {
    le_u32_at(img, 22)
}

pub open spec fn bmp_bits_per_pixel(img: Seq<u8>) -> int {
    le_u16_at(img, 28)
}

pub open spec fn bmp_pixel_offset(img: Seq<u8>) -> int {
    le_u32_at(img, 10)
}

/// Bytes per pixel: four at 32 bits per pixel, three otherwise.
pub open spec fn bmp_bytes_per_pixel(img: Seq<u8>) -> int {
    if bmp_bits_per_pixel(img) == 32 { 4 } else { 3 }
}

/// Bytes per stored row: the pixel bytes rounded up to a multiple of four.
pub open spec fn bmp_row_stride(img: Seq<u8>) -> int {
    ((bmp_width(img) * bmp_bytes_per_pixel(img) + 3) / 4) * 4
}

/// Where pixel `px` of output row `row` is stored. Rows are stored bottom
/// up, so output row `row` is stored row `height - 1 - row`.
pub open spec fn bmp_pixel_pos(img: Seq<u8>, row: int, px: int) -> int {
    bmp_pixel_offset(img) + (bmp_height(img) - 1 - row) * bmp_row_stride(img) + px * bmp_bytes_per_pixel(img)
}

/// The RGBA value of pixel `px` of output row `row`: stored as BGR or
/// BGRA, opaque when there is no alpha byte.
pub open spec fn bmp_pixel(img: Seq<u8>, row: int, px: int) -> Seq<u8> {
    let p = bmp_pixel_pos(img, row, px);
    if bmp_bytes_per_pixel(img) == 4 {
        seq![img[p + 2], img[p + 1], img[p], img[p + 3]]
    } else {
        seq![img[p + 2], img[p + 1], img[p], 0xFFu8]
    }
}

/// The first `k` pixels of output row `row`, as RGBA.
pub open spec fn bmp_row(img: Seq<u8>, row: int, k: nat) -> Seq<u8>
    decreases k,
{
    if k == 0 {
        Seq::empty()
    } else {
        bmp_row(img, row, (k - 1) as nat) + bmp_pixel(img, row, k - 1)
    }
}

/// The first `k` output rows, top to bottom, as RGBA.
pub open spec fn bmp_rows(img: Seq<u8>, k: nat) -> Seq<u8>
    decreases k,
{
    if k == 0 {
        Seq::empty()
    } else {
        bmp_rows(img, (k - 1) as nat) + bmp_row(img, k - 1, bmp_width(img) as nat)
    }
}

/// The position of the last byte read: that of the first pixel stored
/// (bottom row in the file, the top output row), rightmost pixel.
pub open spec fn bmp_last_pos(img: Seq<u8>) -> int {
    bmp_pixel_pos(img, 0, bmp_width(img) - 1)
}

/// Whether decoding `img` stays within the file and within 32-bit sizes,
/// and if not, why. A file that does not start with "BM" is fine: decoding
/// stops at the signature.
pub open spec fn bmp_check(img: Seq<u8>) -> Result<(), BmpError> {
    if img.len() < 2 {
        Err(BmpError::Truncated)
    } else if !bmp_signature_ok(img) {
        Ok(())
    } else if img.len() < 30 {
        Err(BmpError::Truncated)
    } else if bmp_bits_per_pixel(img) != 24 && bmp_bits_per_pixel(img) != 32 {
        Err(BmpError::UnsupportedFormat(bmp_bits_per_pixel(img) as u16))
    } else if bmp_width(img) * bmp_bytes_per_pixel(img) + 3 > u32::MAX {
        Err(BmpError::Overflow)
    } else if bmp_width(img) == 0 || bmp_height(img) == 0 {
        Ok(())
    } else if bmp_last_pos(img) > u32::MAX {
        Err(BmpError::Overflow)
    } else if bmp_last_pos(img) + bmp_bytes_per_pixel(img) > img.len() {
        Err(BmpError::Truncated)
    } else {
        Ok(())
    }
}

/// The decoder after decoding `m.image`, which starts with "BM".
pub open spec fn bmp_decoded(m: BmpModel) -> BmpModel {
    let img = m.image;
    BmpModel {
        image: img,
        width: bmp_width(img) as u32,
        height: bmp_height(img) as u32,
        pixels: m.pixels + bmp_rows(img, bmp_height(img) as nat),
        bits_per_pixel: bmp_bits_per_pixel(img) as u16,
        pixel_offset: bmp_pixel_offset(img) as u32,
    }
}

/// A BMP decoder over the bytes of one file. After `parse`, `pixels` holds
/// the image as RGBA, row by row from the top.
pub struct Bmp {
    image: Vec<u8>,
    pub width: u32,
    pub height: u32,
    pub pixels: Vec<u8>,
    bits_per_pixel: u16,
    pixel_offset: u32,
}

impl View for Bmp {
    type V = BmpModel;

    closed spec fn view(&self) -> BmpModel {
        BmpModel {
            image: self.image@,
            width: self.width,
            height: self.height,
            pixels: self.pixels@,
            bits_per_pixel: self.bits_per_pixel,
            pixel_offset: self.pixel_offset,
        }
    }
}

impl Bmp {
    /// A decoder for the file whose bytes are `image`; nothing is read yet.
    pub fn new(image: Vec<u8>) -> (b: Bmp)
        ensures
            b@ == (BmpModel {
                image: image@,
                width: 0,
                height: 0,
                pixels: Seq::empty(),
                bits_per_pixel: 0,
                pixel_offset: 0,
            }),
    {
        Bmp { image, width: 0, height: 0, pixels: Vec::new(), bits_per_pixel: 0, pixel_offset: 0 }
    }

    /// The image's width, as in the model.
    pub fn width(&self) -> (w: u32)
        ensures
            w == self@.width,
    {
        self.width
    }

    /// The image's height, as in the model.
    pub fn height(&self) -> (h: u32)
        ensures
            h == self@.height,
    {
        self.height
    }

    /// The decoded RGBA pixels, as in the model.
    pub fn pixels(&self) -> (p: &Vec<u8>)
        ensures
            p@ == self@.pixels,
    {
        &self.pixels
    }

    /// Tells whether `parse` can run on this file, and if not, why.
    pub fn check(&self) -> (r: Result<(), BmpError>)
        ensures
            r == bmp_check(self@.image),
    {
        let img = &self.image;
        if img.len() < 2 {
            return Err(BmpError::Truncated);
        }
        if !(img[0] == 0x42 && img[1] == 0x4D) {
            return Ok(());
        }
        if img.len() < 30 {
            return Err(BmpError::Truncated);
        }
        let bpp = read_le_u16(img, 28);
        if bpp != 24 && bpp != 32 {
            return Err(BmpError::UnsupportedFormat(bpp));
        }
        let n: u64 = if bpp == 32 { 4 } else { 3 };
        let w = read_le_u32(img, 18) as u64;
        let h = read_le_u32(img, 22) as u64;
        let off = read_le_u32(img, 10) as u64;
        if w * n + 3 > 0xffff_ffff {
            return Err(BmpError::Overflow);
        }
        if w == 0 || h == 0 {
            return Ok(());
        }
        let stride = ((w * n + 3) / 4) * 4;
        assert((h - 1) * stride <= 0xffff_ffff * 0xffff_ffff) by (nonlinear_arith)
            requires
                h <= 0xffff_ffff,
                stride <= 0xffff_ffff,
        ;
        let rows = (h - 1) * stride;
        if rows > 0xffff_ffff {
            return Err(BmpError::Overflow);
        }
        let last = off + rows + (w - 1) * n;
        if last > 0xffff_ffff {
            return Err(BmpError::Overflow);
        }
        if last + n > img.len() as u64 {
            return Err(BmpError::Truncated);
        }
        Ok(())
    }

    /// Decodes the bitmap into `pixels` (appended), unless the file does not
    /// start with "BM": then nothing changes and the result is `false`.
    pub fn parse(&mut self) -> (decoded: bool)
        requires
            bmp_check(old(self)@.image) is Ok,
        ensures
            decoded == bmp_signature_ok(old(self)@.image),
            decoded ==> final(self)@ == bmp_decoded(old(self)@),
            !decoded ==> final(self)@ == old(self)@,
    {
        if !(self.image[0] == 0x42 && self.image[1] == 0x4D) {
            return false;
        }
        let ghost img = self.image@;
        let ghost p0 = self.pixels@;
        self.width = read_le_u32(&self.image, 18);
        self.height = read_le_u32(&self.image, 22);
        self.bits_per_pixel = read_le_u16(&self.image, 28);
        self.pixel_offset = read_le_u32(&self.image, 10);
        let num_pixels: u32 = if self.bits_per_pixel == 32 {
            4
        } else {
            3
        };
        let raw_row_size = self.width * num_pixels;
        let padded_row_size = ((raw_row_size + 3) / 4) * 4;
        let mut row: u32 = 0;
        while row < self.height
            invariant
                img == old(self)@.image,
                bmp_check(img) is Ok,
                bmp_signature_ok(img),
                self.image@ == img,
                self.width == bmp_width(img),
                self.height == bmp_height(img),
                self.bits_per_pixel == bmp_bits_per_pixel(img),
                self.pixel_offset == bmp_pixel_offset(img),
                num_pixels == bmp_bytes_per_pixel(img),
                padded_row_size == bmp_row_stride(img),
                row <= self.height,
                self.pixels@ == p0 + bmp_rows(img, row as nat),
                p0 == old(self)@.pixels,
            decreases self.height - row,
        {
            let mut pixel: u32 = 0;
            while pixel < self.width
                invariant
                    img == old(self)@.image,
                    bmp_check(img) is Ok,
                    bmp_signature_ok(img),
                    self.image@ == img,
                    self.width == bmp_width(img),
                    self.height == bmp_height(img),
                    self.bits_per_pixel == bmp_bits_per_pixel(img),
                    self.pixel_offset == bmp_pixel_offset(img),
                    num_pixels == bmp_bytes_per_pixel(img),
                    padded_row_size == bmp_row_stride(img),
                    row < self.height,
                    pixel <= self.width,
                    self.pixels@ == p0 + bmp_rows(img, row as nat) + bmp_row(img, row as int, pixel as nat),
                decreases self.width - pixel,
            {
                proof {
                    lemma_bmp_pos_bounds(img, row as int, pixel as int);
                }
                let pos: usize = (self.pixel_offset + (self.height - 1 - row) * padded_row_size
                    + pixel * num_pixels) as usize;
                assert(pos == bmp_pixel_pos(img, row as int, pixel as int));
                assert(pos + bmp_bytes_per_pixel(img) <= img.len());
                assert(pos + 3 <= self.image.len());
                let b = self.image[pos];
                let g = self.image[pos + 1];
                let r = self.image[pos + 2];
                let ghost before = self.pixels@;
                if num_pixels == 4 {
                    let a = self.image[pos + 3];
                    self.pixels.push(r);
                    self.pixels.push(g);
                    self.pixels.push(b);
                    self.pixels.push(a);
                } else {
                    self.pixels.push(r);
                    self.pixels.push(g);
                    self.pixels.push(b);
                    self.pixels.push(0xFF);
                }
                assert(self.pixels@ =~= before + bmp_pixel(img, row as int, pixel as int));
                pixel = pixel + 1;
                assert(self.pixels@ =~= p0 + bmp_rows(img, row as nat) + bmp_row(img, row as int, pixel as nat));
            }
            row = row + 1;
            assert(self.pixels@ =~= p0 + bmp_rows(img, row as nat));
        }
        true
    }
}

/// Every pixel position of a checked bitmap lies within 32 bits and within
/// the file, with its whole pixel.
proof fn lemma_bmp_pos_bounds(img: Seq<u8>, row: int, px: int)
    requires
        bmp_check(img) is Ok,
        bmp_signature_ok(img),
        0 <= row < bmp_height(img),
        0 <= px < bmp_width(img),
    ensures
        0 <= (bmp_height(img) - 1 - row) * bmp_row_stride(img) <= (bmp_height(img) - 1) * bmp_row_stride(img),
        0 <= px * bmp_bytes_per_pixel(img) <= (bmp_width(img) - 1) * bmp_bytes_per_pixel(img),
        0 <= bmp_pixel_pos(img, row, px) <= bmp_last_pos(img) <= u32::MAX,
        bmp_pixel_pos(img, row, px) + bmp_bytes_per_pixel(img) <= img.len(),
{
    let h = bmp_height(img);
    let w = bmp_width(img);
    let s = bmp_row_stride(img);
    let n = bmp_bytes_per_pixel(img);
    assert(s >= 0) by (nonlinear_arith)
        requires
            s == ((w * n + 3) / 4) * 4,
            w >= 0,
            n >= 3,
    ;
    assert(0 <= (h - 1 - row) * s <= (h - 1) * s) by (nonlinear_arith)
        requires
            0 <= row < h,
            s >= 0,
    ;
    assert(0 <= px * n <= (w - 1) * n) by (nonlinear_arith)
        requires
            0 <= px < w,
            n >= 3,
    ;
}


/// A row of `k` decoded pixels has four bytes per pixel, pixel `px` at `4 * px`.
proof fn lemma_bmp_row_layout(img: Seq<u8>, row: int, k: nat)
    ensures
        bmp_row(img, row, k).len() == 4 * k,
        forall|px: int, c: int|
            0 <= px < k && 0 <= c < 4 ==> #[trigger] bmp_row(img, row, k)[4 * px + c] == bmp_pixel(img, row, px)[c],
    decreases k,
{
    if k > 0 {
        lemma_bmp_row_layout(img, row, (k - 1) as nat);
    }
}

/// The first `k` decoded rows hold four bytes per pixel, row by row.
proof fn lemma_bmp_rows_layout(img: Seq<u8>, k: nat)
    requires
        bmp_width(img) >= 0,
    ensures
        bmp_rows(img, k).len() == 4 * bmp_width(img) * k,
        forall|r: int, px: int, c: int|
            0 <= r < k && 0 <= px < bmp_width(img) && 0 <= c < 4 ==> #[trigger] bmp_rows(img, k)[4 * (bmp_width(img) * r + px) + c]
                == bmp_pixel(img, r, px)[c],
    decreases k,
{
    let w = bmp_width(img);
    if k > 0 {
        lemma_bmp_rows_layout(img, (k - 1) as nat);
        lemma_bmp_row_layout(img, k - 1, w as nat);
        let prev = bmp_rows(img, (k - 1) as nat);
        let last = bmp_row(img, k - 1, w as nat);
        assert(4 * w * (k - 1) + 4 * w == 4 * w * k) by (nonlinear_arith);
        assert forall|r: int, px: int, c: int|
            0 <= r < k && 0 <= px < w && 0 <= c < 4 implies #[trigger] bmp_rows(img, k)[4 * (w * r + px) + c]
                == bmp_pixel(img, r, px)[c] by {
            let i = 4 * (w * r + px) + c;
            if r < k - 1 {
                assert(i < 4 * w * (k - 1)) by (nonlinear_arith)
                    requires
                        i == 4 * (w * r + px) + c,
                        0 <= r < k - 1,
                        0 <= px < w,
                        0 <= c < 4,
                ;
                assert(prev[i] == bmp_pixel(img, r, px)[c]);
            } else {
                assert(i - 4 * w * (k - 1) == 4 * px + c) by (nonlinear_arith)
                    requires
                        i == 4 * (w * r + px) + c,
                        r == k - 1,
                ;
                assert(last[4 * px + c] == bmp_pixel(img, r, px)[c]);
            }
        }
    }
}

/// The decoded image is a `width` x `height` RGBA buffer: byte `c` of the
/// pixel at column `px` of output row `r` (from the top; the file stores
/// rows bottom up) stands at
/// `4 * (width * r + px) + c`.
pub proof fn law_bmp_rgba_layout(img: Seq<u8>)
    ensures
        bmp_rows(img, bmp_height(img) as nat).len() == 4 * bmp_width(img) * bmp_height(img),
        forall|r: int, px: int, c: int|
            0 <= r < bmp_height(img) && 0 <= px < bmp_width(img) && 0 <= c < 4 ==> #[trigger] bmp_rows(img, bmp_height(img) as nat)[4 * (bmp_width(img) * r + px) + c]
                == bmp_pixel(img, r, px)[c],
{
    lemma_bmp_rows_layout(img, bmp_height(img) as nat);
}

/// A stored row of a bitmap holds `width` pixels of three bytes, or four at
/// 32 bits per pixel, padded to the next multiple of four bytes.
pub proof fn law_bmp_row_stride(img: Seq<u8>)
    ensures
        ({
            let n = if le_u16_at(img, 28) == 32 { 4int } else { 3int };
            let w = le_u32_at(img, 18);
            let stride = bmp_row_stride(img);
            &&& stride % 4 == 0
            &&& w * n <= stride < w * n + 4
        }),
{
    let n = if le_u16_at(img, 28) == 32 { 4int } else { 3int };
    let w = le_u32_at(img, 18);
    let raw = w * n;
    assert(((raw + 3) / 4) * 4 % 4 == 0 && raw <= ((raw + 3) / 4) * 4 < raw + 4) by (nonlinear_arith)
        requires
            raw >= 0,
    ;
}

/// Where each decoded pixel comes from: pixel `px` of output row `r` (from
/// the top) is read from stored row `height - 1 - r`, which starts at the
/// pixel offset (bytes 10..14) plus that many row strides, at `px` pixels of
/// three bytes, or four at 32 bits per pixel; the bytes are stored blue,
/// green, red (then alpha), and a pixel without alpha is opaque.
pub proof fn law_bmp_pixel_source(img: Seq<u8>, r: int, px: int)
    requires
        0 <= r < le_u32_at(img, 22),
        0 <= px < le_u32_at(img, 18),
    ensures
        ({
            let w = le_u32_at(img, 18);
            let h = le_u32_at(img, 22);
            let n = if le_u16_at(img, 28) == 32 { 4int } else { 3int };
            let p = le_u32_at(img, 10) + (h - 1 - r) * bmp_row_stride(img) + px * n;
            let out = bmp_rows(img, h as nat);
            let i = 4 * (r * w + px);
            &&& out.len() == 4 * w * h
            &&& out[i] == img[p + 2]
            &&& out[i + 1] == img[p + 1]
            &&& out[i + 2] == img[p]
            &&& out[i + 3] == (if n == 4 { img[p + 3] } else { 0xFFu8 })
        }),
{
    let w = le_u32_at(img, 18);
    law_bmp_rgba_layout(img);
    assert(4 * (w * r + px) == 4 * (r * w + px)) by (nonlinear_arith);
    let out = bmp_rows(img, le_u32_at(img, 22) as nat);
    assert(out[4 * (w * r + px) + 0] == bmp_pixel(img, r, px)[0]);
    assert(out[4 * (w * r + px) + 1] == bmp_pixel(img, r, px)[1]);
    assert(out[4 * (w * r + px) + 2] == bmp_pixel(img, r, px)[2]);
    assert(out[4 * (w * r + px) + 3] == bmp_pixel(img, r, px)[3]);
}

/// Which bitmaps the decoder takes. A file that starts with "BM" is taken
/// only with the whole header up to the pixel format and at 24 or 32 bits
/// per pixel; every such file whose stored rows, `height` rows of the row
/// stride from the pixel offset, lie within the file and within 32-bit
/// offsets is taken. A file with another start is taken as it is: decoding
/// stops there.
pub proof fn law_bmp_accepted_files(img: Seq<u8>)
    ensures
        bmp_check(img) is Ok && img[0] == 0x42 && img[1] == 0x4D ==> {
            &&& img.len() >= 30
            &&& le_u16_at(img, 28) == 24 || le_u16_at(img, 28) == 32
        },
        img.len() >= 2 && !(img[0] == 0x42 && img[1] == 0x4D) ==> bmp_check(img) is Ok,
        ({
            let w = le_u32_at(img, 18);
            let h = le_u32_at(img, 22);
            let off = le_u32_at(img, 10);
            let end = off + h * bmp_row_stride(img);
            img.len() >= 30 && img[0] == 0x42 && img[1] == 0x4D && (le_u16_at(img, 28) == 24
                || le_u16_at(img, 28) == 32) && h >= 1 && end <= img.len() && end <= u32::MAX
        }) ==> bmp_check(img) is Ok,
        // How a file is refused.
        img.len() < 2 ==> bmp_check(img) == Err::<(), BmpError>(BmpError::Truncated),
        2 <= img.len() < 30 && img[0] == 0x42 && img[1] == 0x4D ==> bmp_check(img) == Err::<
            (),
            BmpError,
        >(BmpError::Truncated),
        img.len() >= 30 && img[0] == 0x42 && img[1] == 0x4D && le_u16_at(img, 28) != 24 && le_u16_at(
            img,
            28,
        ) != 32 ==> bmp_check(img) == Err::<(), BmpError>(
            BmpError::UnsupportedFormat(le_u16_at(img, 28) as u16),
        ),
        ({
            let end = le_u32_at(img, 10) + le_u32_at(img, 22) * bmp_row_stride(img);
            img.len() >= 30 && img[0] == 0x42 && img[1] == 0x4D && (le_u16_at(img, 28) == 24
                || le_u16_at(img, 28) == 32) && le_u32_at(img, 22) >= 1 && le_u32_at(img, 18) >= 1
                && end <= u32::MAX && bmp_check(img) is Err
        }) ==> bmp_check(img) == Err::<(), BmpError>(BmpError::Truncated),
{
    if img.len() >= 30 && img[0] == 0x42 && img[1] == 0x4D {
        let w = le_u32_at(img, 18);
        let h = le_u32_at(img, 22);
        let off = le_u32_at(img, 10);
        let n = bmp_bytes_per_pixel(img);
        let s = bmp_row_stride(img);
        law_bmp_row_stride(img);
        if h >= 1 && off + h * s <= u32::MAX && w > 0 {
            assert(off >= 0 && s >= 0);
            assert(h * s >= s) by (nonlinear_arith)
                requires
                    h >= 1,
                    s >= 0,
            ;
            assert(w * n + 3 <= u32::MAX);
            assert(off + (h - 1) * s + (w - 1) * n + n <= off + h * s) by (nonlinear_arith)
                requires
                    w * n <= s,
                    h >= 1,
            ;
        }
    }
}

/// What decoding a bitmap that starts with "BM" leaves in the decoder: the
/// width, height, bits per pixel and pixel offset read from the header
/// (little-endian, at offsets 18, 22, 28 and 10), and the pixels it held
/// followed by `width * height` RGBA pixels, top row first, pixel `px` of
/// row `r` read from stored row `height - 1 - r` as the pixel source law
/// says.
pub proof fn law_bmp_decode_result(m: BmpModel, r: int, px: int)
    requires
        0 <= r < le_u32_at(m.image, 22),
        0 <= px < le_u32_at(m.image, 18),
    ensures
        ({
            let img = m.image;
            let w = le_u32_at(img, 18);
            let h = le_u32_at(img, 22);
            let n = if le_u16_at(img, 28) == 32 { 4int } else { 3int };
            let p = le_u32_at(img, 10) + (h - 1 - r) * bmp_row_stride(img) + px * n;
            let d = bmp_decoded(m);
            let o = m.pixels.len();
            let i = o + 4 * (r * w + px);
            &&& d.image == img
            &&& d.width == w
            &&& d.height == h
            &&& d.bits_per_pixel == le_u16_at(img, 28)
            &&& d.pixel_offset == le_u32_at(img, 10)
            &&& d.pixels.len() == o + 4 * w * h
            &&& d.pixels.subrange(0, o as int) == m.pixels
            &&& d.pixels[i] == img[p + 2]
            &&& d.pixels[i + 1] == img[p + 1]
            &&& d.pixels[i + 2] == img[p]
            &&& d.pixels[i + 3] == (if n == 4 { img[p + 3] } else { 0xFFu8 })
        }),
{
    let img = m.image;
    let w = le_u32_at(img, 18);
    let h = le_u32_at(img, 22);
    law_bmp_pixel_source(img, r, px);
    assert(0 <= r * w + px < w * h) by (nonlinear_arith)
        requires
            0 <= r < h,
            0 <= px < w,
    ;
    let d = bmp_decoded(m);
    assert(d.pixels.subrange(0, m.pixels.len() as int) =~= m.pixels);
    let out = bmp_rows(img, h as nat);
    let o = m.pixels.len() as int;
    let j = 4 * (r * w + px);
    assert(j + 3 < 4 * w * h) by (nonlinear_arith)
        requires
            0 <= r * w + px < w * h,
            j == 4 * (r * w + px),
    ;
    assert(out.len() == 4 * w * h);
    assert(d.pixels == m.pixels + out);
    assert(d.pixels[o + j] == out[j]);
    assert(d.pixels[o + j + 1] == out[j + 1]);
    assert(d.pixels[o + j + 2] == out[j + 2]);
    assert(d.pixels[o + j + 3] == out[j + 3]);
}

} // verus!
