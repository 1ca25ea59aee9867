//! The TGA decoder: uncompressed 24-bit and 32-bit true-color images.

use vstd::prelude::*;
use crate::bytes::{le_u16_at, read_le_u16};

verus! {

/// Why a TGA file cannot be decoded.
#[derive(Debug, Clone, Copy, PartialEq, Eq)]
pub enum TgaError {
    /// The file ends before a header field or a pixel that is read.
    Truncated,
    /// The image type is not 2 (uncompressed true color).
    UnsupportedImageType(u8),
    /// The pixel depth is neither 24 nor 32 bits.
    UnsupportedPixelSize(u8),
    /// The file declares a color map.
    UnsupportedColorMap,
}

/// The abstract state of a `Tga` decoder.
pub struct TgaModel {
    pub image: Seq<u8>,
    pub width: u16,
    pub height: u16,
    pub bits_per_pixel: u8,
    pub flip: bool,
    pub pixels: Seq<u8>,
}

pub open spec fn tga_width(img: Seq<u8>) -> int {
    le_u16_at(img, 12)
}

pub open spec fn tga_height(img: Seq<u8>) -> int {
    le_u16_at(img, 14)
}

/// Bytes per pixel: four at 32 bits per pixel, three otherwise.
pub open spec fn tga_bytes_per_pixel(img: Seq<u8>) -> int {
    if img[16] == 32 { 4 } else { 3 }
}

/// Where the pixel data starts: after the 18-byte header and the image ID.
pub open spec fn tga_start(img: Seq<u8>) -> int {
    18 + img[0]
}

/// Where pixel `px` of row `row` is stored; rows are stored in output order.
pub open spec fn tga_pixel_pos(img: Seq<u8>, row: int, px: int) -> int {
    tga_start(img) + row * (tga_width(img) * tga_bytes_per_pixel(img)) + px * tga_bytes_per_pixel(img)
}

/// The RGBA value of pixel `px` of row `row`: stored as BGR or BGRA, opaque
/// when there is no alpha byte.
pub open spec fn tga_pixel(img: Seq<u8>, row: int, px: int) -> Seq<u8> {
    let p = tga_pixel_pos(img, row, px);
    if tga_bytes_per_pixel(img) == 4 {
        seq![img[p + 2], img[p + 1], img[p], img[p + 3]]
    } else {
        seq![img[p + 2], img[p + 1], img[p], 0xFFu8]
    }
}

/// The first `k` pixels of row `row`, as RGBA.
pub open spec fn tga_row(img: Seq<u8>, row: int, k: nat) -> Seq<u8>
    decreases k,
{
    if k == 0 {
        Seq::empty()
    } else {
        tga_row(img, row, (k - 1) as nat) + tga_pixel(img, row, k - 1)
    }
}

/// The first `k` rows, as RGBA.
pub open spec fn tga_rows(img: Seq<u8>, k: nat) -> Seq<u8>
    decreases k,
{
    if k == 0 {
        Seq::empty()
    } else {
        tga_rows(img, (k - 1) as nat) + tga_row(img, k - 1, tga_width(img) as nat)
    }
}

/// Whether decoding `img` stays within the file, and if not, why.
pub open spec fn tga_check(img: Seq<u8>) -> Result<(), TgaError> {
    if img.len() < 3 {
        Err(TgaError::Truncated)
    } else if img[2] != 2 {
        Err(TgaError::UnsupportedImageType(img[2]))
    } else if img.len() < 17 {
        Err(TgaError::Truncated)
    } else if img[16] != 24 && img[16] != 32 {
        Err(TgaError::UnsupportedPixelSize(img[16]))
    } else if img[1] != 0 {
        Err(TgaError::UnsupportedColorMap)
    } else if img.len() < 18 {
        Err(TgaError::Truncated)
    } else if tga_width(img) == 0 || tga_height(img) == 0 {
        Ok(())
    } else if tga_pixel_pos(img, tga_height(img) - 1, tga_width(img) - 1) + tga_bytes_per_pixel(img)
        > img.len() {
        Err(TgaError::Truncated)
    } else {
        Ok(())
    }
}

/// The decoder after decoding `m.image`.
pub open spec fn tga_decoded(m: TgaModel) -> TgaModel {
    let img = m.image;
    TgaModel {
        image: img,
        width: tga_width(img) as u16,
        height: tga_height(img) as u16,
        bits_per_pixel: img[16],
        flip: img[17] == 1,
        pixels: m.pixels + tga_rows(img, tga_height(img) as nat),
    }
}

/// A TGA decoder over the bytes of one file. After `parse`, `pixels` holds
/// the image as RGBA, in the file's row order.
pub struct Tga {
    image: Vec<u8>,
    pub width: u16,
    pub height: u16,
    bits_per_pixel: u8,
    flip: bool,
    pub pixels: Vec<u8>,
}

impl View for Tga {
    type V = TgaModel;

    closed spec fn view(&self) -> TgaModel {
        TgaModel {
            image: self.image@,
            width: self.width,
            height: self.height,
            bits_per_pixel: self.bits_per_pixel,
            flip: self.flip,
            pixels: self.pixels@,
        }
    }
}

/// Every pixel position of a checked image lies within the file, with its
/// whole pixel.
proof fn lemma_tga_pos_bounds(img: Seq<u8>, row: int, px: int)
    requires
        tga_check(img) is Ok,
        0 <= row < tga_height(img),
        0 <= px < tga_width(img),
    ensures
        0 <= tga_width(img) * tga_bytes_per_pixel(img) <= 0xffff * 4,
        0 <= row * (tga_width(img) * tga_bytes_per_pixel(img)),
        0 <= px * tga_bytes_per_pixel(img),
        tga_start(img) <= tga_pixel_pos(img, row, px),
        tga_pixel_pos(img, row, px) + tga_bytes_per_pixel(img) <= img.len(),
{
    let h = tga_height(img);
    let w = tga_width(img);
    let n = tga_bytes_per_pixel(img);
    assert(0 <= w * n <= 0xffff * 4 && 0 <= row * (w * n) && 0 <= px * n && 0 <= row * (w * n) + px * n <= (h - 1) * (w * n) + (w - 1) * n) by (nonlinear_arith)
        requires
            w <= 0xffff,
            n <= 4,
            0 <= row < h,
            0 <= px < w,
            n >= 3,
    ;
}

impl Tga {
    /// A decoder for the file whose bytes are `image`; nothing is read yet.
    pub fn new(image: Vec<u8>) -> (t: Tga)
        ensures
            t@ == (TgaModel {
                image: image@,
                width: 0,
                height: 0,
                bits_per_pixel: 0,
                flip: false,
                pixels: Seq::empty(),
            }),
    {
        Tga { image, width: 0, height: 0, bits_per_pixel: 0, flip: false, pixels: Vec::new() }
    }

    /// The image's width, as in the model.
    pub fn width(&self) -> (w: u16)
        ensures
            w == self@.width,
    {
        self.width
    }

    /// The image's height, as in the model.
    pub fn height(&self) -> (h: u16)
        ensures
            h == self@.height,
    {
        self.height
    }

    /// The decoded RGBA pixels, as in the model.
    pub fn pixels(&self) -> (p: &Vec<u8>)
        ensures
            p@ == self@.pixels,
    {
        &self.pixels
    }

    /// Tells whether `parse` can run on this file, and if not, why.
    pub fn check(&self) -> (r: Result<(), TgaError>)
        ensures
            r == tga_check(self@.image),
    {
        let img = &self.image;
        if img.len() < 3 {
            return Err(TgaError::Truncated);
        }
        if img[2] != 2 {
            return Err(TgaError::UnsupportedImageType(img[2]));
        }
        if img.len() < 17 {
            return Err(TgaError::Truncated);
        }
        if img[16] != 24 && img[16] != 32 {
            return Err(TgaError::UnsupportedPixelSize(img[16]));
        }
        if img[1] != 0 {
            return Err(TgaError::UnsupportedColorMap);
        }
        if img.len() < 18 {
            return Err(TgaError::Truncated);
        }
        let w = read_le_u16(img, 12) as u64;
        let h = read_le_u16(img, 14) as u64;
        if w == 0 || h == 0 {
            return Ok(());
        }
        let n: u64 = if img[16] == 32 { 4 } else { 3 };
        assert((h - 1) * (w * n) + (w - 1) * n <= 0xffff * (0xffff * 4) + 0xffff * 4) by (nonlinear_arith)
            requires
                1 <= h <= 0xffff,
                1 <= w <= 0xffff,
                n <= 4,
        ;
        let last = 18 + img[0] as u64 + (h - 1) * (w * n) + (w - 1) * n;
        if last + n > img.len() as u64 {
            return Err(TgaError::Truncated);
        }
        Ok(())
    }

    /// Decodes the image into `pixels` (appended).
    pub fn parse(&mut self)
        requires
            tga_check(old(self)@.image) is Ok,
        ensures
            final(self)@ == tga_decoded(old(self)@),
    {
        let ghost img = self.image@;
        let ghost p0 = self.pixels@;
        self.bits_per_pixel = self.image[16];
        self.width = read_le_u16(&self.image, 12);
        self.height = read_le_u16(&self.image, 14);
        self.flip = self.image[17] == 1;
        let bytes_per_pixel: usize = if self.bits_per_pixel == 32 {
            4
        } else {
            3
        };
        let start = 18 + self.image[0] as usize;
        let mut row: u16 = 0;
        while row < self.height
            invariant
                img == old(self)@.image,
                tga_check(img) is Ok,
                self.image@ == img,
                self.width == tga_width(img),
                self.height == tga_height(img),
                self.bits_per_pixel == img[16],
                self.flip == (img[17] == 1),
                bytes_per_pixel == tga_bytes_per_pixel(img),
                start == tga_start(img),
                row <= self.height,
                self.pixels@ == p0 + tga_rows(img, row as nat),
                p0 == old(self)@.pixels,
            decreases self.height - row,
        {
            let mut pixel: u16 = 0;
            while pixel < self.width
                invariant
                    img == old(self)@.image,
                    tga_check(img) is Ok,
                    self.image@ == img,
                    self.width == tga_width(img),
                    self.height == tga_height(img),
                    self.bits_per_pixel == img[16],
                    self.flip == (img[17] == 1),
                    bytes_per_pixel == tga_bytes_per_pixel(img),
                    start == tga_start(img),
                    row < self.height,
                    pixel <= self.width,
                    self.pixels@ == p0 + tga_rows(img, row as nat) + tga_row(img, row as int, pixel as nat),
                decreases self.width - pixel,
            {
                proof {
                    lemma_tga_pos_bounds(img, row as int, pixel as int);
                }
                let ghost row_off = row * (tga_width(img) * tga_bytes_per_pixel(img));
                assert(start + row_off <= tga_pixel_pos(img, row as int, pixel as int));
                assert(tga_pixel_pos(img, row as int, pixel as int) <= self.image.len());
                let stride = (self.width as usize) * bytes_per_pixel;
                let pos: usize = start + (row as usize) * stride + (pixel as usize) * bytes_per_pixel;
                assert(pos == tga_pixel_pos(img, row as int, pixel as int));
                let b = self.image[pos];
                let g = self.image[pos + 1];
                let r = self.image[pos + 2];
                let ghost before = self.pixels@;
                if self.bits_per_pixel == 32 {
                    let a = self.image[pos + 3];
                    self.pixels.push(r);
                    self.pixels.push(g);
                    self.pixels.push(b);
                    self.pixels.push(a);
                } else {
                    self.pixels.push(r);
                    self.pixels.push(g);
                    self.pixels.push(b);
                    self.pixels.push(0xFF);
                }
                assert(self.pixels@ =~= before + tga_pixel(img, row as int, pixel as int));
                pixel = pixel + 1;
                assert(self.pixels@ =~= p0 + tga_rows(img, row as nat) + tga_row(img, row as int, pixel as nat));
            }
            row = row + 1;
            assert(self.pixels@ =~= p0 + tga_rows(img, row as nat));
        }
    }
}


/// A row of `k` decoded pixels has four bytes per pixel, pixel `px` at `4 * px`.
proof fn lemma_tga_row_layout(img: Seq<u8>, row: int, k: nat)
    ensures
        tga_row(img, row, k).len() == 4 * k,
        forall|px: int, c: int|
            0 <= px < k && 0 <= c < 4 ==> #[trigger] tga_row(img, row, k)[4 * px + c] == tga_pixel(img, row, px)[c],
    decreases k,
{
    if k > 0 {
        lemma_tga_row_layout(img, row, (k - 1) as nat);
    }
}

/// The first `k` decoded rows hold four bytes per pixel, row by row.
proof fn lemma_tga_rows_layout(img: Seq<u8>, k: nat)
    requires
        tga_width(img) >= 0,
    ensures
        tga_rows(img, k).len() == 4 * tga_width(img) * k,
        forall|r: int, px: int, c: int|
            0 <= r < k && 0 <= px < tga_width(img) && 0 <= c < 4 ==> #[trigger] tga_rows(img, k)[4 * (tga_width(img) * r + px) + c]
                == tga_pixel(img, r, px)[c],
    decreases k,
{
    let w = tga_width(img);
    if k > 0 {
        lemma_tga_rows_layout(img, (k - 1) as nat);
        lemma_tga_row_layout(img, k - 1, w as nat);
        let prev = tga_rows(img, (k - 1) as nat);
        let last = tga_row(img, k - 1, w as nat);
        assert(4 * w * (k - 1) + 4 * w == 4 * w * k) by (nonlinear_arith);
        assert forall|r: int, px: int, c: int|
            0 <= r < k && 0 <= px < w && 0 <= c < 4 implies #[trigger] tga_rows(img, k)[4 * (w * r + px) + c]
                == tga_pixel(img, r, px)[c] by {
            let i = 4 * (w * r + px) + c;
            if r < k - 1 {
                assert(i < 4 * w * (k - 1)) by (nonlinear_arith)
                    requires
                        i == 4 * (w * r + px) + c,
                        0 <= r < k - 1,
                        0 <= px < w,
                        0 <= c < 4,
                ;
                assert(prev[i] == tga_pixel(img, r, px)[c]);
            } else {
                assert(i - 4 * w * (k - 1) == 4 * px + c) by (nonlinear_arith)
                    requires
                        i == 4 * (w * r + px) + c,
                        r == k - 1,
                ;
                assert(last[4 * px + c] == tga_pixel(img, r, px)[c]);
            }
        }
    }
}

/// The decoded image is a `width` x `height` RGBA buffer: byte `c` of the
/// pixel at column `px` of row `r` (rows in the file's order) stands at
/// `4 * (width * r + px) + c`.
pub proof fn law_tga_rgba_layout(img: Seq<u8>)
    ensures
        tga_rows(img, tga_height(img) as nat).len() == 4 * tga_width(img) * tga_height(img),
        forall|r: int, px: int, c: int|
            0 <= r < tga_height(img) && 0 <= px < tga_width(img) && 0 <= c < 4 ==> #[trigger] tga_rows(img, tga_height(img) as nat)[4 * (tga_width(img) * r + px) + c]
                == tga_pixel(img, r, px)[c],
{
    lemma_tga_rows_layout(img, tga_height(img) as nat);
}

/// Where each decoded pixel comes from: pixel `px` of row `r` is read from
/// the pixel data that starts after the 18-byte header and the image ID
/// (whose length is byte 0), at `(r * width + px)` pixels of three bytes, or
/// four at 32 bits per pixel; the bytes are stored blue, green, red (then
/// alpha), and a pixel without alpha is opaque.
pub proof fn law_tga_pixel_source(img: Seq<u8>, r: int, px: int)
    requires
        0 <= r < le_u16_at(img, 14),
        0 <= px < le_u16_at(img, 12),
    ensures
        ({
            let w = le_u16_at(img, 12);
            let h = le_u16_at(img, 14);
            let n = if img[16] == 32 { 4int } else { 3int };
            let p = 18 + img[0] + (r * w + px) * n;
            let out = tga_rows(img, h as nat);
            let i = 4 * (r * w + px);
            &&& out.len() == 4 * w * h
            &&& out[i] == img[p + 2]
            &&& out[i + 1] == img[p + 1]
            &&& out[i + 2] == img[p]
            &&& out[i + 3] == (if n == 4 { img[p + 3] } else { 0xFFu8 })
        }),
{
    let w = le_u16_at(img, 12);
    let n = if img[16] == 32 { 4int } else { 3int };
    law_tga_rgba_layout(img);
    assert(r * (w * n) + px * n == (r * w + px) * n) by (nonlinear_arith);
    assert(4 * (w * r + px) == 4 * (r * w + px)) by (nonlinear_arith);
    let out = tga_rows(img, le_u16_at(img, 14) as nat);
    assert(out[4 * (w * r + px) + 0] == tga_pixel(img, r, px)[0]);
    assert(out[4 * (w * r + px) + 1] == tga_pixel(img, r, px)[1]);
    assert(out[4 * (w * r + px) + 2] == tga_pixel(img, r, px)[2]);
    assert(out[4 * (w * r + px) + 3] == tga_pixel(img, r, px)[3]);
}

/// Which files the decoder takes: uncompressed true-color images (type 2)
/// of 24 or 32 bits per pixel without a color map, with the whole header.
/// Every such file whose pixel data, `width * height` pixels of three bytes
/// (four at 32 bits) after the header and the image ID, lies within the file
/// is taken.
pub proof fn law_tga_accepted_files(img: Seq<u8>)
    ensures
        tga_check(img) is Ok ==> {
            &&& img.len() >= 18
            &&& img[2] == 2
            &&& img[16] == 24 || img[16] == 32
            &&& img[1] == 0
        },
        ({
            let w = le_u16_at(img, 12);
            let h = le_u16_at(img, 14);
            let n = if img[16] == 32 { 4int } else { 3int };
            img.len() >= 18 && img[2] == 2 && (img[16] == 24 || img[16] == 32) && img[1] == 0 && 18
                + img[0] + w * h * n <= img.len()
        }) ==> tga_check(img) is Ok,
        // How a file is refused, in the order the header is read.
        img.len() < 3 ==> tga_check(img) == Err::<(), TgaError>(TgaError::Truncated),
        img.len() >= 3 && img[2] != 2 ==> tga_check(img) == Err::<(), TgaError>(
            TgaError::UnsupportedImageType(img[2]),
        ),
        img.len() >= 17 && img[2] == 2 && img[16] != 24 && img[16] != 32 ==> tga_check(img) == Err::<
            (),
            TgaError,
        >(TgaError::UnsupportedPixelSize(img[16])),
        img.len() >= 17 && img[2] == 2 && (img[16] == 24 || img[16] == 32) && img[1] != 0
            ==> tga_check(img) == Err::<(), TgaError>(TgaError::UnsupportedColorMap),
        tga_check(img) is Err ==> tga_check(img) == Err::<(), TgaError>(TgaError::Truncated)
            || (img.len() >= 3 && img[2] != 2) || (img.len() >= 17 && img[16] != 24 && img[16] != 32)
            || (img.len() >= 17 && img[1] != 0),
{
    if img.len() >= 18 {
        let w = le_u16_at(img, 12);
        let h = le_u16_at(img, 14);
        let n = if img[16] == 32 { 4int } else { 3int };
        if w > 0 && h > 0 {
            assert((h - 1) * (w * n) + (w - 1) * n + n == w * h * n) by (nonlinear_arith);
        }
    }
}

/// What decoding a TGA file leaves in the decoder: the width, height (both
/// little-endian, at offsets 12 and 14), bits per pixel (byte 16) and
/// whether byte 17 asks for a vertical flip (it is 1), and the pixels it
/// held followed by `width * height` RGBA pixels in the file's row order,
/// pixel `px` of row `r` read as the pixel source law says.
pub proof fn law_tga_decode_result(m: TgaModel, r: int, px: int)
    requires
        0 <= r < le_u16_at(m.image, 14),
        0 <= px < le_u16_at(m.image, 12),
    ensures
        ({
            let img = m.image;
            let w = le_u16_at(img, 12);
            let h = le_u16_at(img, 14);
            let n = if img[16] == 32 { 4int } else { 3int };
            let p = 18 + img[0] + (r * w + px) * n;
            let d = tga_decoded(m);
            let o = m.pixels.len();
            let i = o + 4 * (r * w + px);
            &&& d.image == img
            &&& d.width == w
            &&& d.height == h
            &&& d.bits_per_pixel == img[16]
            &&& d.flip == (img[17] == 1)
            &&& d.pixels.len() == o + 4 * w * h
            &&& d.pixels.subrange(0, o as int) == m.pixels
            &&& d.pixels[i] == img[p + 2]
            &&& d.pixels[i + 1] == img[p + 1]
            &&& d.pixels[i + 2] == img[p]
            &&& d.pixels[i + 3] == (if n == 4 { img[p + 3] } else { 0xFFu8 })
        }),
{
    let img = m.image;
    let w = le_u16_at(img, 12);
    let h = le_u16_at(img, 14);
    law_tga_pixel_source(img, r, px);
    assert(0 <= r * w + px < w * h) by (nonlinear_arith)
        requires
            0 <= r < h,
            0 <= px < w,
    ;
    let d = tga_decoded(m);
    assert(d.pixels.subrange(0, m.pixels.len() as int) =~= m.pixels);
    let out = tga_rows(img, h as nat);
    let o = m.pixels.len() as int;
    let j = 4 * (r * w + px);
    assert(j + 3 < 4 * w * h) by (nonlinear_arith)
        requires
            0 <= r * w + px < w * h,
            j == 4 * (r * w + px),
    ;
    assert(out.len() == 4 * w * h);
    assert(d.pixels == m.pixels + out);
    assert(d.pixels[o + j] == out[j]);
    assert(d.pixels[o + j + 1] == out[j + 1]);
    assert(d.pixels[o + j + 2] == out[j + 2]);
    assert(d.pixels[o + j + 3] == out[j + 3]);
}

} // verus!
