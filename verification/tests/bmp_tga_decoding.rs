use ferris_viewer::bmp::{Bmp, BmpError};
use ferris_viewer::format::{format_from_extension, ImageFormat};
use ferris_viewer::tga::{Tga, TgaError};

fn bmp(width: u32, height: u32, bpp: u16, offset: u32, data: &[u8]) -> Vec<u8> {
    let mut v = vec![0u8; offset as usize];
    v[0] = b'B';
    v[1] = b'M';
    v[10..14].copy_from_slice(&offset.to_le_bytes());
    v[18..22].copy_from_slice(&width.to_le_bytes());
    v[22..26].copy_from_slice(&height.to_le_bytes());
    v[28..30].copy_from_slice(&bpp.to_le_bytes());
    v.extend_from_slice(data);
    v
}

#[test]
fn bmp_24_bit_bottom_up_with_padding() {
    // Rows of 2 pixels * 3 bytes, padded to 8 bytes; the bottom row first.
    let data = [
        1, 2, 3, 4, 5, 6, 0, 0, // bottom row
        7, 8, 9, 10, 11, 12, 0, 0, // top row
    ];
    let mut b = Bmp::new(bmp(2, 2, 24, 54, &data));
    assert_eq!(b.check(), Ok(()));
    assert!(b.parse());
    assert_eq!((b.width, b.height), (2, 2));
    assert_eq!(
        b.pixels,
        vec![9, 8, 7, 255, 12, 11, 10, 255, 3, 2, 1, 255, 6, 5, 4, 255]
    );
}

#[test]
fn bmp_32_bit_keeps_alpha() {
    let mut b = Bmp::new(bmp(1, 1, 32, 40, &[1, 2, 3, 4]));
    assert_eq!(b.check(), Ok(()));
    assert!(b.parse());
    assert_eq!(b.pixels, vec![3, 2, 1, 4]);
    assert_eq!((b.width(), b.height()), (1, 1));
    assert_eq!(b.pixels(), &vec![3, 2, 1, 4]);
}

#[test]
fn bmp_rgba_buffer_size() {
    let w = 3u32;
    let h = 4u32;
    let stride = ((w * 3 + 3) / 4 * 4) as usize;
    let data = vec![9u8; stride * h as usize];
    let mut b = Bmp::new(bmp(w, h, 24, 54, &data));
    assert_eq!(b.check(), Ok(()));
    assert!(b.parse());
    assert_eq!(b.pixels.len(), (4 * w * h) as usize);
}

#[test]
fn bmp_without_signature_is_left_alone() {
    let mut bytes = bmp(1, 1, 24, 54, &[1, 2, 3]);
    bytes[0] = b'X';
    let mut b = Bmp::new(bytes);
    assert_eq!(b.check(), Ok(()));
    assert!(!b.parse());
    assert_eq!((b.width, b.height), (0, 0));
    assert!(b.pixels.is_empty());
}

#[test]
fn bmp_check_errors() {
    assert_eq!(Bmp::new(vec![b'B']).check(), Err(BmpError::Truncated));
    assert_eq!(Bmp::new(b"BM0123".to_vec()).check(), Err(BmpError::Truncated));
    assert_eq!(
        Bmp::new(bmp(1, 1, 16, 54, &[0; 4])).check(),
        Err(BmpError::UnsupportedFormat(16))
    );
    assert_eq!(
        Bmp::new(bmp(0x7000_0000, 1, 24, 54, &[])).check(),
        Err(BmpError::Overflow)
    );
    assert_eq!(
        Bmp::new(bmp(1, 0x4000_0000, 24, 54, &[])).check(),
        Err(BmpError::Overflow)
    );
    assert_eq!(
        Bmp::new(bmp(2, 2, 24, 54, &[0; 12])).check(),
        Err(BmpError::Truncated)
    );
    assert_eq!(Bmp::new(bmp(0, 5, 24, 54, &[])).check(), Ok(()));
}

fn tga(width: u16, height: u16, bpp: u8, id: &[u8], data: &[u8]) -> Vec<u8> {
    let mut v = vec![0u8; 18];
    v[0] = id.len() as u8;
    v[2] = 2;
    v[12..14].copy_from_slice(&width.to_le_bytes());
    v[14..16].copy_from_slice(&height.to_le_bytes());
    v[16] = bpp;
    v.extend_from_slice(id);
    v.extend_from_slice(data);
    v
}

#[test]
fn tga_24_bit_rows_in_file_order() {
    let data = [1, 2, 3, 4, 5, 6, 7, 8, 9, 10, 11, 12];
    let mut t = Tga::new(tga(2, 2, 24, b"id", &data));
    assert_eq!(t.check(), Ok(()));
    t.parse();
    assert_eq!((t.width, t.height), (2, 2));
    assert_eq!(
        t.pixels,
        vec![3, 2, 1, 255, 6, 5, 4, 255, 9, 8, 7, 255, 12, 11, 10, 255]
    );
}

#[test]
fn tga_32_bit_keeps_alpha() {
    let mut t = Tga::new(tga(1, 1, 32, &[], &[1, 2, 3, 4]));
    assert_eq!(t.check(), Ok(()));
    t.parse();
    assert_eq!(t.pixels, vec![3, 2, 1, 4]);
    assert_eq!((t.width(), t.height(), t.pixels().len()), (1, 1, 4));
}

#[test]
fn tga_rgba_buffer_size() {
    let mut t = Tga::new(tga(3, 2, 24, &[], &[5; 18]));
    assert_eq!(t.check(), Ok(()));
    t.parse();
    assert_eq!(t.pixels.len(), 4 * 3 * 2);
}

#[test]
fn tga_check_errors() {
    assert_eq!(Tga::new(vec![0, 0]).check(), Err(TgaError::Truncated));
    let mut rle = tga(1, 1, 24, &[], &[0; 3]);
    rle[2] = 10;
    assert_eq!(Tga::new(rle).check(), Err(TgaError::UnsupportedImageType(10)));
    assert_eq!(Tga::new(vec![0, 0, 2, 0]).check(), Err(TgaError::Truncated));
    assert_eq!(
        Tga::new(tga(1, 1, 16, &[], &[0; 2])).check(),
        Err(TgaError::UnsupportedPixelSize(16))
    );
    let mut mapped = tga(1, 1, 24, &[], &[0; 3]);
    mapped[1] = 1;
    assert_eq!(Tga::new(mapped).check(), Err(TgaError::UnsupportedColorMap));
    let mut short = tga(1, 1, 24, &[], &[]);
    short.truncate(17);
    assert_eq!(Tga::new(short).check(), Err(TgaError::Truncated));
    assert_eq!(
        Tga::new(tga(2, 2, 24, &[], &[0; 11])).check(),
        Err(TgaError::Truncated)
    );
}

#[test]
fn extension_selects_decoder() {
    assert_eq!(format_from_extension(b"png"), Some(ImageFormat::Png));
    assert_eq!(format_from_extension(b"bmp"), Some(ImageFormat::Bmp));
    assert_eq!(format_from_extension(b"tga"), Some(ImageFormat::Tga));
    assert_eq!(format_from_extension(b"PNG"), None);
    assert_eq!(format_from_extension(b"jpeg"), None);
    assert_eq!(format_from_extension(b""), None);
}
