//! Choosing a decoder by file extension.

use vstd::prelude::*;

verus! {

/// The image formats this library decodes.
#[derive(Debug, Clone, Copy, PartialEq, Eq)]
pub enum ImageFormat {
    Png,
    Bmp,
    Tga,
}

/// The format named by a file extension: exactly "png", "bmp" or "tga",
/// in lower case.
pub open spec fn format_of(ext: Seq<u8>) -> Option<ImageFormat> {
    if ext =~= seq![0x70u8, 0x6Eu8, 0x67u8] {
        Some(ImageFormat::Png)
    } else if ext =~= seq![0x62u8, 0x6Du8, 0x70u8] {
        Some(ImageFormat::Bmp)
    } else if ext =~= seq![0x74u8, 0x67u8, 0x61u8] {
        Some(ImageFormat::Tga)
    } else {
        None
    }
}

/// The format for a file whose extension (the bytes after the last dot) is
/// `ext`, or `None` where no decoder handles it.
pub fn format_from_extension(ext: &[u8]) -> (r: Option<ImageFormat>)
    ensures
        r == format_of(ext@),
{
    if ext.len() != 3 {
        assert(!(ext@ =~= seq![0x70u8, 0x6Eu8, 0x67u8]));
        assert(!(ext@ =~= seq![0x62u8, 0x6Du8, 0x70u8]));
        assert(!(ext@ =~= seq![0x74u8, 0x67u8, 0x61u8]));
        return None;
    }
    let (a, b, c) = (ext[0], ext[1], ext[2]);
    if a == 0x70 && b == 0x6E && c == 0x67 {
        assert(ext@ =~= seq![0x70u8, 0x6Eu8, 0x67u8]);
        Some(ImageFormat::Png)
    } else if a == 0x62 && b == 0x6D && c == 0x70 {
        assert(ext@ =~= seq![0x62u8, 0x6Du8, 0x70u8]);
        Some(ImageFormat::Bmp)
    } else if a == 0x74 && b == 0x67 && c == 0x61 {
        assert(ext@ =~= seq![0x74u8, 0x67u8, 0x61u8]);
        Some(ImageFormat::Tga)
    } else {
        assert(ext@[0] == a && ext@[1] == b && ext@[2] == c);
        None
    }
}

/// The extensions that choose a decoder are "png", "bmp" and "tga", each
/// naming its own format; any other extension, upper case included, chooses
/// none.
pub proof fn law_format_extensions(ext: Seq<u8>)
    ensures
        (format_of(ext) == Some(ImageFormat::Png)) <==> ext == seq!['p' as u8, 'n' as u8, 'g' as u8],
        (format_of(ext) == Some(ImageFormat::Bmp)) <==> ext == seq!['b' as u8, 'm' as u8, 'p' as u8],
        (format_of(ext) == Some(ImageFormat::Tga)) <==> ext == seq!['t' as u8, 'g' as u8, 'a' as u8],
        (format_of(ext) is None) <==> (ext != seq!['p' as u8, 'n' as u8, 'g' as u8] && ext != seq![
            'b' as u8,
            'm' as u8,
            'p' as u8,
        ] && ext != seq!['t' as u8, 'g' as u8, 'a' as u8]),
{
    assert(seq!['p' as u8, 'n' as u8, 'g' as u8] =~= seq![0x70u8, 0x6Eu8, 0x67u8]);
    assert(seq!['b' as u8, 'm' as u8, 'p' as u8] =~= seq![0x62u8, 0x6Du8, 0x70u8]);
    assert(seq!['t' as u8, 'g' as u8, 'a' as u8] =~= seq![0x74u8, 0x67u8, 0x61u8]);
}

} // verus!
