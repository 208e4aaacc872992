//! Image format detection and image processing configuration.

use vstd::prelude::*;

verus! {

/// Image format options
#[derive(Clone, Copy, Debug, PartialEq, Eq, Structural)]
pub enum ImageFormat {
    /// Keep original format if supported
    Auto,
    /// JPEG format (photos, gradients)
    Jpeg,
    /// PNG format (graphics, transparency)
    Png,
    /// GIF format (animated images)
    Gif,
}

/// Configuration for image processing
#[derive(Clone, Copy, Debug)]
pub struct ImageConfig {
    /// Maximum dimensions (width, height)
    pub max_dimensions: (u32, u32),
    /// Maximum file size in bytes
    pub max_file_size: u64,
    /// Output format preference
    pub output_format: ImageFormat,
    /// JPEG quality (1-100, default 85)
    pub jpeg_quality: u8,
    /// PNG compression level (0-9, default 6)
    pub png_compression: u8,
}

impl Default for ImageConfig {
    fn default() -> (r: Self)
        ensures
            r.max_dimensions == (2048u32, 2048u32),
            r.max_file_size == 10 * 1024 * 1024,
            r.output_format == ImageFormat::Auto,
            r.jpeg_quality == 85,
            r.png_compression == 6,
    {
        ImageConfig {
            max_dimensions: (2048, 2048),
            max_file_size: 10 * 1024 * 1024,
            output_format: ImageFormat::Auto,
            jpeg_quality: 85,
            png_compression: 6,
        }
    }
}

/// The format that the magic bytes at the start of `d` announce.
///
/// JPEG is `FF D8 FF`, PNG is `89 50 4E 47`, GIF is `47 49 46 38`; a WebP
/// container (`RIFF` .... `WEBP`) is reported as JPEG, the format it is
/// converted to. Fewer than four bytes never name a format.
pub open spec fn spec_detect_format(d: Seq<u8>) -> Option<ImageFormat> {
    if d.len() < 4 {
        None
    } else if d[0] == 0xFF && d[1] == 0xD8 && d[2] == 0xFF {
        Some(ImageFormat::Jpeg)
    } else if d[0] == 0x89 && d[1] == 0x50 && d[2] == 0x4E && d[3] == 0x47 {
        Some(ImageFormat::Png)
    } else if d[0] == 0x47 && d[1] == 0x49 && d[2] == 0x46 && d[3] == 0x38 {
        Some(ImageFormat::Gif)
    } else if d.len() >= 12 && d[0] == 0x52 && d[1] == 0x49 && d[2] == 0x46 && d[3] == 0x46
        && d[8] == 0x57 && d[9] == 0x45 && d[10] == 0x42 && d[11] == 0x50 {
        Some(ImageFormat::Jpeg)
    } else {
        None
    }
}

/// Detect image format from magic bytes
pub fn detect_format(data: &[u8]) -> (r: Option<ImageFormat>)
    ensures
        r == spec_detect_format(data@),
{
    if data.len() < 4 {
        return None;
    }
    if data[0] == 0xFF && data[1] == 0xD8 && data[2] == 0xFF {
        return Some(ImageFormat::Jpeg);
    }
    if data[0] == 0x89 && data[1] == 0x50 && data[2] == 0x4E && data[3] == 0x47 {
        return Some(ImageFormat::Png);
    }
    if data[0] == 0x47 && data[1] == 0x49 && data[2] == 0x46 && data[3] == 0x38 {
        return Some(ImageFormat::Gif);
    }
    // WebP: "RIFF" <size> "WEBP"; converted to JPEG downstream
    if data.len() >= 12 && data[0] == 0x52 && data[1] == 0x49 && data[2] == 0x46 && data[3] == 0x46
        && data[8] == 0x57 && data[9] == 0x45 && data[10] == 0x42 && data[11] == 0x50 {
        return Some(ImageFormat::Jpeg);
    }
    None
}

/// What the magic bytes decide, whatever follows them: any data of four or
/// more bytes that starts with `FF D8 FF` is JPEG (JFIF, Exif or any other
/// fourth byte), one that starts with `89 50 4E 47` is PNG and one that
/// starts with `47 49 46 38` is GIF; shorter data names no format, and no
/// data is detected as `Auto`.
pub proof fn lemma_magic_bytes_decide(d: Seq<u8>)
    ensures
        d.len() >= 4 && d[0] == 0xFF && d[1] == 0xD8 && d[2] == 0xFF ==> spec_detect_format(d)
            == Some(ImageFormat::Jpeg),
        d.len() >= 4 && d.subrange(0, 4) == seq![0x89u8, 0x50u8, 0x4Eu8, 0x47u8] ==> spec_detect_format(d)
            == Some(ImageFormat::Png),
        d.len() >= 4 && d.subrange(0, 4) == seq![0x47u8, 0x49u8, 0x46u8, 0x38u8] ==> spec_detect_format(d)
            == Some(ImageFormat::Gif),
        d.len() < 4 ==> spec_detect_format(d) is None,
        spec_detect_format(d) != Some(ImageFormat::Auto),
{
    if d.len() >= 4 {
        assert(d.subrange(0, 4)[0] == d[0] && d.subrange(0, 4)[1] == d[1]);
        assert(d.subrange(0, 4)[2] == d[2] && d.subrange(0, 4)[3] == d[3]);
    }
}

/// Check if image format is natively supported (no conversion needed)
pub fn is_supported_format(data: &[u8]) -> (r: bool)
    ensures
        r == spec_detect_format(data@).is_some(),
{
    detect_format(data).is_some()
}

} // verus!
