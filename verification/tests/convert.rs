use boko::image::convert::{detect_format, is_supported_format, ImageConfig, ImageFormat};

#[test]
fn test_detect_jpeg() {
    let data = &[0xFF, 0xD8, 0xFF, 0xE0, 0x00, 0x10, 0x4A, 0x46, 0x49, 0x46];
    assert_eq!(detect_format(data), Some(ImageFormat::Jpeg));
}

#[test]
fn test_detect_png() {
    let data = &[0x89, 0x50, 0x4E, 0x47, 0x0D, 0x0A, 0x1A, 0x0A];
    assert_eq!(detect_format(data), Some(ImageFormat::Png));
}

#[test]
fn test_detect_gif() {
    let data = &[0x47, 0x49, 0x46, 0x38, 0x39, 0x61];
    assert_eq!(detect_format(data), Some(ImageFormat::Gif));
}

#[test]
fn test_detect_webp() {
    // WebP format: RIFF (4 bytes) + file_size (4 bytes) + WEBP (4 bytes)
    let mut data = vec![0x52, 0x49, 0x46, 0x46]; // "RIFF"
    data.extend_from_slice(&[0x00, 0x00, 0x00, 0x00]); // file size (placeholder)
    data.extend_from_slice(b"WEBP"); // "WEBP"
    assert_eq!(detect_format(&data), Some(ImageFormat::Jpeg)); // WebP converts to JPEG
}

#[test]
fn test_detect_unknown() {
    let data = &[0x00, 0x01, 0x02, 0x03];
    assert_eq!(detect_format(data), None);
}

#[test]
fn short_data_is_unknown() {
    assert_eq!(detect_format(&[0xFF, 0xD8]), None);
    assert_eq!(detect_format(&[]), None);
    assert!(!is_supported_format(&[0x52, 0x49, 0x46, 0x46, 0, 0, 0, 0, b'A', b'V', b'I', b' ']));
}

#[test]
fn supported_formats_are_the_detected_ones() {
    assert!(is_supported_format(&[0x47, 0x49, 0x46, 0x38, 0x39, 0x61]));
    assert!(!is_supported_format(&[0x00, 0x01, 0x02, 0x03]));
}

#[test]
fn image_config_default() {
    let c = ImageConfig::default();
    assert_eq!(c.max_dimensions, (2048, 2048));
    assert_eq!(c.max_file_size, 10 * 1024 * 1024);
    assert_eq!(c.output_format, ImageFormat::Auto);
    assert_eq!(c.jpeg_quality, 85);
    assert_eq!(c.png_compression, 6);
}
