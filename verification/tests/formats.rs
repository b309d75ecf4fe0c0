use pdf_to_image::args::{OutputFormat, RenderConfig};
use pdf_to_image::cli::parse_format;
use pdf_to_image::encode::{encoding_for, ImageEncoding, WEBP_QUALITY};

// ---------- OutputFormat --------------------------------------------------

#[test]
fn extension_jpg() {
    assert_eq!(OutputFormat::Jpg.extension(), "jpg");
}

#[test]
fn extension_png() {
    assert_eq!(OutputFormat::Png.extension(), "png");
}

#[test]
fn extension_webp() {
    assert_eq!(OutputFormat::WebP.extension(), "webp");
}

#[test]
fn extension_tiff() {
    assert_eq!(OutputFormat::Tiff.extension(), "tiff");
}

#[test]
fn format_names_are_read() {
    assert_eq!(parse_format("jpg"), Some(OutputFormat::Jpg));
    assert_eq!(parse_format("jpeg"), Some(OutputFormat::Jpg));
    assert_eq!(parse_format("png"), Some(OutputFormat::Png));
    assert_eq!(parse_format("webp"), Some(OutputFormat::WebP));
    assert_eq!(parse_format("tiff"), Some(OutputFormat::Tiff));
    assert_eq!(parse_format("gif"), None);
    assert_eq!(parse_format("JPG"), None);
    assert_eq!(parse_format(""), None);
    assert_eq!(parse_format("tif"), None);
}

#[test]
fn extension_names_its_own_format() {
    for f in [OutputFormat::Jpg, OutputFormat::Png, OutputFormat::WebP, OutputFormat::Tiff] {
        assert_eq!(parse_format(f.extension()), Some(f));
    }
}

#[test]
fn encodings_per_format() {
    assert_eq!(encoding_for(&OutputFormat::Png), ImageEncoding::Png);
    assert_eq!(encoding_for(&OutputFormat::Jpg), ImageEncoding::Jpeg);
    assert_eq!(encoding_for(&OutputFormat::Tiff), ImageEncoding::Tiff);
    assert_eq!(
        encoding_for(&OutputFormat::WebP),
        ImageEncoding::WebpLossy { quality: 80 }
    );
    assert_eq!(WEBP_QUALITY, 80);
}

#[test]
fn render_config_holds_dpi() {
    let c = RenderConfig { dpi: 150 };
    assert_eq!(c.dpi, 150);
}
