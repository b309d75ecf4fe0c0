//! How rendered pages are encoded for each output format.
use vstd::prelude::*;
use crate::args::OutputFormat;

verus! {

/// Quality, in percent, of the lossy WebP encoding.
pub const WEBP_QUALITY: u8 = 80;

/// The encoder a page is written with: PNG, JPEG and TIFF by the image
/// codec of the same name; WebP lossily, at the given quality in percent.
#[derive(Clone, Copy, Debug, PartialEq, Eq, Structural)]
pub enum ImageEncoding {
    Png,
    Jpeg,
    Tiff,
    WebpLossy { quality: u8 },
}

pub open spec fn spec_encoding_for(format: OutputFormat) -> ImageEncoding {
    match format {
        OutputFormat::Png => ImageEncoding::Png,
        OutputFormat::Jpg => ImageEncoding::Jpeg,
        OutputFormat::Tiff => ImageEncoding::Tiff,
        OutputFormat::WebP => ImageEncoding::WebpLossy { quality: WEBP_QUALITY },
    }
}

/// The encoder used to write a page in `format`.
pub fn encoding_for(format: &OutputFormat) -> (e: ImageEncoding)
    ensures
        e == spec_encoding_for(*format),
{
    match format {
        OutputFormat::Png => ImageEncoding::Png,
        OutputFormat::Jpg => ImageEncoding::Jpeg,
        OutputFormat::Tiff => ImageEncoding::Tiff,
        OutputFormat::WebP => ImageEncoding::WebpLossy { quality: WEBP_QUALITY },
    }
}

} // verus!
