use vstd::prelude::*;

verus! {

/// Image format that rendered pages are written in.
#[derive(Clone, Copy, Debug, PartialEq, Eq, Structural)]
pub enum OutputFormat {
    Jpg,
    Png,
    WebP,
    Tiff,
}

/// File extension (without the dot) of each output format.
pub open spec fn spec_extension(format: OutputFormat) -> Seq<char> {
    match format {
        OutputFormat::Jpg => seq!['j', 'p', 'g'],
        OutputFormat::Png => seq!['p', 'n', 'g'],
        OutputFormat::WebP => seq!['w', 'e', 'b', 'p'],
        OutputFormat::Tiff => seq!['t', 'i', 'f', 'f'],
    }
}

impl OutputFormat {
    /// The file extension used for files written in this format.
    pub fn extension(&self) -> (ext: &'static str)
        ensures
            ext@ == spec_extension(*self),
    {
        match self {
            OutputFormat::Jpg => {
                proof {
                    reveal_strlit("jpg");
                }
                "jpg"
            },
            OutputFormat::Png => {
                proof {
                    reveal_strlit("png");
                }
                "png"
            },
            OutputFormat::WebP => {
                proof {
                    reveal_strlit("webp");
                }
                "webp"
            },
            OutputFormat::Tiff => {
                proof {
                    reveal_strlit("tiff");
                }
                "tiff"
            },
        }
    }
}

/// Rendering settings: the resolution in dots per inch.
pub struct RenderConfig {
    pub dpi: u32,
}

/// What to render: one PDF, or a list of PDFs given in bracket syntax.
/// Paths are held as the strings the user typed.
pub enum InputMode {
    Single(String),
    Batch(Vec<String>),
}

} // verus!
