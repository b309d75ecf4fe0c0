//! Rasterize PDF pages to JPG, PNG, WebP or TIFF at a caller-specified DPI.
//!
//! This crate holds the verified logic of the tool:
//! - `args`: output formats and their file extensions, rendering settings,
//!   single and batch input;
//! - `cli`: the command-line grammar (flags, defaults, shorthands) and
//!   `batch`: the bracketed list of input files;
//! - `naming`: the names of rendered page files, `<stem>-p<NNN>.<ext>`;
//! - `encode`: the encoder used for each output format;
//! - `rect`: page rectangles in PDF user space;
//! - `text`: the character-level string operations these rest on.
//!
//! Rendering with PDFium and writing the encoded images is done by the
//! program around the library.
pub mod args;
pub mod batch;
pub mod cli;
pub mod encode;
pub mod naming;
pub mod rect;
pub mod text;
