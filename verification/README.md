# pdf_to_image

`p2i` rasterizes PDF pages to JPG, PNG, WebP or TIFF at a chosen DPI.

- `src/` is the library, verified with Verus: output formats and their
  extensions, the command-line grammar (`-dpi`, `-format`, `-prepress`,
  `-mega-prepress`, `--version`, the bracketed batch list), the names of
  rendered page files (`<stem>-p<NNN>.<ext>`), the encoder chosen for each
  format, and page rectangles.
- `app/main.rs` is the program: it checks paths, renders pages with PDFium
  (`pdfium-render`), and writes images with `image` and `webp`.
- `tests/` runs the library on concrete inputs.
