use pdf_to_image::args::{InputMode, OutputFormat};
use pdf_to_image::batch::parse_batch_args;
use pdf_to_image::cli::{parse_cli, parse_u32, CliError, Command, RenderRequest};

fn args(list: &[&str]) -> Vec<String> {
    list.iter().map(|s| s.to_string()).collect()
}

fn render(list: &[&str]) -> RenderRequest {
    match parse_cli(&args(list)) {
        Ok(Command::Render(r)) => r,
        Ok(Command::ShowVersion) => panic!("unexpected version request"),
        Err(e) => panic!("unexpected error {:?}", e),
    }
}

fn single(r: &RenderRequest) -> &str {
    match &r.input {
        InputMode::Single(p) => p.as_str(),
        InputMode::Batch(_) => panic!("expected a single input"),
    }
}

fn batch(r: &RenderRequest) -> Vec<&str> {
    match &r.input {
        InputMode::Batch(ps) => ps.iter().map(|p| p.as_str()).collect(),
        InputMode::Single(_) => panic!("expected a batch"),
    }
}

// ---------- numbers -------------------------------------------------------

#[test]
fn u32_values_read_as_std_does() {
    for s in ["0", "1", "150", "300", "+72", "007", "4294967295", "", "+", "-", "-1", "+-1",
        "++1", "4294967296", "99999999999999999999", "1 ", " 1", "1.5", "１"] {
        assert_eq!(parse_u32(s), s.parse::<u32>().ok(), "input {:?}", s);
    }
    assert_eq!(parse_u32("300"), Some(300));
    assert_eq!(parse_u32("+72"), Some(72));
    assert_eq!(parse_u32("4294967296"), None);
}

// ---------- single-file mode ----------------------------------------------

#[test]
fn defaults_are_150_dpi_jpg() {
    let r = render(&["p2i", "artwork.pdf"]);
    assert_eq!(single(&r), "artwork.pdf");
    assert_eq!(r.output_dir, None);
    assert_eq!(r.config.dpi, 150);
    assert_eq!(r.format, OutputFormat::Jpg);
}

#[test]
fn dpi_format_and_output_dir() {
    let r = render(&["p2i", "-dpi", "300", "-format", "png", "artwork.pdf", "output/"]);
    assert_eq!(single(&r), "artwork.pdf");
    assert_eq!(r.output_dir.as_deref(), Some("output/"));
    assert_eq!(r.config.dpi, 300);
    assert_eq!(r.format, OutputFormat::Png);

    let r = render(&["p2i", "-dpi", "300", "-format", "tiff", "artwork.pdf", "output/"]);
    assert_eq!(r.format, OutputFormat::Tiff);
}

#[test]
fn prepress_is_300_dpi_jpg() {
    let r = render(&["p2i", "-prepress", "artwork.pdf", "output/"]);
    assert_eq!(r.config.dpi, 300);
    assert_eq!(r.format, OutputFormat::Jpg);
    assert_eq!(single(&r), "artwork.pdf");
    assert_eq!(r.output_dir.as_deref(), Some("output/"));

    let r = render(&["p2i", "-format", "png", "-prepress", "a.pdf"]);
    assert_eq!(r.format, OutputFormat::Jpg);
    let r = render(&["p2i", "-prepress", "-format", "png", "a.pdf"]);
    assert_eq!(r.format, OutputFormat::Png);
    assert_eq!(r.config.dpi, 300);
}

#[test]
fn prepress_same_as_its_expansion() {
    let a = render(&["p2i", "-dpi", "72", "-prepress", "x.pdf", "out"]);
    let b = render(&["p2i", "-dpi", "72", "-dpi", "300", "-format", "jpg", "x.pdf", "out"]);
    assert_eq!(a.config.dpi, b.config.dpi);
    assert_eq!(a.format, b.format);
    assert_eq!(single(&a), single(&b));
    assert_eq!(a.output_dir, b.output_dir);
    assert_eq!(
        parse_cli(&args(&["p2i", "-dpi", "-prepress"])).err(),
        parse_cli(&args(&["p2i", "-dpi", "-dpi", "300", "-format", "jpg"])).err()
    );
}

#[test]
fn mega_prepress_is_600_dpi_jpg() {
    let r = render(&["p2i", "-format", "webp", "-mega-prepress", "artwork.pdf"]);
    assert_eq!(r.config.dpi, 600);
    assert_eq!(r.format, OutputFormat::Jpg);
}

#[test]
fn later_flags_override_earlier_ones() {
    let r = render(&["p2i", "-dpi", "100", "a.pdf", "-dpi", "200", "-format", "jpeg"]);
    assert_eq!(r.config.dpi, 200);
    assert_eq!(r.format, OutputFormat::Jpg);
    assert_eq!(single(&r), "a.pdf");
    assert_eq!(r.output_dir, None);
}

#[test]
fn version_anywhere() {
    assert!(matches!(parse_cli(&args(&["p2i", "--version"])), Ok(Command::ShowVersion)));
    assert!(matches!(
        parse_cli(&args(&["p2i", "-dpi", "x", "a.pdf", "--version"])),
        Ok(Command::ShowVersion)
    ));
}

#[test]
fn errors() {
    assert_eq!(parse_cli(&args(&["p2i", "-dpi"])).err(), Some(CliError::DpiValue));
    assert_eq!(parse_cli(&args(&["p2i", "-dpi", "abc", "a.pdf"])).err(), Some(CliError::DpiValue));
    assert_eq!(parse_cli(&args(&["p2i", "-dpi", "-1", "a.pdf"])).err(), Some(CliError::DpiValue));
    assert_eq!(parse_cli(&args(&["p2i", "-format"])).err(), Some(CliError::FormatValue));
    assert_eq!(
        parse_cli(&args(&["p2i", "-format", "gif", "a.pdf"])).err(),
        Some(CliError::FormatValue)
    );
    assert_eq!(parse_cli(&args(&["p2i"])).err(), Some(CliError::NoInput));
    assert_eq!(parse_cli(&args(&["p2i", "-prepress"])).err(), Some(CliError::NoInput));
    assert_eq!(parse_cli(&args(&[])).err(), Some(CliError::NoInput));
}

#[test]
fn dpi_zero_is_accepted() {
    let r = render(&["p2i", "-dpi", "0", "a.pdf"]);
    assert_eq!(r.config.dpi, 0);
}

// ---------- batch mode ----------------------------------------------------

#[test]
fn batch_args_in_one_argument() {
    let (inputs, out) =
        parse_batch_args(&args(&["p2i", "[art-1.pdf, art-2.pdf, art-3.pdf]", "output/previews/"]))
            .unwrap();
    assert_eq!(inputs, vec!["art-1.pdf", "art-2.pdf", "art-3.pdf"]);
    assert_eq!(out.as_deref(), Some("output/previews/"));
}

#[test]
fn batch_args_spread_over_arguments() {
    let (inputs, out) =
        parse_batch_args(&args(&["p2i", "[art-1.pdf,", "art-2.pdf,", "art-3.pdf]", "output/"]))
            .unwrap();
    assert_eq!(inputs, vec!["art-1.pdf", "art-2.pdf", "art-3.pdf"]);
    assert_eq!(out.as_deref(), Some("output/"));

    let (inputs, out) = parse_batch_args(&args(&["p2i", "[a.pdf", ",", "b.pdf]"])).unwrap();
    assert_eq!(inputs, vec!["a.pdf", "b.pdf"]);
    assert_eq!(out, None);
}

#[test]
fn batch_args_trim_and_drop_empty_entries() {
    let (inputs, _) =
        parse_batch_args(&args(&["p2i", "[[  a.pdf ,,\tb c.pdf , ]]"])).unwrap();
    assert_eq!(inputs, vec!["a.pdf", "b c.pdf"]);
}

#[test]
fn batch_args_refused() {
    assert!(parse_batch_args(&args(&["p2i"])).is_none());
    assert!(parse_batch_args(&args(&["p2i", "a.pdf", "[b.pdf]"])).is_none());
    assert!(parse_batch_args(&args(&["p2i", "[a.pdf", "b.pdf"])).is_none());
    assert!(parse_batch_args(&args(&["p2i", "[]"])).is_none());
    assert!(parse_batch_args(&args(&["p2i", "[ , ]", "out"])).is_none());
    assert!(parse_batch_args(&args(&[])).is_none());
}

#[test]
fn batch_with_flags_before_the_list() {
    let r = render(&["p2i", "-format", "webp", "[art-1.pdf, art-2.pdf, art-3.pdf]", "output/previews/"]);
    assert_eq!(batch(&r), vec!["art-1.pdf", "art-2.pdf", "art-3.pdf"]);
    assert_eq!(r.output_dir.as_deref(), Some("output/previews/"));
    assert_eq!(r.format, OutputFormat::WebP);
    assert_eq!(r.config.dpi, 150);

    let r = render(&["p2i", "-prepress", "[art-1.pdf,", "art-2.pdf,", "art-3.pdf]"]);
    assert_eq!(batch(&r), vec!["art-1.pdf", "art-2.pdf", "art-3.pdf"]);
    assert_eq!(r.output_dir, None);
    assert_eq!(r.config.dpi, 300);
}

#[test]
fn unclosed_list_is_a_single_input() {
    let r = render(&["p2i", "[a.pdf", "out"]);
    assert_eq!(single(&r), "[a.pdf");
    assert_eq!(r.output_dir.as_deref(), Some("out"));
}

#[test]
fn batch_reader_skips_leading_flags() {
    let (inputs, out) = parse_batch_args(&args(&[
        "p2i",
        "-format",
        "webp",
        "[art-1.pdf, art-2.pdf, art-3.pdf]",
        "output/previews/",
    ]))
    .unwrap();
    assert_eq!(inputs, vec!["art-1.pdf", "art-2.pdf", "art-3.pdf"]);
    assert_eq!(out.as_deref(), Some("output/previews/"));

    let with_flags = parse_batch_args(&args(&["p2i", "-prepress", "-dpi", "72", "[a.pdf]", "out"]));
    let without = parse_batch_args(&args(&["p2i", "[a.pdf]", "out"]));
    assert_eq!(with_flags, without);
    assert_eq!(without, Some((vec!["a.pdf".to_string()], Some("out".to_string()))));
}

#[test]
fn batch_reader_skips_only_well_formed_leading_options() {
    assert!(parse_batch_args(&args(&["p2i", "-dpi", "x", "[a.pdf]"])).is_none());
    assert!(parse_batch_args(&args(&["p2i", "-format", "[a.pdf]"])).is_none());
    assert!(parse_batch_args(&args(&["p2i", "a.pdf", "[b.pdf]"])).is_none());
}

#[test]
fn output_dir_is_the_argument_after_the_list() {
    assert_eq!(
        parse_batch_args(&args(&["p2i", "[a.pdf]", "-dpi"])),
        Some((vec!["a.pdf".to_string()], Some("-dpi".to_string())))
    );
    assert_eq!(
        parse_batch_args(&args(&["p2i", "[a.pdf]", "out", "more", "-prepress"])),
        Some((vec!["a.pdf".to_string()], Some("out".to_string())))
    );
    assert_eq!(parse_cli(&args(&["p2i", "[a.pdf]", "-dpi"])).err(), Some(CliError::DpiValue));
}

#[test]
fn flag_word_inside_spread_list_stays_in_list() {
    let (inputs, _) = parse_batch_args(&args(&["p2i", "[a", "-prepress", "b]"])).unwrap();
    assert_eq!(inputs, vec!["a -prepress b"]);
    let r = render(&["p2i", "[a.pdf,", "-prepress", "b.pdf]"]);
    assert_eq!(batch(&r), vec!["a.pdf", "-prepress b.pdf"]);
    assert_eq!(r.config.dpi, 300);
    assert_eq!(r.output_dir, None);
}

#[test]
fn flags_after_the_list_are_read_and_the_next_argument_is_the_output_dir() {
    let r = render(&["p2i", "[a.pdf, b.pdf]", "-dpi", "300", "out"]);
    assert_eq!(batch(&r), vec!["a.pdf", "b.pdf"]);
    assert_eq!(r.output_dir.as_deref(), Some("-dpi"));
    assert_eq!(r.config.dpi, 300);
}

#[test]
fn quoted_and_split_lists_read_the_same() {
    let quoted = parse_batch_args(&args(&["p2i", "[a -dpi b]", "out"]));
    let split = parse_batch_args(&args(&["p2i", "[a", "-dpi", "b]", "out"]));
    assert_eq!(quoted, split);
    assert_eq!(quoted, Some((vec!["a -dpi b".to_string()], Some("out".to_string()))));

    let quoted = parse_batch_args(&args(&["p2i", "[art-1.pdf, art-2.pdf, art-3.pdf]"]));
    let split = parse_batch_args(&args(&["p2i", "[art-1.pdf,", "art-2.pdf,", "art-3.pdf]"]));
    assert_eq!(quoted, split);
}
