//! The command line: `p2i [-dpi <n>] [-format <fmt>] [-prepress] [-mega-prepress]
//! <input.pdf | [input-1.pdf, ...]> [output/dir]`.
use vstd::prelude::*;
use crate::args::{InputMode, OutputFormat, RenderConfig, spec_extension};
use crate::batch::{
    first_closing, lemma_first_closing_none, lemma_first_closing_prefix, lemma_first_closing_range,
    lemma_leading_options_end_range, lemma_leading_options_end_suffix, leading_options_end,
    option_width, parse_batch_args, spec_bracket_list, spec_parse_batch_args,
};
use crate::text::{ends_with, starts_with};
use crate::text::str_equals;
use crate::naming::{decimal_digits, lemma_decimal_digits_shape, lemma_decimal_digits_value};

verus! {

/// Resolution used when no flag sets one.
pub const DEFAULT_DPI: u32 = 150;

/// Resolution set by `-prepress`.
pub const PREPRESS_DPI: u32 = 300;

/// Resolution set by `-mega-prepress`.
pub const MEGA_PREPRESS_DPI: u32 = 600;

/// Why a command line cannot be run.
#[derive(Clone, Copy, Debug, PartialEq, Eq, Structural)]
pub enum CliError {
    /// `-dpi` is last, or not followed by an unsigned 32-bit decimal number.
    DpiValue,
    /// `-format` is last, or not followed by one of the known format names.
    FormatValue,
    /// Neither a bracket list nor an input path was given.
    NoInput,
}

/// The inputs of a run, as the strings the user typed.
pub enum InputSpec {
    Single(Seq<char>),
    Batch(Seq<Seq<char>>),
}

impl View for InputMode {
    type V = InputSpec;

    open spec fn view(&self) -> InputSpec {
        match self {
            InputMode::Single(p) => InputSpec::Single(p@),
            InputMode::Batch(ps) => InputSpec::Batch(ps.deep_view()),
        }
    }
}

/// A rendering run read from the command line.
pub struct RenderRequest {
    pub input: InputMode,
    /// The directory given on the command line, if any; without one, each
    /// output goes beside its input.
    pub output_dir: Option<String>,
    pub config: RenderConfig,
    pub format: OutputFormat,
}

pub struct RequestSpec {
    pub input: InputSpec,
    pub output_dir: Option<Seq<char>>,
    pub dpi: u32,
    pub format: OutputFormat,
}

impl View for RenderRequest {
    type V = RequestSpec;

    open spec fn view(&self) -> RequestSpec {
        RequestSpec {
            input: self.input@,
            output_dir: self.output_dir.deep_view(),
            dpi: self.config.dpi,
            format: self.format,
        }
    }
}

/// What the command line asks for.
pub enum Command {
    /// `--version` appears among the arguments.
    ShowVersion,
    Render(RenderRequest),
}

pub enum CommandSpec {
    ShowVersion,
    Render(RequestSpec),
}

impl View for Command {
    type V = CommandSpec;

    open spec fn view(&self) -> CommandSpec {
        match self {
            Command::ShowVersion => CommandSpec::ShowVersion,
            Command::Render(r) => CommandSpec::Render(r@),
        }
    }
}

pub open spec fn is_digit(c: char) -> bool {
    48 <= (c as u32) <= 57
}

/// The number written by the decimal digits `s`.
pub open spec fn decimal_value(s: Seq<char>) -> nat
    decreases s.len(),
{
    if s.len() == 0 {
        0
    } else {
        decimal_value(s.drop_last()) * 10 + ((s.last() as u32) - 48) as nat
    }
}

/// The digits of an unsigned number: `s` without a leading `+`, when `s`
/// has more than the sign.
pub open spec fn unsigned_digits(s: Seq<char>) -> Seq<char> {
    if s.len() > 1 && s[0] == '+' {
        s.drop_first()
    } else {
        s
    }
}

/// `u32`'s reading of a decimal string: an optional `+`, then one or more
/// ASCII digits whose value fits in 32 bits.
pub open spec fn spec_parse_u32(s: Seq<char>) -> Option<u32> {
    let d = unsigned_digits(s);
    if d.len() > 0 && (forall|i: int| 0 <= i < d.len() ==> is_digit(#[trigger] d[i]))
        && decimal_value(d) <= u32::MAX {
        Some(decimal_value(d) as u32)
    } else {
        None
    }
}

/// The format selected by the name given to `-format`.
pub open spec fn spec_parse_format(name: Seq<char>) -> Option<OutputFormat> {
    if name == "tiff"@ {
        Some(OutputFormat::Tiff)
    } else if name == "png"@ {
        Some(OutputFormat::Png)
    } else if name == "jpeg"@ || name == "jpg"@ {
        Some(OutputFormat::Jpg)
    } else if name == "webp"@ {
        Some(OutputFormat::WebP)
    } else {
        None
    }
}

/// The flags in `args[i..]`, read left to right from the settings
/// `(dpi, format)` and the positional arguments met so far; a later flag
/// overrides an earlier one.
pub open spec fn scan_flags(
    args: Seq<Seq<char>>,
    i: int,
    dpi: u32,
    format: OutputFormat,
    positional: Seq<Seq<char>>,
) -> Result<(u32, OutputFormat, Seq<Seq<char>>), CliError>
    decreases args.len() - i,
{
    if i < 0 || i >= args.len() {
        Ok((dpi, format, positional))
    } else if args[i] == "-prepress"@ {
        scan_flags(args, i + 1, PREPRESS_DPI, OutputFormat::Jpg, positional)
    } else if args[i] == "-mega-prepress"@ {
        scan_flags(args, i + 1, MEGA_PREPRESS_DPI, OutputFormat::Jpg, positional)
    } else if args[i] == "-dpi"@ {
        if i + 1 < args.len() && spec_parse_u32(args[i + 1]) is Some {
            scan_flags(args, i + 2, spec_parse_u32(args[i + 1])->0, format, positional)
        } else {
            Err(CliError::DpiValue)
        }
    } else if args[i] == "-format"@ {
        if i + 1 < args.len() && spec_parse_format(args[i + 1]) is Some {
            scan_flags(args, i + 2, dpi, spec_parse_format(args[i + 1])->0, positional)
        } else {
            Err(CliError::FormatValue)
        }
    } else {
        scan_flags(args, i + 1, dpi, format, positional.push(args[i]))
    }
}

/// What the command line `args` (program name first) asks for. `--version`
/// anywhere wins; otherwise the flags are read wherever they stand (a bad
/// one is an error). When the arguments after the leading options begin
/// with a bracket list, that list and the argument right after it are the
/// batch and its output directory (`spec_parse_batch_args`); otherwise the
/// first positional argument is the input and the second, if any, the
/// output directory.
pub open spec fn spec_parse_cli(args: Seq<Seq<char>>) -> Result<CommandSpec, CliError> {
    if args.contains("--version"@) {
        Ok(CommandSpec::ShowVersion)
    } else {
        match scan_flags(args, 1, DEFAULT_DPI, OutputFormat::Jpg, Seq::empty()) {
            Err(e) => Err(e),
            Ok((dpi, format, positional)) => {
                match spec_parse_batch_args(args) {
                    Some((inputs, output_dir)) => Ok(
                        CommandSpec::Render(
                            RequestSpec {
                                input: InputSpec::Batch(inputs),
                                output_dir,
                                dpi,
                                format,
                            },
                        ),
                    ),
                    None => if positional.len() == 0 {
                        Err(CliError::NoInput)
                    } else {
                        Ok(
                            CommandSpec::Render(
                                RequestSpec {
                                    input: InputSpec::Single(positional[0]),
                                    output_dir: if positional.len() > 1 {
                                        Some(positional[1])
                                    } else {
                                        None
                                    },
                                    dpi,
                                    format,
                                },
                            ),
                        )
                    },
                }
            },
        }
    }
}

/// Reads an unsigned 32-bit decimal number, as `u32`'s `FromStr` does.
pub fn parse_u32(s: &str) -> (r: Option<u32>)
    ensures
        r == spec_parse_u32(s@),
{
    let n = s.unicode_len();
    let mut i: usize = 0;
    if n > 1 && s.get_char(0) == '+' {
        i = 1;
    }
    let ghost d = unsigned_digits(s@);
    assert(d == s@.subrange(i as int, n as int));
    if i >= n {
        return None;
    }
    let start = i;
    let mut value: u64 = 0;
    let mut overflow = false;
    while i < n
        invariant
            n == s@.len(),
            start <= i <= n,
            d == s@.subrange(start as int, n as int),
            d == unsigned_digits(s@),
            forall|j: int| 0 <= j < i - start ==> is_digit(#[trigger] d[j]),
            !overflow ==> value == decimal_value(d.subrange(0, i - start)),
            !overflow ==> value <= u32::MAX,
            overflow ==> decimal_value(d.subrange(0, i - start)) > u32::MAX,
        decreases n - i,
    {
        let c = s.get_char(i);
        let u = c as u32;
        if u < 48 || u > 57 {
            assert(!is_digit(d[i - start]));
            return None;
        }
        let ghost pre = d.subrange(0, i - start);
        assert(d.subrange(0, i + 1 - start).drop_last() == pre);
        assert(d.subrange(0, i + 1 - start).last() == c);
        if !overflow {
            value = value * 10 + (u - 48) as u64;
            if value > 0xFFFF_FFFF {
                overflow = true;
            }
        }
        i = i + 1;
    }
    assert(d.subrange(0, n - start) == d);
    if overflow {
        None
    } else {
        Some(value as u32)
    }
}

/// The format named by `name`: `tiff`, `png`, `jpeg` or `jpg`, `webp`.
pub fn parse_format(name: &str) -> (r: Option<OutputFormat>)
    ensures
        r == spec_parse_format(name@),
{
    if str_equals(name, "tiff") {
        Some(OutputFormat::Tiff)
    } else if str_equals(name, "png") {
        Some(OutputFormat::Png)
    } else if str_equals(name, "jpeg") || str_equals(name, "jpg") {
        Some(OutputFormat::Jpg)
    } else if str_equals(name, "webp") {
        Some(OutputFormat::WebP)
    } else {
        None
    }
}

/// Whether `--version` is one of the arguments.
fn asks_version(args: &Vec<String>) -> (b: bool)
    ensures
        b == args.deep_view().contains("--version"@),
{
    let ghost dv = args.deep_view();
    let mut i: usize = 0;
    while i < args.len()
        invariant
            i <= args.len(),
            dv == args.deep_view(),
            forall|j: int| 0 <= j < i ==> dv[j] != "--version"@,
        decreases args.len() - i,
    {
        assert(dv[i as int] == args[i as int]@);
        if str_equals(args[i].as_str(), "--version") {
            return true;
        }
        i = i + 1;
    }
    false
}

/// Reads the flags of `args[1..]`; what is left are the positional
/// arguments, in order.
pub fn read_flags(args: &Vec<String>) -> (r: Result<(u32, OutputFormat, Vec<String>), CliError>)
    ensures
        match r {
            Ok((dpi, format, positional)) => scan_flags(
                args.deep_view(),
                1,
                DEFAULT_DPI,
                OutputFormat::Jpg,
                Seq::empty(),
            ) == Ok::<_, CliError>((dpi, format, positional.deep_view())),
            Err(e) => scan_flags(args.deep_view(), 1, DEFAULT_DPI, OutputFormat::Jpg, Seq::empty())
                == Err::<(u32, OutputFormat, Seq<Seq<char>>), _>(e),
        },
{
    let ghost dv = args.deep_view();
    let mut dpi: u32 = DEFAULT_DPI;
    let mut format = OutputFormat::Jpg;
    let mut positional: Vec<String> = Vec::new();
    let mut i: usize = 1;
    assert(positional.deep_view() =~= Seq::<Seq<char>>::empty());
    while i < args.len()
        invariant
            1 <= i,
            dv == args.deep_view(),
            scan_flags(dv, 1, DEFAULT_DPI, OutputFormat::Jpg, Seq::empty()) == scan_flags(
                dv,
                i as int,
                dpi,
                format,
                positional.deep_view(),
            ),
        decreases args.len() - i,
    {
        assert(dv[i as int] == args[i as int]@);
        let arg = args[i].as_str();
        if str_equals(arg, "-prepress") {
            dpi = PREPRESS_DPI;
            format = OutputFormat::Jpg;
            i = i + 1;
        } else if str_equals(arg, "-mega-prepress") {
            dpi = MEGA_PREPRESS_DPI;
            format = OutputFormat::Jpg;
            i = i + 1;
        } else if str_equals(arg, "-dpi") {
            if i + 1 >= args.len() {
                return Err(CliError::DpiValue);
            }
            assert(dv[i + 1] == args[i + 1]@);
            match parse_u32(args[i + 1].as_str()) {
                Some(v) => {
                    dpi = v;
                    i = i + 2;
                },
                None => {
                    return Err(CliError::DpiValue);
                },
            }
        } else if str_equals(arg, "-format") {
            if i + 1 >= args.len() {
                return Err(CliError::FormatValue);
            }
            assert(dv[i + 1] == args[i + 1]@);
            match parse_format(args[i + 1].as_str()) {
                Some(f) => {
                    format = f;
                    i = i + 2;
                },
                None => {
                    return Err(CliError::FormatValue);
                },
            }
        } else {
            let ghost before = positional.deep_view();
            positional.push(args[i].clone());
            assert(positional.deep_view() =~= before.push(dv[i as int]));
            i = i + 1;
        }
    }
    Ok((dpi, format, positional))
}

/// Reads the command line `args`, program name first, into what it asks
/// for: the version, or a rendering run with its inputs, output
/// directory, resolution and format.
pub fn parse_cli(args: &Vec<String>) -> (r: Result<Command, CliError>)
    ensures
        match r {
            Ok(c) => spec_parse_cli(args.deep_view()) == Ok::<CommandSpec, CliError>(c@),
            Err(e) => spec_parse_cli(args.deep_view()) == Err::<CommandSpec, CliError>(e),
        },
{
    let ghost dv = args.deep_view();
    if asks_version(args) {
        return Ok(Command::ShowVersion);
    }
    let (dpi, format, positional) = match read_flags(args) {
        Ok(t) => t,
        Err(e) => {
            return Err(e);
        },
    };
    let config = RenderConfig { dpi };
    match parse_batch_args(args) {
        Some((inputs, output_dir)) => Ok(
            Command::Render(RenderRequest { input: InputMode::Batch(inputs), output_dir, config, format }),
        ),
        None => {
            if positional.len() == 0 {
                return Err(CliError::NoInput);
            }
            let input = positional[0].clone();
            let output_dir = if positional.len() > 1 {
                Some(positional[1].clone())
            } else {
                None
            };
            Ok(
                Command::Render(
                    RenderRequest { input: InputMode::Single(input), output_dir, config, format },
                ),
            )
        },
    }
}

/// The extension of every format, given to `-format`, selects that format.
pub proof fn lemma_format_name_round_trip(format: OutputFormat)
    ensures
        spec_parse_format(spec_extension(format)) == Some(format),
{
    reveal_strlit("tiff");
    reveal_strlit("png");
    reveal_strlit("jpeg");
    reveal_strlit("jpg");
    reveal_strlit("webp");
    assert("tiff"@ =~= seq!['t', 'i', 'f', 'f']);
    assert("png"@ =~= seq!['p', 'n', 'g']);
    assert("jpg"@ =~= seq!['j', 'p', 'g']);
    assert("webp"@ =~= seq!['w', 'e', 'b', 'p']);
}

/// Whether `a` is one of the flags that the command line reads.
pub open spec fn is_flag(a: Seq<char>) -> bool {
    a == "-prepress"@ || a == "-mega-prepress"@ || a == "-dpi"@ || a == "-format"@
}

proof fn lemma_scan_without_flags(
    args: Seq<Seq<char>>,
    i: int,
    dpi: u32,
    format: OutputFormat,
    positional: Seq<Seq<char>>,
)
    requires
        1 <= i <= args.len(),
        forall|k: int| 1 <= k < args.len() ==> !is_flag(#[trigger] args[k]),
    ensures
        scan_flags(args, i, dpi, format, positional) == Ok::<_, CliError>(
            (dpi, format, positional + args.subrange(i, args.len() as int)),
        ),
    decreases args.len() - i,
{
    if i < args.len() {
        assert(!is_flag(args[i]));
        lemma_scan_without_flags(args, i + 1, dpi, format, positional.push(args[i]));
        assert(positional.push(args[i]) + args.subrange(i + 1, args.len() as int) =~= positional
            + args.subrange(i, args.len() as int));
    } else {
        assert(positional + args.subrange(i, args.len() as int) =~= positional);
    }
}

/// Without flags, pages are rendered at 150 DPI as JPG, and every argument
/// after the program name is positional.
pub proof fn lemma_defaults_without_flags(args: Seq<Seq<char>>)
    requires
        args.len() >= 1,
        forall|k: int| 1 <= k < args.len() ==> !is_flag(#[trigger] args[k]),
    ensures
        scan_flags(args, 1, DEFAULT_DPI, OutputFormat::Jpg, Seq::empty()) == Ok::<_, CliError>(
            (DEFAULT_DPI, OutputFormat::Jpg, args.subrange(1, args.len() as int)),
        ),
        spec_parse_cli(args) matches Ok(CommandSpec::Render(r)) ==> r.dpi == DEFAULT_DPI
            && r.format == OutputFormat::Jpg,
        spec_parse_cli(args) != Err::<CommandSpec, CliError>(CliError::DpiValue),
        spec_parse_cli(args) != Err::<CommandSpec, CliError>(CliError::FormatValue),
{
    lemma_scan_without_flags(args, 1, DEFAULT_DPI, OutputFormat::Jpg, Seq::empty());
    assert(Seq::<Seq<char>>::empty() + args.subrange(1, args.len() as int) =~= args.subrange(
        1,
        args.len() as int,
    ));
}

/// The flags read from position `i` depend only on the arguments from
/// there on.
proof fn lemma_scan_suffix(
    a: Seq<Seq<char>>,
    i: int,
    b: Seq<Seq<char>>,
    j: int,
    dpi: u32,
    format: OutputFormat,
    positional: Seq<Seq<char>>,
)
    requires
        0 <= i <= a.len(),
        0 <= j <= b.len(),
        a.subrange(i, a.len() as int) == b.subrange(j, b.len() as int),
    ensures
        scan_flags(a, i, dpi, format, positional) == scan_flags(b, j, dpi, format, positional),
    decreases a.len() - i,
{
    let sa = a.subrange(i, a.len() as int);
    let sb = b.subrange(j, b.len() as int);
    assert(sa.len() == sb.len());
    if i < a.len() {
        let x = a[i];
        assert(x == sa[0]);
        assert(b[j] == sb[0]);
        assert(a.subrange(i + 1, a.len() as int) =~= sa.subrange(1, sa.len() as int));
        assert(b.subrange(j + 1, b.len() as int) =~= sb.subrange(1, sb.len() as int));
        if i + 1 < a.len() {
            assert(a[i + 1] == sa[1]);
            assert(b[j + 1] == sb[1]);
            assert(a.subrange(i + 2, a.len() as int) =~= sa.subrange(2, sa.len() as int));
            assert(b.subrange(j + 2, b.len() as int) =~= sb.subrange(2, sb.len() as int));
        }
        if x == "-prepress"@ {
            lemma_scan_suffix(a, i + 1, b, j + 1, PREPRESS_DPI, OutputFormat::Jpg, positional);
        } else if x == "-mega-prepress"@ {
            lemma_scan_suffix(a, i + 1, b, j + 1, MEGA_PREPRESS_DPI, OutputFormat::Jpg, positional);
        } else if x == "-dpi"@ {
            if i + 1 < a.len() && spec_parse_u32(a[i + 1]) is Some {
                lemma_scan_suffix(
                    a,
                    i + 2,
                    b,
                    j + 2,
                    spec_parse_u32(a[i + 1])->0,
                    format,
                    positional,
                );
            }
        } else if x == "-format"@ {
            if i + 1 < a.len() && spec_parse_format(a[i + 1]) is Some {
                lemma_scan_suffix(
                    a,
                    i + 2,
                    b,
                    j + 2,
                    dpi,
                    spec_parse_format(a[i + 1])->0,
                    positional,
                );
            }
        } else {
            lemma_scan_suffix(a, i + 1, b, j + 1, dpi, format, positional.push(x));
        }
    }
}

/// `args` with the argument at `i` replaced by `-dpi <dpi_text> -format jpg`.
pub open spec fn expand_shorthand(args: Seq<Seq<char>>, i: int, dpi_text: Seq<char>) -> Seq<
    Seq<char>,
> {
    args.subrange(0, i) + seq!["-dpi"@, dpi_text, "-format"@, "jpg"@] + args.subrange(
        i + 1,
        args.len() as int,
    )
}

pub(crate) proof fn lemma_literals_distinct()
    ensures
        "-prepress"@ != "-mega-prepress"@,
        "-prepress"@ != "-dpi"@,
        "-prepress"@ != "-format"@,
        "-prepress"@ != "--version"@,
        "-mega-prepress"@ != "-dpi"@,
        "-mega-prepress"@ != "-format"@,
        "-mega-prepress"@ != "--version"@,
        "-dpi"@ != "-format"@,
        "-dpi"@ != "--version"@,
        "-format"@ != "--version"@,
        "300"@ != "--version"@,
        "600"@ != "--version"@,
        "jpg"@ != "--version"@,
        "-format"@ != "jpg"@,
        spec_parse_format("jpg"@) == Some(OutputFormat::Jpg),
        spec_parse_format("-dpi"@) is None,
        spec_parse_format("-prepress"@) is None,
        spec_parse_format("-mega-prepress"@) is None,
        spec_parse_u32("-dpi"@) is None,
        spec_parse_u32("-prepress"@) is None,
        spec_parse_u32("-mega-prepress"@) is None,
        spec_parse_u32("300"@) == Some(300u32),
        spec_parse_u32("600"@) == Some(600u32),
        !ends_with("-dpi"@, ']'),
        !ends_with("300"@, ']'),
        !ends_with("600"@, ']'),
        !ends_with("-format"@, ']'),
        !ends_with("jpg"@, ']'),
        !ends_with("-prepress"@, ']'),
        !ends_with("-mega-prepress"@, ']'),
        !starts_with("-prepress"@, '['),
        !starts_with("-mega-prepress"@, '['),
{
    reveal_strlit("-prepress");
    reveal_strlit("-mega-prepress");
    reveal_strlit("-dpi");
    reveal_strlit("-format");
    reveal_strlit("--version");
    reveal_strlit("300");
    reveal_strlit("600");
    reveal_strlit("jpg");
    reveal_strlit("tiff");
    reveal_strlit("png");
    reveal_strlit("jpeg");
    reveal_strlit("webp");
    assert("-prepress"@[1] != "--version"@[1]);
    assert("jpg"@[0] != "png"@[0]);
    assert("-dpi"@[0] != "tiff"@[0]);
    assert("-dpi"@[0] != "jpeg"@[0]);
    assert("-dpi"@[0] != "webp"@[0]);
    assert(unsigned_digits("-dpi"@) == "-dpi"@);
    assert(!is_digit("-dpi"@[0]));
    assert(unsigned_digits("-prepress"@) == "-prepress"@);
    assert(!is_digit("-prepress"@[0]));
    assert(unsigned_digits("-mega-prepress"@) == "-mega-prepress"@);
    assert(!is_digit("-mega-prepress"@[0]));
    let t = "300"@;
    assert(unsigned_digits(t) == t);
    assert(t.drop_last().drop_last().drop_last() =~= Seq::<char>::empty());
    let t1 = t.drop_last().drop_last();
    assert(t1.last() == t[0]);
    assert(t1.drop_last() =~= Seq::<char>::empty());
    assert(t[0] == '3');
    assert(decimal_value(t1.drop_last()) == 0);
    assert(decimal_value(t1) == 3);
    assert(decimal_value(t.drop_last()) == 30);
    assert(decimal_value(t) == 300);
    assert(forall|i: int| 0 <= i < t.len() ==> is_digit(#[trigger] t[i]));
    let s = "600"@;
    assert(unsigned_digits(s) == s);
    assert(s.drop_last().drop_last().drop_last() =~= Seq::<char>::empty());
    let s1 = s.drop_last().drop_last();
    assert(s1.last() == s[0]);
    assert(s1.drop_last() =~= Seq::<char>::empty());
    assert(s[0] == '6');
    assert(decimal_value(s1.drop_last()) == 0);
    assert(decimal_value(s1) == 6);
    assert(decimal_value(s.drop_last()) == 60);
    assert(decimal_value(s) == 600);
    assert(forall|i: int| 0 <= i < s.len() ==> is_digit(#[trigger] s[i]));
}

/// Reading from `j` up to the shorthand at `i`, or from the expanded
/// arguments, gives the same outcome.
proof fn lemma_scan_shorthand(
    args: Seq<Seq<char>>,
    i: int,
    flag: Seq<char>,
    dpi_text: Seq<char>,
    flag_dpi: u32,
    j: int,
    dpi: u32,
    format: OutputFormat,
    positional: Seq<Seq<char>>,
)
    requires
        (flag == "-prepress"@ && dpi_text == "300"@ && flag_dpi == PREPRESS_DPI) || (flag
            == "-mega-prepress"@ && dpi_text == "600"@ && flag_dpi == MEGA_PREPRESS_DPI),
        1 <= j <= i < args.len(),
        args[i] == flag,
    ensures
        scan_flags(args, j, dpi, format, positional) == scan_flags(
            expand_shorthand(args, i, dpi_text),
            j,
            dpi,
            format,
            positional,
        ),
    decreases i - j,
{
    lemma_literals_distinct();
    let exp = expand_shorthand(args, i, dpi_text);
    assert(exp.len() == args.len() + 3);
    assert(forall|k: int| 0 <= k < i ==> #[trigger] exp[k] == args[k]);
    assert(exp[i] == "-dpi"@);
    assert(exp[i + 1] == dpi_text);
    assert(exp[i + 2] == "-format"@);
    assert(exp[i + 3] == "jpg"@);
    if j == i {
        assert(args.subrange(i + 1, args.len() as int) =~= exp.subrange(i + 4, exp.len() as int));
        lemma_scan_suffix(args, i + 1, exp, i + 4, flag_dpi, OutputFormat::Jpg, positional);
        assert(scan_flags(exp, i + 2, flag_dpi, format, positional) == scan_flags(
            exp,
            i + 4,
            flag_dpi,
            OutputFormat::Jpg,
            positional,
        ));
        assert(scan_flags(exp, i, dpi, format, positional) == scan_flags(
            exp,
            i + 2,
            flag_dpi,
            format,
            positional,
        ));
    } else {
        let x = args[j];
        assert(exp[j] == x);
        if x == "-prepress"@ {
            lemma_scan_shorthand(
                args,
                i,
                flag,
                dpi_text,
                flag_dpi,
                j + 1,
                PREPRESS_DPI,
                OutputFormat::Jpg,
                positional,
            );
        } else if x == "-mega-prepress"@ {
            lemma_scan_shorthand(
                args,
                i,
                flag,
                dpi_text,
                flag_dpi,
                j + 1,
                MEGA_PREPRESS_DPI,
                OutputFormat::Jpg,
                positional,
            );
        } else if x == "-dpi"@ {
            if j + 1 < i {
                assert(exp[j + 1] == args[j + 1]);
                if spec_parse_u32(args[j + 1]) is Some {
                    lemma_scan_shorthand(
                        args,
                        i,
                        flag,
                        dpi_text,
                        flag_dpi,
                        j + 2,
                        spec_parse_u32(args[j + 1])->0,
                        format,
                        positional,
                    );
                }
            }
        } else if x == "-format"@ {
            if j + 1 < i {
                assert(exp[j + 1] == args[j + 1]);
                if spec_parse_format(args[j + 1]) is Some {
                    lemma_scan_shorthand(
                        args,
                        i,
                        flag,
                        dpi_text,
                        flag_dpi,
                        j + 2,
                        dpi,
                        spec_parse_format(args[j + 1])->0,
                        positional,
                    );
                }
            }
        } else {
            lemma_scan_shorthand(
                args,
                i,
                flag,
                dpi_text,
                flag_dpi,
                j + 1,
                dpi,
                format,
                positional.push(x),
            );
        }
    }
}

/// Whether the argument at `i` belongs to the bracket list of the batch
/// form of `args`, or is the output directory right after it.
pub open spec fn in_batch_list(args: Seq<Seq<char>>, i: int) -> bool {
    let s = leading_options_end(args, 1);
    let rest = args.subrange(s, args.len() as int);
    &&& s < i
    &&& rest.len() > 0
    &&& starts_with(rest[0], '[')
    &&& match first_closing(rest, 0) {
        Some(k) => i <= s + k + 1,
        None => false,
    }
}

/// The shorthand at `i`, inside the leading options from `j`, is read as
/// the four arguments it stands for.
proof fn lemma_options_end_shorthand_inside(
    args: Seq<Seq<char>>,
    i: int,
    flag: Seq<char>,
    dpi_text: Seq<char>,
    flag_dpi: u32,
    j: int,
)
    requires
        (flag == "-prepress"@ && dpi_text == "300"@ && flag_dpi == PREPRESS_DPI) || (flag
            == "-mega-prepress"@ && dpi_text == "600"@ && flag_dpi == MEGA_PREPRESS_DPI),
        1 <= j <= i < args.len(),
        args[i] == flag,
        leading_options_end(args, j) > i,
    ensures
        leading_options_end(expand_shorthand(args, i, dpi_text), j) == leading_options_end(args, j)
            + 3,
    decreases i - j,
{
    lemma_literals_distinct();
    let exp = expand_shorthand(args, i, dpi_text);
    assert(exp.len() == args.len() + 3);
    assert(forall|k: int| 0 <= k < i ==> #[trigger] exp[k] == args[k]);
    assert(exp[i] == "-dpi"@);
    assert(exp[i + 1] == dpi_text);
    assert(exp[i + 2] == "-format"@);
    assert(exp[i + 3] == "jpg"@);
    if j == i {
        assert(option_width(args, i) == 1);
        assert(option_width(exp, i) == 2);
        assert(option_width(exp, i + 2) == 2);
        assert(leading_options_end(args, i) == leading_options_end(args, i + 1));
        assert(leading_options_end(exp, i) == leading_options_end(exp, i + 2));
        assert(leading_options_end(exp, i + 2) == leading_options_end(exp, i + 4));
        assert(args.subrange(i + 1, args.len() as int) =~= exp.subrange(i + 4, exp.len() as int));
        lemma_leading_options_end_suffix(args, i + 1, exp, i + 4);
    } else {
        let w = option_width(args, j);
        assert(w > 0);
        if w == 2 {
            assert(j + 1 != i);
            assert(exp[j + 1] == args[j + 1]);
        }
        assert(option_width(exp, j) == w);
        lemma_options_end_shorthand_inside(args, i, flag, dpi_text, flag_dpi, j + w);
    }
}

/// Options that end before the shorthand at `i` are read the same in the
/// expanded arguments.
proof fn lemma_options_end_shorthand_before(
    args: Seq<Seq<char>>,
    i: int,
    flag: Seq<char>,
    dpi_text: Seq<char>,
    j: int,
)
    requires
        flag == "-prepress"@ || flag == "-mega-prepress"@,
        dpi_text == "300"@ || dpi_text == "600"@,
        1 <= j <= i < args.len(),
        args[i] == flag,
        leading_options_end(args, j) < i,
    ensures
        leading_options_end(expand_shorthand(args, i, dpi_text), j) == leading_options_end(args, j),
    decreases i - j,
{
    lemma_literals_distinct();
    let exp = expand_shorthand(args, i, dpi_text);
    assert(exp.len() == args.len() + 3);
    assert(forall|k: int| 0 <= k < i ==> #[trigger] exp[k] == args[k]);
    assert(exp[i] == "-dpi"@);
    lemma_leading_options_end_range(args, j);
    let w = option_width(args, j);
    assert(j + 1 < exp.len());
    assert(exp[j] == args[j]);
    if j + 1 < i {
        assert(exp[j + 1] == args[j + 1]);
    } else {
        assert(exp[j + 1] == "-dpi"@);
        assert(args[j + 1] == flag);
        assert(spec_parse_u32(exp[j + 1]) is None);
        assert(spec_parse_u32(args[j + 1]) is None);
        assert(spec_parse_format(exp[j + 1]) is None);
        assert(spec_parse_format(args[j + 1]) is None);
    }
    assert(option_width(exp, j) == w);
    if w > 0 {
        lemma_leading_options_end_range(args, j + w);
        lemma_options_end_shorthand_before(args, i, flag, dpi_text, j + w);
    }
}

proof fn lemma_shorthand_command(
    args: Seq<Seq<char>>,
    i: int,
    flag: Seq<char>,
    dpi_text: Seq<char>,
    flag_dpi: u32,
)
    requires
        (flag == "-prepress"@ && dpi_text == "300"@ && flag_dpi == PREPRESS_DPI) || (flag
            == "-mega-prepress"@ && dpi_text == "600"@ && flag_dpi == MEGA_PREPRESS_DPI),
        1 <= i < args.len(),
        args[i] == flag,
        scan_flags(args, 1, DEFAULT_DPI, OutputFormat::Jpg, Seq::empty()) is Err || !in_batch_list(
            args,
            i,
        ),
    ensures
        spec_parse_cli(args) == spec_parse_cli(expand_shorthand(args, i, dpi_text)),
{
    lemma_literals_distinct();
    let exp = expand_shorthand(args, i, dpi_text);
    let v = "--version"@;
    assert(exp.len() == args.len() + 3);
    assert(forall|k: int| 0 <= k < i ==> #[trigger] exp[k] == args[k]);
    assert(forall|k: int| i < k < args.len() ==> #[trigger] exp[k + 3] == args[k]);
    assert(exp[i] == "-dpi"@);
    assert(exp[i + 1] == dpi_text);
    assert(exp[i + 2] == "-format"@);
    assert(exp[i + 3] == "jpg"@);
    if args.contains(v) {
        let k = choose|k: int| 0 <= k < args.len() && args[k] == v;
        if k < i {
            assert(exp[k] == v);
        } else {
            assert(k != i);
            assert(exp[k + 3] == v);
        }
        assert(exp.contains(v));
    }
    if exp.contains(v) {
        let k = choose|k: int| 0 <= k < exp.len() && exp[k] == v;
        if k < i {
            assert(args[k] == v);
        } else {
            assert(k > i + 3);
            assert(args[k - 3] == exp[k - 3 + 3]);
            assert(args[k - 3] == v);
        }
        assert(args.contains(v));
    }
    lemma_scan_shorthand(args, i, flag, dpi_text, flag_dpi, 1, DEFAULT_DPI, OutputFormat::Jpg, Seq::empty());
    if scan_flags(args, 1, DEFAULT_DPI, OutputFormat::Jpg, Seq::empty()) is Ok {
        lemma_batch_shorthand(args, i, flag, dpi_text, flag_dpi);
    }
}

/// Outside the bracket list and its output directory, the shorthand does
/// not change the batch that is read.
proof fn lemma_batch_shorthand(
    args: Seq<Seq<char>>,
    i: int,
    flag: Seq<char>,
    dpi_text: Seq<char>,
    flag_dpi: u32,
)
    requires
        (flag == "-prepress"@ && dpi_text == "300"@ && flag_dpi == PREPRESS_DPI) || (flag
            == "-mega-prepress"@ && dpi_text == "600"@ && flag_dpi == MEGA_PREPRESS_DPI),
        1 <= i < args.len(),
        args[i] == flag,
        !in_batch_list(args, i),
    ensures
        spec_parse_batch_args(args) == spec_parse_batch_args(expand_shorthand(args, i, dpi_text)),
{
    lemma_literals_distinct();
    let exp = expand_shorthand(args, i, dpi_text);
    assert(exp.len() == args.len() + 3);
    assert(forall|k: int| 0 <= k < i ==> #[trigger] exp[k] == args[k]);
    assert(forall|k: int| i < k < args.len() ==> #[trigger] exp[k + 3] == args[k]);
    assert(exp[i] == "-dpi"@);
    assert(exp[i + 1] == dpi_text);
    assert(exp[i + 2] == "-format"@);
    assert(exp[i + 3] == "jpg"@);
    let s = leading_options_end(args, 1);
    lemma_leading_options_end_range(args, 1);
    assert(s != i);
    if i < s {
        lemma_options_end_shorthand_inside(args, i, flag, dpi_text, flag_dpi, 1);
        assert(args.subrange(s, args.len() as int) =~= exp.subrange(s + 3, exp.len() as int));
    } else {
        lemma_options_end_shorthand_before(args, i, flag, dpi_text, 1);
        let pa = args.subrange(s, args.len() as int);
        let pe = exp.subrange(s, exp.len() as int);
        assert(pa[0] == pe[0]);
        if starts_with(pa[0], '[') {
            match first_closing(pa, 0) {
                Some(k) => {
                    lemma_first_closing_range(pa, 0);
                    assert(s + k + 1 < i);
                    assert forall|t: int| 0 <= t <= k + 1 implies pa[t] == pe[t] by {
                        assert(pa[t] == args[s + t]);
                        assert(pe[t] == exp[s + t]);
                    }
                    lemma_first_closing_prefix(pa, pe, 0, k);
                    assert(pa.subrange(0, k + 1) =~= pe.subrange(0, k + 1));
                },
                None => {
                    lemma_first_closing_none(pa, 0);
                    lemma_first_closing_none(pe, 0);
                    assert forall|t: int| 0 <= t < pe.len() implies !ends_with(
                        #[trigger] pe[t],
                        ']',
                    ) by {
                        let u = s + t;
                        if u < i {
                            assert(pe[t] == pa[t]);
                        } else if u > i + 3 {
                            assert(pe[t] == exp[u]);
                            assert(exp[u] == args[u - 3]);
                            assert(pa[t - 3] == args[u - 3]);
                        }
                    }
                },
            }
        }
    }
}

/// `-prepress` is shorthand for `-dpi 300 -format jpg`: writing those four
/// arguments in its place does not change what the command line asks for,
/// unless the word stands in a bracket list (which takes its words as
/// they are) or right after one (where it is the output directory) of a
/// command line whose flags can be read.
pub proof fn lemma_prepress_shorthand(args: Seq<Seq<char>>, i: int)
    requires
        1 <= i < args.len(),
        args[i] == "-prepress"@,
        scan_flags(args, 1, DEFAULT_DPI, OutputFormat::Jpg, Seq::empty()) is Err || !in_batch_list(
            args,
            i,
        ),
    ensures
        spec_parse_cli(args) == spec_parse_cli(expand_shorthand(args, i, "300"@)),
{
    lemma_shorthand_command(args, i, "-prepress"@, "300"@, PREPRESS_DPI);
}

/// `-mega-prepress` is shorthand for `-dpi 600 -format jpg`, with the same
/// exception as `-prepress`.
pub proof fn lemma_mega_prepress_shorthand(args: Seq<Seq<char>>, i: int)
    requires
        1 <= i < args.len(),
        args[i] == "-mega-prepress"@,
        scan_flags(args, 1, DEFAULT_DPI, OutputFormat::Jpg, Seq::empty()) is Err || !in_batch_list(
            args,
            i,
        ),
    ensures
        spec_parse_cli(args) == spec_parse_cli(expand_shorthand(args, i, "600"@)),
{
    lemma_shorthand_command(args, i, "-mega-prepress"@, "600"@, MEGA_PREPRESS_DPI);
}

/// A number written in decimal is read back as that number.
pub proof fn lemma_parse_u32_decimal(n: u32)
    ensures
        spec_parse_u32(decimal_digits(n as nat)) == Some(n),
{
    let d = decimal_digits(n as nat);
    lemma_decimal_digits_value(n as nat);
    lemma_decimal_digits_shape(n as nat);
    assert(is_digit(d[0]));
    assert(d[0] != '+');
    assert(unsigned_digits(d) == d);
}

/// A decimal number is no flag and not `--version`.
proof fn lemma_decimal_is_plain(n: nat)
    ensures
        !is_flag(decimal_digits(n)),
        decimal_digits(n) != "--version"@,
        !starts_with(decimal_digits(n), '['),
{
    reveal_strlit("-prepress");
    reveal_strlit("-mega-prepress");
    reveal_strlit("-dpi");
    reveal_strlit("-format");
    reveal_strlit("--version");
    let d = decimal_digits(n);
    lemma_decimal_digits_value(n);
    lemma_decimal_digits_shape(n);
    assert(is_digit(d[0]));
    assert(d[0] != "-prepress"@[0]);
    assert(d[0] != "-mega-prepress"@[0]);
    assert(d[0] != "-dpi"@[0]);
    assert(d[0] != "-format"@[0]);
    assert(d[0] != "--version"@[0]);
}

/// The command line `p <flag words> path` with one input path: its
/// reading, given how the flag words set the resolution and format.
proof fn lemma_single_after_option(
    a: Seq<Seq<char>>,
    width: int,
    dpi: u32,
    format: OutputFormat,
)
    requires
        width == 1 || width == 2,
        a.len() == width + 2,
        !a.contains("--version"@),
        option_width(a, 1) == width,
        scan_flags(a, 1, DEFAULT_DPI, OutputFormat::Jpg, Seq::empty()) == scan_flags(
            a,
            1 + width,
            dpi,
            format,
            Seq::empty(),
        ),
        !is_flag(a[1 + width]),
        !starts_with(a[1 + width], '['),
    ensures
        spec_parse_cli(a) == Ok::<CommandSpec, CliError>(
            CommandSpec::Render(
                RequestSpec {
                    input: InputSpec::Single(a[1 + width]),
                    output_dir: None,
                    dpi,
                    format,
                },
            ),
        ),
{
    let path = a[1 + width];
    assert(path != "-prepress"@ && path != "-mega-prepress"@ && path != "-dpi"@ && path
        != "-format"@);
    assert(scan_flags(a, 1 + width, dpi, format, Seq::empty()) == scan_flags(
        a,
        2 + width,
        dpi,
        format,
        seq![path],
    ));
    assert(Seq::<Seq<char>>::empty().push(path) == seq![path]);
    assert(option_width(a, 1 + width) == 0);
    assert(leading_options_end(a, 1) == leading_options_end(a, 1 + width));
    assert(leading_options_end(a, 1 + width) == 1 + width);
    assert(a.subrange(1 + width, a.len() as int) =~= seq![path]);
}

/// `-dpi n` sets the resolution to exactly `n`: the command line
/// `p -dpi <n in decimal> path` renders `path` at `n` DPI, as JPG, beside
/// the input.
pub proof fn lemma_dpi_flag_sets_dpi(p: Seq<char>, n: u32, path: Seq<char>)
    requires
        p != "--version"@,
        path != "--version"@,
        !is_flag(path),
        !starts_with(path, '['),
    ensures
        spec_parse_cli(seq![p, "-dpi"@, decimal_digits(n as nat), path]) == Ok::<
            CommandSpec,
            CliError,
        >(
            CommandSpec::Render(
                RequestSpec {
                    input: InputSpec::Single(path),
                    output_dir: None,
                    dpi: n,
                    format: OutputFormat::Jpg,
                },
            ),
        ),
{
    lemma_literals_distinct();
    lemma_parse_u32_decimal(n);
    lemma_decimal_is_plain(n as nat);
    let a = seq![p, "-dpi"@, decimal_digits(n as nat), path];
    assert(a[1] == "-dpi"@);
    assert(a[2] == decimal_digits(n as nat));
    assert(a[3] == path);
    assert(!a.contains("--version"@)) by {
        if a.contains("--version"@) {
            let k = choose|k: int| 0 <= k < a.len() && a[k] == "--version"@;
            assert(k == 0 || k == 1 || k == 2 || k == 3);
        }
    }
    assert(option_width(a, 1) == 2);
    lemma_single_after_option(a, 2, n, OutputFormat::Jpg);
}

/// `-format <name>` sets the format the name says: `jpg` and `jpeg` give
/// JPG, `png` PNG, `webp` WebP, `tiff` TIFF; the resolution stays 150 DPI.
pub proof fn lemma_format_flag_sets_format(p: Seq<char>, name: Seq<char>, path: Seq<char>)
    requires
        p != "--version"@,
        path != "--version"@,
        !is_flag(path),
        !starts_with(path, '['),
        name == "jpg"@ || name == "jpeg"@ || name == "png"@ || name == "webp"@ || name == "tiff"@,
    ensures
        spec_parse_cli(seq![p, "-format"@, name, path]) == Ok::<CommandSpec, CliError>(
            CommandSpec::Render(
                RequestSpec {
                    input: InputSpec::Single(path),
                    output_dir: None,
                    dpi: DEFAULT_DPI,
                    format: if name == "png"@ {
                        OutputFormat::Png
                    } else if name == "webp"@ {
                        OutputFormat::WebP
                    } else if name == "tiff"@ {
                        OutputFormat::Tiff
                    } else {
                        OutputFormat::Jpg
                    },
                },
            ),
        ),
{
    lemma_literals_distinct();
    reveal_strlit("jpg");
    reveal_strlit("jpeg");
    reveal_strlit("png");
    reveal_strlit("webp");
    reveal_strlit("tiff");
    reveal_strlit("--version");
    reveal_strlit("-prepress");
    reveal_strlit("-mega-prepress");
    reveal_strlit("-dpi");
    reveal_strlit("-format");
    let a = seq![p, "-format"@, name, path];
    assert(a[1] == "-format"@);
    assert(a[2] == name);
    assert(a[3] == path);
    assert(name != "--version"@) by {
        assert(name.len() != "--version"@.len());
    }
    assert(!a.contains("--version"@)) by {
        if a.contains("--version"@) {
            let k = choose|k: int| 0 <= k < a.len() && a[k] == "--version"@;
            assert(k == 0 || k == 1 || k == 2 || k == 3);
        }
    }
    let f = if name == "png"@ {
        OutputFormat::Png
    } else if name == "webp"@ {
        OutputFormat::WebP
    } else if name == "tiff"@ {
        OutputFormat::Tiff
    } else {
        OutputFormat::Jpg
    };
    assert("png"@ != "tiff"@ && "webp"@ != "tiff"@ && "jpg"@ != "tiff"@ && "jpeg"@ != "tiff"@) by {
        assert("png"@.len() != "tiff"@.len());
        assert("jpg"@.len() != "tiff"@.len());
        assert("webp"@[0] != "tiff"@[0]);
        assert("jpeg"@[0] != "tiff"@[0]);
    }
    assert("jpg"@ != "png"@ && "jpeg"@ != "png"@ && "webp"@ != "png"@) by {
        assert("jpg"@[0] != "png"@[0]);
        assert("jpeg"@.len() != "png"@.len());
        assert("webp"@.len() != "png"@.len());
    }
    assert("jpg"@ != "webp"@ && "jpeg"@ != "webp"@) by {
        assert("jpg"@.len() != "webp"@.len());
        assert("jpeg"@[0] != "webp"@[0]);
    }
    assert(spec_parse_format(name) == Some(f));
    assert(option_width(a, 1) == 2);
    lemma_single_after_option(a, 2, DEFAULT_DPI, f);
}

/// `-prepress` renders at 300 DPI as JPG, `-mega-prepress` at 600 DPI as
/// JPG.
pub proof fn lemma_prepress_flags_set_dpi_and_jpg(p: Seq<char>, path: Seq<char>)
    requires
        p != "--version"@,
        path != "--version"@,
        !is_flag(path),
        !starts_with(path, '['),
    ensures
        spec_parse_cli(seq![p, "-prepress"@, path]) == Ok::<CommandSpec, CliError>(
            CommandSpec::Render(
                RequestSpec {
                    input: InputSpec::Single(path),
                    output_dir: None,
                    dpi: 300,
                    format: OutputFormat::Jpg,
                },
            ),
        ),
        spec_parse_cli(seq![p, "-mega-prepress"@, path]) == Ok::<CommandSpec, CliError>(
            CommandSpec::Render(
                RequestSpec {
                    input: InputSpec::Single(path),
                    output_dir: None,
                    dpi: 600,
                    format: OutputFormat::Jpg,
                },
            ),
        ),
{
    lemma_literals_distinct();
    let a = seq![p, "-prepress"@, path];
    let b = seq![p, "-mega-prepress"@, path];
    assert(a[1] == "-prepress"@ && a[2] == path);
    assert(b[1] == "-mega-prepress"@ && b[2] == path);
    assert(!a.contains("--version"@)) by {
        if a.contains("--version"@) {
            let k = choose|k: int| 0 <= k < a.len() && a[k] == "--version"@;
            assert(k == 0 || k == 1 || k == 2);
        }
    }
    assert(!b.contains("--version"@)) by {
        if b.contains("--version"@) {
            let k = choose|k: int| 0 <= k < b.len() && b[k] == "--version"@;
            assert(k == 0 || k == 1 || k == 2);
        }
    }
    assert(option_width(a, 1) == 1);
    assert(option_width(b, 1) == 1);
    lemma_single_after_option(a, 1, PREPRESS_DPI, OutputFormat::Jpg);
    lemma_single_after_option(b, 1, MEGA_PREPRESS_DPI, OutputFormat::Jpg);
}

} // verus!
