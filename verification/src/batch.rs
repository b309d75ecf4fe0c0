//! The bracketed batch syntax: `[input-1.pdf, input-2.pdf, ...] [output/dir]`.
use vstd::prelude::*;
use crate::cli::{parse_format, parse_u32, spec_parse_format, spec_parse_u32};
use crate::text::str_equals;
use crate::cli::{lemma_literals_distinct, lemma_parse_u32_decimal};
use crate::naming::decimal_digits;
use crate::text::{
    CharClass, chars_of, ends_with, is_whitespace, join_with_space, lemma_split_on_pieces_lack_sep,
    lemma_strip_leading_result, lemma_strip_trailing_result, lemma_trim_result, skip_leading,
    skip_trailing, split_on, starts_with, strip_leading, strip_trailing, trim,
};

verus! {

/// The trimmed pieces, in order, with the pieces that trim to nothing left out.
pub open spec fn nonempty_trimmed(parts: Seq<Seq<char>>) -> Seq<Seq<char>>
    decreases parts.len(),
{
    if parts.len() == 0 {
        Seq::empty()
    } else {
        let rest = nonempty_trimmed(parts.drop_last());
        if trim(parts.last()).len() > 0 {
            rest.push(trim(parts.last()))
        } else {
            rest
        }
    }
}

/// Index of the first argument at or after `from` that ends with `]`.
pub open spec fn first_closing(args: Seq<Seq<char>>, from: int) -> Option<int>
    decreases args.len() - from,
{
    if from < 0 || from >= args.len() {
        None
    } else if ends_with(args[from], ']') {
        Some(from)
    } else {
        first_closing(args, from + 1)
    }
}

/// The text between the brackets of a bracket list spread over `tokens`:
/// the tokens joined by spaces, without the leading `[`s and trailing `]`s.
pub open spec fn bracket_list_inner(tokens: Seq<Seq<char>>) -> Seq<char> {
    strip_trailing(
        strip_leading(join_with_space(tokens), CharClass::OpenBracket),
        CharClass::CloseBracket,
    )
}

/// The input paths of a bracket list: its comma-separated entries with
/// surrounding whitespace removed, empty entries left out.
pub open spec fn bracket_list_entries(tokens: Seq<Seq<char>>) -> Seq<Seq<char>> {
    nonempty_trimmed(split_on(bracket_list_inner(tokens), ','))
}

/// The bracket list at the start of the arguments `positional`:
/// `positional[0]` must open it with `[`; it runs up to the first argument
/// ending with `]`, and its arguments are taken as they are, joined by
/// spaces. The argument right after it, if any, is the output directory,
/// whatever it holds; later arguments play no part. There is no batch when the list is not opened, never closed,
/// or holds no entry.
pub open spec fn spec_bracket_list(positional: Seq<Seq<char>>) -> Option<
    (Seq<Seq<char>>, Option<Seq<char>>),
> {
    if positional.len() < 1 || !starts_with(positional[0], '[') {
        None
    } else {
        match first_closing(positional, 0) {
            None => None,
            Some(k) => {
                let inputs = bracket_list_entries(positional.subrange(0, k + 1));
                if inputs.len() == 0 {
                    None
                } else {
                    Some(
                        (
                            inputs,
                            if k + 1 < positional.len() {
                                Some(positional[k + 1])
                            } else {
                                None
                            },
                        ),
                    )
                }
            },
        }
    }
}

/// Whether `args[i]` opens a well-formed option: `-prepress`,
/// `-mega-prepress`, `-dpi` followed by a number, or `-format` followed by a
/// format name.
pub open spec fn option_width(args: Seq<Seq<char>>, i: int) -> int {
    if !(0 <= i < args.len()) {
        0
    } else if args[i] == "-prepress"@ || args[i] == "-mega-prepress"@ {
        1
    } else if args[i] == "-dpi"@ && i + 1 < args.len() && spec_parse_u32(args[i + 1]) is Some {
        2
    } else if args[i] == "-format"@ && i + 1 < args.len() && spec_parse_format(args[i + 1]) is Some {
        2
    } else {
        0
    }
}

/// Where the run of well-formed options that starts at `i` ends.
pub open spec fn leading_options_end(args: Seq<Seq<char>>, i: int) -> int
    decreases args.len() - i,
{
    if option_width(args, i) > 0 {
        leading_options_end(args, i + option_width(args, i))
    } else {
        i
    }
}

/// The batch form of the command line `args` (program name first): after
/// a leading run of well-formed options, as in
/// `p2i -format webp [a.pdf, b.pdf] out/`, the arguments as they stand
/// must begin with a bracket list (`spec_bracket_list`). Without leading
/// options the list must start at `args[1]`.
pub open spec fn spec_parse_batch_args(args: Seq<Seq<char>>) -> Option<
    (Seq<Seq<char>>, Option<Seq<char>>),
> {
    if args.len() < 1 {
        None
    } else {
        spec_bracket_list(args.subrange(leading_options_end(args, 1), args.len() as int))
    }
}

pub(crate) proof fn lemma_leading_options_end_range(args: Seq<Seq<char>>, i: int)
    requires
        0 <= i <= args.len(),
    ensures
        i <= leading_options_end(args, i) <= args.len(),
        option_width(args, leading_options_end(args, i)) == 0,
    decreases args.len() - i,
{
    if option_width(args, i) > 0 {
        lemma_leading_options_end_range(args, i + option_width(args, i));
    }
}

/// How many arguments the option at `args[i]` takes, 0 when it is none.
fn option_width_at(args: &Vec<String>, i: usize) -> (w: usize)
    ensures
        w == option_width(args.deep_view(), i as int),
{
    let ghost dv = args.deep_view();
    if i >= args.len() {
        return 0;
    }
    assert(dv[i as int] == args[i as int]@);
    let a = args[i].as_str();
    if str_equals(a, "-prepress") || str_equals(a, "-mega-prepress") {
        return 1;
    }
    if i + 1 < args.len() {
        assert(dv[i + 1] == args[i + 1]@);
        if str_equals(a, "-dpi") && parse_u32(args[i + 1].as_str()).is_some() {
            return 2;
        }
        if str_equals(a, "-format") && parse_format(args[i + 1].as_str()).is_some() {
            return 2;
        }
    }
    0
}

fn str_starts_with(s: &str, c: char) -> (b: bool)
    ensures
        b == starts_with(s@, c),
{
    let n = s.unicode_len();
    n > 0 && s.get_char(0) == c
}

fn str_ends_with(s: &str, c: char) -> (b: bool)
    ensures
        b == ends_with(s@, c),
{
    let n = s.unicode_len();
    n > 0 && s.get_char(n - 1) == c
}

/// Index of the first of `args[from..]` that ends with `]`.
fn find_closing(args: &Vec<String>, from: usize) -> (r: Option<usize>)
    ensures
        r matches Some(k) ==> first_closing(args.deep_view(), from as int) == Some(k as int),
        r is None ==> first_closing(args.deep_view(), from as int) is None,
{
    let ghost dv = args.deep_view();
    let mut j = from;
    while j < args.len()
        invariant
            from <= j,
            dv == args.deep_view(),
            first_closing(dv, from as int) == first_closing(dv, j as int),
        decreases args.len() - j,
    {
        assert(dv[j as int] == args[j as int]@);
        if str_ends_with(args[j].as_str(), ']') {
            return Some(j);
        }
        j = j + 1;
    }
    None
}

/// Joins `args[0..=k]` with single spaces.
fn join_tokens(args: &Vec<String>, k: usize) -> (joined: String)
    requires
        k < args.len(),
    ensures
        joined@ == join_with_space(args.deep_view().subrange(0, k + 1)),
{
    let ghost dv = args.deep_view();
    let mut joined = String::new();
    let mut t: usize = 0;
    assert(dv.subrange(0, 0) =~= Seq::<Seq<char>>::empty());
    while t <= k
        invariant
            t <= k + 1,
            k < args.len(),
            dv == args.deep_view(),
            joined@ == join_with_space(dv.subrange(0, t as int)),
        decreases k + 1 - t,
    {
        assert(dv[t as int] == args[t as int]@);
        let ghost before = joined@;
        proof {
            reveal_strlit(" ");
        }
        if t > 0 {
            joined.append(" ");
        }
        joined.append(args[t].as_str());
        assert(dv.subrange(0, t + 1).drop_last() == dv.subrange(0, t as int));
        assert(dv.subrange(0, t + 1).last() == dv[t as int]);
        if t == 0 {
            assert(joined@ == dv[0]);
        } else {
            assert(joined@ == before + seq![' '] + dv[t as int]);
        }
        t = t + 1;
    }
    joined
}

/// Appends the trimmed text of `cs[lo..hi]` to `out` unless it is empty.
fn push_trimmed(joined: &str, cs: &Vec<char>, lo: usize, hi: usize, out: &mut Vec<String>)
    requires
        cs@ == joined@,
        lo <= hi <= cs.len(),
    ensures
        ({
            let t = trim(cs@.subrange(lo as int, hi as int));
            final(out).deep_view() == if t.len() > 0 {
                old(out).deep_view().push(t)
            } else {
                old(out).deep_view()
            }
        }),
{
    let l = skip_leading(cs, lo, hi, CharClass::Whitespace);
    let r = skip_trailing(cs, l, hi, CharClass::Whitespace);
    assert(trim(cs@.subrange(lo as int, hi as int)) == cs@.subrange(l as int, r as int));
    if l < r {
        let piece = joined.substring_char(l, r).to_owned();
        let ghost before = out.deep_view();
        out.push(piece);
        assert(out.deep_view() =~= before.push(piece@));
    }
}

/// Reads the bracket list that starts the positional arguments
/// `positional`, such as `[a.pdf, b.pdf]`, possibly spread over several
/// arguments, and the output directory after it.
pub fn read_bracket_list(positional: &Vec<String>) -> (r: Option<(Vec<String>, Option<String>)>)
    ensures
        r.deep_view() == spec_bracket_list(positional.deep_view()),
{
    let args = positional;
    let ghost dv = args.deep_view();
    if args.len() < 1 {
        return None;
    }
    assert(dv[0] == args[0]@);
    if !str_starts_with(args[0].as_str(), '[') {
        return None;
    }
    let k = match find_closing(args, 0) {
        None => {
            return None;
        },
        Some(k) => k,
    };
    proof {
        lemma_first_closing_range(dv, 0);
    }
    let joined = join_tokens(args, k);
    let cs = chars_of(joined.as_str());
    let n = cs.len();
    let a = skip_leading(&cs, 0, n, CharClass::OpenBracket);
    let b = skip_trailing(&cs, a, n, CharClass::CloseBracket);
    assert(cs@.subrange(0, n as int) == cs@);
    let ghost inner = cs@.subrange(a as int, b as int);
    assert(inner == bracket_list_inner(dv.subrange(0, k + 1)));

    let mut out: Vec<String> = Vec::new();
    let ghost mut completed: Seq<Seq<char>> = Seq::empty();
    let mut start = a;
    let mut i = a;
    assert(cs@.subrange(a as int, a as int) == Seq::<char>::empty());
    assert(out.deep_view() =~= Seq::<Seq<char>>::empty());
    while i < b
        invariant
            a <= start <= i <= b <= n,
            n == cs.len(),
            cs@ == joined@,
            split_on(cs@.subrange(a as int, i as int), ',') == completed.push(
                cs@.subrange(start as int, i as int),
            ),
            out.deep_view() == nonempty_trimmed(completed),
        decreases b - i,
    {
        let ghost pre = cs@.subrange(a as int, i as int);
        assert(cs@.subrange(a as int, i + 1).drop_last() == pre);
        assert(cs@.subrange(a as int, i + 1).last() == cs@[i as int]);
        if cs[i] == ',' {
            push_trimmed(joined.as_str(), &cs, start, i, &mut out);
            proof {
                let piece = cs@.subrange(start as int, i as int);
                assert(completed.push(piece).drop_last() == completed);
                completed = completed.push(piece);
            }
            start = i + 1;
            assert(cs@.subrange(start as int, i + 1) == Seq::<char>::empty());
        } else {
            let ghost piece = cs@.subrange(start as int, i as int);
            assert(piece.push(cs@[i as int]) =~= cs@.subrange(start as int, i + 1));
            assert(completed.push(piece).update(completed.len() as int, piece.push(cs@[i as int]))
                =~= completed.push(cs@.subrange(start as int, i + 1)));
        }
        i = i + 1;
    }
    push_trimmed(joined.as_str(), &cs, start, b, &mut out);
    proof {
        let last = cs@.subrange(start as int, b as int);
        assert(completed.push(last).drop_last() == completed);
    }
    if out.len() == 0 {
        return None;
    }
    let output_dir = if k + 1 < args.len() {
        assert(dv[k + 1] == args[k + 1]@);
        Some(args[k + 1].clone())
    } else {
        None
    };
    Some((out, output_dir))
}

/// Reads the batch form of the command line `args` (program name first):
/// after a leading run of well-formed options, the arguments must begin
/// with a bracket list such as `[a.pdf, b.pdf]`, possibly spread over
/// several arguments, followed by an optional output directory.
pub fn parse_batch_args(args: &Vec<String>) -> (r: Option<(Vec<String>, Option<String>)>)
    ensures
        r.deep_view() == spec_parse_batch_args(args.deep_view()),
{
    let ghost dv = args.deep_view();
    if args.len() < 1 {
        return None;
    }
    let mut s: usize = 1;
    while option_width_at(args, s) > 0
        invariant
            1 <= s <= args.len(),
            dv == args.deep_view(),
            leading_options_end(dv, 1) == leading_options_end(dv, s as int),
        decreases args.len() - s,
    {
        s = s + option_width_at(args, s);
    }
    let mut rest: Vec<String> = Vec::new();
    let mut j = s;
    assert(rest.deep_view() =~= dv.subrange(s as int, s as int));
    while j < args.len()
        invariant
            s <= j <= args.len(),
            dv == args.deep_view(),
            rest.deep_view() == dv.subrange(s as int, j as int),
        decreases args.len() - j,
    {
        let ghost before = rest.deep_view();
        assert(dv[j as int] == args[j as int]@);
        rest.push(args[j].clone());
        assert(rest.deep_view() =~= before.push(dv[j as int]));
        assert(dv.subrange(s as int, j + 1) =~= dv.subrange(s as int, j as int).push(dv[j as int]));
        j = j + 1;
    }
    read_bracket_list(&rest)
}

pub(crate) proof fn lemma_first_closing_range(args: Seq<Seq<char>>, from: int)
    ensures
        first_closing(args, from) matches Some(k) ==> from <= k < args.len() && ends_with(
            args[k],
            ']',
        ),
    decreases args.len() - from,
{
    if 0 <= from < args.len() && !ends_with(args[from], ']') {
        lemma_first_closing_range(args, from + 1);
    }
}

/// An entry that is clean: not empty, no whitespace at either end, no comma.
pub open spec fn is_clean_entry(e: Seq<char>) -> bool {
    &&& e.len() > 0
    &&& !is_whitespace(e[0])
    &&& !is_whitespace(e.last())
    &&& forall|j: int| 0 <= j < e.len() ==> #[trigger] e[j] != ','
}

proof fn lemma_trim_is_subrange(s: Seq<char>)
    ensures
        exists|lo: int, hi: int| 0 <= lo <= hi <= s.len() && trim(s) == s.subrange(lo, hi),
{
    let a = strip_leading(s, CharClass::Whitespace);
    lemma_strip_leading_result(s, CharClass::Whitespace);
    lemma_strip_trailing_result(a, CharClass::Whitespace);
    let lo = s.len() - a.len();
    let hi = lo + trim(s).len();
    assert(trim(s) =~= s.subrange(lo, hi));
}

proof fn lemma_nonempty_trimmed_clean(parts: Seq<Seq<char>>)
    requires
        forall|i: int, j: int|
            0 <= i < parts.len() && 0 <= j < parts[i].len() ==> parts[i][j] != ',',
    ensures
        forall|k: int|
            0 <= k < nonempty_trimmed(parts).len() ==> is_clean_entry(
                #[trigger] nonempty_trimmed(parts)[k],
            ),
    decreases parts.len(),
{
    if parts.len() > 0 {
        let init = parts.drop_last();
        assert forall|i: int, j: int|
            0 <= i < init.len() && 0 <= j < init[i].len() implies init[i][j] != ',' by {
            assert(init[i] == parts[i]);
        }
        lemma_nonempty_trimmed_clean(init);
        let p = parts.last();
        let t = trim(p);
        lemma_trim_result(p);
        lemma_trim_is_subrange(p);
        let (lo, hi) = choose|lo: int, hi: int| 0 <= lo <= hi <= p.len() && t == p.subrange(lo, hi);
        assert forall|j: int| 0 <= j < t.len() implies #[trigger] t[j] != ',' by {
            assert(t[j] == p[lo + j]);
            assert(parts[parts.len() - 1] == p);
        }
        let rest = nonempty_trimmed(init);
        assert forall|k: int|
            0 <= k < nonempty_trimmed(parts).len() implies is_clean_entry(
                #[trigger] nonempty_trimmed(parts)[k],
            ) by {
            if k < rest.len() {
                assert(nonempty_trimmed(parts)[k] == rest[k]);
            } else {
                assert(nonempty_trimmed(parts)[k] == t);
            }
        }
    }
}

proof fn lemma_bracket_list_inputs_clean(args: Seq<Seq<char>>)
    ensures
        spec_bracket_list(args) matches Some((inputs, _)) ==> {
            &&& inputs.len() >= 1
            &&& forall|k: int| 0 <= k < inputs.len() ==> is_clean_entry(#[trigger] inputs[k])
        },
{
    if args.len() >= 1 && starts_with(args[0], '[') {
        if let Some(k) = first_closing(args, 0) {
            let tokens = args.subrange(0, k + 1);
            lemma_split_on_pieces_lack_sep(bracket_list_inner(tokens), ',');
            lemma_nonempty_trimmed_clean(split_on(bracket_list_inner(tokens), ','));
        }
    }
}

/// Every input of a batch is a clean path: spaces around commas and
/// paths are ignored, and empty entries are dropped; a batch holds at least
/// one input.
pub proof fn lemma_batch_inputs_clean(args: Seq<Seq<char>>)
    ensures
        spec_parse_batch_args(args) matches Some((inputs, _)) ==> {
            &&& inputs.len() >= 1
            &&& forall|k: int| 0 <= k < inputs.len() ==> is_clean_entry(#[trigger] inputs[k])
        },
{
    if args.len() >= 1 {
        lemma_bracket_list_inputs_clean(
            args.subrange(leading_options_end(args, 1), args.len() as int),
        );
    }
}

/// The options read from `i` depend only on the arguments from there on.
pub(crate) proof fn lemma_leading_options_end_suffix(
    a: Seq<Seq<char>>,
    i: int,
    b: Seq<Seq<char>>,
    j: int,
)
    requires
        0 <= i <= a.len(),
        0 <= j <= b.len(),
        a.subrange(i, a.len() as int) == b.subrange(j, b.len() as int),
    ensures
        leading_options_end(a, i) - i == leading_options_end(b, j) - j,
    decreases a.len() - i,
{
    let sa = a.subrange(i, a.len() as int);
    let sb = b.subrange(j, b.len() as int);
    assert(sa.len() == sb.len());
    if i < a.len() {
        assert(a[i] == sa[0] && b[j] == sb[0]);
        if i + 1 < a.len() {
            assert(a[i + 1] == sa[1] && b[j + 1] == sb[1]);
        }
        assert(option_width(a, i) == option_width(b, j));
        let w = option_width(a, i);
        if w > 0 {
            assert(a.subrange(i + w, a.len() as int) =~= sa.subrange(w, sa.len() as int));
            assert(b.subrange(j + w, b.len() as int) =~= sb.subrange(w, sb.len() as int));
            lemma_leading_options_end_suffix(a, i + w, b, j + w);
        }
    }
}

/// When the options of `a` from `i` run to the end of `a`, the options of
/// `a + r` from `i` run on from the end of `a`.
pub(crate) proof fn lemma_leading_options_end_concat(a: Seq<Seq<char>>, r: Seq<Seq<char>>, i: int)
    requires
        0 <= i <= a.len(),
        leading_options_end(a, i) == a.len(),
    ensures
        leading_options_end(a + r, i) == leading_options_end(a + r, a.len() as int),
    decreases a.len() - i,
{
    if i < a.len() {
        let w = option_width(a, i);
        assert(w > 0);
        assert((a + r)[i] == a[i]);
        if w == 2 {
            assert((a + r)[i + 1] == a[i + 1]);
        }
        assert(option_width(a + r, i) == w);
        lemma_leading_options_end_range(a, i + w);
        lemma_leading_options_end_concat(a, r, i + w);
    }
}

/// Options written before a bracket list change neither the inputs nor the
/// output directory of the batch: when `options` is a run of well-formed
/// options (each `-prepress`, `-mega-prepress`, or `-dpi` / `-format` with
/// its value) and nothing else, the command lines `p options rest` and
/// `p rest` read the same batch.
pub proof fn lemma_batch_after_leading_options(
    p: Seq<char>,
    options: Seq<Seq<char>>,
    rest: Seq<Seq<char>>,
)
    requires
        leading_options_end(seq![p] + options, 1) == options.len() + 1,
    ensures
        spec_parse_batch_args(seq![p] + options + rest) == spec_parse_batch_args(seq![p] + rest),
{
    let a = seq![p] + options;
    let full = a + rest;
    let short = seq![p] + rest;
    lemma_leading_options_end_concat(a, rest, 1);
    assert(full.subrange(a.len() as int, full.len() as int) =~= short.subrange(
        1,
        short.len() as int,
    ));
    lemma_leading_options_end_suffix(full, a.len() as int, short, 1);
    lemma_leading_options_end_range(full, a.len() as int);
    let e = leading_options_end(full, 1);
    let f = leading_options_end(short, 1);
    assert(full.subrange(e, full.len() as int) =~= short.subrange(f, short.len() as int));
}

/// A closing argument found from `m` is found again in any arguments that
/// agree with these from `m` up to it.
pub(crate) proof fn lemma_first_closing_prefix(
    p: Seq<Seq<char>>,
    q: Seq<Seq<char>>,
    m: int,
    k: int,
)
    requires
        0 <= m,
        first_closing(p, m) == Some(k),
        k < q.len(),
        forall|t: int| m <= t <= k ==> p[t] == q[t],
    ensures
        first_closing(q, m) == Some(k),
    decreases k - m,
{
    lemma_first_closing_range(p, m);
    if m < k {
        lemma_first_closing_prefix(p, q, m + 1, k);
    }
}

/// No argument from `m` on closes a list exactly when none ends with `]`.
pub(crate) proof fn lemma_first_closing_none(p: Seq<Seq<char>>, m: int)
    requires
        0 <= m,
    ensures
        first_closing(p, m) is None <==> forall|t: int| m <= t < p.len() ==> !ends_with(
            #[trigger] p[t],
            ']',
        ),
    decreases p.len() - m,
{
    if m < p.len() {
        lemma_first_closing_none(p, m + 1);
    }
}

proof fn lemma_join_ends(t: Seq<Seq<char>>)
    requires
        t.len() >= 1,
        t[0].len() >= 1,
        t.last().len() >= 1,
    ensures
        join_with_space(t).len() >= 1,
        join_with_space(t)[0] == t[0][0],
        join_with_space(t).last() == t.last().last(),
{
    lemma_join_first(t);
}

proof fn lemma_join_first(t: Seq<Seq<char>>)
    requires
        t.len() >= 1,
        t[0].len() >= 1,
    ensures
        join_with_space(t).len() >= 1,
        join_with_space(t)[0] == t[0][0],
    decreases t.len(),
{
    if t.len() > 1 {
        let init = t.drop_last();
        assert(init[0] == t[0]);
        lemma_join_first(init);
    }
}

/// A bracket list read the same whether the shell keeps it in one argument
/// (quoted, `'[a.pdf, b.pdf]'`) or splits it at spaces (escaped,
/// `\[a.pdf, b.pdf\]`): the pieces `t` joined by spaces give one argument
/// with the same inputs and the same output directory.
pub proof fn lemma_quoted_and_split_lists_agree(
    p: Seq<char>,
    t: Seq<Seq<char>>,
    rest: Seq<Seq<char>>,
)
    requires
        t.len() >= 1,
        starts_with(t[0], '['),
        ends_with(t.last(), ']'),
        forall|k: int| 0 <= k < t.len() - 1 ==> !ends_with(#[trigger] t[k], ']'),
    ensures
        spec_parse_batch_args(seq![p, join_with_space(t)] + rest) == spec_parse_batch_args(
            seq![p] + t + rest,
        ),
{
    let b = join_with_space(t);
    let quoted = seq![p, b] + rest;
    let split = seq![p] + t + rest;
    lemma_join_ends(t);
    reveal_strlit("-prepress");
    reveal_strlit("-mega-prepress");
    reveal_strlit("-dpi");
    reveal_strlit("-format");
    assert(quoted[1] == b);
    assert(split[1] == t[0]);
    assert(b[0] != "-prepress"@[0]);
    assert(option_width(quoted, 1) == 0);
    assert(option_width(split, 1) == 0);
    let pq = quoted.subrange(1, quoted.len() as int);
    let ps = split.subrange(1, split.len() as int);
    assert(pq =~= seq![b] + rest);
    assert(ps =~= t + rest);
    assert(pq[0] == b);
    assert(first_closing(pq, 0) == Some(0int));
    let k = t.len() - 1;
    assert forall|j: int| 0 <= j <= k implies t[j] == ps[j] by {}
    assert(first_closing(t, 0) == Some(k)) by {
        lemma_first_closing_none(t.subrange(0, k), 0);
        lemma_first_closing_walk(t, 0, k);
    }
    lemma_first_closing_prefix(t, ps, 0, k);
    assert(ps.subrange(0, k + 1) =~= t);
    assert(pq.subrange(0, 1) =~= seq![b]);
    assert(join_with_space(seq![b]) == b);
    if rest.len() > 0 {
        assert(pq[1] == rest[0]);
        assert(ps[k + 1] == rest[0]);
    }
}

/// Walking from `m` over arguments that do not end with `]` reaches the
/// one at `k` that does.
proof fn lemma_first_closing_walk(t: Seq<Seq<char>>, m: int, k: int)
    requires
        0 <= m <= k < t.len(),
        ends_with(t[k], ']'),
        forall|j: int| m <= j < k ==> !ends_with(#[trigger] t[j], ']'),
    ensures
        first_closing(t, m) == Some(k),
    decreases k - m,
{
    if m < k {
        lemma_first_closing_walk(t, m + 1, k);
    }
}

/// The options `-format <name>` (for each name `-format` accepts),
/// `-dpi <n>` (for each number `n`), `-prepress` and `-mega-prepress`,
/// written before the rest of the command line, change neither the inputs
/// nor the output directory of the batch that is read.
pub proof fn lemma_batch_ignores_each_leading_option(
    p: Seq<char>,
    name: Seq<char>,
    n: u32,
    rest: Seq<Seq<char>>,
)
    requires
        name == "jpg"@ || name == "jpeg"@ || name == "png"@ || name == "webp"@ || name == "tiff"@,
    ensures
        spec_parse_batch_args(seq![p, "-format"@, name] + rest) == spec_parse_batch_args(
            seq![p] + rest,
        ),
        spec_parse_batch_args(seq![p, "-dpi"@, decimal_digits(n as nat)] + rest)
            == spec_parse_batch_args(seq![p] + rest),
        spec_parse_batch_args(seq![p, "-prepress"@] + rest) == spec_parse_batch_args(
            seq![p] + rest,
        ),
        spec_parse_batch_args(seq![p, "-mega-prepress"@] + rest) == spec_parse_batch_args(
            seq![p] + rest,
        ),
{
    lemma_literals_distinct();
    lemma_parse_u32_decimal(n);
    reveal_strlit("jpg");
    reveal_strlit("jpeg");
    reveal_strlit("png");
    reveal_strlit("webp");
    reveal_strlit("tiff");
    assert(spec_parse_format(name) is Some);

    let f = seq!["-format"@, name];
    let af = seq![p] + f;
    assert(af =~= seq![p, "-format"@, name]);
    assert(option_width(af, 1) == 2);
    assert(leading_options_end(af, 3) == 3);
    lemma_batch_after_leading_options(p, f, rest);
    assert(seq![p] + f + rest =~= seq![p, "-format"@, name] + rest);

    let d = seq!["-dpi"@, decimal_digits(n as nat)];
    let ad = seq![p] + d;
    assert(ad =~= seq![p, "-dpi"@, decimal_digits(n as nat)]);
    assert(option_width(ad, 1) == 2);
    assert(leading_options_end(ad, 3) == 3);
    lemma_batch_after_leading_options(p, d, rest);
    assert(seq![p] + d + rest =~= seq![p, "-dpi"@, decimal_digits(n as nat)] + rest);

    let q = seq!["-prepress"@];
    let aq = seq![p] + q;
    assert(aq =~= seq![p, "-prepress"@]);
    assert(option_width(aq, 1) == 1);
    assert(leading_options_end(aq, 2) == 2);
    lemma_batch_after_leading_options(p, q, rest);
    assert(seq![p] + q + rest =~= seq![p, "-prepress"@] + rest);

    let m = seq!["-mega-prepress"@];
    let am = seq![p] + m;
    assert(am =~= seq![p, "-mega-prepress"@]);
    assert(option_width(am, 1) == 1);
    assert(leading_options_end(am, 2) == 2);
    lemma_batch_after_leading_options(p, m, rest);
    assert(seq![p] + m + rest =~= seq![p, "-mega-prepress"@] + rest);
}

} // verus!
