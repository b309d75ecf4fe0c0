//! Names of the files that rendered pages are written to:
//! `<stem>-p<NNN>.<ext>`, with the page number counted from one and padded
//! with zeros to three digits.
use vstd::prelude::*;
use crate::args::{OutputFormat, spec_extension};
use crate::cli::{decimal_value, is_digit};

verus! {

/// The ASCII digit for `d < 10`.
pub open spec fn digit_char(d: nat) -> char {
    (d + 48) as char
}

/// The decimal digits of `n`, most significant first, without leading zeros.
pub open spec fn decimal_digits(n: nat) -> Seq<char>
    decreases n,
{
    if n < 10 {
        seq![digit_char(n)]
    } else {
        decimal_digits(n / 10).push(digit_char(n % 10))
    }
}

/// `s` with zeros put in front until it is at least `width` long.
pub open spec fn zero_padded(s: Seq<char>, width: nat) -> Seq<char> {
    if s.len() >= width {
        s
    } else {
        Seq::new((width - s.len()) as nat, |i: int| '0') + s
    }
}

/// The page number as written in a file name: the page's position counted
/// from one, padded with zeros to three digits.
pub open spec fn page_number_text(page_index: nat) -> Seq<char> {
    zero_padded(decimal_digits(page_index + 1), 3)
}

/// `<stem>-p<NNN>.<ext>`.
pub open spec fn spec_page_file_name(stem: Seq<char>, page_index: nat, format: OutputFormat) -> Seq<
    char,
> {
    stem + seq!['-', 'p'] + page_number_text(page_index) + seq!['.'] + spec_extension(format)
}

proof fn lemma_digit_char_injective(a: nat, b: nat)
    requires
        a < 10,
        b < 10,
        digit_char(a) == digit_char(b),
    ensures
        a == b,
{
    assert(digit_char(a) as u32 == a + 48);
    assert(digit_char(b) as u32 == b + 48);
}

pub(crate) proof fn lemma_decimal_digits_shape(n: nat)
    ensures
        decimal_digits(n).len() >= 1,
        n < 10 ==> decimal_digits(n).len() == 1,
        n >= 10 ==> decimal_digits(n).len() >= 2,
        n >= 1 ==> decimal_digits(n)[0] != '0',
        n >= 1 ==> decimal_digits(n).len() <= n,
    decreases n,
{
    if n >= 10 {
        lemma_decimal_digits_shape(n / 10);
    } else {
        assert(digit_char(n) as u32 == n + 48);
    }
}

proof fn lemma_decimal_digits_injective(a: nat, b: nat)
    requires
        decimal_digits(a) == decimal_digits(b),
    ensures
        a == b,
    decreases a,
{
    lemma_decimal_digits_shape(a);
    lemma_decimal_digits_shape(b);
    if a < 10 {
        lemma_digit_char_injective(a, b);
    } else {
        let da = decimal_digits(a);
        let db = decimal_digits(b);
        assert(da.drop_last() == decimal_digits(a / 10));
        assert(db.drop_last() == decimal_digits(b / 10));
        lemma_decimal_digits_injective(a / 10, b / 10);
        assert(da.last() == digit_char(a % 10));
        assert(db.last() == digit_char(b % 10));
        lemma_digit_char_injective(a % 10, b % 10);
    }
}

proof fn lemma_zero_padded_injective(da: Seq<char>, db: Seq<char>, width: nat)
    requires
        da.len() >= 1,
        db.len() >= 1,
        da[0] != '0',
        db[0] != '0',
        zero_padded(da, width) == zero_padded(db, width),
    ensures
        da == db,
{
    let pa = zero_padded(da, width);
    let pb = zero_padded(db, width);
    if da.len() >= width && db.len() >= width {
    } else if da.len() >= width {
        assert(pb[0] == '0');
        assert(pa[0] == da[0]);
    } else if db.len() >= width {
        assert(pa[0] == '0');
        assert(pb[0] == db[0]);
    } else {
        let za = (width - da.len()) as int;
        let zb = (width - db.len()) as int;
        if za < zb {
            assert(pa[za] == da[0]);
            assert(pb[za] == '0');
        } else if zb < za {
            assert(pb[zb] == db[0]);
            assert(pa[zb] == '0');
        } else {
            assert(da =~= pa.subrange(za, width as int));
            assert(db =~= pb.subrange(zb, width as int));
        }
    }
}

/// Different pages of one document never share a file name.
pub proof fn lemma_page_file_names_distinct(
    stem: Seq<char>,
    format: OutputFormat,
    a: nat,
    b: nat,
)
    requires
        a != b,
    ensures
        spec_page_file_name(stem, a, format) != spec_page_file_name(stem, b, format),
{
    let na = spec_page_file_name(stem, a, format);
    let nb = spec_page_file_name(stem, b, format);
    if na == nb {
        let head = stem + seq!['-', 'p'];
        let tail = seq!['.'] + spec_extension(format);
        let pa = page_number_text(a);
        let pb = page_number_text(b);
        assert(na =~= head + pa + tail);
        assert(nb =~= head + pb + tail);
        assert(pa.len() == pb.len());
        assert(pa =~= na.subrange(head.len() as int, (head.len() + pa.len()) as int));
        assert(pb =~= nb.subrange(head.len() as int, (head.len() + pb.len()) as int));
        lemma_decimal_digits_shape(a + 1);
        lemma_decimal_digits_shape(b + 1);
        lemma_zero_padded_injective(decimal_digits(a + 1), decimal_digits(b + 1), 3);
        lemma_decimal_digits_injective(a + 1, b + 1);
    }
}

fn digit_str(d: u64) -> (s: &'static str)
    requires
        d < 10,
    ensures
        s@ == seq![digit_char(d as nat)],
{
    match d {
        0 => {
            proof {
                reveal_strlit("0");
            }
            "0"
        },
        1 => {
            proof {
                reveal_strlit("1");
            }
            "1"
        },
        2 => {
            proof {
                reveal_strlit("2");
            }
            "2"
        },
        3 => {
            proof {
                reveal_strlit("3");
            }
            "3"
        },
        4 => {
            proof {
                reveal_strlit("4");
            }
            "4"
        },
        5 => {
            proof {
                reveal_strlit("5");
            }
            "5"
        },
        6 => {
            proof {
                reveal_strlit("6");
            }
            "6"
        },
        7 => {
            proof {
                reveal_strlit("7");
            }
            "7"
        },
        8 => {
            proof {
                reveal_strlit("8");
            }
            "8"
        },
        _ => {
            proof {
                reveal_strlit("9");
            }
            "9"
        },
    }
}

/// Appends the decimal digits of `n` to `out`.
fn push_decimal(out: &mut String, n: u64)
    ensures
        final(out)@ == old(out)@ + decimal_digits(n as nat),
    decreases n,
{
    if n >= 10 {
        push_decimal(out, n / 10);
    }
    out.append(digit_str(n % 10));
}

/// The number of decimal digits of `n`.
fn decimal_len(n: u64) -> (r: u64)
    ensures
        r == decimal_digits(n as nat).len(),
{
    proof {
        lemma_decimal_digits_shape(n as nat);
    }
    let mut len: u64 = 1;
    let mut m = n;
    while m >= 10
        invariant
            m <= n,
            n >= 1 ==> decimal_digits(n as nat).len() <= n,
            len + decimal_digits(m as nat).len() == decimal_digits(n as nat).len() + 1,
            len <= decimal_digits(n as nat).len(),
        decreases m,
    {
        proof {
            lemma_decimal_digits_shape(m as nat);
            lemma_decimal_digits_shape(m as nat / 10);
        }
        m = m / 10;
        len = len + 1;
    }
    len
}

/// The file name of page `page_index` (counted from zero) of the document
/// `stem`: `<stem>-p<NNN>.<ext>`, e.g. `artwork-p001.jpg` for the first page.
pub fn page_file_name(stem: &str, page_index: u32, format: &OutputFormat) -> (name: String)
    ensures
        name@ == spec_page_file_name(stem@, page_index as nat, *format),
{
    let mut name = stem.to_owned();
    proof {
        reveal_strlit("-p");
        reveal_strlit(".");
        reveal_strlit("0");
    }
    name.append("-p");
    let n: u64 = page_index as u64 + 1;
    let len = decimal_len(n);
    let pad: u64 = if len < 3 {
        3 - len
    } else {
        0
    };
    let ghost base = name@;
    let mut z: u64 = 0;
    while z < pad
        invariant
            z <= pad,
            name@ == base + Seq::new(z as nat, |i: int| '0'),
        decreases pad - z,
    {
        proof {
            reveal_strlit("0");
        }
        name.append("0");
        assert(Seq::new((z + 1) as nat, |i: int| '0') =~= Seq::new(z as nat, |i: int| '0').push(
            '0',
        ));
        z = z + 1;
    }
    push_decimal(&mut name, n);
    assert(name@ =~= stem@ + seq!['-', 'p'] + page_number_text(page_index as nat)) by {
        if len >= 3 {
            assert(Seq::new(0nat, |i: int| '0') =~= Seq::<char>::empty());
        }
    }
    name.append(".");
    name.append(format.extension());
    name
}

/// `a` comes before `b` in the order of character codes: at the first
/// position where they differ, `a` has the smaller character.
pub open spec fn lex_less(a: Seq<char>, b: Seq<char>) -> bool {
    exists|k: int|
        0 <= k < a.len() && k < b.len() && a.subrange(0, k) == b.subrange(0, k) && (a[k] as u32) < (
        b[k] as u32)
}

proof fn lemma_page_number_digits(i: nat)
    requires
        i + 1 <= 999,
    ensures
        page_number_text(i) == seq![
            digit_char((i + 1) / 100),
            digit_char(((i + 1) / 10) % 10),
            digit_char((i + 1) % 10),
        ],
{
    let n = i + 1;
    assert((0 + 48) as char == '0');
    if n < 10 {
        assert(decimal_digits(n) == seq![digit_char(n)]);
        assert(Seq::new(2, |j: int| '0') + seq![digit_char(n)] =~= seq![
            digit_char(0),
            digit_char(0),
            digit_char(n),
        ]);
    } else if n < 100 {
        assert(decimal_digits(n / 10) == seq![digit_char(n / 10)]);
        assert(decimal_digits(n) =~= seq![digit_char(n / 10), digit_char(n % 10)]);
        assert(Seq::new(1, |j: int| '0') + seq![digit_char(n / 10), digit_char(n % 10)] =~= seq![
            digit_char(0),
            digit_char(n / 10),
            digit_char(n % 10),
        ]);
    } else {
        let m = n / 10;
        assert(10 <= m < 100);
        assert(m / 10 == n / 100);
        assert(decimal_digits(m / 10) == seq![digit_char(m / 10)]);
        assert(decimal_digits(m) =~= seq![digit_char(m / 10), digit_char(m % 10)]);
        assert(decimal_digits(n) =~= seq![digit_char(n / 100), digit_char(m % 10), digit_char(n % 10)]);
    }
}

proof fn lemma_three_digit_order(na: int, nb: int)
    requires
        1 <= na < nb <= 999,
    ensures
        na / 100 <= nb / 100,
        na / 100 == nb / 100 ==> (na / 10) % 10 <= (nb / 10) % 10,
        na / 100 == nb / 100 && (na / 10) % 10 == (nb / 10) % 10 ==> na % 10 < nb % 10,
{
    assert(na / 100 <= nb / 100) by (nonlinear_arith)
        requires
            na < nb,
            0 <= na,
    ;
    assert(na == 100 * (na / 100) + 10 * ((na / 10) % 10) + na % 10) by (nonlinear_arith)
        requires
            0 <= na,
    ;
    assert(nb == 100 * (nb / 100) + 10 * ((nb / 10) % 10) + nb % 10) by (nonlinear_arith)
        requires
            0 <= nb,
    ;
}

/// The first three-character window where two page numbers differ.
proof fn lemma_page_numbers_ordered(a: nat, b: nat) -> (k: int)
    requires
        a < b,
        b + 1 <= 999,
    ensures
        0 <= k < 3,
        page_number_text(a).len() == 3,
        page_number_text(b).len() == 3,
        page_number_text(a).subrange(0, k) == page_number_text(b).subrange(0, k),
        (page_number_text(a)[k] as u32) < (page_number_text(b)[k] as u32),
{
    let na = a + 1;
    let nb = b + 1;
    lemma_page_number_digits(a);
    lemma_page_number_digits(b);
    lemma_three_digit_order(na as int, nb as int);
    let pa = page_number_text(a);
    let pb = page_number_text(b);
    if na / 100 < nb / 100 {
        assert(pa.subrange(0, 0) =~= pb.subrange(0, 0));
        0
    } else if (na / 10) % 10 < (nb / 10) % 10 {
        assert(pa.subrange(0, 1) =~= pb.subrange(0, 1));
        1
    } else {
        assert(pa.subrange(0, 2) =~= pb.subrange(0, 2));
        2
    }
}

/// Up to page 999, sorting the file names of a document by character code
/// puts its pages in order.
pub proof fn lemma_page_file_names_sort_in_page_order(
    stem: Seq<char>,
    format: OutputFormat,
    a: nat,
    b: nat,
)
    requires
        a < b,
        b + 1 <= 999,
    ensures
        lex_less(spec_page_file_name(stem, a, format), spec_page_file_name(stem, b, format)),
{
    let k = lemma_page_numbers_ordered(a, b);
    let pa = page_number_text(a);
    let pb = page_number_text(b);
    let head = stem + seq!['-', 'p'];
    let tail = seq!['.'] + spec_extension(format);
    let fa = spec_page_file_name(stem, a, format);
    let fb = spec_page_file_name(stem, b, format);
    assert(fa =~= head + pa + tail);
    assert(fb =~= head + pb + tail);
    let kk = head.len() + k;
    assert(fa.subrange(0, kk) =~= head + pa.subrange(0, k));
    assert(fb.subrange(0, kk) =~= head + pb.subrange(0, k));
    assert(fa[kk] == pa[k]);
    assert(fb[kk] == pb[k]);
    assert(0 <= kk < fa.len() && kk < fb.len() && fa.subrange(0, kk) == fb.subrange(0, kk) && (
    fa[kk] as u32) < (fb[kk] as u32));
}

/// The decimal digits of `n` are digits and read back as `n`.
pub proof fn lemma_decimal_digits_value(n: nat)
    ensures
        decimal_value(decimal_digits(n)) == n,
        forall|k: int| 0 <= k < decimal_digits(n).len() ==> is_digit(#[trigger] decimal_digits(n)[k]),
    decreases n,
{
    let d = decimal_digits(n);
    if n < 10 {
        assert(digit_char(n) as u32 == n + 48);
        assert(d.drop_last() =~= Seq::<char>::empty());
        assert(decimal_value(d.drop_last()) == 0);
        assert(d.last() == digit_char(n));
    } else {
        lemma_decimal_digits_value(n / 10);
        assert(d.drop_last() == decimal_digits(n / 10));
        assert(d.last() == digit_char(n % 10));
        assert(digit_char(n % 10) as u32 == n % 10 + 48);
        assert((n / 10) * 10 + n % 10 == n);
        assert forall|k: int| 0 <= k < d.len() implies is_digit(#[trigger] d[k]) by {
            if k < d.len() - 1 {
                assert(d[k] == decimal_digits(n / 10)[k]);
            }
        }
    }
}

/// Zeros in front of digits do not change the number they write.
proof fn lemma_leading_zeros_value(m: nat, s: Seq<char>)
    ensures
        decimal_value(Seq::new(m, |i: int| '0') + s) == decimal_value(s),
    decreases s.len(), m,
{
    let z = Seq::new(m, |i: int| '0');
    if s.len() == 0 {
        assert(z + s =~= z);
        if m > 0 {
            assert(z.drop_last() =~= Seq::new((m - 1) as nat, |i: int| '0'));
            lemma_leading_zeros_value((m - 1) as nat, s);
            assert(Seq::new((m - 1) as nat, |i: int| '0') + s =~= Seq::new((m - 1) as nat, |i: int| '0'));
            assert(('0' as u32) == 48);
        }
    } else {
        lemma_leading_zeros_value(m, s.drop_last());
        assert((z + s).drop_last() =~= z + s.drop_last());
        assert((z + s).last() == s.last());
    }
}

/// The file name of a page is the document's stem unchanged, then `-p`,
/// then the page's position counted from one written in decimal with at
/// least three digits (zeros in front only to reach three), then `.` and
/// the format's extension.
pub proof fn lemma_page_file_name_parts(stem: Seq<char>, page_index: nat, format: OutputFormat)
    ensures
        ({
            let name = spec_page_file_name(stem, page_index, format);
            let ext = spec_extension(format);
            let start: int = stem.len() as int + 2;
            let end: int = name.len() - ext.len() - 1;
            &&& start + 3 <= end
            &&& name.subrange(0, stem.len() as int) == stem
            &&& name[stem.len() as int] == '-'
            &&& name[stem.len() as int + 1] == 'p'
            &&& name[end] == '.'
            &&& name.subrange(end + 1, name.len() as int) == ext
            &&& forall|k: int| start <= k < end ==> is_digit(#[trigger] name[k])
            &&& decimal_value(name.subrange(start, end)) == page_index + 1
            &&& (end - start > 3 ==> name[start] != '0')
        }),
{
    let n = page_index + 1;
    let d = decimal_digits(n);
    let t = page_number_text(page_index);
    let name = spec_page_file_name(stem, page_index, format);
    let ext = spec_extension(format);
    lemma_decimal_digits_value(n);
    lemma_decimal_digits_shape(n);
    let start: int = stem.len() as int + 2;
    assert(name =~= stem + seq!['-', 'p'] + t + seq!['.'] + ext);
    let end: int = start + t.len();
    assert(name.len() == end + 1 + ext.len());
    assert(name.subrange(0, stem.len() as int) =~= stem);
    assert(name.subrange(start, end) =~= t);
    assert(name.subrange(end + 1, name.len() as int) =~= ext);
    if d.len() >= 3 {
        assert(t == d);
    } else {
        let m: nat = (3 - d.len()) as nat;
        assert(t == Seq::new(m, |i: int| '0') + d);
        lemma_leading_zeros_value(m, d);
        assert forall|k: int| 0 <= k < t.len() implies is_digit(#[trigger] t[k]) by {
            if k >= m {
                assert(t[k] == d[k - m]);
            } else {
                assert(('0' as u32) == 48);
            }
        }
    }
    assert forall|k: int| start <= k < end implies is_digit(#[trigger] name[k]) by {
        assert(name[k] == t[k - start]);
    }
}

} // verus!
