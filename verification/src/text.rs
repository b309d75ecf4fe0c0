//! Character-level text operations on strings viewed as `Seq<char>`:
//! trimming, splitting on a separator, joining with a space.
use vstd::prelude::*;

verus! {

/// Unicode `White_Space` characters, the set that `str::trim` removes.
pub open spec fn is_whitespace(c: char) -> bool {
    let u = c as u32;
    ||| 0x09 <= u <= 0x0D
    ||| u == 0x20
    ||| u == 0x85
    ||| u == 0xA0
    ||| u == 0x1680
    ||| 0x2000 <= u <= 0x200A
    ||| u == 0x2028
    ||| u == 0x2029
    ||| u == 0x202F
    ||| u == 0x205F
    ||| u == 0x3000
}

/// A class of characters that is stripped from the ends of a string.
#[derive(Clone, Copy, PartialEq, Eq, Structural)]
pub enum CharClass {
    Whitespace,
    OpenBracket,
    CloseBracket,
}

pub open spec fn in_class(c: char, class: CharClass) -> bool {
    match class {
        CharClass::Whitespace => is_whitespace(c),
        CharClass::OpenBracket => c == '[',
        CharClass::CloseBracket => c == ']',
    }
}

/// `s` without the characters of `class` at its start.
pub open spec fn strip_leading(s: Seq<char>, class: CharClass) -> Seq<char>
    decreases s.len(),
{
    if s.len() > 0 && in_class(s[0], class) {
        strip_leading(s.drop_first(), class)
    } else {
        s
    }
}

/// `s` without the characters of `class` at its end.
pub open spec fn strip_trailing(s: Seq<char>, class: CharClass) -> Seq<char>
    decreases s.len(),
{
    if s.len() > 0 && in_class(s.last(), class) {
        strip_trailing(s.drop_last(), class)
    } else {
        s
    }
}

/// `s` without whitespace at either end.
pub open spec fn trim(s: Seq<char>) -> Seq<char> {
    strip_trailing(strip_leading(s, CharClass::Whitespace), CharClass::Whitespace)
}

pub open spec fn starts_with(s: Seq<char>, c: char) -> bool {
    s.len() > 0 && s[0] == c
}

pub open spec fn ends_with(s: Seq<char>, c: char) -> bool {
    s.len() > 0 && s.last() == c
}

/// The pieces of `s` between occurrences of `sep`, in order; a string with
/// `k` separators has `k + 1` pieces, some of which may be empty.
pub open spec fn split_on(s: Seq<char>, sep: char) -> Seq<Seq<char>>
    decreases s.len(),
{
    if s.len() == 0 {
        seq![Seq::empty()]
    } else {
        let init = split_on(s.drop_last(), sep);
        if s.last() == sep {
            init.push(Seq::empty())
        } else {
            init.update(init.len() - 1, init.last().push(s.last()))
        }
    }
}

/// The tokens joined with one space between consecutive tokens.
pub open spec fn join_with_space(tokens: Seq<Seq<char>>) -> Seq<char>
    decreases tokens.len(),
{
    if tokens.len() == 0 {
        Seq::empty()
    } else if tokens.len() == 1 {
        tokens[0]
    } else {
        join_with_space(tokens.drop_last()) + seq![' '] + tokens.last()
    }
}

pub proof fn lemma_split_on_nonempty(s: Seq<char>, sep: char)
    ensures
        split_on(s, sep).len() >= 1,
    decreases s.len(),
{
    if s.len() > 0 {
        lemma_split_on_nonempty(s.drop_last(), sep);
    }
}

/// A piece of `split_on` never holds the separator.
pub proof fn lemma_split_on_pieces_lack_sep(s: Seq<char>, sep: char)
    ensures
        forall|i: int, j: int|
            0 <= i < split_on(s, sep).len() && 0 <= j < split_on(s, sep)[i].len()
                ==> split_on(s, sep)[i][j] != sep,
    decreases s.len(),
{
    if s.len() > 0 {
        lemma_split_on_nonempty(s.drop_last(), sep);
        lemma_split_on_pieces_lack_sep(s.drop_last(), sep);
        let init = split_on(s.drop_last(), sep);
        if s.last() != sep {
            assert forall|i: int, j: int|
                0 <= i < split_on(s, sep).len() && 0 <= j < split_on(s, sep)[i].len()
                    implies split_on(s, sep)[i][j] != sep by {
                if i == init.len() - 1 {
                    let p = init.last().push(s.last());
                    assert(split_on(s, sep)[i] == p);
                    if j < init.last().len() {
                        assert(p[j] == init[i][j]);
                    }
                } else {
                    assert(split_on(s, sep)[i] == init[i]);
                }
            }
        } else {
            assert forall|i: int, j: int|
                0 <= i < split_on(s, sep).len() && 0 <= j < split_on(s, sep)[i].len()
                    implies split_on(s, sep)[i][j] != sep by {
                assert(split_on(s, sep)[i] == init.push(Seq::empty())[i]);
            }
        }
    }
}

/// Stripping a class leaves neither end of the result in that class.
pub proof fn lemma_strip_leading_result(s: Seq<char>, class: CharClass)
    ensures
        strip_leading(s, class).len() > 0 ==> !in_class(strip_leading(s, class)[0], class),
        strip_leading(s, class).len() <= s.len(),
        strip_leading(s, class) == s.subrange(s.len() - strip_leading(s, class).len(), s.len() as int),
    decreases s.len(),
{
    if s.len() > 0 && in_class(s[0], class) {
        lemma_strip_leading_result(s.drop_first(), class);
        let r = strip_leading(s.drop_first(), class);
        assert(r == s.subrange(s.len() - r.len(), s.len() as int));
    } else {
        assert(s == s.subrange(0, s.len() as int));
    }
}

pub proof fn lemma_strip_trailing_result(s: Seq<char>, class: CharClass)
    ensures
        strip_trailing(s, class).len() > 0 ==> !in_class(strip_trailing(s, class).last(), class),
        strip_trailing(s, class).len() <= s.len(),
        strip_trailing(s, class) == s.subrange(0, strip_trailing(s, class).len() as int),
    decreases s.len(),
{
    if s.len() > 0 && in_class(s.last(), class) {
        lemma_strip_trailing_result(s.drop_last(), class);
        let r = strip_trailing(s.drop_last(), class);
        assert(r == s.subrange(0, r.len() as int));
    } else {
        assert(s == s.subrange(0, s.len() as int));
    }
}

/// Stripping trailing characters keeps a start that is not in the class.
pub proof fn lemma_strip_trailing_keeps_first(s: Seq<char>, class: CharClass, other: CharClass)
    requires
        s.len() > 0 ==> !in_class(s[0], other),
    ensures
        strip_trailing(s, class).len() > 0 ==> !in_class(strip_trailing(s, class)[0], other),
{
    lemma_strip_trailing_result(s, class);
}

/// The trimmed string has no whitespace at either end.
pub proof fn lemma_trim_result(s: Seq<char>)
    ensures
        trim(s).len() > 0 ==> !is_whitespace(trim(s)[0]) && !is_whitespace(trim(s).last()),
        trim(s).len() <= s.len(),
{
    let a = strip_leading(s, CharClass::Whitespace);
    lemma_strip_leading_result(s, CharClass::Whitespace);
    lemma_strip_trailing_result(a, CharClass::Whitespace);
    lemma_strip_trailing_keeps_first(a, CharClass::Whitespace, CharClass::Whitespace);
}

/// Whether `c` belongs to `class`.
pub fn char_in_class(c: char, class: CharClass) -> (b: bool)
    ensures
        b == in_class(c, class),
{
    match class {
        CharClass::Whitespace => {
            let u = c as u32;
            (0x09 <= u && u <= 0x0D) || u == 0x20 || u == 0x85 || u == 0xA0 || u == 0x1680 || (
            0x2000 <= u && u <= 0x200A) || u == 0x2028 || u == 0x2029 || u == 0x202F || u == 0x205F
                || u == 0x3000
        },
        CharClass::OpenBracket => c == '[',
        CharClass::CloseBracket => c == ']',
    }
}

/// The characters of `s`, one per element.
pub fn chars_of(s: &str) -> (v: Vec<char>)
    ensures
        v@ == s@,
{
    let n = s.unicode_len();
    let mut v: Vec<char> = Vec::new();
    let mut i: usize = 0;
    while i < n
        invariant
            n == s@.len(),
            i <= n,
            v@ == s@.subrange(0, i as int),
        decreases n - i,
    {
        let c = s.get_char(i);
        v.push(c);
        i = i + 1;
        assert(v@ == s@.subrange(0, i as int));
    }
    assert(v@ == s@);
    v
}

/// First position at or after `lo` in `cs[lo..hi]` whose character is not in
/// `class`, or `hi`.
pub fn skip_leading(cs: &Vec<char>, lo: usize, hi: usize, class: CharClass) -> (r: usize)
    requires
        lo <= hi <= cs.len(),
    ensures
        lo <= r <= hi,
        strip_leading(cs@.subrange(lo as int, hi as int), class) == cs@.subrange(r as int, hi as int),
{
    let mut r = lo;
    while r < hi && char_in_class(cs[r], class)
        invariant
            lo <= r <= hi <= cs.len(),
            strip_leading(cs@.subrange(lo as int, hi as int), class) == strip_leading(
                cs@.subrange(r as int, hi as int),
                class,
            ),
        decreases hi - r,
    {
        assert(cs@.subrange(r as int, hi as int).drop_first() == cs@.subrange(r + 1, hi as int));
        r = r + 1;
    }
    r
}

/// Last position at or before `hi` such that `cs[lo..r]` does not end in a
/// character of `class`.
pub fn skip_trailing(cs: &Vec<char>, lo: usize, hi: usize, class: CharClass) -> (r: usize)
    requires
        lo <= hi <= cs.len(),
    ensures
        lo <= r <= hi,
        strip_trailing(cs@.subrange(lo as int, hi as int), class) == cs@.subrange(lo as int, r as int),
{
    let mut r = hi;
    while r > lo && char_in_class(cs[r - 1], class)
        invariant
            lo <= r <= hi <= cs.len(),
            strip_trailing(cs@.subrange(lo as int, hi as int), class) == strip_trailing(
                cs@.subrange(lo as int, r as int),
                class,
            ),
        decreases r - lo,
    {
        assert(cs@.subrange(lo as int, r as int).drop_last() == cs@.subrange(lo as int, r - 1));
        r = r - 1;
    }
    r
}

/// Whether two strings hold the same characters.
pub fn str_equals(a: &str, b: &str) -> (r: bool)
    ensures
        r == (a@ == b@),
{
    let n = a.unicode_len();
    let m = b.unicode_len();
    if n != m {
        return false;
    }
    let mut i: usize = 0;
    while i < n
        invariant
            n == a@.len(),
            m == b@.len(),
            n == m,
            i <= n,
            a@.subrange(0, i as int) == b@.subrange(0, i as int),
        decreases n - i,
    {
        if a.get_char(i) != b.get_char(i) {
            return false;
        }
        assert(a@.subrange(0, i + 1) == a@.subrange(0, i as int).push(a@[i as int]));
        assert(b@.subrange(0, i + 1) == b@.subrange(0, i as int).push(b@[i as int]));
        i = i + 1;
    }
    assert(a@ == a@.subrange(0, n as int));
    assert(b@ == b@.subrange(0, n as int));
    true
}

} // verus!
