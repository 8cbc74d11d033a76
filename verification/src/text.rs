//! Small text building blocks: decimal rendering of integers, Unicode white
//! space, and ASCII lower-casing.
use vstd::prelude::*;

verus! {

/// Appends one character to a `String` (std's `String::push`).
#[verifier::external_body]
pub(crate) fn push_char(s: &mut String, c: char)
    ensures
        final(s)@ == old(s)@.push(c),
{
    s.push(c);
}

/// The decimal digit character for `d` in `0..=9`.
pub open spec fn digit_char(d: int) -> char {
    if d == 0 { '0' } else if d == 1 { '1' } else if d == 2 { '2' } else if d == 3 { '3' }
    else if d == 4 { '4' } else if d == 5 { '5' } else if d == 6 { '6' } else if d == 7 { '7' }
    else if d == 8 { '8' } else { '9' }
}

/// Decimal digits of a natural number, most significant first, no padding.
pub open spec fn nat_decimal(n: nat) -> Seq<char>
    decreases n,
{
    if n < 10 {
        seq![digit_char(n as int)]
    } else {
        nat_decimal(n / 10).push(digit_char((n % 10) as int))
    }
}

/// Decimal rendering of an integer, as Rust's `Display` writes it: a leading
/// `-` for negative numbers, then the digits.
pub open spec fn int_decimal(x: int) -> Seq<char> {
    if x < 0 {
        seq!['-'] + nat_decimal((-x) as nat)
    } else {
        nat_decimal(x as nat)
    }
}

/// A decimal digit character.
pub open spec fn is_digit(c: char) -> bool {
    '0' <= c && c <= '9'
}

proof fn lemma_nat_decimal_shape(n: nat)
    ensures
        nat_decimal(n).len() >= 1,
        n < 10 ==> nat_decimal(n).len() == 1,
        n >= 10 ==> nat_decimal(n).len() >= 2,
        forall|i: int| 0 <= i < nat_decimal(n).len() ==> is_digit(#[trigger] nat_decimal(n)[i]),
    decreases n,
{
    if n >= 10 {
        lemma_nat_decimal_shape(n / 10);
        let prev = nat_decimal(n / 10);
        assert forall|i: int| 0 <= i < nat_decimal(n).len() implies is_digit(#[trigger] nat_decimal(n)[i]) by {
            if i < prev.len() {
                assert(nat_decimal(n)[i] == prev[i]);
            }
        }
    }
}

proof fn lemma_nat_decimal_injective(a: nat, b: nat)
    requires
        nat_decimal(a) == nat_decimal(b),
    ensures
        a == b,
    decreases a,
{
    lemma_nat_decimal_shape(a);
    lemma_nat_decimal_shape(b);
    if a >= 10 && b >= 10 {
        let da = nat_decimal(a);
        assert(da.drop_last() =~= nat_decimal(a / 10));
        assert(nat_decimal(b).drop_last() =~= nat_decimal(b / 10));
        assert(da.last() == digit_char((a % 10) as int));
        assert(nat_decimal(b).last() == digit_char((b % 10) as int));
        lemma_nat_decimal_injective(a / 10, b / 10);
    } else if a < 10 && b < 10 {
        assert(nat_decimal(a)[0] == digit_char(a as int));
        assert(nat_decimal(b)[0] == digit_char(b as int));
    }
}

/// Decimal renderings of integers hold no `:` and tell integers apart.
pub proof fn lemma_int_decimal_facts(x: int, y: int)
    ensures
        !int_decimal(x).contains(':'),
        int_decimal(x) == int_decimal(y) ==> x == y,
{
    lemma_nat_decimal_shape((if x < 0 { -x } else { x }) as nat);
    lemma_nat_decimal_shape((if y < 0 { -y } else { y }) as nat);
    if int_decimal(x).contains(':') {
        let i = choose|i: int| 0 <= i < int_decimal(x).len() && int_decimal(x)[i] == ':';
        if x < 0 {
            if i > 0 {
                assert(int_decimal(x)[i] == nat_decimal((-x) as nat)[i - 1]);
            }
        } else {
            assert(int_decimal(x)[i] == nat_decimal(x as nat)[i]);
        }
    }
    if int_decimal(x) == int_decimal(y) {
        if x < 0 && y < 0 {
            assert(nat_decimal((-x) as nat) =~= int_decimal(x).drop_first());
            assert(nat_decimal((-y) as nat) =~= int_decimal(y).drop_first());
            lemma_nat_decimal_injective((-x) as nat, (-y) as nat);
        } else if x >= 0 && y >= 0 {
            lemma_nat_decimal_injective(x as nat, y as nat);
        } else if x < 0 {
            assert(int_decimal(x)[0] == '-');
            assert(int_decimal(y)[0] == nat_decimal(y as nat)[0]);
        } else {
            assert(int_decimal(y)[0] == '-');
            assert(int_decimal(x)[0] == nat_decimal(x as nat)[0]);
        }
    }
}

/// Text that holds no `sep` is recovered from `text + [sep] + rest`.
pub proof fn lemma_split_at_separator(x1: Seq<char>, r1: Seq<char>, x2: Seq<char>, r2: Seq<char>, sep: char)
    requires
        !x1.contains(sep),
        !x2.contains(sep),
        x1 + seq![sep] + r1 == x2 + seq![sep] + r2,
    ensures
        x1 == x2,
        r1 == r2,
{
    let l = x1 + seq![sep] + r1;
    let r = x2 + seq![sep] + r2;
    if x1.len() < x2.len() {
        assert(l[x1.len() as int] == sep);
        assert(r[x1.len() as int] == x2[x1.len() as int]);
    } else if x2.len() < x1.len() {
        assert(r[x2.len() as int] == sep);
        assert(l[x2.len() as int] == x1[x2.len() as int]);
    } else {
        assert(x1 =~= l.take(x1.len() as int));
        assert(x2 =~= r.take(x2.len() as int));
        assert(r1 =~= l.skip(x1.len() as int + 1));
        assert(r2 =~= r.skip(x2.len() as int + 1));
    }
}

fn digit(d: u128) -> (c: char)
    requires
        d < 10,
    ensures
        c == digit_char(d as int),
{
    if d == 0 { '0' } else if d == 1 { '1' } else if d == 2 { '2' } else if d == 3 { '3' }
    else if d == 4 { '4' } else if d == 5 { '5' } else if d == 6 { '6' } else if d == 7 { '7' }
    else if d == 8 { '8' } else { '9' }
}

fn push_nat_decimal(s: &mut String, n: u128)
    ensures
        final(s)@ == old(s)@ + nat_decimal(n as nat),
    decreases n,
{
    if n >= 10 {
        push_nat_decimal(s, n / 10);
    }
    push_char(s, digit(n % 10));
    proof {
        if n < 10 {
            assert(n % 10 == n);
        }
        assert(final(s)@ =~= old(s)@ + nat_decimal(n as nat));
    }
}

/// Appends the decimal rendering of `x` to `s`.
pub fn push_decimal(s: &mut String, x: i128)
    ensures
        final(s)@ == old(s)@ + int_decimal(x as int),
{
    if x < 0 {
        push_char(s, '-');
        let m: u128 = if x == i128::MIN { (i128::MAX as u128) + 1 } else { (-x) as u128 };
        push_nat_decimal(s, m);
        assert(final(s)@ =~= old(s)@ + int_decimal(x as int));
    } else {
        push_nat_decimal(s, x as u128);
    }
}

/// `c` has the Unicode `White_Space` property (std's `char::is_whitespace`).
pub open spec fn is_white_space(c: char) -> bool {
    ||| ('\u{9}' <= c && c <= '\u{d}')
    ||| c == ' '
    ||| c == '\u{85}'
    ||| c == '\u{a0}'
    ||| c == '\u{1680}'
    ||| ('\u{2000}' <= c && c <= '\u{200a}')
    ||| c == '\u{2028}'
    ||| c == '\u{2029}'
    ||| c == '\u{202f}'
    ||| c == '\u{205f}'
    ||| c == '\u{3000}'
}

/// Whether `c` is white space in the sense of [`is_white_space`].
pub fn white_space(c: char) -> (b: bool)
    ensures
        b == is_white_space(c),
{
    ('\u{9}' <= c && c <= '\u{d}') || c == ' ' || c == '\u{85}' || c == '\u{a0}'
        || c == '\u{1680}' || ('\u{2000}' <= c && c <= '\u{200a}') || c == '\u{2028}'
        || c == '\u{2029}' || c == '\u{202f}' || c == '\u{205f}' || c == '\u{3000}'
}

/// Every character of `s` is white space (so `s.trim()` is empty).
pub open spec fn is_blank(s: Seq<char>) -> bool {
    forall|i: int| 0 <= i < s.len() ==> is_white_space(#[trigger] s[i])
}

/// Whether `text.trim()` is empty.
pub fn trims_to_empty(text: &str) -> (b: bool)
    ensures
        b == is_blank(text@),
{
    let n = text.unicode_len();
    let mut i: usize = 0;
    while i < n
        invariant
            n == text@.len(),
            i <= n,
            forall|k: int| 0 <= k < i ==> is_white_space(#[trigger] text@[k]),
        decreases n - i,
    {
        let c = text.get_char(i);
        if !white_space(c) {
            return false;
        }
        i = i + 1;
    }
    true
}

/// ASCII lower-casing of one character (std's `char::to_ascii_lowercase`).
pub open spec fn ascii_lower(c: char) -> char {
    if 'A' <= c && c <= 'Z' {
        ((c as u32) + 32) as char
    } else {
        c
    }
}

/// ASCII lower-casing of a whole string (std's `str::to_ascii_lowercase`).
pub open spec fn ascii_lower_seq(s: Seq<char>) -> Seq<char> {
    Seq::new(s.len(), |i: int| ascii_lower(s[i]))
}

/// Lower-cases the ASCII letters of one character.
pub fn lower_ascii_char(c: char) -> (r: char)
    ensures
        r == ascii_lower(c),
{
    if 'A' <= c && c <= 'Z' {
        let code: u8 = (c as u32) as u8;
        (code + 32) as char
    } else {
        c
    }
}

} // verus!
