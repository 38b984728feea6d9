//! Text building blocks: numbers in decimal and hexadecimal, quoting, comparison.

use vstd::prelude::*;

verus! {

/// `String::push`: appends one character.
pub assume_specification[ String::push ](s: &mut String, c: char)
    ensures
        final(s)@ == old(s)@.push(c),
;

/// `s` as `{:?}` prints it: in double quotes, with quotes, backslashes and unprintable
/// characters escaped.
pub uninterp spec fn debug_text(s: Seq<char>) -> Seq<char>;

/// The `Debug` formatting of a string slice, by `format!`. It is a function of the text alone.
#[verifier::external_body]
pub(crate) fn debug_quoted(s: &str) -> (quoted: String)
    ensures
        quoted@ == debug_text(s@),
{
    format!("{s:?}")
}

/// The decimal digit `d`.
pub open spec fn digit_char(d: int) -> char {
    (48 + d) as char
}

/// `n` in decimal, with no leading zero.
pub open spec fn decimal(n: nat) -> Seq<char>
    decreases n,
{
    if n < 10 {
        seq![digit_char(n as int)]
    } else {
        decimal(n / 10).push(digit_char((n % 10) as int))
    }
}

/// `n` in decimal, with a minus sign where it is negative.
pub open spec fn signed_decimal(n: int) -> Seq<char> {
    if n < 0 {
        seq!['-'] + decimal((-n) as nat)
    } else {
        decimal(n as nat)
    }
}

/// The hexadecimal digit `d`, the letters counted from `letters`.
pub open spec fn hex_char(d: int, letters: char) -> char {
    if d < 10 {
        digit_char(d)
    } else {
        (letters as int + d - 10) as char
    }
}

/// `b` as two hexadecimal digits.
pub open spec fn hex_byte(b: u8, letters: char) -> Seq<char> {
    seq![hex_char((b / 16) as int, letters), hex_char((b % 16) as int, letters)]
}

/// Append `n` in decimal.
pub fn push_decimal(out: &mut String, n: u128)
    ensures
        final(out)@ == old(out)@ + decimal(n as nat),
    decreases n,
{
    if n >= 10 {
        push_decimal(out, n / 10);
    }
    let c: char = (48 + (n % 10) as u8) as char;
    out.push(c);
    assert(out@ =~= old(out)@ + decimal(n as nat));
}

/// Append `n` in decimal, with a minus sign where it is negative.
pub fn push_signed(out: &mut String, n: i64)
    ensures
        final(out)@ == old(out)@ + signed_decimal(n as int),
{
    if n < 0 {
        out.push('-');
        push_decimal(out, (-(n as i128)) as u128);
        assert(out@ =~= old(out)@ + signed_decimal(n as int));
    } else {
        push_decimal(out, n as u128);
    }
}

/// Append one hexadecimal digit.
fn push_hex_digit(out: &mut String, d: u8, upper: bool)
    requires
        d < 16,
    ensures
        final(out)@ == old(out)@.push(hex_char(d as int, if upper { 'A' } else { 'a' })),
{
    let c: char = if d < 10 {
        (48 + d) as char
    } else if upper {
        (55 + d) as char
    } else {
        (87 + d) as char
    };
    out.push(c);
}

/// Append `b` as two hexadecimal digits.
pub fn push_hex_byte(out: &mut String, b: u8, upper: bool)
    ensures
        final(out)@ == old(out)@ + hex_byte(b, if upper { 'A' } else { 'a' }),
{
    push_hex_digit(out, b / 16, upper);
    push_hex_digit(out, b % 16, upper);
    assert(out@ =~= old(out)@ + hex_byte(b, if upper { 'A' } else { 'a' }));
}

/// Whether two texts are the same.
pub fn same_text(a: &str, b: &str) -> (same: bool)
    ensures
        same == (a@ == b@),
{
    a.to_owned() == b.to_owned()
}

/// The characters of `s`.
pub fn chars_of(s: &str) -> (v: Vec<char>)
    ensures
        v@ == s@,
{
    let mut v: Vec<char> = Vec::new();
    for c in it: s.chars()
        invariant
            it.seq() == s@,
            v@ == s@.take(it.index()),
    {
        v.push(c);
    }
    v
}

/// Each place of a number in decimal holds its digit of that place, and the first is not zero but
/// where the number is.
pub proof fn lemma_decimal_digit(n: nat, i: nat)
    ensures
        decimal(n).len() > 0,
        i < decimal(n).len() ==> decimal(n)[decimal(n).len() - 1 - i] as int == '0' as int + n as int
            / vstd::arithmetic::power::pow(10, i) % 10,
        i >= decimal(n).len() ==> n < vstd::arithmetic::power::pow(10, i),
        n > 0 ==> decimal(n)[0] != '0',
        n == 0 ==> decimal(n) == seq!['0'],
    decreases n,
{
    reveal(vstd::arithmetic::power::pow);
    vstd::arithmetic::power::lemma_pow_positive(10, i);
    if n >= 10 {
        lemma_decimal_digit(n / 10, 0);
        assert(decimal(n)[0] == decimal(n / 10)[0]);
        if i > 0 {
            let p = vstd::arithmetic::power::pow(10, (i - 1) as nat);
            lemma_decimal_digit(n / 10, (i - 1) as nat);
            vstd::arithmetic::power::lemma_pow_positive(10, (i - 1) as nat);
            vstd::arithmetic::div_mod::lemma_div_denominator(n as int, 10, p);
            let d = decimal(n / 10);
            if i < decimal(n).len() {
                assert(decimal(n)[decimal(n).len() - 1 - i] == d[d.len() - 1 - (i - 1)]);
            }
        }
    } else {
        assert(n as int / 1 == n);
        if i >= 1 {
            let p = vstd::arithmetic::power::pow(10, (i - 1) as nat);
            vstd::arithmetic::power::lemma_pow_positive(10, (i - 1) as nat);
        }
    }
}

/// A negative number is its size behind a minus sign; any other has no sign.
pub proof fn lemma_signed_decimal(n: nat)
    ensures
        signed_decimal(n as int) == decimal(n),
        n > 0 ==> signed_decimal(-(n as int)) == seq!['-'] + decimal(n),
{
}

/// A byte in hexadecimal is its two digits to the base 16, the high one first.
pub proof fn lemma_hex_byte(b: u8)
    ensures
        hex_byte(b, 'a') == seq![
            "0123456789abcdef"@[b as int / 16],
            "0123456789abcdef"@[b as int % 16],
        ],
        hex_byte(b, 'A') == seq![
            "0123456789ABCDEF"@[b as int / 16],
            "0123456789ABCDEF"@[b as int % 16],
        ],
{
    reveal_strlit("0123456789abcdef");
    reveal_strlit("0123456789ABCDEF");
}

/// `t` is `x` between `p` and `s`.
pub open spec fn worded(t: Seq<char>, p: Seq<char>, x: Seq<char>, s: Seq<char>) -> bool {
    t =~= p + x + s
}

/// Two texts are the same but for one detail, `x` in the one and `y` in the other.
pub open spec fn same_wording(t: Seq<char>, x: Seq<char>, u: Seq<char>, y: Seq<char>) -> bool {
    exists|p: Seq<char>, s: Seq<char>| #[trigger] worded(t, p, x, s) && worded(u, p, y, s)
}

/// `t` is two details between three fixed pieces.
pub open spec fn worded_twice(
    t: Seq<char>,
    p: Seq<char>,
    x: (Seq<char>, Seq<char>),
    m: Seq<char>,
    s: Seq<char>,
) -> bool {
    t =~= p + x.0 + m + x.1 + s
}

/// Two texts are the same but for two details.
pub open spec fn same_wording_twice(
    t: Seq<char>,
    x: (Seq<char>, Seq<char>),
    u: Seq<char>,
    y: (Seq<char>, Seq<char>),
) -> bool {
    exists|p: Seq<char>, m: Seq<char>, s: Seq<char>|
        #[trigger] worded_twice(t, p, x, m, s) && worded_twice(u, p, y, m, s)
}

/// `t` is three details between four fixed pieces.
pub open spec fn worded_thrice(
    t: Seq<char>,
    p: Seq<char>,
    x: (Seq<char>, Seq<char>, Seq<char>),
    m: Seq<char>,
    n: Seq<char>,
    s: Seq<char>,
) -> bool {
    t =~= p + x.0 + m + x.1 + n + x.2 + s
}

/// Two texts are the same but for three details.
pub open spec fn same_wording_thrice(
    t: Seq<char>,
    x: (Seq<char>, Seq<char>, Seq<char>),
    u: Seq<char>,
    y: (Seq<char>, Seq<char>, Seq<char>),
) -> bool {
    exists|p: Seq<char>, m: Seq<char>, n: Seq<char>, s: Seq<char>|
        #[trigger] worded_thrice(t, p, x, m, n, s) && worded_thrice(u, p, y, m, n, s)
}

} // verus!
