//! Little-endian integers as byte sequences, and numbers cut to a machine width.

use vstd::prelude::*;

verus! {

/// The low `width` bytes of `x`, least significant first.
pub open spec fn le_bytes(x: nat, width: nat) -> Seq<u8>
    decreases width,
{
    if width == 0 {
        seq![]
    } else {
        seq![(x % 256) as u8] + le_bytes(x / 256, (width - 1) as nat)
    }
}

/// The number that `b` spells, least significant byte first.
pub open spec fn le_value(b: Seq<u8>) -> nat
    decreases b.len(),
{
    if b.len() == 0 {
        0
    } else {
        b[0] as nat + 256 * le_value(b.drop_first())
    }
}

/// How many numbers `width` bytes can spell.
pub open spec fn le_limit(width: nat) -> nat
    decreases width,
{
    if width == 0 {
        1
    } else {
        256 * le_limit((width - 1) as nat)
    }
}

pub proof fn lemma_le_bytes_len(x: nat, width: nat)
    ensures
        le_bytes(x, width).len() == width,
    decreases width,
{
    if width > 0 {
        lemma_le_bytes_len(x / 256, (width - 1) as nat);
    }
}

/// Reading back what was written gives the number, as long as it fits.
pub proof fn lemma_le_value_of_bytes(x: nat, width: nat)
    requires
        x < le_limit(width),
    ensures
        le_bytes(x, width).len() == width,
        le_value(le_bytes(x, width)) == x,
    decreases width,
{
    if width > 0 {
        lemma_le_value_of_bytes(x / 256, (width - 1) as nat);
        assert(le_bytes(x, width).drop_first() =~= le_bytes(x / 256, (width - 1) as nat));
    }
}

/// Writing back what was read gives the same bytes.
pub proof fn lemma_le_bytes_of_value(b: Seq<u8>)
    ensures
        le_value(b) < le_limit(b.len()),
        le_bytes(le_value(b), b.len()) == b,
    decreases b.len(),
{
    if b.len() > 0 {
        lemma_le_bytes_of_value(b.drop_first());
        let rest = le_value(b.drop_first());
        assert(le_value(b) % 256 == b[0] && le_value(b) / 256 == rest);
        assert(b =~= seq![b[0]] + b.drop_first());
    }
}

pub proof fn lemma_le_limits()
    ensures
        le_limit(1) == 0x100,
        le_limit(2) == 0x1_0000,
        le_limit(3) == 0x100_0000,
        le_limit(4) == 0x1_0000_0000,
{
    reveal_with_fuel(le_limit, 5);
}

/// Append the two bytes of `x`.
pub fn push_le16(out: &mut Vec<u8>, x: u16)
    ensures
        final(out)@ == old(out)@ + le_bytes(x as nat, 2),
{
    reveal_with_fuel(le_bytes, 3);
    out.push((x % 256) as u8);
    out.push((x / 256) as u8);
    assert(out@ =~= old(out)@ + le_bytes(x as nat, 2));
}

/// Append the four bytes of `x`.
pub fn push_le32(out: &mut Vec<u8>, x: u32)
    ensures
        final(out)@ == old(out)@ + le_bytes(x as nat, 4),
{
    reveal_with_fuel(le_bytes, 5);
    out.push((x % 256) as u8);
    let x1: u32 = x / 256;
    out.push((x1 % 256) as u8);
    let x2: u32 = x1 / 256;
    out.push((x2 % 256) as u8);
    let x3: u32 = x2 / 256;
    out.push((x3 % 256) as u8);
    assert(out@ =~= old(out)@ + le_bytes(x as nat, 4));
}

/// The 16-bit number at `at`.
pub fn read_le16(buf: &[u8], at: usize) -> (x: u16)
    requires
        at + 2 <= buf@.len(),
    ensures
        x == le_value(buf@.subrange(at as int, at + 2)),
{
    proof {
        reveal_with_fuel(le_value, 3);
        let b = buf@.subrange(at as int, at + 2);
        assert(b.drop_first()[0] == b[1]);
    }
    buf[at] as u16 + 256 * (buf[at + 1] as u16)
}

/// The 32-bit number at `at`.
pub fn read_le32(buf: &[u8], at: usize) -> (x: u32)
    requires
        at + 4 <= buf@.len(),
    ensures
        x == le_value(buf@.subrange(at as int, at + 4)),
{
    proof {
        reveal_with_fuel(le_value, 5);
        let b = buf@.subrange(at as int, at + 4);
        assert(b.drop_first()[0] == b[1]);
        assert(b.drop_first().drop_first()[0] == b[2]);
        assert(b.drop_first().drop_first().drop_first()[0] == b[3]);
    }
    buf[at] as u32 + 256 * (buf[at + 1] as u32 + 256 * (buf[at + 2] as u32 + 256 * (buf[at
        + 3] as u32)))
}

/// The low 32 bits of `n`.
pub open spec fn low32(n: nat) -> u32 {
    (n % 0x1_0000_0000) as u32
}

/// The low 32 bits of `n`.
pub fn to_low32(n: u64) -> (r: u32)
    ensures
        r == low32(n as nat),
{
    (n % 0x1_0000_0000) as u32
}

/// The low 32 bits of `n`, taken as a signed number.
pub open spec fn signed32(n: nat) -> i32 {
    if low32(n) < 0x8000_0000 {
        low32(n) as i32
    } else {
        (low32(n) - 0x1_0000_0000) as i32
    }
}

/// The low 32 bits of `n`, taken as a signed number.
pub fn to_signed32(n: u64) -> (r: i32)
    ensures
        r == signed32(n as nat),
{
    let low: u32 = to_low32(n);
    if low < 0x8000_0000 {
        low as i32
    } else {
        (low as i64 - 0x1_0000_0000) as i32
    }
}

/// The low 16 bits of `n`.
pub fn to_low16(n: i32) -> (r: u16)
    ensures
        r == n as int % 0x1_0000,
{
    ((n as i64 + 0x1_0000_0000) % 0x1_0000) as u16
}

/// The low 8 bits of `n`.
pub fn to_low8(n: i32) -> (r: u8)
    ensures
        r == n as int % 0x100,
{
    ((n as i64 + 0x1_0000_0000) % 0x100) as u8
}

/// As many low bits of `n` as a `usize` has.
pub open spec fn low_usize(n: nat) -> usize {
    (n % (usize::MAX as nat + 1)) as usize
}

/// As many low bits of `n` as a `usize` has.
pub fn to_low_usize(n: u64) -> (r: usize)
    ensures
        r == low_usize(n as nat),
{
    (n as u128 % (usize::MAX as u128 + 1)) as usize
}

/// Byte `i` of a number is its digit of that place to the base 256.
pub proof fn lemma_le_bytes_digit(x: nat, width: nat, i: nat)
    requires
        i < width,
    ensures
        le_bytes(x, width).len() == width,
        le_bytes(x, width)[i as int] as int == x as int / vstd::arithmetic::power::pow(256, i) % 256,
    decreases width,
{
    reveal(vstd::arithmetic::power::pow);
    lemma_le_bytes_len(x, width);
    if i > 0 {
        let p = vstd::arithmetic::power::pow(256, (i - 1) as nat);
        lemma_le_bytes_digit(x / 256, (width - 1) as nat, (i - 1) as nat);
        vstd::arithmetic::power::lemma_pow_positive(256, (i - 1) as nat);
        vstd::arithmetic::div_mod::lemma_div_denominator(x as int, 256, p);
        assert(le_bytes(x, width)[i as int] == le_bytes(x / 256, (width - 1) as nat)[i - 1]);
    }
}

/// `width` bytes can spell 256 to the power of `width` numbers.
pub proof fn lemma_le_limit_is_power(width: nat)
    ensures
        le_limit(width) as int == vstd::arithmetic::power::pow(256, width),
    decreases width,
{
    reveal(vstd::arithmetic::power::pow);
    if width > 0 {
        lemma_le_limit_is_power((width - 1) as nat);
    }
}

/// Cutting a number to a machine width changes it by a multiple of what the width can hold, so a
/// number that fits is not changed at all.
pub proof fn lemma_cut_numbers(n: nat)
    ensures
        (n - low32(n)) % 0x1_0000_0000 == 0,
        (n - signed32(n)) % 0x1_0000_0000 == 0,
        (n - low_usize(n)) % (usize::MAX + 1) == 0,
        n <= u32::MAX ==> low32(n) == n,
        n <= i32::MAX ==> signed32(n) == n,
        n <= usize::MAX ==> low_usize(n) == n,
{
    vstd::arithmetic::div_mod::lemma_fundamental_div_mod(n as int, usize::MAX + 1);
    vstd::arithmetic::div_mod::lemma_mod_multiples_basic(n as int / (usize::MAX + 1), usize::MAX + 1);
    let q = n as int / (usize::MAX + 1);
    let d = usize::MAX + 1;
    assert(n - low_usize(n) == q * d) by (nonlinear_arith)
        requires
            n as int == d * q + low_usize(n) as int,
    ;
    if n <= usize::MAX {
        vstd::arithmetic::div_mod::lemma_small_mod(n, (usize::MAX + 1) as nat);
    }
}

/// The number in the four bytes from `at` on, the first of them its lowest digit to the base 256.
pub open spec fn number_at(b: Seq<u8>, at: int) -> int {
    b[at] + 256 * b[at + 1] + 65_536 * b[at + 2] + 16_777_216 * b[at + 3]
}

/// Four bytes spell the number whose digits they are, and two likewise.
pub proof fn lemma_le_value_digits(b: Seq<u8>, at: int)
    ensures
        0 <= at && at + 4 <= b.len() ==> le_value(b.subrange(at, at + 4)) == number_at(b, at),
        0 <= at && at + 2 <= b.len() ==> le_value(b.subrange(at, at + 2)) == b[at] + 256 * b[at + 1],
{
    reveal_with_fuel(le_value, 5);
    if 0 <= at && at + 4 <= b.len() {
        let s = b.subrange(at, at + 4);
        assert(s.drop_first()[0] == s[1]);
        assert(s.drop_first().drop_first()[0] == s[2]);
        assert(s.drop_first().drop_first().drop_first()[0] == s[3]);
    }
    if 0 <= at && at + 2 <= b.len() {
        let s = b.subrange(at, at + 2);
        assert(s.drop_first()[0] == s[1]);
    }
}

/// A 32-bit number takes these four bytes, and a 16-bit number these two.
pub proof fn lemma_le_bytes_spelled(x: u32, y: u16)
    ensures
        le_bytes(x as nat, 4) == seq![
            (x % 256) as u8,
            (x / 256 % 256) as u8,
            (x / 65_536 % 256) as u8,
            (x / 16_777_216) as u8,
        ],
        le_bytes(y as nat, 2) == seq![(y % 256) as u8, (y / 256) as u8],
        number_at(le_bytes(x as nat, 4), 0) == x,
{
    reveal_with_fuel(le_bytes, 5);
    assert(le_bytes(x as nat, 4) =~= seq![
        (x % 256) as u8,
        (x / 256 % 256) as u8,
        (x / 65_536 % 256) as u8,
        (x / 16_777_216) as u8,
    ]);
    assert(le_bytes(y as nat, 2) =~= seq![(y % 256) as u8, (y / 256) as u8]);
}

} // verus!
