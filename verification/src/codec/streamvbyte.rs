//! The streamvbyte format and the two calls that read and write it.
//!
//! A stream of `n` numbers is `ceil(n / 4)` control bytes followed by the numbers' own bytes,
//! least significant first. Each number takes as few bytes as it can, at least one. A control
//! byte holds four 2-bit codes, the first number's in the low bits; a code is the number's byte
//! count less one.

use vstd::prelude::*;

use crate::bytes::{le_bytes, le_value};

verus! {

/// The fewest bytes that hold `x`, at least one.
pub open spec fn width(x: u32) -> nat {
    if x < 0x100 {
        1
    } else if x < 0x1_0000 {
        2
    } else if x < 0x100_0000 {
        3
    } else {
        4
    }
}

/// How many control bytes `n` numbers take.
pub open spec fn n_controls(n: nat) -> nat {
    (n + 3) / 4
}

/// The code of number `i`; zero where there is no such number.
pub open spec fn code(nums: Seq<u32>, i: int) -> int {
    if 0 <= i < nums.len() {
        width(nums[i]) - 1
    } else {
        0
    }
}

/// Control byte number `q`.
pub open spec fn control(nums: Seq<u32>, q: int) -> u8 {
    (code(nums, 4 * q) + 4 * code(nums, 4 * q + 1) + 16 * code(nums, 4 * q + 2) + 64 * code(
        nums,
        4 * q + 3,
    )) as u8
}

/// The bytes of the numbers, each at its own width.
pub open spec fn data(nums: Seq<u32>) -> Seq<u8>
    decreases nums.len(),
{
    if nums.len() == 0 {
        seq![]
    } else {
        data(nums.drop_last()) + le_bytes(nums.last() as nat, width(nums.last()))
    }
}

/// The whole stream that holds `nums`.
pub open spec fn stream(nums: Seq<u32>) -> Seq<u8> {
    Seq::new(n_controls(nums.len()), |q: int| control(nums, q)) + data(nums)
}

/// The code of number `i` that `bytes` state.
pub open spec fn code_at(bytes: Seq<u8>, i: int) -> int {
    let c = bytes[i / 4] as int;
    if i % 4 == 0 {
        c % 4
    } else if i % 4 == 1 {
        c / 4 % 4
    } else if i % 4 == 2 {
        c / 16 % 4
    } else {
        c / 64
    }
}

/// Where number `i` of `n` starts in `bytes`; for `i == n`, where the stream ends.
pub open spec fn start(bytes: Seq<u8>, n: nat, i: nat) -> nat
    decreases i,
{
    if i == 0 {
        n_controls(n)
    } else {
        (start(bytes, n, (i - 1) as nat) + code_at(bytes, i - 1) + 1) as nat
    }
}

/// Whether `bytes` hold a stream of `n` numbers, with or without more bytes behind it.
pub open spec fn holds(bytes: Seq<u8>, n: nat) -> bool {
    n_controls(n) <= bytes.len() && start(bytes, n, n) <= bytes.len()
}

/// Number `i` of the `n` in `bytes`.
pub open spec fn number(bytes: Seq<u8>, n: nat, i: int) -> u32 {
    le_value(
        bytes.subrange(start(bytes, n, i as nat) as int, start(bytes, n, (i + 1) as nat) as int),
    ) as u32
}

/// The `n` numbers in `bytes`.
pub open spec fn numbers(bytes: Seq<u8>, n: nat) -> Seq<u32> {
    Seq::new(n, |i: int| number(bytes, n, i))
}

/// `stream_vbyte::encode::encode` with the scalar encoder: writes the stream that holds `nums` at
/// the start of `out`, leaves the rest of `out` as it was, and returns the stream's length. It
/// panics where `out` is too short, or where rounding the count up to fours overflows.
#[verifier::external_body]
pub(crate) fn write_stream(nums: &[u32], out: &mut [u8]) -> (written: usize)
    requires
        nums@.len() + 3 <= usize::MAX,
        stream(nums@).len() <= old(out)@.len(),
    ensures
        written == stream(nums@).len(),
        final(out)@ == stream(nums@) + old(out)@.skip(written as int),
{
    stream_vbyte::encode::encode::<stream_vbyte::scalar::Scalar>(nums, out)
}

/// `stream_vbyte::decode::decode` with the scalar decoder: writes the `n` numbers that the stream
/// at the start of `bytes` holds to the first `n` places of `out`, leaves the rest of `out` as it
/// was, and returns the stream's length. It panics where `bytes` is too short for what its control
/// bytes state, where `out` is too short, or where rounding `n` up to fours overflows; its
/// documentation asks for room for four numbers whatever `n` is.
#[verifier::external_body]
pub(crate) fn read_stream(bytes: &[u8], n: usize, out: &mut [u32]) -> (consumed: usize)
    requires
        n + 3 <= usize::MAX,
        holds(bytes@, n as nat),
        4 <= old(out)@.len(),
        n <= old(out)@.len(),
    ensures
        consumed == start(bytes@, n as nat, n as nat),
        final(out)@ == numbers(bytes@, n as nat) + old(out)@.skip(n as int),
{
    stream_vbyte::decode::decode::<stream_vbyte::scalar::Scalar>(bytes, n, out)
}

/// Whether `bytes` hold a stream of `n` numbers, with or without more bytes behind it.
pub fn holds_stream(bytes: &[u8], n: usize) -> (r: bool)
    ensures
        r == holds(bytes@, n as nat),
{
    let controls: usize = n / 4 + if n % 4 == 0 { 0 } else { 1 };
    if bytes.len() < controls {
        return false;
    }
    let mut end: u128 = controls as u128;
    let mut i: usize = 0;
    while i < n
        invariant
            i <= n,
            controls == n_controls(n as nat),
            controls <= bytes@.len(),
            end == start(bytes@, n as nat, i as nat),
            end <= controls + 4 * i,
        decreases n - i,
    {
        let c = bytes[i / 4];
        let code: u8 = match i % 4 {
            0 => c % 4,
            1 => c / 4 % 4,
            2 => c / 16 % 4,
            _ => c / 64,
        };
        assert(code == code_at(bytes@, i as int));
        end = end + code as u128 + 1;
        i += 1;
    }
    end <= bytes.len() as u128
}

proof fn lemma_start_lower(bytes: Seq<u8>, n: nat, i: nat)
    requires
        i <= n,
        n_controls(n) <= bytes.len(),
    ensures
        n_controls(n) + i <= start(bytes, n, i),
    decreases i,
{
    if i > 0 {
        lemma_start_lower(bytes, n, (i - 1) as nat);
    }
}

/// A stream has a byte for every number at least, besides its control bytes.
pub proof fn lemma_holds_len(bytes: Seq<u8>, n: nat)
    requires
        holds(bytes, n),
    ensures
        n_controls(n) + n <= bytes.len(),
{
    lemma_start_lower(bytes, n, n);
}

proof fn lemma_code_of_control(nums: Seq<u32>, i: int)
    requires
        0 <= i < nums.len(),
    ensures
        code_at(stream(nums), i) == width(nums[i]) - 1,
{
    let q = i / 4;
    let a = code(nums, 4 * q);
    let b = code(nums, 4 * q + 1);
    let c = code(nums, 4 * q + 2);
    let d = code(nums, 4 * q + 3);
    let s = a + 4 * b + 16 * c + 64 * d;
    assert(0 <= a <= 3 && 0 <= b <= 3 && 0 <= c <= 3 && 0 <= d <= 3);
    assert(stream(nums)[q] == s as u8);
    assert(s % 4 == a && s / 4 % 4 == b && s / 16 % 4 == c && s / 64 == d);
}

pub proof fn lemma_data_len(nums: Seq<u32>)
    ensures
        nums.len() <= data(nums).len() <= 4 * nums.len(),
    decreases nums.len(),
{
    if nums.len() > 0 {
        lemma_data_len(nums.drop_last());
        crate::bytes::lemma_le_bytes_len(nums.last() as nat, width(nums.last()));
    }
}

/// The bytes of the first `i` numbers come first.
proof fn lemma_data_prefix(nums: Seq<u32>, i: int)
    requires
        0 <= i <= nums.len(),
    ensures
        data(nums.take(i)).len() <= data(nums).len(),
        data(nums).take(data(nums.take(i)).len() as int) == data(nums.take(i)),
    decreases nums.len(),
{
    if i < nums.len() {
        let front = nums.drop_last();
        lemma_data_prefix(front, i);
        assert(front.take(i) =~= nums.take(i));
        let k = data(nums.take(i)).len() as int;
        assert(data(nums).take(k) =~= data(front).take(k));
    } else {
        assert(nums.take(i) =~= nums);
        assert(data(nums).take(data(nums).len() as int) =~= data(nums));
    }
}

proof fn lemma_data_step(nums: Seq<u32>, i: int)
    requires
        0 <= i < nums.len(),
    ensures
        data(nums.take(i + 1)) == data(nums.take(i)) + le_bytes(nums[i] as nat, width(nums[i])),
        le_bytes(nums[i] as nat, width(nums[i])).len() == width(nums[i]),
{
    assert(nums.take(i + 1).drop_last() =~= nums.take(i));
    crate::bytes::lemma_le_bytes_len(nums[i] as nat, width(nums[i]));
}

proof fn lemma_start(nums: Seq<u32>, i: nat)
    requires
        i <= nums.len(),
    ensures
        start(stream(nums), nums.len(), i) == n_controls(nums.len()) + data(
            nums.take(i as int),
        ).len(),
    decreases i,
{
    if i > 0 {
        lemma_start(nums, (i - 1) as nat);
        lemma_code_of_control(nums, i - 1);
        lemma_data_step(nums, i - 1);
    } else {
        assert(nums.take(0) =~= seq![]);
    }
}

/// Reading the stream that was written for `nums` gives `nums` and ends where the stream ends.
pub proof fn lemma_stream_roundtrip(nums: Seq<u32>)
    ensures
        holds(stream(nums), nums.len()),
        start(stream(nums), nums.len(), nums.len()) == stream(nums).len(),
        numbers(stream(nums), nums.len()) == nums,
{
    let n = nums.len();
    let s = stream(nums);
    lemma_start(nums, n);
    assert(nums.take(n as int) =~= nums);
    assert forall|i: int| 0 <= i < n implies number(s, n, i) == #[trigger] nums[i] by {
        lemma_start(nums, i as nat);
        lemma_start(nums, (i + 1) as nat);
        lemma_data_step(nums, i);
        lemma_data_prefix(nums, i + 1);
        let a = data(nums.take(i)).len() as int;
        let b = data(nums.take(i + 1)).len() as int;
        let w = width(nums[i]);
        assert(s.subrange(n_controls(n) + a, n_controls(n) + b) =~= data(nums).take(b).subrange(
            a,
            b,
        ));
        assert(data(nums.take(i + 1)).subrange(a, b) =~= le_bytes(nums[i] as nat, w));
        crate::bytes::lemma_le_limits();
        crate::bytes::lemma_le_value_of_bytes(nums[i] as nat, w);
    }
    assert(numbers(s, n) =~= nums);
}

/// Five bytes per number are room enough for any stream.
pub proof fn lemma_stream_len(nums: Seq<u32>)
    ensures
        stream(nums).len() == n_controls(nums.len()) + data(nums).len(),
        stream(nums).len() <= 5 * nums.len(),
{
    lemma_data_len(nums);
}

/// Numbers below 256 take one byte each.
pub proof fn lemma_small_numbers(nums: Seq<u32>)
    requires
        forall|i: int| 0 <= i < nums.len() ==> #[trigger] nums[i] < 0x100,
    ensures
        stream(nums).len() == n_controls(nums.len()) + nums.len(),
    decreases nums.len(),
{
    if nums.len() > 0 {
        let front = nums.drop_last();
        assert forall|i: int| 0 <= i < front.len() implies #[trigger] front[i] < 0x100 by {
            assert(front[i] == nums[i]);
        }
        lemma_small_numbers(front);
        assert(nums.last() == nums[nums.len() - 1]);
        crate::bytes::lemma_le_bytes_len(nums.last() as nat, 1);
    }
}

/// A stream is read where its control bytes say: the code of number `i` is two bits of byte
/// `i / 4`, the numbers stand one behind the other after the control bytes, and each takes one byte
/// more than its code.
pub proof fn lemma_stream_layout(bytes: Seq<u8>, n: nat, i: nat)
    requires
        n_controls(n) <= bytes.len(),
        i < n,
    ensures
        4 * n_controls(n) >= n && 4 * n_controls(n) < n + 4,
        start(bytes, n, 0) == n_controls(n),
        start(bytes, n, i + 1) == start(bytes, n, i) + code_at(bytes, i as int) + 1,
        0 <= code_at(bytes, i as int) <= 3,
        code_at(bytes, i as int) == bytes[i as int / 4] as int / vstd::arithmetic::power::pow(
            4,
            (i % 4) as nat,
        ) % 4,
        holds(bytes, n) <==> start(bytes, n, n) <= bytes.len(),
        number(bytes, n, i as int) == le_value(
            bytes.subrange(start(bytes, n, i) as int, start(bytes, n, i + 1) as int),
        ) as u32,
{
    vstd::arithmetic::power::lemma_pow0(4);
    vstd::arithmetic::power::lemma_pow1(4);
    reveal_with_fuel(vstd::arithmetic::power::pow, 4);
    let m = (i % 4) as nat;
    assert(m == 0 || m == 1 || m == 2 || m == 3);
    assert(vstd::arithmetic::power::pow(4, 2) == 16);
    assert(vstd::arithmetic::power::pow(4, 3) == 64);
}

/// Each number takes as few bytes as it can, at least one.
pub proof fn lemma_width_is_least(x: u32)
    ensures
        1 <= width(x) <= 4,
        x < crate::bytes::le_limit(width(x)),
        width(x) > 1 ==> x >= crate::bytes::le_limit((width(x) - 1) as nat),
{
    crate::bytes::lemma_le_limits();
}

} // verus!
