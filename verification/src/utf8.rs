//! How much of a byte string is UTF-8, and whether the rest is a fault or merely cut short.

use vstd::prelude::*;
use vstd::utf8::{
    decode_utf8, encode_scalar, length_of_first_scalar, pop_first_scalar, valid_first_scalar,
    valid_utf8,
};

verus! {

/// Whether the first `n` bytes are UTF-8, and no more of them are.
pub open spec fn is_readable(bytes: Seq<u8>, n: int) -> bool {
    &&& 0 <= n <= bytes.len()
    &&& valid_utf8(bytes.take(n))
    &&& forall|m: int| n < m <= bytes.len() ==> !valid_utf8(#[trigger] bytes.take(m))
}

/// How many bytes, from the first on, are UTF-8.
pub open spec fn readable(bytes: Seq<u8>) -> int {
    choose|n: int| is_readable(bytes, n)
}

/// Whether `rest` is the beginning of a character's bytes, but not all of them.
pub open spec fn cut_short(rest: Seq<u8>) -> bool {
    exists|c: char|
        {
            &&& 0 < rest.len() < (#[trigger] encode_scalar(c as u32)).len()
            &&& rest == encode_scalar(c as u32).take(rest.len() as int)
        }
}

/// `core::str::from_utf8`, with its error taken apart by `valid_up_to` and `error_len`. It gives
/// the text where all bytes are UTF-8. Otherwise `valid_up_to` is the most bytes that are, and
/// `error_len` is absent exactly where the input ended in the middle of a character.
#[verifier::external_body]
pub(crate) fn from_utf8(bytes: &[u8]) -> (r: Result<&str, (usize, Option<usize>)>)
    ensures
        match r {
            Ok(s) => valid_utf8(bytes@) && s@ == decode_utf8(bytes@),
            Err((valid_up_to, error_len)) => {
                &&& valid_up_to < bytes@.len()
                &&& is_readable(bytes@, valid_up_to as int)
                &&& error_len is None <==> cut_short(bytes@.skip(valid_up_to as int))
            },
        },
{
    core::str::from_utf8(bytes).map_err(|e| (e.valid_up_to(), e.error_len()))
}

pub proof fn lemma_readable_unique(bytes: Seq<u8>, n: int)
    requires
        is_readable(bytes, n),
    ensures
        readable(bytes) == n,
{
    let m = readable(bytes);
    assert(is_readable(bytes, m));
    assert(valid_utf8(bytes.take(n)) && valid_utf8(bytes.take(m)));
}

pub proof fn lemma_all_readable(bytes: Seq<u8>)
    requires
        valid_utf8(bytes),
    ensures
        readable(bytes) == bytes.len(),
        bytes.take(bytes.len() as int) == bytes,
{
    assert(bytes.take(bytes.len() as int) =~= bytes);
    lemma_readable_unique(bytes, bytes.len() as int);
}

/// Text cut anywhere still reads: what is left over is at most a character cut short, and what can
/// be read is the beginning of the text.
pub proof fn lemma_cut_text_reads(a: Seq<u8>, b: Seq<u8>)
    requires
        valid_utf8(a + b),
    ensures
        is_readable(a, readable(a)),
        readable(a) < a.len() ==> cut_short(a.skip(readable(a))),
        decode_utf8(a.take(readable(a))).is_prefix_of(decode_utf8(a + b)),
    decreases a.len(),
{
    let whole = a + b;
    let w = length_of_first_scalar(whole);
    if a.len() == 0 {
        assert(a.take(0) =~= a);
        lemma_all_readable(a);
    } else if w <= a.len() {
        let rest = a.skip(w);
        assert(pop_first_scalar(whole) =~= rest + b);
        lemma_cut_text_reads(rest, b);
        let n = w + readable(rest);
        assert forall|m: int| w <= m <= a.len() implies (valid_utf8(#[trigger] a.take(m))
            <==> valid_utf8(rest.take(m - w))) by {
            assert(valid_first_scalar(a.take(m)));
            assert(pop_first_scalar(a.take(m)) =~= rest.take(m - w));
        }
        assert(is_readable(a, n));
        lemma_readable_unique(a, n);
        assert(a.skip(n) =~= rest.skip(readable(rest)));
        let read = a.take(n);
        assert(pop_first_scalar(read) =~= rest.take(readable(rest)));
        assert(decode_utf8(whole).drop_first() =~= decode_utf8(rest + b));
        assert(decode_utf8(read).drop_first() =~= decode_utf8(rest.take(readable(rest))));
        assert(decode_utf8(read)[0] == decode_utf8(whole)[0]);
        let p = decode_utf8(read);
        let q = decode_utf8(whole);
        assert forall|i: int| 0 <= i < p.len() implies p[i] == q[i] by {
            if i > 0 {
                assert(p[i] == p.drop_first()[i - 1]);
                assert(q[i] == q.drop_first()[i - 1]);
            }
        }
        assert(p =~= q.take(p.len() as int));
    } else {
        assert forall|m: int| 0 < m <= a.len() implies !valid_utf8(#[trigger] a.take(m)) by {
            assert(a.take(m)[0] == whole[0]);
        }
        assert(a.take(0) =~= seq![]);
        assert(is_readable(a, 0));
        lemma_readable_unique(a, 0);
        let c = vstd::utf8::decode_first_scalar(whole) as char;
        vstd::utf8::decode_utf8_first_scalar(whole);
        assert(a.skip(0) =~= a);
        assert(a =~= encode_scalar(c as u32).take(a.len() as int));
    }
}

/// A proper beginning of a character's bytes does not begin with a whole character.
proof fn lemma_cut_character(c: char, rest: Seq<u8>)
    requires
        0 < rest.len() < encode_scalar(c as u32).len(),
        rest == encode_scalar(c as u32).take(rest.len() as int),
    ensures
        !valid_first_scalar(rest),
{
    vstd::utf8::encode_utf8_first_scalar(seq![c]);
    let whole = vstd::utf8::encode_utf8(seq![c]);
    assert(seq![c].drop_first() =~= seq![]);
    assert(vstd::utf8::encode_utf8(Seq::<char>::empty()) =~= seq![]);
    assert(whole =~= encode_scalar(c as u32));
    assert(rest[0] == whole[0]);
}

/// What can be read ends where the whole characters end: the bytes of a text, followed by bytes
/// that do not begin with a whole character, are readable up to the end of that text.
pub proof fn lemma_reads_up_to(text: Seq<char>, rest: Seq<u8>)
    requires
        rest.len() > 0 ==> !valid_first_scalar(rest),
    ensures
        ({
            let bytes = vstd::utf8::encode_utf8(text) + rest;
            let n = vstd::utf8::encode_utf8(text).len() as int;
            &&& is_readable(bytes, n)
            &&& readable(bytes) == n
            &&& bytes.take(n) == vstd::utf8::encode_utf8(text)
            &&& bytes.skip(n) == rest
        }),
{
    let head = vstd::utf8::encode_utf8(text);
    let bytes = head + rest;
    let n = head.len() as int;
    vstd::utf8::encode_utf8_valid_utf8(text);
    assert(bytes.take(n) =~= head);
    assert(bytes.skip(n) =~= rest);
    assert forall|m: int| n < m <= bytes.len() implies !valid_utf8(#[trigger] bytes.take(m)) by {
        let b = bytes.take(m);
        assert(b.subrange(0, n) =~= head);
        let tail = b.subrange(n, b.len() as int);
        assert(tail =~= rest.take(m - n));
        if valid_first_scalar(tail) {
            assert(tail[0] == rest[0]);
            assert(valid_first_scalar(rest));
        }
        assert(!valid_utf8(tail));
        vstd::utf8::partial_valid_partial_invalid_utf8(b, n);
    }
    lemma_readable_unique(bytes, n);
}

/// A character's bytes are cut short exactly where some of them, but not all, are there.
pub proof fn lemma_cut_short_means(c: char, n: int)
    requires
        0 < n < encode_scalar(c as u32).len(),
    ensures
        cut_short(encode_scalar(c as u32).take(n)),
        !valid_first_scalar(encode_scalar(c as u32).take(n)),
{
    let rest = encode_scalar(c as u32).take(n);
    assert(rest.len() == n);
    lemma_cut_character(c, rest);
}

} // verus!
