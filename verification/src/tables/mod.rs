//! The two vocabulary artefacts: the trained frequency ranking and the `token id -> bytes`
//! mapping, with the file envelope they share.
//!
//! ```text
//! off  size  field
//!   0     4  magic "TNTT"
//!   4     1  version (1)
//!   5     1  kind (1 = ranking, 2 = mapping)
//!   6     2  reserved, must be zero
//!   8     4  count (u32 LE)
//!  12     -  contents
//! ```

use vstd::prelude::*;

use crate::bytes::{le_bytes, le_value, push_le32, read_le32};
use crate::text::push_decimal;

pub mod digest;
pub mod map;
pub mod rank;

pub use digest::{digest_hex, table_digest};
pub use map::ByteMap;
pub use rank::RankTable;

verus! {

pub const TABLE_MAGIC: [u8; 4] = [0x54, 0x4E, 0x54, 0x54];

pub const TABLE_VERSION: u8 = 1;

pub const TABLE_HEADER_LEN: usize = 12;

/// The kind byte of a ranking. Kinds exist so that loading the wrong file into the wrong parser
/// is an error rather than a misinterpretation.
pub const KIND_RANK: u8 = 1;

/// The kind byte of a mapping.
pub const KIND_MAP: u8 = 2;

#[derive(Debug, Clone, Copy, PartialEq, Eq, Structural)]
pub enum TableError {
    TooShort(usize),
    BadMagic,
    UnsupportedVersion(u8),
    UnknownKind(u8),
    ReservedNotZero,
    PayloadLen { want: usize, got: usize },
    /// A ranking listed the same token twice, which would make decoding ambiguous.
    DuplicateToken(u32),
    /// Training saw no tokens at all.
    Empty,
    /// `k + id` would overflow, so this id cannot be remapped against this ranking.
    IdTooLarge { id: u32, k: u32 },
    /// A mapping supplied an id at or beyond the vocabulary's declared size.
    IdOutsideVocabulary { id: u32, vocab_size: u32 },
    /// One token id was given two byte strings.
    DuplicateId(u32),
    /// A token decoded to zero bytes. Rejected at build time so that an empty offset range can
    /// only ever mean "absent".
    EmptyEntry(u32),
    /// A mapping's offset array is not non-decreasing, or runs past the blob.
    BadOffsets,
}

impl TableError {
    /// The text of the error.
    pub open spec fn text(self) -> Seq<char> {
        match self {
            TableError::TooShort(n) => "table file is only "@ + crate::text::decimal(n as nat)
                + " bytes"@,
            TableError::BadMagic => "table file has bad magic, expected TNTT"@,
            TableError::UnsupportedVersion(v) => "unsupported table version "@
                + crate::text::decimal(v as nat),
            TableError::UnknownKind(k) => "unknown table kind "@ + crate::text::decimal(k as nat),
            TableError::ReservedNotZero => "reserved table header bytes are not zero"@,
            TableError::PayloadLen { want, got } => "table payload is "@ + crate::text::decimal(
                got as nat,
            ) + " bytes, expected "@ + crate::text::decimal(want as nat),
            TableError::DuplicateToken(t) => "token "@ + crate::text::decimal(t as nat)
                + " appears twice in the table; ranks must be a bijection"@,
            TableError::Empty => "cannot train a table on an empty corpus"@,
            TableError::IdTooLarge { id, k } => "token id "@ + crate::text::decimal(id as nat)
                + " is too large to remap against a table of "@ + crate::text::decimal(k as nat)
                + " ranks"@,
            TableError::IdOutsideVocabulary { id, vocab_size } => "token id "@
                + crate::text::decimal(id as nat) + " is outside the vocabulary's declared size "@
                + crate::text::decimal(vocab_size as nat),
            TableError::DuplicateId(id) => "token id "@ + crate::text::decimal(id as nat)
                + " appears twice in the mapping"@,
            TableError::EmptyEntry(id) => "token id "@ + crate::text::decimal(id as nat)
                + " decodes to zero bytes, which no real tokenizer produces"@,
            TableError::BadOffsets => "mapping offsets are not monotonic or run past the blob"@,
        }
    }

    /// The text of the error.
    pub fn message(&self) -> (s: String)
        ensures
            s@ == self.text(),
    {
        match self {
            TableError::TooShort(n) => {
                let mut s = "table file is only ".to_owned();
                push_decimal(&mut s, *n as u128);
                s.append(" bytes");
                s
            },
            TableError::BadMagic => "table file has bad magic, expected TNTT".to_owned(),
            TableError::UnsupportedVersion(v) => {
                let mut s = "unsupported table version ".to_owned();
                push_decimal(&mut s, *v as u128);
                s
            },
            TableError::UnknownKind(k) => {
                let mut s = "unknown table kind ".to_owned();
                push_decimal(&mut s, *k as u128);
                s
            },
            TableError::ReservedNotZero => "reserved table header bytes are not zero".to_owned(),
            TableError::PayloadLen { want, got } => {
                let mut s = "table payload is ".to_owned();
                push_decimal(&mut s, *got as u128);
                s.append(" bytes, expected ");
                push_decimal(&mut s, *want as u128);
                s
            },
            TableError::DuplicateToken(t) => {
                let mut s = "token ".to_owned();
                push_decimal(&mut s, *t as u128);
                s.append(" appears twice in the table; ranks must be a bijection");
                s
            },
            TableError::Empty => "cannot train a table on an empty corpus".to_owned(),
            TableError::IdTooLarge { id, k } => {
                let mut s = "token id ".to_owned();
                push_decimal(&mut s, *id as u128);
                s.append(" is too large to remap against a table of ");
                push_decimal(&mut s, *k as u128);
                s.append(" ranks");
                s
            },
            TableError::IdOutsideVocabulary { id, vocab_size } => {
                let mut s = "token id ".to_owned();
                push_decimal(&mut s, *id as u128);
                s.append(" is outside the vocabulary's declared size ");
                push_decimal(&mut s, *vocab_size as u128);
                s
            },
            TableError::DuplicateId(id) => {
                let mut s = "token id ".to_owned();
                push_decimal(&mut s, *id as u128);
                s.append(" appears twice in the mapping");
                s
            },
            TableError::EmptyEntry(id) => {
                let mut s = "token id ".to_owned();
                push_decimal(&mut s, *id as u128);
                s.append(" decodes to zero bytes, which no real tokenizer produces");
                s
            },
            TableError::BadOffsets => {
                "mapping offsets are not monotonic or run past the blob".to_owned()
            },
        }
    }
}

/// The first bytes of an artefact of this kind and count.
pub open spec fn envelope(kind: u8, count: u32) -> Seq<u8> {
    TABLE_MAGIC@ + seq![TABLE_VERSION, kind, 0u8, 0u8] + le_bytes(count as nat, 4)
}

/// The first thing wrong with the envelope of `buf`, read as an artefact of this kind.
pub open spec fn envelope_fault(buf: Seq<u8>, kind: u8) -> Option<TableError> {
    if buf.len() < TABLE_HEADER_LEN {
        Some(TableError::TooShort(buf.len() as usize))
    } else if buf.take(4) != TABLE_MAGIC@ {
        Some(TableError::BadMagic)
    } else if buf[4] != TABLE_VERSION {
        Some(TableError::UnsupportedVersion(buf[4]))
    } else if buf[5] != kind {
        Some(TableError::UnknownKind(buf[5]))
    } else if buf[6] != 0 || buf[7] != 0 {
        Some(TableError::ReservedNotZero)
    } else {
        None
    }
}

/// The count that the envelope of `buf` states.
pub open spec fn stated_count(buf: Seq<u8>) -> u32 {
    le_value(buf.subrange(8, 12)) as u32
}

/// Append the envelope of an artefact.
pub(crate) fn push_envelope(out: &mut Vec<u8>, kind: u8, count: u32)
    ensures
        final(out)@ == old(out)@ + envelope(kind, count),
{
    out.push(TABLE_MAGIC[0]);
    out.push(TABLE_MAGIC[1]);
    out.push(TABLE_MAGIC[2]);
    out.push(TABLE_MAGIC[3]);
    out.push(TABLE_VERSION);
    out.push(kind);
    out.push(0);
    out.push(0);
    push_le32(out, count);
    assert(out@ =~= old(out)@ + envelope(kind, count));
}

/// Check the envelope of `buf`, read as an artefact of this kind, and give its count.
pub(crate) fn read_envelope(buf: &[u8], kind: u8) -> (r: Result<u32, TableError>)
    ensures
        match r {
            Ok(count) => {
                &&& envelope_fault(buf@, kind) is None
                &&& count == stated_count(buf@)
                &&& buf@.len() >= TABLE_HEADER_LEN
                &&& buf@.take(TABLE_HEADER_LEN as int) == envelope(kind, count)
            },
            Err(e) => envelope_fault(buf@, kind) == Some(e),
        },
{
    if buf.len() < TABLE_HEADER_LEN {
        return Err(TableError::TooShort(buf.len()));
    }
    if buf[0] != TABLE_MAGIC[0] || buf[1] != TABLE_MAGIC[1] || buf[2] != TABLE_MAGIC[2] || buf[3]
        != TABLE_MAGIC[3] {
        assert(buf@.take(4)[0] == buf@[0] && buf@.take(4)[1] == buf@[1] && buf@.take(4)[2]
            == buf@[2] && buf@.take(4)[3] == buf@[3]);
        return Err(TableError::BadMagic);
    }
    assert(buf@.take(4) =~= TABLE_MAGIC@);
    if buf[4] != TABLE_VERSION {
        return Err(TableError::UnsupportedVersion(buf[4]));
    }
    if buf[5] != kind {
        return Err(TableError::UnknownKind(buf[5]));
    }
    if buf[6] != 0 || buf[7] != 0 {
        return Err(TableError::ReservedNotZero);
    }
    let count = read_le32(buf, 8);
    proof {
        crate::bytes::lemma_le_bytes_of_value(buf@.subrange(8, 12));
        assert(buf@.take(TABLE_HEADER_LEN as int) =~= envelope(kind, count));
    }
    Ok(count)
}

/// What an envelope says is what was written into it, whatever follows.
pub proof fn lemma_envelope_roundtrip(kind: u8, count: u32, rest: Seq<u8>)
    ensures
        envelope(kind, count).len() == TABLE_HEADER_LEN,
        envelope_fault(envelope(kind, count) + rest, kind) is None,
        stated_count(envelope(kind, count) + rest) == count,
{
    let buf = envelope(kind, count) + rest;
    crate::bytes::lemma_le_limits();
    crate::bytes::lemma_le_value_of_bytes(count as nat, 4);
    assert(buf.subrange(8, 12) =~= le_bytes(count as nat, 4));
    assert(buf.take(4) =~= TABLE_MAGIC@);
}

/// An artefact of one kind is refused, by its kind byte, where one of another is wanted.
pub proof fn lemma_kinds_do_not_mix(kind: u8, count: u32, rest: Seq<u8>, wanted: u8)
    requires
        kind != wanted,
    ensures
        envelope_fault(envelope(kind, count) + rest, wanted) == Some(
            TableError::UnknownKind(kind),
        ),
{
    let buf = envelope(kind, count) + rest;
    crate::bytes::lemma_le_bytes_len(count as nat, 4);
    assert(buf.take(4) =~= TABLE_MAGIC@);
}

/// Words as an artefact stores them: four bytes each, least significant first.
pub open spec fn words_bytes(words: Seq<u32>) -> Seq<u8>
    decreases words.len(),
{
    if words.len() == 0 {
        seq![]
    } else {
        words_bytes(words.drop_last()) + le_bytes(words.last() as nat, 4)
    }
}

/// The `n` words stored from byte `at` on.
pub open spec fn stored_words(buf: Seq<u8>, at: int, n: nat) -> Seq<u32> {
    Seq::new(n, |i: int| le_value(buf.subrange(at + 4 * i, at + 4 * i + 4)) as u32)
}

pub proof fn lemma_words_bytes_len(words: Seq<u32>)
    ensures
        words_bytes(words).len() == 4 * words.len(),
    decreases words.len(),
{
    if words.len() > 0 {
        lemma_words_bytes_len(words.drop_last());
        crate::bytes::lemma_le_bytes_len(words.last() as nat, 4);
    }
}

/// Stored words read back as they were.
pub proof fn lemma_words_roundtrip(front: Seq<u8>, words: Seq<u32>, back: Seq<u8>)
    ensures
        stored_words(front + words_bytes(words) + back, front.len() as int, words.len()) == words,
    decreases words.len(),
{
    let buf = front + words_bytes(words) + back;
    let at = front.len() as int;
    lemma_words_bytes_len(words);
    if words.len() > 0 {
        let init = words.drop_last();
        let last = le_bytes(words.last() as nat, 4);
        lemma_words_roundtrip(front, init, last + back);
        lemma_words_bytes_len(init);
        assert(front + words_bytes(init) + (last + back) =~= buf);
        crate::bytes::lemma_le_limits();
        crate::bytes::lemma_le_value_of_bytes(words.last() as nat, 4);
        assert(buf.subrange(at + 4 * init.len(), at + 4 * init.len() + 4) =~= last);
        assert forall|i: int| 0 <= i < words.len() implies stored_words(buf, at, words.len())[i]
            == #[trigger] words[i] by {
            if i < init.len() {
                assert(stored_words(buf, at, init.len())[i] == init[i]);
            }
        }
    }
    assert(stored_words(buf, at, words.len()) =~= words);
}

/// Writing out the words that were read gives the bytes they were read from.
pub proof fn lemma_words_rebuilt(buf: Seq<u8>, at: int, n: nat)
    requires
        0 <= at,
        at + 4 * n <= buf.len(),
    ensures
        words_bytes(stored_words(buf, at, n)) == buf.subrange(at, at + 4 * n),
    decreases n,
{
    let words = stored_words(buf, at, n);
    if n > 0 {
        let m = (n - 1) as nat;
        lemma_words_rebuilt(buf, at, m);
        assert(words.drop_last() =~= stored_words(buf, at, m));
        let b = buf.subrange(at + 4 * m, at + 4 * m + 4);
        crate::bytes::lemma_le_bytes_of_value(b);
        crate::bytes::lemma_le_limits();
        assert(words.last() == le_value(b));
        assert(buf.subrange(at, at + 4 * n) =~= buf.subrange(at, at + 4 * m) + b);
    } else {
        assert(buf.subrange(at, at) =~= seq![]);
    }
}

/// Append words.
pub(crate) fn push_words(out: &mut Vec<u8>, words: &Vec<u32>)
    ensures
        final(out)@ == old(out)@ + words_bytes(words@),
{
    let mut i: usize = 0;
    assert(out@ =~= old(out)@ + words_bytes(words@.take(0)));
    while i < words.len()
        invariant
            i <= words@.len(),
            out@ == old(out)@ + words_bytes(words@.take(i as int)),
        decreases words@.len() - i,
    {
        push_le32(out, words[i]);
        proof {
            assert(words@.take(i + 1).drop_last() =~= words@.take(i as int));
            assert(out@ =~= old(out)@ + words_bytes(words@.take(i + 1)));
        }
        i += 1;
    }
    assert(words@.take(i as int) =~= words@);
}

/// The `n` words stored from byte `at` on.
pub(crate) fn read_words(buf: &[u8], at: usize, n: usize) -> (words: Vec<u32>)
    requires
        at + 4 * n <= buf@.len(),
    ensures
        words@ == stored_words(buf@, at as int, n as nat),
{
    let len: usize = buf.len();
    let mut words: Vec<u32> = Vec::with_capacity(n);
    let mut i: usize = 0;
    while i < n
        invariant
            i <= n,
            len == buf@.len(),
            at + 4 * n <= len,
            words@ == stored_words(buf@, at as int, i as nat),
        decreases n - i,
    {
        words.push(read_le32(buf, at + 4 * i));
        i += 1;
        assert(words@ =~= stored_words(buf@, at as int, i as nat));
    }
    words
}

/// The twelve bytes of an envelope: the letters `TNTT`, version 1, the kind, two zeros, and the
/// count with its lowest byte first.
pub proof fn lemma_envelope_layout(kind: u8, count: u32)
    ensures
        envelope(kind, count) == seq![
            0x54u8,
            0x4E,
            0x54,
            0x54,
            1,
            kind,
            0,
            0,
            (count % 256) as u8,
            (count / 256 % 256) as u8,
            (count / 65_536 % 256) as u8,
            (count / 16_777_216) as u8,
        ],
        crate::bytes::number_at(envelope(kind, count), 8) == count,
{
    crate::bytes::lemma_le_bytes_spelled(count, 0);
    assert(envelope(kind, count) =~= seq![
        0x54u8,
        0x4E,
        0x54,
        0x54,
        1,
        kind,
        0,
        0,
        (count % 256) as u8,
        (count / 256 % 256) as u8,
        (count / 65_536 % 256) as u8,
        (count / 16_777_216) as u8,
    ]);
}

/// An envelope is refused for the first thing wrong with it and accepted where nothing is: twelve
/// bytes, the letters `TNTT`, version 1, the wanted kind, two zeros.
pub proof fn lemma_envelope_checked(buf: Seq<u8>, kind: u8)
    requires
        buf.len() <= usize::MAX,
    ensures
        buf.len() < 12 ==> envelope_fault(buf, kind) == Some(
            TableError::TooShort(buf.len() as usize),
        ),
        buf.len() >= 12 ==> {
            let letters = buf[0] == 0x54 && buf[1] == 0x4E && buf[2] == 0x54 && buf[3] == 0x54;
            &&& !letters ==> envelope_fault(buf, kind) == Some(TableError::BadMagic)
            &&& letters && buf[4] != 1 ==> envelope_fault(buf, kind) == Some(
                TableError::UnsupportedVersion(buf[4]),
            )
            &&& letters && buf[4] == 1 && buf[5] != kind ==> envelope_fault(buf, kind) == Some(
                TableError::UnknownKind(buf[5]),
            )
            &&& letters && buf[4] == 1 && buf[5] == kind && !(buf[6] == 0 && buf[7] == 0)
                ==> envelope_fault(buf, kind) == Some(TableError::ReservedNotZero)
            &&& letters && buf[4] == 1 && buf[5] == kind && buf[6] == 0 && buf[7] == 0
                ==> envelope_fault(buf, kind) is None
            &&& stated_count(buf) == crate::bytes::number_at(buf, 8)
        },
{
    if buf.len() >= 12 {
        crate::bytes::lemma_le_value_digits(buf, 8);
        let four = buf.take(4);
        assert(four[0] == buf[0] && four[1] == buf[1] && four[2] == buf[2] && four[3] == buf[3]);
        if buf[0] == 0x54 && buf[1] == 0x4E && buf[2] == 0x54 && buf[3] == 0x54 {
            assert(four =~= TABLE_MAGIC@);
        }
    }
}

/// Word `i` stands in the four bytes from `4 * i` on, its lowest byte first, and is read from
/// there.
pub proof fn lemma_words_layout(words: Seq<u32>, i: int)
    requires
        0 <= i < words.len(),
    ensures
        words_bytes(words).len() == 4 * words.len(),
        crate::bytes::number_at(words_bytes(words), 4 * i) == words[i],
    decreases words.len(),
{
    lemma_words_bytes_len(words);
    let front = words.drop_last();
    lemma_words_bytes_len(front);
    if i < front.len() {
        lemma_words_layout(front, i);
    } else {
        let last = le_bytes(words.last() as nat, 4);
        crate::bytes::lemma_le_bytes_spelled(words.last(), 0);
        let b = words_bytes(words);
        assert(b[4 * i] == last[0] && b[4 * i + 1] == last[1] && b[4 * i + 2] == last[2] && b[4 * i
            + 3] == last[3]);
    }
}

pub proof fn lemma_stored_words(buf: Seq<u8>, at: int, n: nat, i: int)
    requires
        0 <= at,
        at + 4 * n <= buf.len(),
        0 <= i < n,
    ensures
        stored_words(buf, at, n).len() == n,
        stored_words(buf, at, n)[i] == crate::bytes::number_at(buf, at + 4 * i),
{
    crate::bytes::lemma_le_value_digits(buf, at + 4 * i);
}

/// Two errors of a kind read alike but for the details they give.
pub proof fn lemma_wording_of_table_error(a: TableError, b: TableError)
    ensures
        a is TooShort && b is TooShort ==> crate::text::same_wording(
            a.text(),
            crate::text::decimal(a->TooShort_0 as nat),
            b.text(),
            crate::text::decimal(b->TooShort_0 as nat),
        ),
        a is UnsupportedVersion && b is UnsupportedVersion ==> crate::text::same_wording(
            a.text(),
            crate::text::decimal(a->UnsupportedVersion_0 as nat),
            b.text(),
            crate::text::decimal(b->UnsupportedVersion_0 as nat),
        ),
        a is UnknownKind && b is UnknownKind ==> crate::text::same_wording(
            a.text(),
            crate::text::decimal(a->UnknownKind_0 as nat),
            b.text(),
            crate::text::decimal(b->UnknownKind_0 as nat),
        ),
        a is PayloadLen && b is PayloadLen ==> crate::text::same_wording_twice(
            a.text(),
            (
                crate::text::decimal(a->PayloadLen_got as nat),
                crate::text::decimal(a->PayloadLen_want as nat),
            ),
            b.text(),
            (
                crate::text::decimal(b->PayloadLen_got as nat),
                crate::text::decimal(b->PayloadLen_want as nat),
            ),
        ),
        a is DuplicateToken && b is DuplicateToken ==> crate::text::same_wording(
            a.text(),
            crate::text::decimal(a->DuplicateToken_0 as nat),
            b.text(),
            crate::text::decimal(b->DuplicateToken_0 as nat),
        ),
        a is IdTooLarge && b is IdTooLarge ==> crate::text::same_wording_twice(
            a.text(),
            (
                crate::text::decimal(a->IdTooLarge_id as nat),
                crate::text::decimal(a->IdTooLarge_k as nat),
            ),
            b.text(),
            (
                crate::text::decimal(b->IdTooLarge_id as nat),
                crate::text::decimal(b->IdTooLarge_k as nat),
            ),
        ),
        a is IdOutsideVocabulary && b is IdOutsideVocabulary ==> crate::text::same_wording_twice(
            a.text(),
            (
                crate::text::decimal(a->IdOutsideVocabulary_id as nat),
                crate::text::decimal(a->IdOutsideVocabulary_vocab_size as nat),
            ),
            b.text(),
            (
                crate::text::decimal(b->IdOutsideVocabulary_id as nat),
                crate::text::decimal(b->IdOutsideVocabulary_vocab_size as nat),
            ),
        ),
        a is DuplicateId && b is DuplicateId ==> crate::text::same_wording(
            a.text(),
            crate::text::decimal(a->DuplicateId_0 as nat),
            b.text(),
            crate::text::decimal(b->DuplicateId_0 as nat),
        ),
        a is EmptyEntry && b is EmptyEntry ==> crate::text::same_wording(
            a.text(),
            crate::text::decimal(a->EmptyEntry_0 as nat),
            b.text(),
            crate::text::decimal(b->EmptyEntry_0 as nat),
        ),
{
    if a is TooShort && b is TooShort {
        assert(crate::text::worded(
            a.text(),
            "table file is only "@,
            crate::text::decimal(a->TooShort_0 as nat),
            " bytes"@,
        ));
        assert(crate::text::worded(
            b.text(),
            "table file is only "@,
            crate::text::decimal(b->TooShort_0 as nat),
            " bytes"@,
        ));
    }
    if a is UnsupportedVersion && b is UnsupportedVersion {
        assert(crate::text::worded(
            a.text(),
            "unsupported table version "@,
            crate::text::decimal(a->UnsupportedVersion_0 as nat),
            Seq::<char>::empty(),
        ));
        assert(crate::text::worded(
            b.text(),
            "unsupported table version "@,
            crate::text::decimal(b->UnsupportedVersion_0 as nat),
            Seq::<char>::empty(),
        ));
    }
    if a is UnknownKind && b is UnknownKind {
        assert(crate::text::worded(
            a.text(),
            "unknown table kind "@,
            crate::text::decimal(a->UnknownKind_0 as nat),
            Seq::<char>::empty(),
        ));
        assert(crate::text::worded(
            b.text(),
            "unknown table kind "@,
            crate::text::decimal(b->UnknownKind_0 as nat),
            Seq::<char>::empty(),
        ));
    }
    if a is PayloadLen && b is PayloadLen {
        assert(crate::text::worded_twice(
            a.text(),
            "table payload is "@,
            (
                crate::text::decimal(a->PayloadLen_got as nat),
                crate::text::decimal(a->PayloadLen_want as nat),
            ),
            " bytes, expected "@,
            Seq::<char>::empty(),
        ));
        assert(crate::text::worded_twice(
            b.text(),
            "table payload is "@,
            (
                crate::text::decimal(b->PayloadLen_got as nat),
                crate::text::decimal(b->PayloadLen_want as nat),
            ),
            " bytes, expected "@,
            Seq::<char>::empty(),
        ));
    }
    if a is DuplicateToken && b is DuplicateToken {
        assert(crate::text::worded(
            a.text(),
            "token "@,
            crate::text::decimal(a->DuplicateToken_0 as nat),
            " appears twice in the table; ranks must be a bijection"@,
        ));
        assert(crate::text::worded(
            b.text(),
            "token "@,
            crate::text::decimal(b->DuplicateToken_0 as nat),
            " appears twice in the table; ranks must be a bijection"@,
        ));
    }
    if a is IdTooLarge && b is IdTooLarge {
        assert(crate::text::worded_twice(
            a.text(),
            "token id "@,
            (
                crate::text::decimal(a->IdTooLarge_id as nat),
                crate::text::decimal(a->IdTooLarge_k as nat),
            ),
            " is too large to remap against a table of "@,
            " ranks"@,
        ));
        assert(crate::text::worded_twice(
            b.text(),
            "token id "@,
            (
                crate::text::decimal(b->IdTooLarge_id as nat),
                crate::text::decimal(b->IdTooLarge_k as nat),
            ),
            " is too large to remap against a table of "@,
            " ranks"@,
        ));
    }
    if a is IdOutsideVocabulary && b is IdOutsideVocabulary {
        assert(crate::text::worded_twice(
            a.text(),
            "token id "@,
            (
                crate::text::decimal(a->IdOutsideVocabulary_id as nat),
                crate::text::decimal(a->IdOutsideVocabulary_vocab_size as nat),
            ),
            " is outside the vocabulary's declared size "@,
            Seq::<char>::empty(),
        ));
        assert(crate::text::worded_twice(
            b.text(),
            "token id "@,
            (
                crate::text::decimal(b->IdOutsideVocabulary_id as nat),
                crate::text::decimal(b->IdOutsideVocabulary_vocab_size as nat),
            ),
            " is outside the vocabulary's declared size "@,
            Seq::<char>::empty(),
        ));
    }
    if a is DuplicateId && b is DuplicateId {
        assert(crate::text::worded(
            a.text(),
            "token id "@,
            crate::text::decimal(a->DuplicateId_0 as nat),
            " appears twice in the mapping"@,
        ));
        assert(crate::text::worded(
            b.text(),
            "token id "@,
            crate::text::decimal(b->DuplicateId_0 as nat),
            " appears twice in the mapping"@,
        ));
    }
    if a is EmptyEntry && b is EmptyEntry {
        assert(crate::text::worded(
            a.text(),
            "token id "@,
            crate::text::decimal(a->EmptyEntry_0 as nat),
            " decodes to zero bytes, which no real tokenizer produces"@,
        ));
        assert(crate::text::worded(
            b.text(),
            "token id "@,
            crate::text::decimal(b->EmptyEntry_0 as nat),
            " decodes to zero bytes, which no real tokenizer produces"@,
        ));
    }
}

} // verus!
