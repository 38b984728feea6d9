//! The stored value: header plus encoded payload.
//!
//! Everything here operates on token ids. Turning text into ids is the caller's job, done with
//! whatever tokenizer they already use.

use vstd::prelude::*;

use crate::codec::freq::{
    all_ranked, decode_freq, encode_freq, freq_ids, freq_payload, unranked, FreqError,
};
use crate::codec::raw::{
    decode16, decode24, decode8, encode16, encode24, encode8, fits, packed, preferred,
    preferred_raw, unpacked, RawError,
};
use crate::codec::streamvbyte::{holds, holds_stream, start};
use crate::header::{header_fault, stated_header, Codec, Header, HeaderError, HEADER_LEN};
use crate::tables::RankTable;
use crate::text::{push_decimal, same_text};

verus! {

#[derive(Debug, Clone, PartialEq, Eq)]
pub enum ValueError {
    Header(HeaderError),
    Raw(RawError),
    Freq(FreqError),
    /// The codec needs a coding table that was not supplied.
    MissingTable(Codec),
    /// More ids than the 32-bit token count can express.
    TooManyTokens(usize),
}

impl ValueError {
    /// The text of the error.
    pub open spec fn text(self) -> Seq<char> {
        match self {
            ValueError::Header(e) => e.text(),
            ValueError::Raw(e) => e.text(),
            ValueError::Freq(e) => e.text(),
            ValueError::MissingTable(c) => "codec "@ + c.name()
                + " needs a coding table, none was supplied"@,
            ValueError::TooManyTokens(n) => crate::text::decimal(n as nat)
                + " tokens exceeds the 4294967295 the format can address"@,
        }
    }

    /// The text of the error.
    pub fn message(&self) -> (s: String)
        ensures
            s@ == self.text(),
    {
        match self {
            ValueError::Header(e) => e.message(),
            ValueError::Raw(e) => e.message(),
            ValueError::Freq(e) => e.message(),
            ValueError::MissingTable(c) => {
                let mut s = "codec ".to_owned();
                s.append(c.as_str());
                s.append(" needs a coding table, none was supplied");
                s
            },
            ValueError::TooManyTokens(n) => {
                let mut s = String::new();
                push_decimal(&mut s, *n as u128);
                s.append(" tokens exceeds the 4294967295 the format can address");
                assert(s@ =~= self.text());
                s
            },
        }
    }
}

impl From<HeaderError> for ValueError {
    fn from(e: HeaderError) -> (r: Self) {
        ValueError::Header(e)
    }
}

impl vstd::std_specs::convert::FromSpecImpl<HeaderError> for ValueError {
    open spec fn obeys_from_spec() -> bool {
        true
    }

    open spec fn from_spec(e: HeaderError) -> Self {
        ValueError::Header(e)
    }
}

impl From<RawError> for ValueError {
    fn from(e: RawError) -> (r: Self) {
        ValueError::Raw(e)
    }
}

impl vstd::std_specs::convert::FromSpecImpl<RawError> for ValueError {
    open spec fn obeys_from_spec() -> bool {
        true
    }

    open spec fn from_spec(e: RawError) -> Self {
        ValueError::Raw(e)
    }
}

impl From<FreqError> for ValueError {
    fn from(e: FreqError) -> (r: Self) {
        ValueError::Freq(e)
    }
}

impl vstd::std_specs::convert::FromSpecImpl<FreqError> for ValueError {
    open spec fn obeys_from_spec() -> bool {
        true
    }

    open spec fn from_spec(e: FreqError) -> Self {
        ValueError::Freq(e)
    }
}

/// The ranked tokens of a table, where there is one.
pub open spec fn tokens_in(table: Option<&RankTable>) -> Option<Seq<u32>> {
    match table {
        Some(t) => Some(t@),
        None => None,
    }
}

/// Whether `codec` has room for every id, under the given table.
pub open spec fn encodable(ids: Seq<u32>, codec: Codec, table: Option<Seq<u32>>) -> bool {
    &&& ids.len() <= u32::MAX
    &&& match codec {
        Codec::Freq => table is Some && all_ranked(table->0, ids),
        _ => forall|i: int| 0 <= i < ids.len() ==> fits(codec, #[trigger] ids[i]),
    }
}

/// The payload that holds `ids`.
pub open spec fn payload_of(ids: Seq<u32>, codec: Codec, table: Option<Seq<u32>>) -> Seq<u8> {
    match codec {
        Codec::Freq => freq_payload(table->0, ids),
        _ => packed(codec, ids),
    }
}

/// The stored value that holds `ids`.
pub open spec fn value_of(
    ids: Seq<u32>,
    codec: Codec,
    vocabulary_id: u16,
    table: Option<Seq<u32>>,
) -> Seq<u8> {
    (Header { codec, vocabulary_id, n_tokens: ids.len() as u32 }).spec_bytes() + payload_of(
        ids,
        codec,
        table,
    )
}

/// Whether encoding `ids` ends in `e`.
pub open spec fn encode_fails(
    ids: Seq<u32>,
    codec: Codec,
    table: Option<Seq<u32>>,
    e: ValueError,
) -> bool {
    if ids.len() > u32::MAX {
        e == ValueError::TooManyTokens(ids.len() as usize)
    } else if codec == Codec::Freq {
        match table {
            None => e == ValueError::MissingTable(codec),
            Some(tokens) => e matches ValueError::Freq(FreqError::Table(t)) && unranked(
                tokens,
                ids,
                t,
            ),
        }
    } else {
        exists|i: int|
            {
                &&& 0 <= i < ids.len()
                &&& !fits(codec, #[trigger] ids[i])
                &&& forall|j: int| 0 <= j < i ==> fits(codec, #[trigger] ids[j])
                &&& e == ValueError::Raw(RawError::IdTooWide { id: ids[i], codec })
            }
    }
}

/// The payload of a value.
pub open spec fn payload_in(value: Seq<u8>) -> Seq<u8> {
    value.skip(HEADER_LEN as int)
}

/// Whether the payload of a sound `freq` value runs for as long as its control bytes state. A
/// payload that stops short of that cannot be decoded.
pub open spec fn runs_through(value: Seq<u8>) -> bool {
    let h = stated_header(value);
    header_fault(value) is None && h.codec == Codec::Freq && h.n_tokens > 0 ==> holds(
        payload_in(value),
        h.n_tokens as nat,
    )
}

/// Whether the payload of a `freq` value runs for as long as its control bytes state. Anything that
/// is no sound `freq` value has nothing to run through.
pub fn payload_runs_through(value: &[u8]) -> (r: bool)
    ensures
        r == runs_through(value@),
{
    match Header::parse(value) {
        Ok((h, payload)) => {
            proof {
                crate::header::lemma_header_roundtrip(h, payload@);
                crate::header::lemma_header_len(h);
                assert(payload_in(value@) =~= payload@);
            }
            match h.codec {
                Codec::Freq => h.n_tokens == 0 || holds_stream(payload, h.n_tokens as usize),
                _ => true,
            }
        },
        Err(_) => true,
    }
}

/// What is wrong with `value` as one to be decoded under the given table, if anything is.
pub open spec fn decode_fault(value: Seq<u8>, table: Option<Seq<u32>>) -> Option<ValueError> {
    let h = stated_header(value);
    let n = h.n_tokens as nat;
    let payload = payload_in(value);
    if header_fault(value) is Some {
        Some(ValueError::Header(header_fault(value)->0))
    } else if h.codec == Codec::Freq && table is None {
        Some(ValueError::MissingTable(h.codec))
    } else if h.codec == Codec::Freq && n > 0 && start(payload, n, n) != payload.len() {
        Some(
            ValueError::Freq(
                FreqError::TrailingBytes {
                    consumed: start(payload, n, n) as usize,
                    len: payload.len() as usize,
                },
            ),
        )
    } else {
        None
    }
}

/// The ids that `value` holds, under the given table.
pub open spec fn ids_in(value: Seq<u8>, table: Option<Seq<u32>>) -> Seq<u32> {
    let h = stated_header(value);
    if h.codec == Codec::Freq {
        freq_ids(table->0, payload_in(value), h.n_tokens as nat)
    } else {
        unpacked(h.codec, payload_in(value), h.n_tokens as nat)
    }
}

/// Resolve a codec name against the data. `raw` picks the narrowest packing that fits.
pub fn resolve_codec(name: &str, ids: &[u32]) -> (r: Result<Codec, HeaderError>)
    ensures
        name@ == "raw"@ ==> r == Ok::<Codec, HeaderError>(preferred(ids@)),
        name@ != "raw"@ ==> match r {
            Ok(c) => name@ == c.name(),
            Err(e) => (e matches HeaderError::UnknownCodecName(n) && n@ == name@) && forall|
                c: Codec,
            | #[trigger] c.name() != name@,
        },
{
    if same_text(name, "raw") {
        return Ok(preferred_raw(ids));
    }
    Codec::parse(name)
}

/// Encode token ids into a stored value.
pub fn encode(ids: &[u32], codec: Codec, table_id: u16, table: Option<&RankTable>) -> (r: Result<
    Vec<u8>,
    ValueError,
>)
    requires
        codec == Codec::Freq && encodable(ids@, codec, tokens_in(table)) ==> ids@.len() * 5
            <= usize::MAX,
    ensures
        match r {
            Ok(v) => encodable(ids@, codec, tokens_in(table)) && v@ == value_of(
                ids@,
                codec,
                table_id,
                tokens_in(table),
            ),
            Err(e) => !encodable(ids@, codec, tokens_in(table)) && encode_fails(
                ids@,
                codec,
                tokens_in(table),
                e,
            ),
        },
{
    if ids.len() as u64 > u32::MAX as u64 {
        return Err(ValueError::TooManyTokens(ids.len()));
    }
    let n_tokens: u32 = ids.len() as u32;
    let mut out: Vec<u8> = Vec::new();
    Header::new(codec, table_id, n_tokens).write_to(&mut out);
    let packing = match codec {
        Codec::Raw8 => encode8(ids, &mut out),
        Codec::Raw16 => encode16(ids, &mut out),
        Codec::Raw24 => encode24(ids, &mut out),
        Codec::Freq => {
            let t = match table {
                Some(t) => t,
                None => {
                    return Err(ValueError::MissingTable(codec));
                },
            };
            match encode_freq(ids, t, &mut out) {
                Ok(()) => Ok(()),
                Err(e) => {
                    assert(!all_ranked(t@, ids@));
                    return Err(ValueError::from(e));
                },
            }
        },
    };
    match packing {
        Ok(()) => Ok(out),
        Err(e) => Err(ValueError::from(e)),
    }
}

/// Decode a stored value back to token ids.
pub fn decode(value: &[u8], table: Option<&RankTable>) -> (r: Result<Vec<u32>, ValueError>)
    requires
        table is Some ==> runs_through(value@),
    ensures
        match r {
            Ok(ids) => decode_fault(value@, tokens_in(table)) is None && ids@ == ids_in(
                value@,
                tokens_in(table),
            ),
            Err(e) => decode_fault(value@, tokens_in(table)) == Some(e),
        },
{
    let (h, payload) = match Header::parse(value) {
        Ok(p) => p,
        Err(e) => {
            return Err(ValueError::from(e));
        },
    };
    proof {
        crate::header::lemma_header_roundtrip(h, payload@);
        crate::header::lemma_header_len(h);
        assert(payload_in(value@) =~= payload@);
    }
    let n: usize = h.n_tokens as usize;
    let len: usize = payload.len();
    assert(h.codec != Codec::Freq ==> n * h.codec.width() == len);
    let unpacking = match h.codec {
        Codec::Raw8 => decode8(payload, n),
        Codec::Raw16 => decode16(payload, n),
        Codec::Raw24 => decode24(payload, n),
        Codec::Freq => {
            let t = match table {
                Some(t) => t,
                None => {
                    return Err(ValueError::MissingTable(h.codec));
                },
            };
            match decode_freq(payload, n, t) {
                Ok(ids) => Ok(ids),
                Err(e) => {
                    return Err(ValueError::from(e));
                },
            }
        },
    };
    match unpacking {
        Ok(ids) => Ok(ids),
        Err(e) => Err(ValueError::from(e)),
    }
}

/// Re-encode a value under a different codec, without leaving the token-id domain.
pub fn recode(
    value: &[u8],
    to_codec: Codec,
    to_table_id: u16,
    from_table: Option<&RankTable>,
    to_table: Option<&RankTable>,
) -> (r: Result<Vec<u8>, ValueError>)
    requires
        from_table is Some ==> runs_through(value@),
        to_codec == Codec::Freq && decode_fault(value@, tokens_in(from_table)) is None && encodable(
            ids_in(value@, tokens_in(from_table)),
            to_codec,
            tokens_in(to_table),
        ) ==> stated_header(value@).n_tokens * 5 <= usize::MAX,
    ensures
        match decode_fault(value@, tokens_in(from_table)) {
            Some(e) => r == Err::<Vec<u8>, ValueError>(e),
            None => {
                let ids = ids_in(value@, tokens_in(from_table));
                match r {
                    Ok(v) => encodable(ids, to_codec, tokens_in(to_table)) && v@ == value_of(
                        ids,
                        to_codec,
                        to_table_id,
                        tokens_in(to_table),
                    ),
                    Err(e) => !encodable(ids, to_codec, tokens_in(to_table)) && encode_fails(
                        ids,
                        to_codec,
                        tokens_in(to_table),
                        e,
                    ),
                }
            },
        },
{
    match decode(value, from_table) {
        Ok(ids) => encode(ids.as_slice(), to_codec, to_table_id, to_table),
        Err(e) => Err(e),
    }
}

/// Header-only inspection: reads 12 bytes and loads no table.
pub fn describe(value: &[u8]) -> (r: Result<(Header, usize), ValueError>)
    ensures
        match r {
            Ok((h, len)) => {
                &&& header_fault(value@) is None
                &&& h == stated_header(value@)
                &&& len == payload_in(value@).len()
            },
            Err(e) => header_fault(value@) is Some && e == ValueError::Header(
                header_fault(value@)->0,
            ),
        },
{
    let (h, payload) = match Header::parse(value) {
        Ok(p) => p,
        Err(e) => {
            return Err(ValueError::from(e));
        },
    };
    proof {
        crate::header::lemma_header_roundtrip(h, payload@);
        crate::header::lemma_header_len(h);
        assert(payload_in(value@) =~= payload@);
    }
    Ok((h, payload.len()))
}

/// Every codec is lossless: a value decodes to the ids it was encoded from. A `freq` value needs a
/// nonzero vocabulary id for that, since the header does not let it go without.
pub proof fn lemma_value_roundtrip(
    ids: Seq<u32>,
    codec: Codec,
    vocabulary_id: u16,
    table: Option<Seq<u32>>,
)
    requires
        encodable(ids, codec, table),
        codec == Codec::Freq ==> vocabulary_id != 0 && table->0.no_duplicates(),
    ensures
        header_fault(value_of(ids, codec, vocabulary_id, table)) is None,
        stated_header(value_of(ids, codec, vocabulary_id, table)) == (Header {
            codec,
            vocabulary_id,
            n_tokens: ids.len() as u32,
        }),
        runs_through(value_of(ids, codec, vocabulary_id, table)),
        decode_fault(value_of(ids, codec, vocabulary_id, table), table) is None,
        ids_in(value_of(ids, codec, vocabulary_id, table), table) == ids,
{
    let h = Header { codec, vocabulary_id, n_tokens: ids.len() as u32 };
    let payload = payload_of(ids, codec, table);
    let value = value_of(ids, codec, vocabulary_id, table);
    crate::header::lemma_header_len(h);
    assert(payload_in(value) =~= payload);
    if codec == Codec::Freq {
        crate::codec::freq::lemma_freq_roundtrip(table->0, ids);
        crate::codec::freq::lemma_freq_payload_len(table->0, ids);
    } else {
        crate::codec::raw::lemma_raw_roundtrip(codec, ids);
    }
    crate::header::lemma_header_roundtrip(h, payload);
}

/// Encoding is canonical: under one codec, vocabulary id and table, two values are byte-identical
/// exactly where they hold the same ids. This is what makes equality, grouping and hash joins on
/// stored values correct.
pub proof fn lemma_value_canonical(
    a: Seq<u32>,
    b: Seq<u32>,
    codec: Codec,
    vocabulary_id: u16,
    table: Option<Seq<u32>>,
)
    requires
        encodable(a, codec, table),
        encodable(b, codec, table),
        codec == Codec::Freq ==> table->0.no_duplicates(),
    ensures
        value_of(a, codec, vocabulary_id, table) == value_of(b, codec, vocabulary_id, table)
            <==> a == b,
{
    if value_of(a, codec, vocabulary_id, table) == value_of(b, codec, vocabulary_id, table) {
        let ha = Header { codec, vocabulary_id, n_tokens: a.len() as u32 };
        let hb = Header { codec, vocabulary_id, n_tokens: b.len() as u32 };
        crate::header::lemma_header_injective(
            ha,
            payload_of(a, codec, table),
            hb,
            payload_of(b, codec, table),
        );
        if codec == Codec::Freq {
            crate::codec::freq::lemma_freq_roundtrip(table->0, a);
            crate::codec::freq::lemma_freq_roundtrip(table->0, b);
        } else {
            crate::codec::raw::lemma_raw_roundtrip(codec, a);
            crate::codec::raw::lemma_raw_roundtrip(codec, b);
        }
    }
}

/// A raw value is the only one that holds its ids: encoding them again gives the same bytes.
pub proof fn lemma_raw_value_canonical(value: Seq<u8>)
    requires
        header_fault(value) is None,
        stated_header(value).codec != Codec::Freq,
    ensures
        value_of(
            ids_in(value, None),
            stated_header(value).codec,
            stated_header(value).vocabulary_id,
            None,
        ) == value,
{
    let h = stated_header(value);
    crate::codec::raw::lemma_raw_canonical(h.codec, payload_in(value), h.n_tokens as nat);
    crate::header::lemma_sound_header(value);
}

/// Recoding keeps the ids, from any codec and table to any that has room for them.
pub proof fn lemma_recode_preserves_ids(
    value: Seq<u8>,
    from_table: Option<Seq<u32>>,
    to_codec: Codec,
    to_vocabulary_id: u16,
    to_table: Option<Seq<u32>>,
)
    requires
        decode_fault(value, from_table) is None,
        encodable(ids_in(value, from_table), to_codec, to_table),
        to_codec == Codec::Freq ==> to_vocabulary_id != 0 && to_table->0.no_duplicates(),
    ensures
        ({
            let recoded = value_of(
                ids_in(value, from_table),
                to_codec,
                to_vocabulary_id,
                to_table,
            );
            decode_fault(recoded, to_table) is None && runs_through(recoded) && ids_in(
                recoded,
                to_table,
            ) == ids_in(value, from_table)
        }),
{
    lemma_value_roundtrip(ids_in(value, from_table), to_codec, to_vocabulary_id, to_table);
}

/// No ids are a bare header.
pub proof fn lemma_empty_is_a_bare_header(
    codec: Codec,
    vocabulary_id: u16,
    table: Option<Seq<u32>>,
)
    ensures
        value_of(seq![], codec, vocabulary_id, table) == (Header {
            codec,
            vocabulary_id,
            n_tokens: 0,
        }).spec_bytes(),
        value_of(seq![], codec, vocabulary_id, table).len() == HEADER_LEN,
{
    let h = Header { codec, vocabulary_id, n_tokens: 0 };
    crate::header::lemma_header_len(h);
    if codec == Codec::Freq {
        crate::codec::freq::lemma_freq_payload_len(table->0, seq![]);
    }
    assert(value_of(seq![], codec, vocabulary_id, table) =~= h.spec_bytes());
}

/// A raw value takes a header and the codec's width for each id.
pub proof fn lemma_raw_value_len(
    ids: Seq<u32>,
    codec: Codec,
    vocabulary_id: u16,
    table: Option<Seq<u32>>,
)
    requires
        codec != Codec::Freq,
    ensures
        value_of(ids, codec, vocabulary_id, table).len() == HEADER_LEN + ids.len() * codec.width(),
{
    crate::header::lemma_header_len(Header { codec, vocabulary_id, n_tokens: ids.len() as u32 });
    crate::codec::raw::lemma_packed_len(codec, ids);
}

/// Ids can be encoded exactly where there are no more than a 32-bit count can say and the codec has
/// room for each: a raw codec for what its width can spell, `freq`, under a ranking, for every
/// ranked token and for every id that the number of ranked tokens can be added to.
pub proof fn lemma_encodable_means(ids: Seq<u32>, codec: Codec, table: Option<Seq<u32>>)
    requires
        table is Some ==> table->0.no_duplicates(),
    ensures
        encodable(ids, codec, table) <==> {
            &&& ids.len() <= u32::MAX
            &&& codec == Codec::Freq ==> table is Some
            &&& forall|i: int|
                0 <= i < ids.len() ==> if codec == Codec::Freq {
                    table->0.contains(#[trigger] ids[i]) || ids[i] + table->0.len() <= u32::MAX
                } else {
                    ids[i] < crate::bytes::le_limit(codec.width())
                }
        },
{
    crate::bytes::lemma_le_limits();
    if codec == Codec::Freq {
        if table is Some {
            let tokens = table->0;
            assert forall|id: u32|
                crate::tables::rank::rank_in(tokens, id) is Some <==> (#[trigger] tokens.contains(id)
                    || id + tokens.len() <= u32::MAX) by {
                crate::tables::rank::lemma_every_small_id_has_a_rank(tokens, id);
            }
            if encodable(ids, codec, table) {
                assert forall|i: int| 0 <= i < ids.len() implies (tokens.contains(#[trigger] ids[i])
                    || ids[i] + tokens.len() <= u32::MAX) by {
                    assert(crate::tables::rank::rank_in(tokens, ids[i]) is Some);
                }
            }
            if forall|i: int|
                0 <= i < ids.len() ==> (tokens.contains(#[trigger] ids[i]) || ids[i] + tokens.len()
                    <= u32::MAX) {
                assert forall|i: int| 0 <= i < ids.len() implies crate::tables::rank::rank_in(
                    tokens,
                    #[trigger] ids[i],
                ) is Some by {
                    assert(tokens.contains(ids[i]) || ids[i] + tokens.len() <= u32::MAX);
                }
            }
        }
    } else {
        assert forall|id: u32| #[trigger] fits(codec, id) <==> id < crate::bytes::le_limit(
            codec.width(),
        ) by {
            crate::codec::raw::lemma_fits_means_spelled(codec, id);
        }
        if encodable(ids, codec, table) {
            assert forall|i: int| 0 <= i < ids.len() implies (#[trigger] ids[i])
                < crate::bytes::le_limit(codec.width()) by {
                assert(fits(codec, ids[i]));
            }
        }
        if forall|i: int|
            0 <= i < ids.len() ==> (#[trigger] ids[i]) < crate::bytes::le_limit(codec.width()) {
            assert forall|i: int| 0 <= i < ids.len() implies fits(codec, #[trigger] ids[i]) by {}
        }
    }
}

/// A value is its header and then its payload, the ids packed or, for `freq`, their ranks.
pub proof fn lemma_value_layout(
    ids: Seq<u32>,
    codec: Codec,
    vocabulary_id: u16,
    table: Option<Seq<u32>>,
)
    requires
        ids.len() <= u32::MAX,
    ensures
        ({
            let v = value_of(ids, codec, vocabulary_id, table);
            &&& v.len() >= 12
            &&& v[0] == 0xA7 && v[1] == 1 && v[2] == codec.spec_code() && v[3] == 0
            &&& v[4] + 256 * v[5] == vocabulary_id
            &&& v[6] == 0 && v[7] == 0
            &&& crate::bytes::number_at(v, 8) == ids.len()
            &&& codec != Codec::Freq ==> v.skip(12) == packed(codec, ids)
            &&& codec == Codec::Freq ==> v.skip(12) == freq_payload(table->0, ids)
        }),
{
    let v = value_of(ids, codec, vocabulary_id, table);
    let h = Header { codec, vocabulary_id, n_tokens: ids.len() as u32 };
    let payload = payload_of(ids, codec, table);
    crate::header::lemma_header_layout(h);
    crate::bytes::lemma_le_bytes_spelled(h.n_tokens, vocabulary_id);
    let hb = h.spec_bytes();
    assert(v[8] == hb[8] && v[9] == hb[9] && v[10] == hb[10] && v[11] == hb[11]);
    assert(v.skip(12) =~= payload);
}

/// What encoding ends in where it fails: too many ids counts before all else, then a missing
/// ranking, and then the first id that has no room.
pub proof fn lemma_encode_failure(
    ids: Seq<u32>,
    codec: Codec,
    table: Option<Seq<u32>>,
    i: int,
    e: ValueError,
)
    requires
        ids.len() <= usize::MAX,
        table is Some ==> table->0.no_duplicates(),
    ensures
        ids.len() > u32::MAX ==> (encode_fails(ids, codec, table, e) <==> e
            == ValueError::TooManyTokens(ids.len() as usize)),
        ids.len() <= u32::MAX && codec == Codec::Freq && table is None ==> (encode_fails(
            ids,
            codec,
            table,
            e,
        ) <==> e == ValueError::MissingTable(Codec::Freq)),
        ids.len() <= u32::MAX && codec == Codec::Freq && table is Some && 0 <= i < ids.len()
            && all_ranked(table->0, ids.take(i)) && !table->0.contains(ids[i]) && ids[i]
            + table->0.len() > u32::MAX ==> (encode_fails(ids, codec, table, e) <==> e
            == ValueError::Freq(
            FreqError::Table(
                crate::tables::TableError::IdTooLarge {
                    id: ids[i],
                    k: crate::bytes::low32(table->0.len()),
                },
            ),
        )),
        ids.len() <= u32::MAX && codec != Codec::Freq && 0 <= i < ids.len() && ids[i]
            >= crate::bytes::le_limit(codec.width()) && (forall|j: int|
            0 <= j < i ==> (#[trigger] ids[j]) < crate::bytes::le_limit(codec.width())) ==> (
        encode_fails(ids, codec, table, e) <==> e == ValueError::Raw(
            RawError::IdTooWide { id: ids[i], codec },
        )),
{
    if ids.len() <= u32::MAX && codec == Codec::Freq && table is Some && 0 <= i < ids.len()
        && all_ranked(table->0, ids.take(i)) && !table->0.contains(ids[i]) && ids[i]
        + table->0.len() > u32::MAX {
        let t = crate::tables::TableError::IdTooLarge {
            id: ids[i],
            k: crate::bytes::low32(table->0.len()),
        };
        crate::codec::freq::lemma_refused_id(table->0, ids, i, t);
        if e is Freq && e->Freq_0 is Table {
            crate::codec::freq::lemma_refused_id(table->0, ids, i, e->Freq_0->Table_0);
        }
    }
    if codec != Codec::Freq && ids.len() <= u32::MAX && 0 <= i < ids.len() && ids[i]
        >= crate::bytes::le_limit(codec.width()) && (forall|j: int|
        0 <= j < i ==> (#[trigger] ids[j]) < crate::bytes::le_limit(codec.width())) {
        crate::bytes::lemma_le_limits();
        assert forall|id: u32| #[trigger] fits(codec, id) <==> id < crate::bytes::le_limit(
            codec.width(),
        ) by {
            crate::codec::raw::lemma_fits_means_spelled(codec, id);
        }
        assert(!fits(codec, ids[i]));
        assert forall|j: int| 0 <= j < i implies fits(codec, #[trigger] ids[j]) by {
            assert(ids[j] < crate::bytes::le_limit(codec.width()));
        }
        if encode_fails(ids, codec, table, e) {
            let k = choose|k: int|
                {
                    &&& 0 <= k < ids.len()
                    &&& !fits(codec, #[trigger] ids[k])
                    &&& forall|j: int| 0 <= j < k ==> fits(codec, #[trigger] ids[j])
                    &&& e == ValueError::Raw(RawError::IdTooWide { id: ids[k], codec })
                };
            if k < i {
                assert(fits(codec, ids[k]));
            } else if i < k {
                assert(fits(codec, ids[i]));
            }
        }
    }
}

/// What a value holds is read from behind its header, and its ids in the way its own codec says.
/// Decoding is refused for a bad header, for a ranking that is wanted and not there, and for a
/// stream that does not end where the value does; for nothing else.
pub proof fn lemma_decoding_outcome(value: Seq<u8>, table: Option<Seq<u32>>)
    requires
        value.len() <= usize::MAX,
    ensures
        ({
            let h = stated_header(value);
            let n = h.n_tokens as nat;
            let payload = value.skip(12);
            let ended = n == 0 || start(payload, n, n) == payload.len();
            &&& header_fault(value) is Some ==> decode_fault(value, table) == Some(
                ValueError::Header(header_fault(value)->0),
            )
            &&& header_fault(value) is None && h.codec != Codec::Freq ==> decode_fault(
                value,
                table,
            ) is None && ids_in(value, table) == unpacked(h.codec, payload, n)
            &&& header_fault(value) is None && h.codec == Codec::Freq && table is None
                ==> decode_fault(value, table) == Some(ValueError::MissingTable(Codec::Freq))
            &&& header_fault(value) is None && h.codec == Codec::Freq && table is Some && ended
                ==> decode_fault(value, table) is None && ids_in(value, table) == freq_ids(
                table->0,
                payload,
                n,
            )
            &&& header_fault(value) is None && h.codec == Codec::Freq && table is Some && !ended
                && start(payload, n, n) <= usize::MAX ==> decode_fault(value, table) == Some(
                ValueError::Freq(
                    FreqError::TrailingBytes {
                        consumed: start(payload, n, n) as usize,
                        len: payload.len() as usize,
                    },
                ),
            )
            &&& payload_in(value) == payload
            &&& runs_through(value) <==> (header_fault(value) is None && h.codec == Codec::Freq && n
                > 0 ==> holds(payload, n))
        }),
{
}

/// A raw value cut short, or with bytes added, is no value any more.
pub proof fn lemma_raw_length_is_checked(value: Seq<u8>, other: Seq<u8>)
    requires
        value.len() <= usize::MAX,
        other.len() <= usize::MAX,
        header_fault(value) is None,
        stated_header(value).codec != Codec::Freq,
        other.len() != value.len(),
        other.len() >= 12,
        other.take(12) == value.take(12),
    ensures
        header_fault(other) is Some,
{
    crate::header::lemma_header_checked(value);
    crate::header::lemma_header_checked(other);
    assert(value.len() >= 12);
    let a = value.take(12);
    let b = other.take(12);
    assert(a[0] == value[0] && a[1] == value[1] && a[2] == value[2] && a[3] == value[3]);
    assert(a[4] == value[4] && a[5] == value[5] && a[6] == value[6] && a[7] == value[7]);
    assert(a[8] == value[8] && a[9] == value[9] && a[10] == value[10] && a[11] == value[11]);
    assert(b[0] == other[0] && b[1] == other[1] && b[2] == other[2] && b[3] == other[3]);
    assert(b[4] == other[4] && b[5] == other[5] && b[6] == other[6] && b[7] == other[7]);
    assert(b[8] == other[8] && b[9] == other[9] && b[10] == other[10] && b[11] == other[11]);
    crate::header::lemma_codec_numbers(stated_header(value).codec);
}

/// The ranked tokens of a table are the table's own.
pub proof fn lemma_tokens_of_a_table(table: Option<&RankTable>)
    ensures
        table is None ==> tokens_in(table) is None,
        table is Some ==> tokens_in(table) == Some(table->0@),
{
}

/// Two errors of a kind read alike but for the details they give, and one that passes another on
/// reads as that does.
pub proof fn lemma_wording_of_value_error(a: ValueError, b: ValueError)
    ensures
        a is MissingTable && b is MissingTable ==> crate::text::same_wording(
            a.text(),
            a->MissingTable_0.name(),
            b.text(),
            b->MissingTable_0.name(),
        ),
        a is TooManyTokens && b is TooManyTokens ==> crate::text::same_wording(
            a.text(),
            crate::text::decimal(a->TooManyTokens_0 as nat),
            b.text(),
            crate::text::decimal(b->TooManyTokens_0 as nat),
        ),
        a is Header ==> a.text() == a->Header_0.text(),
        a is Raw ==> a.text() == a->Raw_0.text(),
        a is Freq ==> a.text() == a->Freq_0.text(),
{
    if a is MissingTable && b is MissingTable {
        assert(crate::text::worded(
            a.text(),
            "codec "@,
            a->MissingTable_0.name(),
            " needs a coding table, none was supplied"@,
        ));
        assert(crate::text::worded(
            b.text(),
            "codec "@,
            b->MissingTable_0.name(),
            " needs a coding table, none was supplied"@,
        ));
    }
    if a is TooManyTokens && b is TooManyTokens {
        assert(crate::text::worded(
            a.text(),
            Seq::<char>::empty(),
            crate::text::decimal(a->TooManyTokens_0 as nat),
            " tokens exceeds the 4294967295 the format can address"@,
        ));
        assert(crate::text::worded(
            b.text(),
            Seq::<char>::empty(),
            crate::text::decimal(b->TooManyTokens_0 as nat),
            " tokens exceeds the 4294967295 the format can address"@,
        ));
    }
}

} // verus!
