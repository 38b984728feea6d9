//! Stored values as plain bytes, with an explicit codec and table: encoding, decoding, recoding
//! and inspection.

use vstd::prelude::*;

use crate::bytes::{signed32, to_signed32};
use crate::codec::raw::preferred;
use crate::header::{header_fault, stated_header, Codec, HeaderError, VERSION};
use crate::tables::RankTable;
use crate::text::{push_signed, signed_decimal};
use crate::value::{
    decode, decode_fault, describe, encodable, encode, encode_fails, ids_in, payload_in,
    resolve_codec, runs_through, tokens_in as ranked_in, value_of, ValueError,
};

verus! {

/// Why a value cannot be encoded, decoded or recoded.
#[derive(Debug, Clone, PartialEq, Eq)]
pub enum BlobError {
    Codec(HeaderError),
    TableId(i32),
    /// The coding table that the codec needs is not at this path.
    NoTable(String),
    Value(ValueError),
}

impl BlobError {
    /// The text of the error.
    pub open spec fn text(self) -> Seq<char> {
        match self {
            BlobError::Codec(e) => e.text(),
            BlobError::TableId(id) => "table_id "@ + signed_decimal(id as int)
                + " is out of range (0..65535)"@,
            BlobError::NoTable(path) => "cannot open coding table "@ + path@
                + ": No such file or directory (os error 2)"@,
            BlobError::Value(e) => e.text(),
        }
    }

    /// The text of the error.
    pub fn message(&self) -> (s: String)
        ensures
            s@ == self.text(),
    {
        match self {
            BlobError::Codec(e) => e.message(),
            BlobError::TableId(id) => {
                let mut s = "table_id ".to_owned();
                push_signed(&mut s, *id as i64);
                s.append(" is out of range (0..65535)");
                s
            },
            BlobError::NoTable(path) => {
                let mut s = "cannot open coding table ".to_owned();
                s.append(path.as_str());
                s.append(": No such file or directory (os error 2)");
                s
            },
            BlobError::Value(e) => e.message(),
        }
    }
}

/// A table id from SQL.
pub fn table_id_u16(id: i32) -> (r: Result<u16, BlobError>)
    ensures
        match r {
            Ok(t) => t == id,
            Err(e) => (id < 0 || id > 65535) && e == BlobError::TableId(id),
        },
{
    if id < 0 || id > 65535 {
        Err(BlobError::TableId(id))
    } else {
        Ok(id as u16)
    }
}

/// Whether `codec` is what `name` stands for, given the ids.
pub open spec fn resolves(name: Seq<char>, ids: Seq<u32>, codec: Codec) -> bool {
    if name == "raw"@ {
        codec == preferred(ids)
    } else {
        name == codec.name()
    }
}

/// Whether `e` says that `name` stands for no codec.
pub open spec fn unresolved_codec(name: Seq<char>, e: HeaderError) -> bool {
    &&& name != "raw"@
    &&& forall|c: Codec| #[trigger] c.name() != name
    &&& e matches HeaderError::UnknownCodecName(n) && n@ == name
}

/// What ids are to be encoded with.
#[derive(Debug, Clone, PartialEq, Eq)]
pub struct Request {
    pub codec: Codec,
    pub table_id: u16,
}

/// Resolve the codec and the table that ids are to be encoded with.
pub fn request(ids: &[u32], codec: &str, table_id: i32) -> (r: Result<Request, BlobError>)
    ensures
        match r {
            Ok(q) => resolves(codec@, ids@, q.codec) && q.table_id == table_id,
            Err(BlobError::Codec(e)) => unresolved_codec(codec@, e),
            Err(e) => {
                &&& exists|c: Codec| #[trigger] resolves(codec@, ids@, c)
                &&& table_id < 0 || table_id > 65535
                &&& e == BlobError::TableId(table_id)
            },
        },
{
    let c = match resolve_codec(codec, ids) {
        Ok(c) => c,
        Err(e) => {
            return Err(BlobError::Codec(e));
        },
    };
    assert(resolves(codec@, ids@, c));
    match table_id_u16(table_id) {
        Ok(t) => Ok(Request { codec: c, table_id: t }),
        Err(e) => Err(e),
    }
}

/// Encode ids as requested. `table` is the coding table of the request's id, if it is there, and
/// `path` where it was looked for.
pub fn encode_request(ids: &[u32], q: &Request, table: Option<&RankTable>, path: &str) -> (r:
    Result<Vec<u8>, BlobError>)
    requires
        q.codec == Codec::Freq && encodable(ids@, q.codec, ranked_in(table)) ==> ids@.len() * 5
            <= usize::MAX,
    ensures
        if q.codec == Codec::Freq && table is None {
            r matches Err(BlobError::NoTable(p)) && p@ == path@
        } else {
            match r {
                Ok(v) => encodable(ids@, q.codec, ranked_in(table)) && v@ == value_of(
                    ids@,
                    q.codec,
                    q.table_id,
                    ranked_in(table),
                ),
                Err(e) => !encodable(ids@, q.codec, ranked_in(table)) && (e matches BlobError::Value(
                    x,
                ) && encode_fails(ids@, q.codec, ranked_in(table), x)),
            }
        },
{
    if q.codec.needs_table() && table.is_none() {
        return Err(BlobError::NoTable(path.to_owned()));
    }
    match encode(ids, q.codec, q.table_id, table) {
        Ok(v) => Ok(v),
        Err(e) => Err(BlobError::Value(e)),
    }
}

/// What is wrong with a value as one to be decoded; `path` is where its table was looked for.
pub open spec fn blob_fault(
    v: Seq<u8>,
    table: Option<Seq<u32>>,
    path: Seq<char>,
    e: BlobError,
) -> bool {
    if header_fault(v) is None && stated_header(v).codec == Codec::Freq && table is None {
        e matches BlobError::NoTable(p) && p@ == path
    } else {
        decode_fault(v, table) is Some && e == BlobError::Value(decode_fault(v, table)->0)
    }
}

/// Decode a value back to token ids.
pub fn decode_blob(v: &[u8], table: Option<&RankTable>, path: &str) -> (r: Result<
    Vec<u32>,
    BlobError,
>)
    requires
        table is Some ==> runs_through(v@),
    ensures
        match r {
            Ok(ids) => decode_fault(v@, ranked_in(table)) is None && ids@ == ids_in(
                v@,
                ranked_in(table),
            ),
            Err(e) => blob_fault(v@, ranked_in(table), path@, e),
        },
{
    let h = match describe(v) {
        Ok((h, _)) => h,
        Err(e) => {
            return Err(BlobError::Value(e));
        },
    };
    if h.codec.needs_table() && table.is_none() {
        return Err(BlobError::NoTable(path.to_owned()));
    }
    match decode(v, table) {
        Ok(ids) => Ok(ids),
        Err(e) => Err(BlobError::Value(e)),
    }
}

/// How many token ids a value holds, as SQL has it: the 32 bits of the count, taken as a signed
/// number. Reads the header only.
pub fn token_count(v: &[u8]) -> (r: Result<i32, ValueError>)
    ensures
        match r {
            Ok(n) => header_fault(v@) is None && n == signed32(
                stated_header(v@).n_tokens as nat,
            ),
            Err(e) => header_fault(v@) is Some && e == ValueError::Header(header_fault(v@)->0),
        },
{
    match describe(v) {
        Ok((h, _)) => Ok(to_signed32(h.n_tokens as u64)),
        Err(e) => Err(e),
    }
}

/// What a value says of itself, as SQL has it.
#[derive(Debug, Clone, PartialEq, Eq)]
pub struct ValueInfo {
    pub version: i32,
    pub codec: String,
    pub table_id: i32,
    pub n_tokens: i32,
    pub payload_bytes: i32,
    pub total_bytes: i32,
}

/// Report what a value says of itself. Reads the header only.
pub fn describe_value(v: &[u8]) -> (r: Result<ValueInfo, ValueError>)
    ensures
        match r {
            Ok(info) => {
                let h = stated_header(v@);
                &&& header_fault(v@) is None
                &&& info.version == VERSION
                &&& info.codec@ == h.codec.name()
                &&& info.table_id == h.vocabulary_id
                &&& info.n_tokens == signed32(h.n_tokens as nat)
                &&& info.payload_bytes == signed32(payload_in(v@).len())
                &&& info.total_bytes == signed32(v@.len())
            },
            Err(e) => header_fault(v@) is Some && e == ValueError::Header(header_fault(v@)->0),
        },
{
    match describe(v) {
        Ok((h, payload_len)) => Ok(
            ValueInfo {
                version: VERSION as i32,
                codec: h.codec.as_str().to_owned(),
                table_id: h.vocabulary_id as i32,
                n_tokens: to_signed32(h.n_tokens as u64),
                payload_bytes: to_signed32(payload_len as u64),
                total_bytes: to_signed32(v.len() as u64),
            },
        ),
        Err(e) => Err(e),
    }
}

/// A codec name stands for the codec of that name; `raw` stands for two bytes where every id fits
/// them and for three otherwise.
pub proof fn lemma_codec_names(name: Seq<char>, ids: Seq<u32>, codec: Codec, e: HeaderError)
    ensures
        name == "raw"@ ==> (resolves(name, ids, codec) <==> codec == if forall|i: int|
            0 <= i < ids.len() ==> (#[trigger] ids[i]) < 65_536 {
            Codec::Raw16
        } else {
            Codec::Raw24
        }),
        name == "raw8"@ ==> (resolves(name, ids, codec) <==> codec == Codec::Raw8),
        name == "raw16"@ ==> (resolves(name, ids, codec) <==> codec == Codec::Raw16),
        name == "raw24"@ ==> (resolves(name, ids, codec) <==> codec == Codec::Raw24),
        name == "freq"@ ==> (resolves(name, ids, codec) <==> codec == Codec::Freq),
        !(name == "raw"@ || name == "raw8"@ || name == "raw16"@ || name == "raw24"@ || name
            == "freq"@) ==> !resolves(name, ids, codec) && (unresolved_codec(name, e) <==> e
            is UnknownCodecName && e->UnknownCodecName_0@ == name),
        name == "raw"@ || name == "raw8"@ || name == "raw16"@ || name == "raw24"@ || name == "freq"@
            ==> !unresolved_codec(name, e),
{
    reveal_strlit("raw");
    reveal_strlit("raw8");
    reveal_strlit("raw16");
    reveal_strlit("raw24");
    reveal_strlit("freq");
    assert("raw"@.len() == 3 && "raw8"@.len() == 4 && "raw16"@.len() == 5 && "raw24"@.len() == 5
        && "freq"@.len() == 4);
    assert("raw8"@[0] == 'r' && "freq"@[0] == 'f' && "raw16"@[3] == '1' && "raw24"@[3] == '2');
    crate::codec::raw::lemma_preferred_is_narrowest(ids);
    assert(Codec::Raw8.name() == "raw8"@ && Codec::Raw16.name() == "raw16"@ && Codec::Raw24.name()
        == "raw24"@ && Codec::Freq.name() == "freq"@);
}

/// A value is refused for a table that is not there by the path where it was looked for, and
/// otherwise for what decoding says.
pub proof fn lemma_blob_refused(
    v: Seq<u8>,
    table: Option<Seq<u32>>,
    path: Seq<char>,
    e: BlobError,
)
    ensures
        header_fault(v) is None && stated_header(v).codec == Codec::Freq && table is None ==> (
        blob_fault(v, table, path, e) <==> e is NoTable && e->NoTable_0@ == path),
        !(header_fault(v) is None && stated_header(v).codec == Codec::Freq && table is None) ==> (
        blob_fault(v, table, path, e) <==> decode_fault(v, table) is Some && e == BlobError::Value(
            decode_fault(v, table)->0,
        )),
{
}

/// Two errors of a kind read alike but for the details they give, and one that passes another on
/// reads as that does.
pub proof fn lemma_wording_of_blob_error(a: BlobError, b: BlobError)
    ensures
        a is TableId && b is TableId ==> crate::text::same_wording(
            a.text(),
            signed_decimal(a->TableId_0 as int),
            b.text(),
            signed_decimal(b->TableId_0 as int),
        ),
        a is NoTable && b is NoTable ==> crate::text::same_wording(
            a.text(),
            a->NoTable_0@,
            b.text(),
            b->NoTable_0@,
        ),
        a is Codec ==> a.text() == a->Codec_0.text(),
        a is Value ==> a.text() == a->Value_0.text(),
{
    if a is TableId && b is TableId {
        assert(crate::text::worded(
            a.text(),
            "table_id "@,
            signed_decimal(a->TableId_0 as int),
            " is out of range (0..65535)"@,
        ));
        assert(crate::text::worded(
            b.text(),
            "table_id "@,
            signed_decimal(b->TableId_0 as int),
            " is out of range (0..65535)"@,
        ));
    }
    if a is NoTable && b is NoTable {
        assert(crate::text::worded(
            a.text(),
            "cannot open coding table "@,
            a->NoTable_0@,
            ": No such file or directory (os error 2)"@,
        ));
        assert(crate::text::worded(
            b.text(),
            "cannot open coding table "@,
            b->NoTable_0@,
            ": No such file or directory (os error 2)"@,
        ));
    }
}

} // verus!
