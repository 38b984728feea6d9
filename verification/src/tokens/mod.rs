//! The `pgtoken.tokens` type: token ids stored compressed, rendered as `{1,2,3}`.
//!
//! Text output renders token ids rather than the compressed bytes, so a client is readable and a
//! dump restores to byte-identical values. Binary output hands over the stored bytes verbatim.
//!
//! ## Why a typmod arrives in two steps
//!
//! PostgreSQL does not hand a string literal's typmod to the type's input function; it applies it
//! afterwards, through a cast from the type to itself. Here the typmod *chooses the storage
//! width*, so input without one has nothing to encode with. It emits an **unresolved** value:
//! `raw24`, the widest packing the format has, carrying vocabulary id 0, which the header format
//! reserves to mean "no vocabulary". [`typmod_apply`] then re-encodes it at the column's width. A
//! value still unresolved cannot be read back.
//!
//! ## Which vocabulary a value may be stored under
//!
//! Token ids only mean something to the vocabulary that produced them, so moving a value between
//! vocabularies has to be something the user asked for. The write paths agree:
//!
//! | path | different vocabulary |
//! | --- | --- |
//! | explicit cast | allowed, re-encoded at the new width |
//! | assignment | refused |
//! | binary input | refused |
//!
//! ## What is checked, and what is trusted
//!
//! Text input validates every id against the vocabulary's declared size ([`encode_for`]). The
//! binary paths do not: they check the header and hand the payload through untouched.

use vstd::prelude::*;

use crate::detok::{all_mapped, bytes_of, detok_fails, reads, text_of, to_text};
use crate::header::{header_fault, stated_header, Codec};
use crate::tables::{ByteMap, RankTable};
use crate::typmod::{codec_for, codec_of, unpack, vocabulary_in};
use crate::utf8::from_utf8;
use crate::value::{
    decode, decode_fault, describe, encodable, encode, encode_fails, ids_in, runs_through,
    tokens_in as ranked_in, value_of, ValueError,
};
use crate::vocabulary::Vocabulary;

pub mod error;
pub mod list;

pub use error::{vocabulary_label, TokensError};
pub use list::{parse_ids, render_ids, ListError};

verus! {

/// The vocabulary id of a value whose typmod has not been applied yet. No vocabulary is ever
/// assigned it, so an unresolved value cannot be mistaken for a real one.
pub const UNRESOLVED: u16 = 0;

/// The largest id that any width can hold.
pub const MAX_ID: u32 = 16_777_215;

/// Whether `bad` is the first of `ids` at or beyond `bound`.
pub open spec fn first_beyond(ids: Seq<u32>, bound: int, bad: u32) -> bool {
    exists|i: int|
        {
            &&& 0 <= i < ids.len()
            &&& #[trigger] ids[i] >= bound
            &&& forall|j: int| 0 <= j < i ==> #[trigger] ids[j] < bound
            &&& bad == ids[i]
        }
}

/// Whether every id lies below `bound`.
pub open spec fn all_below(ids: Seq<u32>, bound: int) -> bool {
    forall|i: int| 0 <= i < ids.len() ==> #[trigger] ids[i] < bound
}

fn find_beyond(ids: &[u32], bound: u32) -> (r: Option<u32>)
    ensures
        match r {
            Some(bad) => first_beyond(ids@, bound as int, bad) && !all_below(ids@, bound as int),
            None => all_below(ids@, bound as int),
        },
{
    let mut i: usize = 0;
    while i < ids.len()
        invariant
            i <= ids@.len(),
            forall|j: int| 0 <= j < i ==> #[trigger] ids@[j] < bound,
        decreases ids@.len() - i,
    {
        if ids[i] >= bound {
            assert(ids@[i as int] >= bound);
            return Some(ids[i]);
        }
        i += 1;
    }
    None
}

/// Whether encoding `ids` without a vocabulary ends in `e`.
pub open spec fn unresolved_fails(ids: Seq<u32>, e: TokensError) -> bool {
    if !all_below(ids, MAX_ID + 1) {
        e matches TokensError::BeyondFormat(bad) && first_beyond(ids, MAX_ID + 1, bad)
    } else {
        ids.len() > u32::MAX && e == TokensError::Value(
            ValueError::TooManyTokens(ids.len() as usize),
        )
    }
}

/// Encode token ids with no vocabulary and therefore no width of their own.
///
/// `raw24` is not chosen by looking at the ids: it is the widest packing the format has, used
/// unconditionally so that any id a column may later accept fits. The recorded vocabulary is
/// [`UNRESOLVED`], which makes the value unreadable until a typmod is applied.
pub fn encode_unresolved(ids: &[u32]) -> (r: Result<Vec<u8>, TokensError>)
    ensures
        match r {
            Ok(v) => {
                &&& all_below(ids@, MAX_ID + 1)
                &&& ids@.len() <= u32::MAX
                &&& v@ == value_of(ids@, Codec::Raw24, UNRESOLVED, None)
            },
            Err(e) => unresolved_fails(ids@, e),
        },
{
    // Bound the ids against the format, not against the carrier codec, whose refusal would name a
    // codec the user never chose and cannot see.
    match find_beyond(ids, MAX_ID + 1) {
        Some(bad) => {
            return Err(TokensError::BeyondFormat(bad));
        },
        None => {},
    }
    match encode(ids, Codec::Raw24, UNRESOLVED, None) {
        Ok(v) => Ok(v),
        Err(e) => Err(TokensError::Value(e)),
    }
}

/// What keeps a value from being read: a bad header, or no vocabulary.
pub open spec fn vocabulary_fault(v: Seq<u8>) -> Option<TokensError> {
    if header_fault(v) is Some {
        Some(TokensError::Value(ValueError::Header(header_fault(v)->0)))
    } else if stated_header(v).vocabulary_id == UNRESOLVED {
        Some(TokensError::Unresolved)
    } else {
        None
    }
}

/// Check that `v` had a typmod applied.
///
/// Every path that hands a value out or takes one in goes through this, so an unresolved value can
/// be written but never read back. Counting and describing deliberately do not: refusing to
/// describe an unresolved value would remove the only way to see that it *is* unresolved. Reads
/// the header and nothing else.
pub fn require_vocabulary(v: &[u8]) -> (r: Result<(), TokensError>)
    ensures
        match r {
            Ok(_) => vocabulary_fault(v@) is None,
            Err(e) => vocabulary_fault(v@) == Some(e),
        },
{
    match describe(v) {
        Ok((h, _)) => {
            if h.vocabulary_id == UNRESOLVED {
                Err(TokensError::Unresolved)
            } else {
                Ok(())
            }
        },
        Err(e) => Err(TokensError::Value(e)),
    }
}

/// Whether `v` is a sound value of the typmod's own vocabulary, so that its packing comes into
/// question.
pub open spec fn same_vocabulary(v: Seq<u8>, typmod: i32) -> bool {
    &&& vocabulary_in(typmod) is Some
    &&& header_fault(v) is None
    &&& stated_header(v).vocabulary_id == vocabulary_in(typmod)->0.id
}

/// What is wrong with a binary value for a column of this typmod, as far as its header tells.
pub open spec fn column_fault(v: Seq<u8>, typmod: i32) -> Option<TokensError> {
    match vocabulary_in(typmod) {
        None => None,
        Some(target) => {
            let h = stated_header(v);
            if header_fault(v) is Some {
                Some(TokensError::Value(ValueError::Header(header_fault(v)->0)))
            } else if h.vocabulary_id != target.id {
                Some(TokensError::WrongVocabulary { found: h.vocabulary_id, column: target.id })
            } else if h.codec != codec_of(target) {
                Some(
                    TokensError::WrongCodec {
                        codec: h.codec,
                        column: target.id,
                        want: codec_of(target),
                    },
                )
            } else {
                None
            }
        },
    }
}

/// Check a value arriving from outside against the column's typmod.
///
/// Nothing re-checks a received value, so this is all that stands between a binary client and a
/// column full of values from the wrong vocabulary, which would decode under their own header
/// rather than the column's. Right vocabulary, wrong packing is equally wrong: a column's stride
/// has to be uniform. With no typmod there is nothing to check against.
pub fn check_against_typmod(v: &[u8], typmod: i32) -> (r: Result<(), TokensError>)
    requires
        same_vocabulary(v@, typmod) ==> vocabulary_in(typmod)->0.storable(),
    ensures
        match r {
            Ok(_) => column_fault(v@, typmod) is None,
            Err(e) => column_fault(v@, typmod) == Some(e),
        },
{
    let target = match unpack(typmod) {
        Some(t) => t,
        None => {
            return Ok(());
        },
    };
    let h = match describe(v) {
        Ok((h, _)) => h,
        Err(e) => {
            return Err(TokensError::Value(e));
        },
    };
    if h.vocabulary_id != target.id {
        return Err(TokensError::WrongVocabulary { found: h.vocabulary_id, column: target.id });
    }
    let want = codec_for(target);
    if h.codec != want {
        return Err(TokensError::WrongCodec { codec: h.codec, column: target.id, want });
    }
    Ok(())
}

/// Check a blob's **header** and give it back unchanged.
///
/// What this guarantees: the header is sound, a raw payload's length matches the token count, and
/// the vocabulary id is not [`UNRESOLVED`]. It deliberately does not check that the vocabulary
/// exists, nor the token ids in the payload.
pub fn validate(v: &[u8]) -> (r: Result<Vec<u8>, TokensError>)
    ensures
        match r {
            Ok(out) => vocabulary_fault(v@) is None && out@ == v@,
            Err(e) => vocabulary_fault(v@) == Some(e),
        },
{
    match require_vocabulary(v) {
        Ok(()) => {
            let mut out: Vec<u8> = Vec::new();
            out.extend_from_slice(v);
            assert(out@ =~= v@);
            Ok(out)
        },
        Err(e) => Err(e),
    }
}

/// Take a binary value in: checked against the column, then stored as it is.
pub fn receive(v: &[u8], typmod: i32) -> (r: Result<Vec<u8>, TokensError>)
    requires
        same_vocabulary(v@, typmod) ==> vocabulary_in(typmod)->0.storable(),
    ensures
        match r {
            Ok(out) => {
                &&& column_fault(v@, typmod) is None
                &&& vocabulary_fault(v@) is None
                &&& out@ == v@
            },
            Err(e) => if column_fault(v@, typmod) is Some {
                column_fault(v@, typmod) == Some(e)
            } else {
                vocabulary_fault(v@) == Some(e)
            },
        },
{
    match check_against_typmod(v, typmod) {
        Ok(()) => validate(v),
        Err(e) => Err(e),
    }
}

/// Check the cursor of a binary buffer: `cursor..total` must be a range.
pub fn check_cursor(cursor: i32, total: i32) -> (r: Result<(), TokensError>)
    ensures
        match r {
            Ok(_) => 0 <= cursor <= total,
            Err(e) => !(0 <= cursor <= total) && e == (TokensError::BadCursor { cursor, total }),
        },
{
    if cursor < 0 || total < 0 || cursor > total {
        Err(TokensError::BadCursor { cursor, total })
    } else {
        Ok(())
    }
}

/// Whether `e` says why these ids may not be stored under this typmod, given the declared size of
/// its vocabulary.
pub open spec fn ids_refused(
    ids: Seq<u32>,
    typmod: i32,
    size: Option<u32>,
    e: TokensError,
) -> bool {
    match (vocabulary_in(typmod), size) {
        (None, _) => e == TokensError::NoVocabularyTypmod,
        (Some(v), None) => e == TokensError::NotRegistered(v.id),
        (Some(v), Some(n)) => {
            &&& !all_below(ids, n as int)
            &&& e matches TokensError::OutsideVocabulary { id, vocabulary, size: s } && first_beyond(
                ids,
                n as int,
                id,
            ) && vocabulary == v.id && s == n
        },
    }
}

/// Check ids against the vocabulary of a typmod, given its declared size. A cheap, exact check
/// that these ids can have come from its tokenizer.
pub fn check_ids(ids: &[u32], typmod: i32, size: Option<u32>) -> (r: Result<
    Vocabulary,
    TokensError,
>)
    ensures
        match r {
            Ok(v) => {
                &&& vocabulary_in(typmod) == Some(v)
                &&& size is Some
                &&& all_below(ids@, size->0 as int)
            },
            Err(e) => ids_refused(ids@, typmod, size, e),
        },
{
    let v = match unpack(typmod) {
        Some(v) => v,
        None => {
            return Err(TokensError::NoVocabularyTypmod);
        },
    };
    let n: u32 = match size {
        Some(n) => n,
        None => {
            return Err(TokensError::NotRegistered(v.id));
        },
    };
    match find_beyond(ids, n) {
        Some(bad) => Err(TokensError::OutsideVocabulary { id: bad, vocabulary: v.id, size: n }),
        None => Ok(v),
    }
}

/// Whether ids may be stored under this typmod: it names a vocabulary of a declared size, and the
/// ids lie below that.
pub open spec fn accepts(ids: Seq<u32>, typmod: i32, size: Option<u32>) -> bool {
    vocabulary_in(typmod) is Some && size is Some && all_below(ids, size->0 as int)
}

/// Whether ids that may be stored under this typmod can be: this build has a codec of its width,
/// and the machine room for the widest `freq` stream of so many ids.
pub open spec fn has_room(
    ids: Seq<u32>,
    typmod: i32,
    size: Option<u32>,
    ranking: Option<Seq<u32>>,
) -> bool {
    accepts(ids, typmod, size) ==> {
        &&& vocabulary_in(typmod)->0.storable()
        &&& is_freq(typmod) && encodable(ids, Codec::Freq, ranking) ==> ids.len() * 5 <= usize::MAX
    }
}

/// Whether a column of this typmod stores `freq` values.
pub open spec fn is_freq(typmod: i32) -> bool {
    vocabulary_in(typmod) is Some && codec_of(vocabulary_in(typmod)->0) == Codec::Freq
}

/// Whether encoding `ids` for a column of this typmod gives `out`.
pub open spec fn encodes_for(
    ids: Seq<u32>,
    typmod: i32,
    size: Option<u32>,
    ranking: Option<Seq<u32>>,
    out: Seq<u8>,
) -> bool {
    match (vocabulary_in(typmod), size) {
        (Some(v), Some(n)) => {
            &&& all_below(ids, n as int)
            &&& encodable(ids, codec_of(v), ranking)
            &&& out == value_of(ids, codec_of(v), v.id, ranking)
        },
        _ => false,
    }
}

/// Whether encoding `ids` for a column of this typmod ends in `e`.
pub open spec fn encode_for_fails(
    ids: Seq<u32>,
    typmod: i32,
    size: Option<u32>,
    ranking: Option<Seq<u32>>,
    e: TokensError,
) -> bool {
    match (vocabulary_in(typmod), size) {
        (Some(v), Some(n)) => if !all_below(ids, n as int) {
            ids_refused(ids, typmod, size, e)
        } else if codec_of(v) == Codec::Freq && ranking is None {
            e == TokensError::NoRanking(v.id)
        } else {
            &&& !encodable(ids, codec_of(v), ranking)
            &&& e matches TokensError::Value(x) && encode_fails(ids, codec_of(v), ranking, x)
        },
        _ => ids_refused(ids, typmod, size, e),
    }
}

/// Encode token ids under a column's typmod.
///
/// The typmod is the only source of a codec and width. A missing one is an error, not a default:
/// there is no auto width, so there would be nothing to fall back to. `size` is the vocabulary's
/// declared size, `ranking` its ranking, if it has one.
pub fn encode_for(
    ids: &[u32],
    typmod: i32,
    size: Option<u32>,
    ranking: Option<&RankTable>,
) -> (r: Result<Vec<u8>, TokensError>)
    requires
        has_room(ids@, typmod, size, ranked_in(ranking)),
    ensures
        match r {
            Ok(out) => encodes_for(ids@, typmod, size, ranked_in(ranking), out@),
            Err(e) => encode_for_fails(ids@, typmod, size, ranked_in(ranking), e),
        },
{
    let v = match check_ids(ids, typmod, size) {
        Ok(v) => v,
        Err(e) => {
            return Err(e);
        },
    };
    let codec = codec_for(v);
    if codec.needs_table() && ranking.is_none() {
        return Err(TokensError::NoRanking(v.id));
    }
    match encode(ids, codec, v.id, ranking) {
        Ok(out) => Ok(out),
        Err(e) => Err(TokensError::Value(e)),
    }
}

/// What is wrong with a stored value as one to be decoded, given its ranking, if it has one.
pub open spec fn read_fault(v: Seq<u8>, ranking: Option<Seq<u32>>) -> Option<TokensError> {
    if header_fault(v) is None && stated_header(v).codec == Codec::Freq && ranking is None {
        Some(TokensError::NoRanking(stated_header(v).vocabulary_id))
    } else {
        match decode_fault(v, ranking) {
            Some(e) => Some(TokensError::Value(e)),
            None => None,
        }
    }
}

/// Decode a stored value, given the ranking of its vocabulary where the codec needs one.
pub fn decode_value(v: &[u8], ranking: Option<&RankTable>) -> (r: Result<Vec<u32>, TokensError>)
    requires
        ranking is Some ==> runs_through(v@),
    ensures
        match r {
            Ok(ids) => read_fault(v@, ranked_in(ranking)) is None && ids@ == ids_in(
                v@,
                ranked_in(ranking),
            ),
            Err(e) => read_fault(v@, ranked_in(ranking)) == Some(e),
        },
{
    let h = match describe(v) {
        Ok((h, _)) => h,
        Err(e) => {
            return Err(TokensError::Value(e));
        },
    };
    if h.codec.needs_table() && ranking.is_none() {
        return Err(TokensError::NoRanking(h.vocabulary_id));
    }
    match decode(v, ranking) {
        Ok(ids) => Ok(ids),
        Err(e) => Err(TokensError::Value(e)),
    }
}

/// Text input. With a typmod the ids are encoded at its width straight away; without one the value
/// stays unresolved until a typmod is applied.
pub fn tokens_in(input: &[u8], typmod: i32, size: Option<u32>, ranking: Option<&RankTable>) -> (r:
    Result<Vec<u8>, TokensError>)
    requires
        forall|ids: Seq<u32>|
            vstd::utf8::valid_utf8(input@) && #[trigger] list::lists(
                vstd::utf8::decode_utf8(input@),
                ids,
            ) && accepts(ids, typmod, size) ==> {
                &&& vocabulary_in(typmod)->0.storable()
                &&& is_freq(typmod) && encodable(ids, Codec::Freq, ranked_in(ranking))
                    ==> input@.len() * 5 <= usize::MAX
            },
    ensures
        ({
            let text = vstd::utf8::decode_utf8(input@);
            if !vstd::utf8::valid_utf8(input@) {
                r == Err::<Vec<u8>, TokensError>(TokensError::NotUtf8)
            } else {
                match r {
                    Ok(out) => exists|ids: Seq<u32>| #[trigger]
                        list::lists(text, ids) && if vocabulary_in(typmod) is Some {
                            encodes_for(ids, typmod, size, ranked_in(ranking), out@)
                        } else {
                            all_below(ids, MAX_ID + 1) && ids.len() <= u32::MAX && out@
                                == value_of(ids, Codec::Raw24, UNRESOLVED, None)
                        },
                    Err(TokensError::List(e)) => list::list_fault(text, e),
                    Err(e) => exists|ids: Seq<u32>| #[trigger]
                        list::lists(text, ids) && if vocabulary_in(typmod) is Some {
                            encode_for_fails(ids, typmod, size, ranked_in(ranking), e)
                        } else {
                            unresolved_fails(ids, e)
                        },
                }
            }
        }),
{
    let s = match from_utf8(input) {
        Ok(s) => s,
        Err(_) => {
            assert(input@.take(input@.len() as int) =~= input@);
            return Err(TokensError::NotUtf8);
        },
    };
    let ids = match parse_ids(s) {
        Ok(ids) => ids,
        Err(e) => {
            return Err(TokensError::List(e));
        },
    };
    proof {
        assert(list::lists(s@, ids@));
        list::lemma_lists_len(s@, ids@);
        lemma_decoded_len(input@);
    }
    match unpack(typmod) {
        Some(_) => encode_for(ids.as_slice(), typmod, size, ranking),
        None => encode_unresolved(ids.as_slice()),
    }
}

/// What applying a typmod to a value does.
#[derive(Debug, Clone, Copy, PartialEq, Eq, Structural)]
pub enum Coercion {
    /// The value is in the column's encoding already.
    Keep,
    /// Its ids have to be encoded anew.
    Recode,
}

/// What applying a typmod to `v` does, or why it is refused.
pub open spec fn coercion(v: Seq<u8>, typmod: i32, is_explicit: bool) -> Result<
    Coercion,
    TokensError,
> {
    let h = stated_header(v);
    match vocabulary_in(typmod) {
        None => Err(TokensError::NoVocabularyTypmod),
        Some(target) => if header_fault(v) is Some {
            Err(TokensError::Value(ValueError::Header(header_fault(v)->0)))
        } else if h.vocabulary_id == target.id && h.codec == codec_of(target) {
            Ok(Coercion::Keep)
        } else if h.vocabulary_id != UNRESOLVED && h.vocabulary_id != target.id && !is_explicit {
            Err(TokensError::CrossVocabulary { from: h.vocabulary_id, to: target.id })
        } else {
            Ok(Coercion::Recode)
        },
    }
}

/// Decide what applying a typmod to `v` does.
///
/// Changing vocabulary is allowed only on an explicit cast, which is the only thing that tells
/// "the user asked for this reinterpretation" from "the user assigned one column to another and
/// did not notice". [`UNRESOLVED`] is exempt: it never had a vocabulary to be reinterpreted from.
/// Same vocabulary, different packing stays permissive: a lossless recode within one id space
/// reinterprets nothing.
pub fn coercion_for(v: &[u8], typmod: i32, is_explicit: bool) -> (r: Result<Coercion, TokensError>)
    requires
        same_vocabulary(v@, typmod) ==> vocabulary_in(typmod)->0.storable(),
    ensures
        r == coercion(v@, typmod, is_explicit),
{
    let target = match unpack(typmod) {
        Some(t) => t,
        None => {
            return Err(TokensError::NoVocabularyTypmod);
        },
    };
    let h = match describe(v) {
        Ok((h, _)) => h,
        Err(e) => {
            return Err(TokensError::Value(e));
        },
    };
    if h.vocabulary_id == target.id && h.codec == codec_for(target) {
        return Ok(Coercion::Keep);
    }
    if h.vocabulary_id != UNRESOLVED && h.vocabulary_id != target.id && !is_explicit {
        return Err(TokensError::CrossVocabulary { from: h.vocabulary_id, to: target.id });
    }
    Ok(Coercion::Recode)
}

/// Apply a column's typmod to a value. This, not input, is where a string literal acquires its
/// vocabulary and its width.
///
/// `from` is the ranking of the value's own vocabulary, `size` and `to` are the declared size and
/// the ranking of the column's.
pub fn typmod_apply(
    v: &[u8],
    typmod: i32,
    is_explicit: bool,
    from: Option<&RankTable>,
    size: Option<u32>,
    to: Option<&RankTable>,
) -> (r: Result<Vec<u8>, TokensError>)
    requires
        same_vocabulary(v@, typmod) ==> vocabulary_in(typmod)->0.storable(),
        coercion(v@, typmod, is_explicit) == Ok::<Coercion, TokensError>(Coercion::Recode) ==> {
            &&& from is Some ==> runs_through(v@)
            &&& read_fault(v@, ranked_in(from)) is None ==> has_room(
                ids_in(v@, ranked_in(from)),
                typmod,
                size,
                ranked_in(to),
            )
        },
    ensures
        match coercion(v@, typmod, is_explicit) {
            Err(e) => r == Err::<Vec<u8>, TokensError>(e),
            Ok(Coercion::Keep) => r matches Ok(out) && out@ == v@,
            Ok(Coercion::Recode) => match read_fault(v@, ranked_in(from)) {
                Some(e) => r == Err::<Vec<u8>, TokensError>(e),
                None => {
                    let ids = ids_in(v@, ranked_in(from));
                    match r {
                        Ok(out) => encodes_for(ids, typmod, size, ranked_in(to), out@),
                        Err(e) => encode_for_fails(ids, typmod, size, ranked_in(to), e),
                    }
                },
            },
        },
{
    match coercion_for(v, typmod, is_explicit) {
        Err(e) => Err(e),
        Ok(Coercion::Keep) => {
            let mut out: Vec<u8> = Vec::new();
            out.extend_from_slice(v);
            assert(out@ =~= v@);
            Ok(out)
        },
        Ok(Coercion::Recode) => match decode_value(v, from) {
            Ok(ids) => encode_for(ids.as_slice(), typmod, size, to),
            Err(e) => Err(e),
        },
    }
}

/// Text output: the value's ids, rendered.
pub fn tokens_out(v: &[u8], ranking: Option<&RankTable>) -> (r: Result<String, TokensError>)
    requires
        ranking is Some ==> runs_through(v@),
    ensures
        match r {
            Ok(s) => {
                &&& vocabulary_fault(v@) is None
                &&& read_fault(v@, ranked_in(ranking)) is None
                &&& s@ == list::rendered(ids_in(v@, ranked_in(ranking)))
            },
            Err(e) => if vocabulary_fault(v@) is Some {
                vocabulary_fault(v@) == Some(e)
            } else {
                read_fault(v@, ranked_in(ranking)) == Some(e)
            },
        },
{
    match require_vocabulary(v) {
        Ok(()) => {},
        Err(e) => {
            return Err(e);
        },
    }
    match decode_value(v, ranking) {
        Ok(ids) => Ok(render_ids(ids.as_slice())),
        Err(e) => Err(e),
    }
}

/// The text of a value: its ids, detokenized with the mapping of its vocabulary.
pub fn text(v: &[u8], ranking: Option<&RankTable>, map: Option<&ByteMap>) -> (r: Result<
    String,
    TokensError,
>)
    requires
        ranking is Some && map is Some ==> runs_through(v@),
    ensures
        match r {
            Ok(s) => {
                let ids = ids_in(v@, ranked_in(ranking));
                &&& vocabulary_fault(v@) is None
                &&& map is Some
                &&& read_fault(v@, ranked_in(ranking)) is None
                &&& all_mapped(map->0@, ids)
                &&& reads(bytes_of(map->0@, ids))
                &&& s@ == text_of(bytes_of(map->0@, ids))
            },
            Err(e) => if vocabulary_fault(v@) is Some {
                vocabulary_fault(v@) == Some(e)
            } else if map is None {
                e == TokensError::NoMapping(stated_header(v@).vocabulary_id)
            } else if read_fault(v@, ranked_in(ranking)) is Some {
                read_fault(v@, ranked_in(ranking)) == Some(e)
            } else {
                e matches TokensError::Detok(d) && detok_fails(
                    map->0@,
                    ids_in(v@, ranked_in(ranking)),
                    d,
                )
            },
        },
{
    let h = match describe(v) {
        Ok((h, _)) => h,
        Err(e) => {
            return Err(TokensError::Value(e));
        },
    };
    if h.vocabulary_id == UNRESOLVED {
        return Err(TokensError::Unresolved);
    }
    let m = match map {
        Some(m) => m,
        None => {
            return Err(TokensError::NoMapping(h.vocabulary_id));
        },
    };
    match decode_value(v, ranking) {
        Ok(ids) => match to_text(ids.as_slice(), m) {
            Ok(s) => Ok(s),
            Err(e) => Err(TokensError::Detok(e)),
        },
        Err(e) => Err(e),
    }
}

proof fn lemma_decoded_len(bytes: Seq<u8>)
    requires
        vstd::utf8::valid_utf8(bytes),
    ensures
        vstd::utf8::decode_utf8(bytes).len() <= bytes.len(),
    decreases bytes.len(),
{
    if bytes.len() > 0 {
        lemma_decoded_len(vstd::utf8::pop_first_scalar(bytes));
    }
}

/// A stored value survives text output and input: what it renders as lists the ids it was encoded
/// from, so encoding them again under the same column gives the same bytes.
pub proof fn lemma_text_io_roundtrip(
    ids: Seq<u32>,
    typmod: i32,
    size: Option<u32>,
    ranking: Option<Seq<u32>>,
    v: Seq<u8>,
)
    requires
        encodes_for(ids, typmod, size, ranking, v),
        vocabulary_in(typmod)->0.id != UNRESOLVED,
        is_freq(typmod) ==> ranking->0.no_duplicates(),
    ensures
        vocabulary_fault(v) is None,
        read_fault(v, ranking) is None,
        runs_through(v),
        ids_in(v, ranking) == ids,
        list::lists(list::rendered(ids_in(v, ranking)), ids),
        forall|again: Seq<u32>, w: Seq<u8>|
            list::lists(list::rendered(ids_in(v, ranking)), again) && #[trigger] encodes_for(
                again,
                typmod,
                size,
                ranking,
                w,
            ) ==> w == v,
{
    let target = vocabulary_in(typmod)->0;
    crate::value::lemma_value_roundtrip(ids, codec_of(target), target.id, ranking);
    list::lemma_list_roundtrip(ids);
    assert forall|again: Seq<u32>, w: Seq<u8>|
        list::lists(list::rendered(ids_in(v, ranking)), again) && #[trigger] encodes_for(
            again,
            typmod,
            size,
            ranking,
            w,
        ) implies w == v by {
        list::lemma_lists_unique(list::rendered(ids), ids, again);
    }
}

/// Text stored as token ids comes back as it was: tokenized, encoded for a column, decoded, and
/// detokenized with a mapping exported from the same tokenizer.
pub proof fn lemma_stored_text_reads_back(
    tokenizer: crate::tokenizer::Tokenizer,
    source: Seq<char>,
    ids: Seq<u32>,
    typmod: i32,
    size: Option<u32>,
    ranking: Option<Seq<u32>>,
    v: Seq<u8>,
    entries: Seq<Seq<u8>>,
)
    requires
        crate::tokenizer::tokenizes(tokenizer, source, ids),
        encodes_for(ids, typmod, size, ranking, v),
        vocabulary_in(typmod)->0.id != UNRESOLVED,
        is_freq(typmod) ==> ranking->0.no_duplicates(),
        forall|i: int|
            0 <= i < ids.len() ==> crate::tables::map::entry(entries, #[trigger] ids[i]) == Some(
                crate::tokenizer::token_bytes(tokenizer.encoding())[ids[i]],
            ),
    ensures
        vocabulary_fault(v) is None,
        read_fault(v, ranking) is None,
        all_mapped(entries, ids_in(v, ranking)),
        reads(bytes_of(entries, ids_in(v, ranking))),
        text_of(bytes_of(entries, ids_in(v, ranking))) == source,
{
    lemma_text_io_roundtrip(ids, typmod, size, ranking, v);
    crate::tokenizer::lemma_exported_mapping_reads_back(tokenizer, source, ids, entries);
}

/// A value taken in without a typmod cannot be read, but keeps its ids, and a typmod can be
/// applied to it by a mere assignment.
pub proof fn lemma_unresolved_value(ids: Seq<u32>, typmod: i32, is_explicit: bool)
    requires
        all_below(ids, MAX_ID + 1),
        ids.len() <= u32::MAX,
        vocabulary_in(typmod) is Some,
        vocabulary_in(typmod)->0.id != UNRESOLVED,
    ensures
        ({
            let v = value_of(ids, Codec::Raw24, UNRESOLVED, None);
            &&& vocabulary_fault(v) == Some(TokensError::Unresolved)
            &&& coercion(v, typmod, is_explicit) == Ok::<Coercion, TokensError>(Coercion::Recode)
            &&& read_fault(v, None) is None
            &&& ids_in(v, None) == ids
        }),
{
    assert forall|i: int| 0 <= i < ids.len() implies crate::codec::raw::fits(
        Codec::Raw24,
        #[trigger] ids[i],
    ) by {
        assert(ids[i] < MAX_ID + 1);
    }
    crate::value::lemma_value_roundtrip(ids, Codec::Raw24, UNRESOLVED, None);
}

/// The write paths agree on a sound value of another vocabulary: an assignment and binary input
/// both refuse it, and an explicit cast encodes it anew.
pub proof fn lemma_write_paths_agree(v: Seq<u8>, typmod: i32)
    requires
        header_fault(v) is None,
        vocabulary_in(typmod) is Some,
        stated_header(v).vocabulary_id != UNRESOLVED,
        stated_header(v).vocabulary_id != vocabulary_in(typmod)->0.id,
    ensures
        coercion(v, typmod, false) is Err,
        column_fault(v, typmod) is Some,
        coercion(v, typmod, true) == Ok::<Coercion, TokensError>(Coercion::Recode),
{
}

/// Applying a typmod to a raw value that is already in the column's encoding changes nothing, and
/// encoding its ids anew could only have given the same bytes.
pub proof fn lemma_keeping_is_recoding(v: Seq<u8>, typmod: i32, is_explicit: bool)
    requires
        coercion(v, typmod, is_explicit) == Ok::<Coercion, TokensError>(Coercion::Keep),
        !is_freq(typmod),
    ensures
        value_of(
            ids_in(v, None),
            codec_of(vocabulary_in(typmod)->0),
            vocabulary_in(typmod)->0.id,
            None,
        ) == v,
{
    crate::value::lemma_raw_value_canonical(v);
}

/// Ids lie below a bound where none reaches it, and otherwise the first that does is the one that
/// is found.
pub proof fn lemma_first_beyond_is_first(ids: Seq<u32>, bound: int, i: int, bad: u32)
    ensures
        all_below(ids, bound) <==> forall|j: int| 0 <= j < ids.len() ==> (#[trigger] ids[j]) < bound,
        0 <= i < ids.len() && ids[i] >= bound && (forall|j: int|
            0 <= j < i ==> (#[trigger] ids[j]) < bound) ==> (first_beyond(ids, bound, bad) <==> bad
            == ids[i]),
{
    if 0 <= i < ids.len() && ids[i] >= bound && (forall|j: int|
        0 <= j < i ==> (#[trigger] ids[j]) < bound) {
        if first_beyond(ids, bound, bad) {
            let k = choose|k: int|
                {
                    &&& 0 <= k < ids.len()
                    &&& #[trigger] ids[k] >= bound
                    &&& forall|j: int| 0 <= j < k ==> #[trigger] ids[j] < bound
                    &&& bad == ids[k]
                };
            if k < i {
                assert(ids[k] < bound);
            } else if i < k {
                assert(ids[i] < bound);
            }
        }
    }
}

/// A column takes the ids of its vocabulary: under the width that the declared size gives, raw
/// storage encodes every list of ids below that size, and no error is possible.
pub proof fn lemma_raw_column_stores_its_ids(ids: Seq<u32>, typmod: i32, size: u32)
    requires
        vocabulary_in(typmod) is Some,
        vocabulary_in(typmod)->0.compression != crate::vocabulary::COMPRESSION_FREQ,
        vocabulary_in(typmod)->0.storable(),
        crate::vocabulary::narrowest(size as int, vocabulary_in(typmod)->0.width as int),
        ids.len() <= u32::MAX,
        forall|i: int| 0 <= i < ids.len() ==> (#[trigger] ids[i]) < size,
    ensures
        encodes_for(
            ids,
            typmod,
            Some(size),
            None,
            value_of(
                ids,
                codec_of(vocabulary_in(typmod)->0),
                vocabulary_in(typmod)->0.id,
                None,
            ),
        ),
        forall|e: TokensError| !encode_for_fails(ids, typmod, Some(size), None, e),
        accepts(ids, typmod, Some(size)),
{
    let v = vocabulary_in(typmod)->0;
    assert forall|i: int| 0 <= i < ids.len() implies crate::codec::raw::fits(
        codec_of(v),
        #[trigger] ids[i],
    ) by {
        crate::typmod::lemma_declared_ids_fit(v, size as int, ids[i]);
    }
    assert(all_below(ids, size as int));
    assert(encodable(ids, codec_of(v), None));
}

/// A `freq` column takes the ids of its vocabulary too, those that its ranking never saw among
/// them, as long as the number of ranked tokens can be added to them.
pub proof fn lemma_freq_column_stores_its_ids(
    ids: Seq<u32>,
    typmod: i32,
    size: u32,
    ranking: Seq<u32>,
)
    requires
        vocabulary_in(typmod) is Some,
        vocabulary_in(typmod)->0.compression == crate::vocabulary::COMPRESSION_FREQ,
        ranking.no_duplicates(),
        size + ranking.len() <= u32::MAX + 1,
        ids.len() <= u32::MAX,
        forall|i: int| 0 <= i < ids.len() ==> (#[trigger] ids[i]) < size,
    ensures
        encodes_for(
            ids,
            typmod,
            Some(size),
            Some(ranking),
            value_of(ids, Codec::Freq, vocabulary_in(typmod)->0.id, Some(ranking)),
        ),
        forall|e: TokensError| !encode_for_fails(ids, typmod, Some(size), Some(ranking), e),
        accepts(ids, typmod, Some(size)),
        is_freq(typmod),
{
    assert forall|i: int| 0 <= i < ids.len() implies (#[trigger] ids[i]) + ranking.len()
        <= u32::MAX by {
        assert(ids[i] < size);
    }
    crate::codec::freq::lemma_small_ids_encode(ranking, ids);
    assert(all_below(ids, size as int));
}

/// What is encoded for a column is a value of its vocabulary in its codec, of those ids and no
/// others, and there is only one such value.
pub proof fn lemma_encoded_for_a_column(
    ids: Seq<u32>,
    typmod: i32,
    size: Option<u32>,
    ranking: Option<Seq<u32>>,
    v: Seq<u8>,
)
    requires
        encodes_for(ids, typmod, size, ranking, v),
    ensures
        vocabulary_in(typmod) is Some,
        size is Some,
        forall|i: int| 0 <= i < ids.len() ==> (#[trigger] ids[i]) < size->0,
        v == value_of(
            ids,
            codec_of(vocabulary_in(typmod)->0),
            vocabulary_in(typmod)->0.id,
            ranking,
        ),
        encodable(ids, codec_of(vocabulary_in(typmod)->0), ranking),
{
    assert forall|i: int| 0 <= i < ids.len() implies (#[trigger] ids[i]) < size->0 by {
        assert(all_below(ids, size->0 as int));
    }
}

/// What is said where ids are not encoded for a column: a missing vocabulary counts before a
/// missing size, that before the first id outside the vocabulary, that before a missing ranking,
/// and that before what the codec says.
pub proof fn lemma_refusal_for_a_column(
    ids: Seq<u32>,
    typmod: i32,
    size: Option<u32>,
    ranking: Option<Seq<u32>>,
    i: int,
    e: TokensError,
)
    ensures
        vocabulary_in(typmod) is None ==> (encode_for_fails(ids, typmod, size, ranking, e) <==> e
            == TokensError::NoVocabularyTypmod),
        vocabulary_in(typmod) is None ==> (ids_refused(ids, typmod, size, e) <==> e
            == TokensError::NoVocabularyTypmod),
        vocabulary_in(typmod) is Some && size is None ==> (encode_for_fails(
            ids,
            typmod,
            size,
            ranking,
            e,
        ) <==> e == TokensError::NotRegistered(vocabulary_in(typmod)->0.id)),
        vocabulary_in(typmod) is Some && size is None ==> (ids_refused(ids, typmod, size, e) <==> e
            == TokensError::NotRegistered(vocabulary_in(typmod)->0.id)),
        vocabulary_in(typmod) is Some && size is Some && 0 <= i < ids.len() && ids[i] >= size->0 && (
        forall|j: int| 0 <= j < i ==> (#[trigger] ids[j]) < size->0) ==> {
            let outside = TokensError::OutsideVocabulary {
                id: ids[i],
                vocabulary: vocabulary_in(typmod)->0.id,
                size: size->0,
            };
            &&& encode_for_fails(ids, typmod, size, ranking, e) <==> e == outside
            &&& ids_refused(ids, typmod, size, e) <==> e == outside
        },
        vocabulary_in(typmod) is Some && size is Some && (forall|j: int|
            0 <= j < ids.len() ==> (#[trigger] ids[j]) < size->0) ==> {
            let codec = codec_of(vocabulary_in(typmod)->0);
            &&& !ids_refused(ids, typmod, size, e)
            &&& codec == Codec::Freq && ranking is None ==> (encode_for_fails(
                ids,
                typmod,
                size,
                ranking,
                e,
            ) <==> e == TokensError::NoRanking(vocabulary_in(typmod)->0.id))
            &&& !(codec == Codec::Freq && ranking is None) ==> (encode_for_fails(
                ids,
                typmod,
                size,
                ranking,
                e,
            ) <==> !encodable(ids, codec, ranking) && e is Value && encode_fails(
                ids,
                codec,
                ranking,
                e->Value_0,
            ))
        },
{
    if vocabulary_in(typmod) is Some && size is Some {
        let bound = size->0 as int;
        if 0 <= i < ids.len() && ids[i] >= size->0 && (forall|j: int|
            0 <= j < i ==> (#[trigger] ids[j]) < size->0) {
            assert(!all_below(ids, bound));
            lemma_first_beyond_is_first(ids, bound, i, ids[i]);
            if e is OutsideVocabulary {
                lemma_first_beyond_is_first(ids, bound, i, e->id);
            }
        }
        if forall|j: int| 0 <= j < ids.len() ==> (#[trigger] ids[j]) < size->0 {
            assert(all_below(ids, bound));
        }
    }
}

/// A sound value can be read exactly where it names a vocabulary; one that is not sound is refused
/// for its header.
pub proof fn lemma_vocabulary_wanted(v: Seq<u8>)
    ensures
        header_fault(v) is Some ==> vocabulary_fault(v) == Some(
            TokensError::Value(ValueError::Header(header_fault(v)->0)),
        ),
        header_fault(v) is None && stated_header(v).vocabulary_id == 0 ==> vocabulary_fault(v)
            == Some(TokensError::Unresolved),
        header_fault(v) is None && stated_header(v).vocabulary_id != 0 ==> vocabulary_fault(
            v,
        ) is None,
{
}

/// Binary input refuses a value for its header, for a vocabulary that is not the column's, and for
/// a codec that is not the column's, in this order, and for nothing else. With no typmod there is
/// nothing to refuse it for.
pub proof fn lemma_column_check(v: Seq<u8>, typmod: i32)
    ensures
        typmod < 0 ==> column_fault(v, typmod) is None,
        typmod >= 0 ==> {
            let h = stated_header(v);
            let id = (typmod % 65_536) as u16;
            let want = codec_of(vocabulary_in(typmod)->0);
            &&& header_fault(v) is Some ==> column_fault(v, typmod) == Some(
                TokensError::Value(ValueError::Header(header_fault(v)->0)),
            )
            &&& header_fault(v) is None && h.vocabulary_id != id ==> column_fault(v, typmod) == Some(
                TokensError::WrongVocabulary { found: h.vocabulary_id, column: id },
            )
            &&& header_fault(v) is None && h.vocabulary_id == id && h.codec != want
                ==> column_fault(v, typmod) == Some(
                TokensError::WrongCodec { codec: h.codec, column: id, want },
            )
            &&& header_fault(v) is None && h.vocabulary_id == id && h.codec == want
                ==> column_fault(v, typmod) is None
        },
{
}

/// Binary input takes back what the column itself stores, whichever codec it stores it in, and so
/// does the cast that applies the column's typmod.
pub proof fn lemma_column_takes_back_its_own(
    ids: Seq<u32>,
    typmod: i32,
    size: Option<u32>,
    ranking: Option<Seq<u32>>,
    v: Seq<u8>,
    is_explicit: bool,
)
    requires
        encodes_for(ids, typmod, size, ranking, v),
        vocabulary_in(typmod)->0.id != 0,
        is_freq(typmod) ==> ranking->0.no_duplicates(),
    ensures
        column_fault(v, typmod) is None,
        vocabulary_fault(v) is None,
        coercion(v, typmod, is_explicit) == Ok::<Coercion, TokensError>(Coercion::Keep),
{
    let target = vocabulary_in(typmod)->0;
    crate::value::lemma_value_roundtrip(ids, codec_of(target), target.id, ranking);
}

/// A stored value is read exactly where it decodes, and where it wants a ranking that is not there
/// the vocabulary is named that has none.
pub proof fn lemma_reading_outcome(v: Seq<u8>, ranking: Option<Seq<u32>>)
    ensures
        header_fault(v) is None && stated_header(v).codec == Codec::Freq && ranking is None
            ==> read_fault(v, ranking) == Some(
            TokensError::NoRanking(stated_header(v).vocabulary_id),
        ),
        !(header_fault(v) is None && stated_header(v).codec == Codec::Freq && ranking is None) ==> {
            &&& read_fault(v, ranking) is None <==> decode_fault(v, ranking) is None
            &&& decode_fault(v, ranking) is Some ==> read_fault(v, ranking) == Some(
                TokensError::Value(decode_fault(v, ranking)->0),
            )
        },
{
}

/// What applying a typmod does: a value in the column's vocabulary and codec is kept, one of no
/// vocabulary yet or of the same vocabulary is encoded anew, and one of another vocabulary is, but
/// only on an explicit cast.
pub proof fn lemma_coercion_outcome(v: Seq<u8>, typmod: i32, is_explicit: bool)
    ensures
        typmod < 0 ==> coercion(v, typmod, is_explicit) == Err::<Coercion, TokensError>(
            TokensError::NoVocabularyTypmod,
        ),
        typmod >= 0 && header_fault(v) is Some ==> coercion(v, typmod, is_explicit) == Err::<
            Coercion,
            TokensError,
        >(TokensError::Value(ValueError::Header(header_fault(v)->0))),
        typmod >= 0 && header_fault(v) is None ==> {
            let from = stated_header(v).vocabulary_id;
            let to = (typmod % 65_536) as u16;
            let same_codec = stated_header(v).codec == codec_of(vocabulary_in(typmod)->0);
            &&& from == to && same_codec ==> coercion(v, typmod, is_explicit) == Ok::<
                Coercion,
                TokensError,
            >(Coercion::Keep)
            &&& from == to && !same_codec ==> coercion(v, typmod, is_explicit) == Ok::<
                Coercion,
                TokensError,
            >(Coercion::Recode)
            &&& from != to && (from == 0 || is_explicit) ==> coercion(v, typmod, is_explicit)
                == Ok::<Coercion, TokensError>(Coercion::Recode)
            &&& from != to && from != 0 && !is_explicit ==> coercion(v, typmod, is_explicit)
                == Err::<Coercion, TokensError>(TokensError::CrossVocabulary { from, to })
        },
{
}

/// Ids without a vocabulary are encoded unless one is beyond the format, and then the first such
/// id is named, or they are too many to count.
pub proof fn lemma_unresolved_outcome(ids: Seq<u32>, i: int, e: TokensError)
    ensures
        ids.len() <= u32::MAX && (forall|j: int|
            0 <= j < ids.len() ==> (#[trigger] ids[j]) < 16_777_216) ==> !unresolved_fails(ids, e),
        ids.len() > u32::MAX && (forall|j: int|
            0 <= j < ids.len() ==> (#[trigger] ids[j]) < 16_777_216) ==> (unresolved_fails(ids, e)
            <==> e == TokensError::Value(ValueError::TooManyTokens(ids.len() as usize))),
        0 <= i < ids.len() && ids[i] >= 16_777_216 && (forall|j: int|
            0 <= j < i ==> (#[trigger] ids[j]) < 16_777_216) ==> (unresolved_fails(ids, e) <==> e
            == TokensError::BeyondFormat(ids[i])),
{
    if forall|j: int| 0 <= j < ids.len() ==> (#[trigger] ids[j]) < 16_777_216 {
        assert(all_below(ids, MAX_ID + 1));
    }
    if 0 <= i < ids.len() && ids[i] >= 16_777_216 && (forall|j: int|
        0 <= j < i ==> (#[trigger] ids[j]) < 16_777_216) {
        assert(!all_below(ids, MAX_ID + 1));
        lemma_first_beyond_is_first(ids, MAX_ID + 1, i, ids[i]);
        if e is BeyondFormat {
            lemma_first_beyond_is_first(ids, MAX_ID + 1, i, e->BeyondFormat_0);
        }
    }
}

} // verus!
