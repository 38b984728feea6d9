//! Tokenizer access, and the boundary between text and token ids.
//!
//! Each vocabulary is built on first use and then shared by every later call in the process.
//!
//! All text is ordinary text. The variants of the encoder that know special tokens would let a
//! string like `"<|endoftext|>"` in user text collapse into a single special-token id, which then
//! decodes back to that literal: fine for prompting, wrong for storage, because it makes the
//! roundtrip depend on whether the text happens to contain a control string.

use tiktoken_rs::CoreBPE;

use vstd::prelude::*;
use vstd::utf8::{decode_utf8, encode_utf8, valid_utf8};

use crate::text::{decimal, push_decimal};
use crate::utf8::from_utf8;

verus! {

/// A vocabulary that text can be encoded with.
#[derive(Debug, Clone, Copy, PartialEq, Eq, Hash, Structural)]
pub enum Tokenizer {
    R50k,
    Cl100k,
    O200k,
}

impl Tokenizer {
    /// The name of the encoding.
    pub open spec fn encoding(self) -> Seq<char> {
        match self {
            Tokenizer::R50k => "r50k_base"@,
            Tokenizer::Cl100k => "cl100k_base"@,
            Tokenizer::O200k => "o200k_base"@,
        }
    }

    /// How many ids the vocabulary has.
    pub open spec fn size(self) -> u32 {
        match self {
            Tokenizer::R50k => 50_257,
            Tokenizer::Cl100k => 100_277,
            Tokenizer::O200k => 200_019,
        }
    }

    /// How many ids the vocabulary has.
    pub fn vocab(self) -> (n: u32)
        ensures
            n == self.size(),
    {
        match self {
            Tokenizer::R50k => 50_257,
            Tokenizer::Cl100k => 100_277,
            Tokenizer::O200k => 200_019,
        }
    }

    pub fn as_str(self) -> (s: &'static str)
        ensures
            s@ == match self {
                Tokenizer::R50k => "r50k"@,
                Tokenizer::Cl100k => "cl100k"@,
                Tokenizer::O200k => "o200k"@,
            },
    {
        match self {
            Tokenizer::R50k => "r50k",
            Tokenizer::Cl100k => "cl100k",
            Tokenizer::O200k => "o200k",
        }
    }
}

#[derive(Debug, Clone, Copy, PartialEq, Eq, Structural)]
pub enum TokenizerError {
    /// A token id has no entry in the vocabulary.
    UnknownToken(u32),
    /// The decoded bytes were not valid UTF-8.
    ///
    /// Reachable only from a token sequence that was not produced by encoding a complete string,
    /// such as one truncated mid-character by a caller.
    NotUtf8,
}

impl TokenizerError {
    /// The text of the error.
    pub open spec fn text(self) -> Seq<char> {
        match self {
            TokenizerError::UnknownToken(t) => "token id "@ + decimal(t as nat)
                + " is not in the vocabulary"@,
            TokenizerError::NotUtf8 =>
                "decoded token IDs are not valid UTF-8; the sequence is not a whole text"@,
        }
    }

    /// The text of the error.
    pub fn message(&self) -> (s: String)
        ensures
            s@ == self.text(),
    {
        match self {
            TokenizerError::UnknownToken(t) => {
                let mut s = "token id ".to_owned();
                push_decimal(&mut s, *t as u128);
                s.append(" is not in the vocabulary");
                s
            },
            TokenizerError::NotUtf8 => {
                "decoded token IDs are not valid UTF-8; the sequence is not a whole text".to_owned()
            },
        }
    }
}

/// `tiktoken_rs::CoreBPE`, a byte-pair encoding with its vocabulary.
#[verifier::external_type_specification]
#[verifier::external_body]
pub struct ExCoreBPE(CoreBPE);

/// The name of the encoding that a `CoreBPE` holds.
pub uninterp spec fn encoding_of(b: CoreBPE) -> Seq<char>;

/// The ids that an encoding turns ordinary text into.
pub uninterp spec fn ordinary_ids(encoding: Seq<char>, text: Seq<char>) -> Seq<u32>;

/// Whether an encoding's pattern can split the text within the limits of its matcher.
pub uninterp spec fn splits(encoding: Seq<char>, text: Seq<char>) -> bool;

/// The bytes that each token of an encoding stands for, special tokens included.
pub uninterp spec fn token_bytes(encoding: Seq<char>) -> vstd::map::Map<u32, Seq<u8>>;

/// Whether every id is a token.
pub open spec fn all_tokens(vocabulary: vstd::map::Map<u32, Seq<u8>>, ids: Seq<u32>) -> bool {
    forall|i: int| 0 <= i < ids.len() ==> vocabulary.contains_key(#[trigger] ids[i])
}

/// The bytes of the tokens, one after the other.
pub open spec fn spelled(vocabulary: vstd::map::Map<u32, Seq<u8>>, ids: Seq<u32>) -> Seq<u8>
    decreases ids.len(),
{
    if ids.len() == 0 {
        seq![]
    } else {
        spelled(vocabulary, ids.drop_last()) + vocabulary[ids.last()]
    }
}

/// Whether `t` is the first of `ids` that is no token.
pub open spec fn first_unknown(
    vocabulary: vstd::map::Map<u32, Seq<u8>>,
    ids: Seq<u32>,
    t: u32,
) -> bool {
    exists|i: int|
        {
            &&& 0 <= i < ids.len()
            &&& all_tokens(vocabulary, ids.take(i))
            &&& !vocabulary.contains_key(#[trigger] ids[i])
            &&& t == ids[i]
        }
}

/// Whether this is the name of one of the three encodings.
pub open spec fn is_known(encoding: Seq<char>) -> bool {
    exists|t: Tokenizer| #[trigger] t.encoding() == encoding
}

/// `tiktoken_rs::r50k_base_singleton`: the `r50k_base` encoding, whose token ids are all below
/// 50257.
#[verifier::external_body]
pub(crate) fn r50k_base() -> (b: &'static CoreBPE)
    ensures
        encoding_of(*b) == "r50k_base"@,
        forall|t: u32| #[trigger] token_bytes(encoding_of(*b)).contains_key(t) ==> t < 50_257,
{
    tiktoken_rs::r50k_base_singleton()
}

/// `tiktoken_rs::cl100k_base_singleton`: the `cl100k_base` encoding, whose token ids are all below
/// 100277.
#[verifier::external_body]
pub(crate) fn cl100k_base() -> (b: &'static CoreBPE)
    ensures
        encoding_of(*b) == "cl100k_base"@,
        forall|t: u32| #[trigger] token_bytes(encoding_of(*b)).contains_key(t) ==> t < 100_277,
{
    tiktoken_rs::cl100k_base_singleton()
}

/// `tiktoken_rs::o200k_base_singleton`: the `o200k_base` encoding, whose token ids are all below
/// 200019.
#[verifier::external_body]
pub(crate) fn o200k_base() -> (b: &'static CoreBPE)
    ensures
        encoding_of(*b) == "o200k_base"@,
        forall|t: u32| #[trigger] token_bytes(encoding_of(*b)).contains_key(t) ==> t < 200_019,
{
    tiktoken_rs::o200k_base_singleton()
}

/// `CoreBPE::encode` with no special token allowed, on one of the three encodings here: it fails
/// exactly where the pattern's matcher gives up on the text. In an encoding that lacks some byte as
/// a token it would panic on a text with that byte; these three have them all.
#[verifier::external_body]
pub(crate) fn bpe_splits(b: &CoreBPE, text: &str) -> (r: bool)
    requires
        is_known(encoding_of(*b)),
    ensures
        r == splits(encoding_of(*b), text@),
{
    b.encode(text, &std::collections::HashSet::new()).is_ok()
}

/// `CoreBPE::encode_ordinary`, on one of the three encodings here: a function of the encoding and
/// the text. It panics where the pattern's matcher gives up on the text, and where a byte of the
/// text is no token. In these encodings every character belongs to some piece of the text and every
/// byte is a token, so the tokens spell the text.
#[verifier::external_body]
pub(crate) fn bpe_encode(b: &CoreBPE, text: &str) -> (ids: Vec<u32>)
    requires
        is_known(encoding_of(*b)),
        splits(encoding_of(*b), text@),
    ensures
        ids@ == ordinary_ids(encoding_of(*b), text@),
        all_tokens(token_bytes(encoding_of(*b)), ids@),
        spelled(token_bytes(encoding_of(*b)), ids@) == encode_utf8(text@),
        text@.len() == 0 ==> ids@.len() == 0,
{
    b.encode_ordinary(text)
}

/// `CoreBPE::decode_bytes`: the bytes of the tokens one after the other, or the first id that is
/// no token.
#[verifier::external_body]
pub(crate) fn bpe_decode(b: &CoreBPE, ids: &[u32]) -> (r: Result<Vec<u8>, u32>)
    ensures
        match r {
            Ok(bytes) => {
                &&& all_tokens(token_bytes(encoding_of(*b)), ids@)
                &&& bytes@ == spelled(token_bytes(encoding_of(*b)), ids@)
            },
            Err(t) => first_unknown(token_bytes(encoding_of(*b)), ids@, t),
        },
{
    b.decode_bytes(ids).map_err(|e| e.token)
}

/// Borrow the process-wide tokenizer, building it on first use.
pub fn bpe(tokenizer: Tokenizer) -> (b: &'static CoreBPE)
    ensures
        encoding_of(*b) == tokenizer.encoding(),
        forall|t: u32| #[trigger]
            token_bytes(tokenizer.encoding()).contains_key(t) ==> t < tokenizer.size(),
{
    match tokenizer {
        Tokenizer::R50k => r50k_base(),
        Tokenizer::Cl100k => cl100k_base(),
        Tokenizer::O200k => o200k_base(),
    }
}

/// Whether `ids` are what a tokenizer makes of `text`: tokens of its vocabulary that spell it.
pub open spec fn tokenizes(tokenizer: Tokenizer, text: Seq<char>, ids: Seq<u32>) -> bool {
    &&& ids == ordinary_ids(tokenizer.encoding(), text)
    &&& all_tokens(token_bytes(tokenizer.encoding()), ids)
    &&& forall|i: int| 0 <= i < ids.len() ==> #[trigger] ids[i] < tokenizer.size()
    &&& spelled(token_bytes(tokenizer.encoding()), ids) == encode_utf8(text)
    &&& text.len() == 0 ==> ids.len() == 0
}

/// Text to token ids.
pub fn encode(text: &str, tokenizer: Tokenizer) -> (ids: Vec<u32>)
    requires
        splits(tokenizer.encoding(), text@),
    ensures
        tokenizes(tokenizer, text@, ids@),
{
    assert(is_known(tokenizer.encoding()));
    bpe_encode(bpe(tokenizer), text)
}

/// Text to token ids, where the tokenizer's pattern can split the text; a run of a single kind of
/// character can be too long for its matcher.
pub fn try_encode(text: &str, tokenizer: Tokenizer) -> (r: Option<Vec<u32>>)
    ensures
        match r {
            Some(ids) => splits(tokenizer.encoding(), text@) && tokenizes(
                tokenizer,
                text@,
                ids@,
            ),
            None => !splits(tokenizer.encoding(), text@),
        },
{
    assert(is_known(tokenizer.encoding()));
    if bpe_splits(bpe(tokenizer), text) {
        Some(encode(text, tokenizer))
    } else {
        None
    }
}

/// The text of decoded bytes, or what is wrong with what was decoded. `bytes` are the bytes of the
/// tokens, or the first id that is no token.
pub fn decoded_text(bytes: Result<Vec<u8>, u32>) -> (r: Result<String, TokenizerError>)
    ensures
        match bytes {
            Ok(b) => if valid_utf8(b@) {
                r matches Ok(s) && s@ == decode_utf8(b@)
            } else {
                r == Err::<String, TokenizerError>(TokenizerError::NotUtf8)
            },
            Err(t) => r == Err::<String, TokenizerError>(TokenizerError::UnknownToken(t)),
        },
{
    match bytes {
        Ok(b) => match from_utf8(b.as_slice()) {
            Ok(s) => Ok(s.to_owned()),
            Err(_) => {
                assert(b@.take(b@.len() as int) =~= b@);
                Err(TokenizerError::NotUtf8)
            },
        },
        Err(t) => Err(TokenizerError::UnknownToken(t)),
    }
}

/// Token ids to text.
pub fn decode(ids: &[u32], tokenizer: Tokenizer) -> (r: Result<String, TokenizerError>)
    ensures
        ({
            let vocabulary = token_bytes(tokenizer.encoding());
            match r {
                Ok(s) => {
                    &&& all_tokens(vocabulary, ids@)
                    &&& valid_utf8(spelled(vocabulary, ids@))
                    &&& s@ == decode_utf8(spelled(vocabulary, ids@))
                },
                Err(TokenizerError::UnknownToken(t)) => first_unknown(vocabulary, ids@, t),
                Err(TokenizerError::NotUtf8) => {
                    &&& all_tokens(vocabulary, ids@)
                    &&& !valid_utf8(spelled(vocabulary, ids@))
                },
            }
        }),
{
    decoded_text(bpe_decode(bpe(tokenizer), ids))
}

/// Tokenizing is lossless: the ids of a text decode to that text.
pub proof fn lemma_tokenizer_roundtrip(tokenizer: Tokenizer, text: Seq<char>, ids: Seq<u32>)
    requires
        tokenizes(tokenizer, text, ids),
    ensures
        all_tokens(token_bytes(tokenizer.encoding()), ids),
        valid_utf8(spelled(token_bytes(tokenizer.encoding()), ids)),
        decode_utf8(spelled(token_bytes(tokenizer.encoding()), ids)) == text,
{
    vstd::utf8::encode_utf8_valid_utf8(text);
    vstd::utf8::encode_utf8_decode_utf8(text);
}

/// A mapping exported from the tokenizer gives texts back: where every id of a text has the bytes
/// of its token, detokenizing the ids gives the text.
pub proof fn lemma_exported_mapping_reads_back(
    tokenizer: Tokenizer,
    text: Seq<char>,
    ids: Seq<u32>,
    entries: Seq<Seq<u8>>,
)
    requires
        tokenizes(tokenizer, text, ids),
        forall|i: int|
            0 <= i < ids.len() ==> crate::tables::map::entry(entries, #[trigger] ids[i]) == Some(
                token_bytes(tokenizer.encoding())[ids[i]],
            ),
    ensures
        crate::detok::all_mapped(entries, ids),
        crate::detok::reads(crate::detok::bytes_of(entries, ids)),
        crate::detok::text_of(crate::detok::bytes_of(entries, ids)) == text,
{
    lemma_mapped_bytes(token_bytes(tokenizer.encoding()), ids, entries);
    crate::detok::lemma_text_reads_back(entries, ids, text);
}

proof fn lemma_mapped_bytes(
    vocabulary: vstd::map::Map<u32, Seq<u8>>,
    ids: Seq<u32>,
    entries: Seq<Seq<u8>>,
)
    requires
        forall|i: int|
            0 <= i < ids.len() ==> crate::tables::map::entry(entries, #[trigger] ids[i]) == Some(
                vocabulary[ids[i]],
            ),
    ensures
        crate::detok::bytes_of(entries, ids) == spelled(vocabulary, ids),
    decreases ids.len(),
{
    if ids.len() > 0 {
        let front = ids.drop_last();
        assert forall|i: int| 0 <= i < front.len() implies crate::tables::map::entry(
            entries,
            #[trigger] front[i],
        ) == Some(vocabulary[front[i]]) by {
            assert(front[i] == ids[i]);
        }
        lemma_mapped_bytes(vocabulary, front, entries);
        assert(ids.last() == ids[ids.len() - 1]);
    }
}

/// What tokens spell is their bytes, one after the other and in order.
pub proof fn lemma_spelled_is_flat(vocabulary: vstd::map::Map<u32, Seq<u8>>, ids: Seq<u32>)
    ensures
        spelled(vocabulary, ids) == ids.map_values(|id: u32| vocabulary[id]).flatten(),
    decreases ids.len(),
{
    let f = |id: u32| vocabulary[id];
    if ids.len() > 0 {
        let front = ids.drop_last();
        lemma_spelled_is_flat(vocabulary, front);
        front.map_values(f).lemma_flatten_push(f(ids.last()));
        assert(ids.map_values(f) =~= front.map_values(f).push(f(ids.last())));
    } else {
        assert(ids.map_values(f) =~= seq![]);
    }
}

/// Ids are tokens where each is in the vocabulary, and otherwise the first that is not is the one
/// that is named.
pub proof fn lemma_unknown_token_is_first(
    vocabulary: vstd::map::Map<u32, Seq<u8>>,
    ids: Seq<u32>,
    i: int,
    t: u32,
)
    requires
        0 <= i <= ids.len(),
        forall|j: int| 0 <= j < i ==> vocabulary.dom().contains(#[trigger] ids[j]),
    ensures
        i == ids.len() ==> all_tokens(vocabulary, ids) && !first_unknown(vocabulary, ids, t),
        i < ids.len() && !vocabulary.dom().contains(ids[i]) ==> !all_tokens(vocabulary, ids) && (
        first_unknown(vocabulary, ids, t) <==> t == ids[i]),
{
    let upto = ids.take(i);
    assert forall|j: int| 0 <= j < upto.len() implies vocabulary.contains_key(#[trigger] upto[j]) by {
        assert(upto[j] == ids[j]);
    }
    if first_unknown(vocabulary, ids, t) {
        let k = choose|k: int|
            {
                &&& 0 <= k < ids.len()
                &&& all_tokens(vocabulary, ids.take(k))
                &&& !vocabulary.contains_key(#[trigger] ids[k])
                &&& t == ids[k]
            };
        if k < i {
            assert(vocabulary.dom().contains(ids[k]));
        } else if i < k {
            assert(ids.take(k)[i] == ids[i]);
        }
    }
    if i < ids.len() && !vocabulary.dom().contains(ids[i]) {
        assert(!vocabulary.contains_key(ids[i]));
    }
}

/// The three encodings and how many ids each has.
pub proof fn lemma_vocabulary_sizes(encoding: Seq<char>)
    ensures
        Tokenizer::R50k.encoding() == "r50k_base"@,
        Tokenizer::Cl100k.encoding() == "cl100k_base"@,
        Tokenizer::O200k.encoding() == "o200k_base"@,
        Tokenizer::R50k.size() == 50_257,
        Tokenizer::Cl100k.size() == 100_277,
        Tokenizer::O200k.size() == 200_019,
        is_known(encoding) <==> encoding == "r50k_base"@ || encoding == "cl100k_base"@ || encoding
            == "o200k_base"@,
{
    assert(Tokenizer::R50k.encoding() == "r50k_base"@);
    assert(Tokenizer::Cl100k.encoding() == "cl100k_base"@);
    assert(Tokenizer::O200k.encoding() == "o200k_base"@);
}

/// What a tokenizer makes of a text is its encoding's own ids, each below the vocabulary size, and
/// they spell the text.
pub proof fn lemma_tokenized_text(tokenizer: Tokenizer, text: Seq<char>, ids: Seq<u32>)
    requires
        tokenizes(tokenizer, text, ids),
    ensures
        ids == ordinary_ids(tokenizer.encoding(), text),
        forall|i: int| 0 <= i < ids.len() ==> (#[trigger] ids[i]) < tokenizer.size(),
        spelled(token_bytes(tokenizer.encoding()), ids) == encode_utf8(text),
        text.len() == 0 ==> ids.len() == 0,
{
}

/// Two errors of a kind read alike but for the details they give.
pub proof fn lemma_wording_of_tokenizer_error(a: TokenizerError, b: TokenizerError)
    ensures
        a is UnknownToken && b is UnknownToken ==> crate::text::same_wording(
            a.text(),
            decimal(a->UnknownToken_0 as nat),
            b.text(),
            decimal(b->UnknownToken_0 as nat),
        ),
{
    if a is UnknownToken && b is UnknownToken {
        assert(crate::text::worded(
            a.text(),
            "token id "@,
            decimal(a->UnknownToken_0 as nat),
            " is not in the vocabulary"@,
        ));
        assert(crate::text::worded(
            b.text(),
            "token id "@,
            decimal(b->UnknownToken_0 as nat),
            " is not in the vocabulary"@,
        ));
    }
}

} // verus!
