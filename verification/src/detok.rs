//! Turning stored token ids back into text.
//!
//! A lookup and a concatenation, which is why this can live here while the value format has no
//! tokenizer. Tokenizing is an algorithm; detokenizing is a table.
//!
//! Bytes are concatenated first and interpreted **once**, at the end. Per-token interpretation
//! would be wrong: a single character routinely spans two tokens, so neither token is valid UTF-8
//! alone.

use vstd::prelude::*;
use vstd::utf8::{decode_utf8, valid_utf8};

use crate::tables::map::entry;
use crate::tables::ByteMap;
use crate::text::push_decimal;
use crate::utf8::{cut_short, from_utf8, is_readable, readable};

verus! {

#[derive(Debug, Clone, Copy, PartialEq, Eq, Structural)]
pub enum DetokError {
    /// A stored id has no entry in the mapping. The mapping and the ids disagree about which
    /// tokenizer produced them, which is a fault rather than an empty string.
    UnmappedId(u32),
    /// A byte was invalid where it stood, rather than the input merely ending mid-character.
    InvalidUtf8 { at: usize },
}

impl DetokError {
    /// The text of the error.
    pub open spec fn text(self) -> Seq<char> {
        match self {
            DetokError::UnmappedId(id) => "token id "@ + crate::text::decimal(id as nat)
                + " has no entry in the mapping"@,
            DetokError::InvalidUtf8 { at } => "detokenized bytes are not valid UTF-8 at byte "@
                + crate::text::decimal(at as nat) + ", and not merely cut short"@,
        }
    }

    /// The text of the error.
    pub fn message(&self) -> (s: String)
        ensures
            s@ == self.text(),
    {
        match self {
            DetokError::UnmappedId(id) => {
                let mut s = "token id ".to_owned();
                push_decimal(&mut s, *id as u128);
                s.append(" has no entry in the mapping");
                s
            },
            DetokError::InvalidUtf8 { at } => {
                let mut s = "detokenized bytes are not valid UTF-8 at byte ".to_owned();
                push_decimal(&mut s, *at as u128);
                s.append(", and not merely cut short");
                s
            },
        }
    }
}

/// Whether every id has an entry.
pub open spec fn all_mapped(entries: Seq<Seq<u8>>, ids: Seq<u32>) -> bool {
    forall|i: int| 0 <= i < ids.len() ==> entry(entries, #[trigger] ids[i]) is Some
}

/// The bytes of the ids, one after the other.
pub open spec fn bytes_of(entries: Seq<Seq<u8>>, ids: Seq<u32>) -> Seq<u8>
    decreases ids.len(),
{
    if ids.len() == 0 {
        seq![]
    } else {
        bytes_of(entries, ids.drop_last()) + entries[ids.last() as int]
    }
}

/// Whether `bytes` are text, up to a character cut short at the end.
pub open spec fn reads(bytes: Seq<u8>) -> bool {
    readable(bytes) == bytes.len() || cut_short(bytes.skip(readable(bytes)))
}

/// The text of `bytes`, without a character cut short at the end.
pub open spec fn text_of(bytes: Seq<u8>) -> Seq<char> {
    decode_utf8(bytes.take(readable(bytes)))
}

/// Whether detokenizing `ids` ends in `e`.
pub open spec fn detok_fails(entries: Seq<Seq<u8>>, ids: Seq<u32>, e: DetokError) -> bool {
    match e {
        DetokError::UnmappedId(id) => exists|i: int|
            {
                &&& 0 <= i < ids.len()
                &&& all_mapped(entries, ids.take(i))
                &&& entry(entries, #[trigger] ids[i]) is None
                &&& id == ids[i]
            },
        DetokError::InvalidUtf8 { at } => {
            &&& all_mapped(entries, ids)
            &&& is_readable(bytes_of(entries, ids), readable(bytes_of(entries, ids)))
            &&& !reads(bytes_of(entries, ids))
            &&& at == readable(bytes_of(entries, ids))
        },
    }
}

/// Concatenate the mapped bytes for `ids` and interpret them as UTF-8.
///
/// An incomplete sequence at the **end** is dropped: the chunk was cut by token count and a
/// multi-byte character straddled the boundary, which is an artefact of chunking rather than a
/// fault. An invalid byte **anywhere else** is an error: it means the mapping is wrong, the ids
/// came from another tokenizer, or the data is corrupt, and rendering it would hand back
/// plausible-looking garbage.
pub fn to_text(ids: &[u32], map: &ByteMap) -> (r: Result<String, DetokError>)
    ensures
        match r {
            Ok(s) => {
                let bytes = bytes_of(map@, ids@);
                &&& all_mapped(map@, ids@)
                &&& is_readable(bytes, readable(bytes))
                &&& reads(bytes)
                &&& s@ == text_of(bytes)
            },
            Err(e) => detok_fails(map@, ids@, e),
        },
{
    let mut bytes: Vec<u8> = Vec::new();
    let mut i: usize = 0;
    assert(bytes@ =~= bytes_of(map@, ids@.take(0)));
    while i < ids.len()
        invariant
            i <= ids@.len(),
            all_mapped(map@, ids@.take(i as int)),
            bytes@ == bytes_of(map@, ids@.take(i as int)),
        decreases ids@.len() - i,
    {
        let id = ids[i];
        match map.get(id) {
            Some(b) => {
                bytes.extend_from_slice(b);
                proof {
                    let next = ids@.take(i + 1);
                    assert(next.drop_last() =~= ids@.take(i as int));
                    assert forall|j: int| 0 <= j < next.len() implies entry(
                        map@,
                        #[trigger] next[j],
                    ) is Some by {
                        if j < i {
                            assert(next[j] == ids@.take(i as int)[j]);
                        }
                    }
                    assert(bytes@ =~= bytes_of(map@, next));
                }
            },
            None => {
                return Err(DetokError::UnmappedId(id));
            },
        }
        i += 1;
    }
    assert(ids@.take(i as int) =~= ids@);
    match from_utf8(bytes.as_slice()) {
        Ok(s) => {
            proof {
                crate::utf8::lemma_all_readable(bytes@);
            }
            Ok(s.to_owned())
        },
        Err((valid_up_to, error_len)) => {
            proof {
                crate::utf8::lemma_readable_unique(bytes@, valid_up_to as int);
            }
            match error_len {
                // The input ended mid-character: the only failure a correctly mapped chunk
                // boundary can produce. Keep what is readable.
                None => {
                    let head = vstd::slice::slice_subrange(bytes.as_slice(), 0, valid_up_to);
                    assert(head@ =~= bytes@.take(valid_up_to as int));
                    match from_utf8(head) {
                        Ok(s) => Ok(s.to_owned()),
                        Err(_) => {
                            proof {
                                assert(head@.take(head@.len() as int) =~= head@);
                                assert(valid_utf8(head@.take(head@.len() as int)));
                            }
                            vstd::pervasive::unreached()
                        },
                    }
                },
                Some(_) => Err(DetokError::InvalidUtf8 { at: valid_up_to }),
            }
        },
    }
}

proof fn lemma_bytes_of_concat(entries: Seq<Seq<u8>>, a: Seq<u32>, b: Seq<u32>)
    ensures
        bytes_of(entries, a + b) == bytes_of(entries, a) + bytes_of(entries, b),
    decreases b.len(),
{
    if b.len() == 0 {
        assert(a + b =~= a);
        assert(bytes_of(entries, a) + bytes_of(entries, b) =~= bytes_of(entries, a));
    } else {
        lemma_bytes_of_concat(entries, a, b.drop_last());
        assert((a + b).drop_last() =~= a + b.drop_last());
        assert((a + b).last() == b.last());
        assert(bytes_of(entries, a + b) =~= bytes_of(entries, a) + bytes_of(entries, b));
    }
}

/// Cutting a text's ids by token count is no fault: the ids ahead of the cut read, and what they
/// read as is how the whole text begins.
pub proof fn lemma_chunk_reads(entries: Seq<Seq<u8>>, chunk: Seq<u32>, rest: Seq<u32>)
    requires
        valid_utf8(bytes_of(entries, chunk + rest)),
    ensures
        reads(bytes_of(entries, chunk)),
        text_of(bytes_of(entries, chunk)).is_prefix_of(text_of(bytes_of(entries, chunk + rest))),
{
    let whole = bytes_of(entries, chunk + rest);
    lemma_bytes_of_concat(entries, chunk, rest);
    crate::utf8::lemma_all_readable(whole);
    crate::utf8::lemma_cut_text_reads(bytes_of(entries, chunk), bytes_of(entries, rest));
}

/// Ids whose bytes are the bytes of a text read as that text, however its characters are spread
/// over the ids.
pub proof fn lemma_text_reads_back(entries: Seq<Seq<u8>>, ids: Seq<u32>, text: Seq<char>)
    requires
        bytes_of(entries, ids) == vstd::utf8::encode_utf8(text),
    ensures
        reads(bytes_of(entries, ids)),
        text_of(bytes_of(entries, ids)) == text,
{
    vstd::utf8::encode_utf8_valid_utf8(text);
    vstd::utf8::encode_utf8_decode_utf8(text);
    crate::utf8::lemma_all_readable(bytes_of(entries, ids));
}

/// No ids are the empty text.
pub proof fn lemma_no_ids_are_empty_text(entries: Seq<Seq<u8>>)
    ensures
        reads(bytes_of(entries, seq![])),
        text_of(bytes_of(entries, seq![])) == Seq::<char>::empty(),
{
    crate::utf8::lemma_all_readable(seq![]);
}

/// The bytes of ids are their entries, one after the other and in order.
pub proof fn lemma_bytes_are_flat(entries: Seq<Seq<u8>>, ids: Seq<u32>)
    ensures
        bytes_of(entries, ids) == ids.map_values(|id: u32| entries[id as int]).flatten(),
    decreases ids.len(),
{
    let f = |id: u32| entries[id as int];
    if ids.len() > 0 {
        let front = ids.drop_last();
        lemma_bytes_are_flat(entries, front);
        front.map_values(f).lemma_flatten_push(f(ids.last()));
        assert(ids.map_values(f) =~= front.map_values(f).push(f(ids.last())));
    } else {
        assert(ids.map_values(f) =~= seq![]);
    }
}

/// Ids are mapped exactly where each lies in the vocabulary and has bytes.
pub proof fn lemma_mapped_means_bytes(entries: Seq<Seq<u8>>, ids: Seq<u32>)
    ensures
        all_mapped(entries, ids) <==> forall|i: int|
            0 <= i < ids.len() ==> (#[trigger] ids[i]) < entries.len() && entries[ids[i] as int].len()
                != 0,
{
    if all_mapped(entries, ids) {
        assert forall|i: int| 0 <= i < ids.len() implies (#[trigger] ids[i]) < entries.len()
            && entries[ids[i] as int].len() != 0 by {
            assert(entry(entries, ids[i]) is Some);
        }
    }
}

/// Only the incomplete last character is dropped: where the bytes of ids are those of a text and
/// then some of a character's bytes but not all, what is read is that whole text.
pub proof fn lemma_cut_chunk_keeps_its_text(
    entries: Seq<Seq<u8>>,
    ids: Seq<u32>,
    text: Seq<char>,
    c: char,
    n: int,
)
    requires
        0 < n < vstd::utf8::encode_scalar(c as u32).len(),
        bytes_of(entries, ids) == vstd::utf8::encode_utf8(text) + vstd::utf8::encode_scalar(
            c as u32,
        ).take(n),
    ensures
        reads(bytes_of(entries, ids)),
        text_of(bytes_of(entries, ids)) == text,
{
    let rest = vstd::utf8::encode_scalar(c as u32).take(n);
    crate::utf8::lemma_cut_short_means(c, n);
    crate::utf8::lemma_reads_up_to(text, rest);
    vstd::utf8::encode_utf8_decode_utf8(text);
}

/// A byte that is wrong where it stands is never papered over: bytes of a text, then bytes that
/// neither begin with a whole character nor are the beginning of one, do not read, and the fault
/// is where the text ends.
pub proof fn lemma_wrong_bytes_do_not_read(
    entries: Seq<Seq<u8>>,
    ids: Seq<u32>,
    text: Seq<char>,
    wrong: Seq<u8>,
)
    requires
        wrong.len() > 0,
        !vstd::utf8::valid_first_scalar(wrong),
        forall|c: char|
            !(wrong.len() < (#[trigger] vstd::utf8::encode_scalar(c as u32)).len() && wrong
                == vstd::utf8::encode_scalar(c as u32).take(wrong.len() as int)),
        bytes_of(entries, ids) == vstd::utf8::encode_utf8(text) + wrong,
        all_mapped(entries, ids),
        bytes_of(entries, ids).len() <= usize::MAX,
    ensures
        !reads(bytes_of(entries, ids)),
        forall|e: DetokError| #[trigger]
            detok_fails(entries, ids, e) ==> e == (DetokError::InvalidUtf8 {
                at: vstd::utf8::encode_utf8(text).len() as usize,
            }),
        detok_fails(
            entries,
            ids,
            DetokError::InvalidUtf8 { at: vstd::utf8::encode_utf8(text).len() as usize },
        ),
{
    crate::utf8::lemma_reads_up_to(text, wrong);
    assert forall|e: DetokError| #[trigger] detok_fails(entries, ids, e) implies e == (
    DetokError::InvalidUtf8 { at: vstd::utf8::encode_utf8(text).len() as usize }) by {
        if e is UnmappedId {
            let i = choose|i: int|
                {
                    &&& 0 <= i < ids.len()
                    &&& all_mapped(entries, ids.take(i))
                    &&& entry(entries, #[trigger] ids[i]) is None
                    &&& e->UnmappedId_0 == ids[i]
                };
            assert(entry(entries, ids[i]) is Some);
        }
    }
}

/// An id without bytes is a fault, whatever the others read as, and the first such id is the one
/// that is named.
pub proof fn lemma_unmapped_id_is_named(
    entries: Seq<Seq<u8>>,
    ids: Seq<u32>,
    i: int,
    e: DetokError,
)
    requires
        0 <= i < ids.len(),
        ids[i] >= entries.len() || entries[ids[i] as int].len() == 0,
        forall|j: int|
            0 <= j < i ==> (#[trigger] ids[j]) < entries.len() && entries[ids[j] as int].len() != 0,
    ensures
        !all_mapped(entries, ids),
        detok_fails(entries, ids, e) <==> e == DetokError::UnmappedId(ids[i]),
{
    let upto = ids.take(i);
    lemma_mapped_means_bytes(entries, upto);
    lemma_mapped_means_bytes(entries, ids);
    assert forall|j: int| 0 <= j < upto.len() implies (#[trigger] upto[j]) < entries.len()
        && entries[upto[j] as int].len() != 0 by {
        assert(upto[j] == ids[j]);
    }
    assert(entry(entries, ids[i]) is None);
    if detok_fails(entries, ids, e) && e is UnmappedId {
        let k = choose|k: int|
            {
                &&& 0 <= k < ids.len()
                &&& all_mapped(entries, ids.take(k))
                &&& entry(entries, #[trigger] ids[k]) is None
                &&& e->UnmappedId_0 == ids[k]
            };
        if k < i {
            assert(ids[k] < entries.len());
        } else if k > i {
            assert(ids.take(k)[i] == ids[i]);
        }
    }
}

/// Two errors of a kind read alike but for the details they give.
pub proof fn lemma_wording_of_detok_error(a: DetokError, b: DetokError)
    ensures
        a is UnmappedId && b is UnmappedId ==> crate::text::same_wording(
            a.text(),
            crate::text::decimal(a->UnmappedId_0 as nat),
            b.text(),
            crate::text::decimal(b->UnmappedId_0 as nat),
        ),
        a is InvalidUtf8 && b is InvalidUtf8 ==> crate::text::same_wording(
            a.text(),
            crate::text::decimal(a->InvalidUtf8_at as nat),
            b.text(),
            crate::text::decimal(b->InvalidUtf8_at as nat),
        ),
{
    if a is UnmappedId && b is UnmappedId {
        assert(crate::text::worded(
            a.text(),
            "token id "@,
            crate::text::decimal(a->UnmappedId_0 as nat),
            " has no entry in the mapping"@,
        ));
        assert(crate::text::worded(
            b.text(),
            "token id "@,
            crate::text::decimal(b->UnmappedId_0 as nat),
            " has no entry in the mapping"@,
        ));
    }
    if a is InvalidUtf8 && b is InvalidUtf8 {
        assert(crate::text::worded(
            a.text(),
            "detokenized bytes are not valid UTF-8 at byte "@,
            crate::text::decimal(a->InvalidUtf8_at as nat),
            ", and not merely cut short"@,
        ));
        assert(crate::text::worded(
            b.text(),
            "detokenized bytes are not valid UTF-8 at byte "@,
            crate::text::decimal(b->InvalidUtf8_at as nat),
            ", and not merely cut short"@,
        ));
    }
}

} // verus!
