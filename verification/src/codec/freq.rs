//! `freq`: frequency-rank remap, then streamvbyte.
//!
//! The recommended codec. Common tokens become small integers that a varint packs in one byte,
//! and there is no general compressor in the path, so decoding is close to the cost of raw
//! packing. See [`crate::tables::RankTable`] for how unseen tokens stay lossless without anyone
//! declaring a vocabulary size.

use vstd::prelude::*;

use crate::codec::streamvbyte::{holds, numbers, read_stream, start, stream, write_stream};
use crate::tables::rank::{rank_in, token_in};
use crate::tables::{RankTable, TableError};
use crate::text::push_decimal;

verus! {

#[derive(Debug, Clone, Copy, PartialEq, Eq, Structural)]
pub enum FreqError {
    /// The id could not be remapped; see [`TableError::IdTooLarge`].
    Table(TableError),
    /// The varint stream did not consume the whole payload, so the payload and the declared token
    /// count disagree.
    TrailingBytes { consumed: usize, len: usize },
}

impl FreqError {
    /// The text of the error.
    pub open spec fn text(self) -> Seq<char> {
        match self {
            FreqError::Table(e) => e.text(),
            FreqError::TrailingBytes { consumed, len } => "streamvbyte consumed "@
                + crate::text::decimal(consumed as nat) + " of "@ + crate::text::decimal(
                len as nat,
            ) + " payload bytes; the token count and payload disagree"@,
        }
    }

    /// The text of the error.
    pub fn message(&self) -> (s: String)
        ensures
            s@ == self.text(),
    {
        match self {
            FreqError::Table(e) => e.message(),
            FreqError::TrailingBytes { consumed, len } => {
                let mut s = "streamvbyte consumed ".to_owned();
                push_decimal(&mut s, *consumed as u128);
                s.append(" of ");
                push_decimal(&mut s, *len as u128);
                s.append(" payload bytes; the token count and payload disagree");
                s
            },
        }
    }
}

impl From<TableError> for FreqError {
    fn from(e: TableError) -> (r: Self) {
        FreqError::Table(e)
    }
}

impl vstd::std_specs::convert::FromSpecImpl<TableError> for FreqError {
    open spec fn obeys_from_spec() -> bool {
        true
    }

    open spec fn from_spec(e: TableError) -> Self {
        FreqError::Table(e)
    }
}

/// Whether every id has a rank under a table of `tokens`.
pub open spec fn all_ranked(tokens: Seq<u32>, ids: Seq<u32>) -> bool {
    forall|i: int| 0 <= i < ids.len() ==> rank_in(tokens, #[trigger] ids[i]) is Some
}

/// The ranks of `ids` under a table of `tokens`.
pub open spec fn ranks_of(tokens: Seq<u32>, ids: Seq<u32>) -> Seq<u32> {
    Seq::new(ids.len(), |i: int| rank_in(tokens, ids[i])->0)
}

/// The tokens that `ranks` stand for under a table of `tokens`.
pub open spec fn tokens_of(tokens: Seq<u32>, ranks: Seq<u32>) -> Seq<u32> {
    Seq::new(ranks.len(), |i: int| token_in(tokens, ranks[i]))
}

/// The payload that holds `ids` under a table of `tokens`.
pub open spec fn freq_payload(tokens: Seq<u32>, ids: Seq<u32>) -> Seq<u8> {
    stream(ranks_of(tokens, ids))
}

/// The `n` ids that `payload` holds under a table of `tokens`.
pub open spec fn freq_ids(tokens: Seq<u32>, payload: Seq<u8>, n: nat) -> Seq<u32> {
    tokens_of(tokens, numbers(payload, n))
}

/// The error that remapping `ids` ends in: that of the first id without a rank.
pub open spec fn unranked(tokens: Seq<u32>, ids: Seq<u32>, e: TableError) -> bool {
    exists|i: int|
        {
            &&& 0 <= i < ids.len()
            &&& all_ranked(tokens, ids.take(i))
            &&& rank_in(tokens, #[trigger] ids[i]) is None
            &&& e == TableError::IdTooLarge { id: ids[i], k: crate::bytes::low32(tokens.len()) }
        }
}

/// Encode token ids as frequency ranks packed with streamvbyte.
pub fn encode_freq(ids: &[u32], table: &RankTable, out: &mut Vec<u8>) -> (r: Result<
    (),
    FreqError,
>)
    requires
        all_ranked(table@, ids@) ==> ids@.len() * 5 <= usize::MAX,
    ensures
        match r {
            Ok(_) => {
                &&& all_ranked(table@, ids@)
                &&& final(out)@ == old(out)@ + freq_payload(table@, ids@)
            },
            Err(e) => {
                &&& e matches FreqError::Table(t) && unranked(table@, ids@, t)
                &&& final(out)@ == old(out)@
            },
        },
{
    if ids.len() == 0 {
        assert(out@ =~= old(out)@ + freq_payload(table@, ids@));
        return Ok(());
    }
    let mut ranks: Vec<u32> = Vec::with_capacity(ids.len());
    let mut i: usize = 0;
    while i < ids.len()
        invariant
            i <= ids@.len(),
            all_ranked(table@, ids@.take(i as int)),
            ranks@ == ranks_of(table@, ids@.take(i as int)),
            out@ == old(out)@,
        decreases ids@.len() - i,
    {
        match table.rank(ids[i]) {
            Ok(r) => {
                ranks.push(r);
            },
            Err(e) => {
                assert(unranked(table@, ids@, e));
                return Err(FreqError::Table(e));
            },
        }
        proof {
            let next = ids@.take(i + 1);
            assert forall|j: int| 0 <= j < next.len() implies rank_in(
                table@,
                #[trigger] next[j],
            ) is Some by {
                if j < i {
                    assert(next[j] == ids@.take(i as int)[j]);
                }
            }
            assert(ranks@ =~= ranks_of(table@, next));
        }
        i += 1;
    }
    assert(ids@.take(i as int) =~= ids@);
    proof {
        crate::codec::streamvbyte::lemma_stream_len(ranks@);
    }
    // Room for the worst case: up to 4 data bytes per value plus one control byte per quad.
    let mut buf: Vec<u8> = vec![0u8; ranks.len() * 5];
    let written = write_stream(ranks.as_slice(), buf.as_mut_slice());
    out.extend_from_slice(vstd::slice::slice_subrange(buf.as_slice(), 0, written));
    assert(out@ =~= old(out)@ + freq_payload(table@, ids@));
    Ok(())
}

/// Decode a `freq` payload back to token ids.
pub fn decode_freq(payload: &[u8], n: usize, table: &RankTable) -> (r: Result<
    Vec<u32>,
    FreqError,
>)
    requires
        n > 0 ==> holds(payload@, n as nat),
    ensures
        match r {
            Ok(ids) => {
                &&& n > 0 ==> start(payload@, n as nat, n as nat) == payload@.len()
                &&& ids@ == freq_ids(table@, payload@, n as nat)
            },
            Err(e) => {
                &&& n > 0
                &&& start(payload@, n as nat, n as nat) != payload@.len()
                &&& e == FreqError::TrailingBytes {
                    consumed: start(payload@, n as nat, n as nat) as usize,
                    len: payload@.len() as usize,
                }
            },
        },
{
    let mut ids: Vec<u32> = Vec::with_capacity(n);
    if n == 0 {
        assert(ids@ =~= freq_ids(table@, payload@, 0));
        return Ok(ids);
    }
    let len: usize = payload.len();
    proof {
        crate::codec::streamvbyte::lemma_holds_len(payload@, n as nat);
    }
    // Room for at least four values, whatever the count.
    let room: usize = if n < 4 {
        4
    } else {
        n
    };
    let mut ranks: Vec<u32> = vec![0u32; room];
    let consumed = read_stream(payload, n, ranks.as_mut_slice());
    if consumed != len {
        return Err(FreqError::TrailingBytes { consumed, len });
    }
    let ghost read = numbers(payload@, n as nat);
    let mut i: usize = 0;
    while i < n
        invariant
            i <= n,
            read == numbers(payload@, n as nat),
            n <= ranks@.len(),
            forall|j: int| 0 <= j < n ==> #[trigger] ranks@[j] == read[j],
            ids@ == tokens_of(table@, read.take(i as int)),
        decreases n - i,
    {
        ids.push(table.token(ranks[i]));
        i += 1;
        assert(ids@ =~= tokens_of(table@, read.take(i as int)));
    }
    assert(read.take(n as int) =~= read);
    Ok(ids)
}

/// Decoding a `freq` payload gives the ids that were encoded, and the payload is one that decoding
/// accepts.
pub proof fn lemma_freq_roundtrip(tokens: Seq<u32>, ids: Seq<u32>)
    requires
        tokens.no_duplicates(),
        all_ranked(tokens, ids),
    ensures
        holds(freq_payload(tokens, ids), ids.len()),
        start(freq_payload(tokens, ids), ids.len(), ids.len()) == freq_payload(tokens, ids).len(),
        freq_ids(tokens, freq_payload(tokens, ids), ids.len()) == ids,
{
    let ranks = ranks_of(tokens, ids);
    crate::codec::streamvbyte::lemma_stream_roundtrip(ranks);
    assert forall|i: int| 0 <= i < ids.len() implies #[trigger] tokens_of(tokens, ranks)[i]
        == ids[i] by {
        assert(rank_in(tokens, ids[i]) is Some);
        crate::tables::rank::lemma_rank_roundtrip(tokens, ids[i]);
    }
    assert(tokens_of(tokens, ranks) =~= ids);
}

/// A payload has a byte for every id at least, so none is empty but that of no ids.
pub proof fn lemma_freq_payload_len(tokens: Seq<u32>, ids: Seq<u32>)
    ensures
        ids.len() <= freq_payload(tokens, ids).len() <= 5 * ids.len(),
{
    crate::codec::streamvbyte::lemma_stream_len(ranks_of(tokens, ids));
    crate::codec::streamvbyte::lemma_data_len(ranks_of(tokens, ids));
}

/// The point of the remap: the 256 most frequent tokens take one byte each, whatever their ids,
/// and a quarter of a control byte.
pub proof fn lemma_frequent_tokens_take_one_byte(tokens: Seq<u32>, ids: Seq<u32>)
    requires
        tokens.no_duplicates(),
        forall|i: int|
            0 <= i < ids.len() ==> tokens.contains(#[trigger] ids[i]) && tokens.index_of(ids[i])
                < 0x100,
    ensures
        all_ranked(tokens, ids),
        freq_payload(tokens, ids).len() == ids.len() + (ids.len() + 3) / 4,
{
    let ranks = ranks_of(tokens, ids);
    assert forall|i: int| 0 <= i < ranks.len() implies #[trigger] ranks[i] < 0x100 by {
        assert(tokens.contains(ids[i]));
        let at = tokens.index_of(ids[i]);
        assert(0 <= at < tokens.len() && tokens[at] == ids[i]);
    }
    crate::codec::streamvbyte::lemma_small_numbers(ranks);
}

/// No ranking refuses an ordinary id: whatever it was trained on, every id that its number of
/// ranked tokens can be added to is encoded, seen or unseen, and a run of such ids is.
pub proof fn lemma_small_ids_encode(tokens: Seq<u32>, ids: Seq<u32>)
    requires
        tokens.no_duplicates(),
        forall|i: int| 0 <= i < ids.len() ==> (#[trigger] ids[i]) + tokens.len() <= u32::MAX,
    ensures
        all_ranked(tokens, ids),
        forall|e: TableError| !unranked(tokens, ids, e),
{
    assert forall|i: int| 0 <= i < ids.len() implies rank_in(
        tokens,
        #[trigger] ids[i],
    ) is Some by {
        crate::tables::rank::lemma_every_small_id_has_a_rank(tokens, ids[i]);
    }
}

/// What is packed for each id: the place of a ranked token, and for any other the number of ranked
/// tokens more than its id.
pub proof fn lemma_packed_ranks(tokens: Seq<u32>, ids: Seq<u32>, i: int)
    requires
        tokens.no_duplicates(),
        all_ranked(tokens, ids),
        0 <= i < ids.len(),
    ensures
        freq_payload(tokens, ids) == stream(ranks_of(tokens, ids)),
        ranks_of(tokens, ids).len() == ids.len(),
        tokens.contains(ids[i]) ==> ranks_of(tokens, ids)[i] < tokens.len() && tokens[ranks_of(
            tokens,
            ids,
        )[i] as int] == ids[i],
        !tokens.contains(ids[i]) ==> ranks_of(tokens, ids)[i] == ids[i] + tokens.len(),
{
    assert(rank_in(tokens, ids[i]) is Some);
    crate::tables::rank::lemma_every_small_id_has_a_rank(tokens, ids[i]);
}

/// What each packed number is read as: the ranked token at that place, or what is left when the
/// number of ranked tokens is taken away.
pub proof fn lemma_read_ranks(tokens: Seq<u32>, payload: Seq<u8>, n: nat, i: int)
    requires
        0 <= i < n,
    ensures
        freq_ids(tokens, payload, n).len() == n,
        numbers(payload, n)[i] < tokens.len() ==> freq_ids(tokens, payload, n)[i]
            == tokens[numbers(payload, n)[i] as int],
        numbers(payload, n)[i] >= tokens.len() ==> freq_ids(tokens, payload, n)[i] + tokens.len()
            == numbers(payload, n)[i],
{
    crate::tables::rank::lemma_every_rank_has_a_token(tokens, numbers(payload, n)[i]);
}

/// An id is refused only where the number of ranked tokens carries it past the last 32-bit number,
/// and the first such id is the one that is named.
pub proof fn lemma_refused_id(tokens: Seq<u32>, ids: Seq<u32>, i: int, e: TableError)
    requires
        tokens.no_duplicates(),
        0 <= i < ids.len(),
        all_ranked(tokens, ids.take(i)),
        !tokens.contains(ids[i]),
        ids[i] + tokens.len() > u32::MAX,
    ensures
        !all_ranked(tokens, ids),
        unranked(tokens, ids, e) <==> e == (TableError::IdTooLarge {
            id: ids[i],
            k: crate::bytes::low32(tokens.len()),
        }),
{
    crate::tables::rank::lemma_every_small_id_has_a_rank(tokens, ids[i]);
    if unranked(tokens, ids, e) {
        let j = choose|j: int|
            {
                &&& 0 <= j < ids.len()
                &&& all_ranked(tokens, ids.take(j))
                &&& rank_in(tokens, #[trigger] ids[j]) is None
                &&& e == TableError::IdTooLarge {
                    id: ids[j],
                    k: crate::bytes::low32(tokens.len()),
                }
            };
        if j < i {
            assert(ids.take(i)[j] == ids[j]);
        } else if i < j {
            assert(ids.take(j)[i] == ids[i]);
        }
    }
}

/// Two errors of a kind read alike but for the details they give, and one that passes another on
/// reads as that does.
pub proof fn lemma_wording_of_freq_error(a: FreqError, b: FreqError)
    ensures
        a is TrailingBytes && b is TrailingBytes ==> crate::text::same_wording_twice(
            a.text(),
            (
                crate::text::decimal(a->TrailingBytes_consumed as nat),
                crate::text::decimal(a->TrailingBytes_len as nat),
            ),
            b.text(),
            (
                crate::text::decimal(b->TrailingBytes_consumed as nat),
                crate::text::decimal(b->TrailingBytes_len as nat),
            ),
        ),
        a is Table ==> a.text() == a->Table_0.text(),
{
    if a is TrailingBytes && b is TrailingBytes {
        assert(crate::text::worded_twice(
            a.text(),
            "streamvbyte consumed "@,
            (
                crate::text::decimal(a->TrailingBytes_consumed as nat),
                crate::text::decimal(a->TrailingBytes_len as nat),
            ),
            " of "@,
            " payload bytes; the token count and payload disagree"@,
        ));
        assert(crate::text::worded_twice(
            b.text(),
            "streamvbyte consumed "@,
            (
                crate::text::decimal(b->TrailingBytes_consumed as nat),
                crate::text::decimal(b->TrailingBytes_len as nat),
            ),
            " of "@,
            " payload bytes; the token count and payload disagree"@,
        ));
    }
}

} // verus!
