//! The frequency-rank table behind the `freq` codec.
//!
//! BPE numbers its vocabulary in merge-discovery order, so a common token can sit at id 40,000
//! while a rare one sits at 400. Remapping each id to its descending-frequency rank puts common
//! tokens on small integers, which is what a varint codec rewards.
//!
//! The table is **sparse**: it holds only the tokens seen during training, in frequency order.
//! Anything else maps to `k + id`, and decodes back by subtracting `k`. That single decision
//! keeps the codec free of any vocabulary size.
//!
//! ```text
//! encode:  r = rank_of(t)        if t was seen in training
//!          r = k + t             otherwise
//! decode:  t = token_of_rank[r]  if r < k
//!          t = r - k             otherwise
//! ```
//!
//! Lossless for every id, because ranks below `k` are only ever produced for in-table tokens and
//! ranks at or above `k` only for out-of-table ones.
//!
//! The artefact's count is `k`, and its contents are the tokens in rank order, four bytes each.
//! The inverse is rebuilt on load rather than stored, which halves the file.

use std::collections::HashMap;

use vstd::prelude::*;

use crate::bytes::{low32, low_usize, to_low32, to_low_usize};
use crate::tables::{
    envelope, envelope_fault, push_envelope, push_words, read_envelope, read_words, stated_count,
    stored_words, words_bytes, TableError, KIND_RANK, TABLE_HEADER_LEN,
};

verus! {

broadcast use vstd::std_specs::hash::group_hash_axioms;

/// How often `t` occurs in `ids`.
pub open spec fn occurrences(ids: Seq<u32>, t: u32) -> nat
    decreases ids.len(),
{
    if ids.len() == 0 {
        0
    } else {
        occurrences(ids.drop_last(), t) + if ids.last() == t {
            1nat
        } else {
            0
        }
    }
}

/// Whether `a` ranks ahead of `b`: it occurs more often, or as often under a smaller id.
pub open spec fn outranks(ids: Seq<u32>, a: u32, b: u32) -> bool {
    ||| occurrences(ids, a) > occurrences(ids, b)
    ||| occurrences(ids, a) == occurrences(ids, b) && a < b
}

/// Whether `tokens` are the tokens of `ids`, each once, those that rank ahead first.
pub open spec fn ranks_all(ids: Seq<u32>, tokens: Seq<u32>) -> bool {
    &&& forall|t: u32| #[trigger] tokens.contains(t) <==> ids.contains(t)
    &&& forall|i: int, j: int|
        0 <= i < j < tokens.len() ==> outranks(ids, #[trigger] tokens[i], #[trigger] tokens[j])
}

/// The tokens of `ids` in rank order.
pub open spec fn ranking(ids: Seq<u32>) -> Seq<u32> {
    choose|tokens: Seq<u32>| ranks_all(ids, tokens)
}

/// The first `cap` tokens, or all of them.
pub open spec fn capped(tokens: Seq<u32>, cap: Option<usize>) -> Seq<u32> {
    match cap {
        Some(n) if n < tokens.len() => tokens.take(n as int),
        _ => tokens,
    }
}

/// The integer that stands for `token` under a table of `tokens`, if there is one.
pub open spec fn rank_in(tokens: Seq<u32>, token: u32) -> Option<u32> {
    if tokens.contains(token) {
        Some(tokens.index_of(token) as u32)
    } else if token + tokens.len() <= u32::MAX {
        Some((token + tokens.len()) as u32)
    } else {
        None
    }
}

/// The token that `rank` stands for under a table of `tokens`.
pub open spec fn token_in(tokens: Seq<u32>, rank: u32) -> u32 {
    if rank < tokens.len() {
        tokens[rank as int]
    } else {
        (rank - tokens.len()) as u32
    }
}

/// The bytes of the artefact that holds `tokens`.
pub open spec fn rank_bytes(tokens: Seq<u32>) -> Seq<u8> {
    envelope(KIND_RANK, low32(tokens.len())) + words_bytes(tokens)
}

/// The first word that repeats an earlier one.
pub open spec fn first_repeat(words: Seq<u32>) -> Option<u32>
    decreases words.len(),
{
    if words.len() == 0 {
        None
    } else {
        match first_repeat(words.drop_last()) {
            Some(t) => Some(t),
            None => if words.drop_last().contains(words.last()) {
                Some(words.last())
            } else {
                None
            },
        }
    }
}

/// The first thing wrong with `buf` as the artefact of a ranking, if anything is.
pub open spec fn rank_fault(buf: Seq<u8>) -> Option<TableError> {
    if envelope_fault(buf, KIND_RANK) is Some {
        envelope_fault(buf, KIND_RANK)
    } else {
        let k = stated_count(buf);
        let got = (buf.len() - TABLE_HEADER_LEN) as nat;
        if got != k * 4 {
            Some(TableError::PayloadLen { want: low_usize((k * 4) as nat), got: got as usize })
        } else {
            match first_repeat(stored_words(buf, TABLE_HEADER_LEN as int, k as nat)) {
                Some(t) => Some(TableError::DuplicateToken(t)),
                None => None,
            }
        }
    }
}

/// A token and how often it occurs.
type Tally = (u32, u64);

spec fn tally_before(a: Tally, b: Tally) -> bool {
    a.1 > b.1 || (a.1 == b.1 && a.0 < b.0)
}

spec fn in_order(s: Seq<Tally>) -> bool {
    forall|i: int, j: int| 0 <= i < j < s.len() ==> tally_before(#[trigger] s[i], #[trigger] s[j])
}

/// Merge two ordered runs that share no entry.
fn merge(a: &Vec<Tally>, b: &Vec<Tally>) -> (out: Vec<Tally>)
    requires
        in_order(a@),
        in_order(b@),
        forall|i: int, j: int|
            0 <= i < a@.len() && 0 <= j < b@.len() ==> #[trigger] a@[i] != #[trigger] b@[j],
    ensures
        in_order(out@),
        forall|x: Tally| #[trigger] out@.contains(x) <==> a@.contains(x) || b@.contains(x),
{
    let mut out: Vec<Tally> = Vec::new();
    let mut i: usize = 0;
    let mut j: usize = 0;
    while i < a.len() || j < b.len()
        invariant
            i <= a@.len(),
            j <= b@.len(),
            in_order(a@),
            in_order(b@),
            forall|i: int, j: int|
                0 <= i < a@.len() && 0 <= j < b@.len() ==> #[trigger] a@[i] != #[trigger] b@[j],
            in_order(out@),
            forall|p: int, q: int|
                0 <= p < out@.len() && i <= q < a@.len() ==> tally_before(
                    #[trigger] out@[p],
                    #[trigger] a@[q],
                ),
            forall|p: int, q: int|
                0 <= p < out@.len() && j <= q < b@.len() ==> tally_before(
                    #[trigger] out@[p],
                    #[trigger] b@[q],
                ),
            forall|q: int| 0 <= q < i ==> out@.contains(#[trigger] a@[q]),
            forall|q: int| 0 <= q < j ==> out@.contains(#[trigger] b@[q]),
            forall|p: int|
                0 <= p < out@.len() ==> a@.contains(#[trigger] out@[p]) || b@.contains(out@[p]),
        decreases a@.len() - i + b@.len() - j,
    {
        let from_a = if i == a.len() {
            false
        } else if j == b.len() {
            true
        } else {
            let x = a[i];
            let y = b[j];
            x.1 > y.1 || (x.1 == y.1 && x.0 < y.0)
        };
        let ghost before = out@;
        if from_a {
            out.push(a[i]);
            i += 1;
        } else {
            out.push(b[j]);
            j += 1;
        }
        proof {
            assert(out@.last() == out@[before.len() as int]);
            assert forall|x: Tally| before.contains(x) implies out@.contains(x) by {
                let p = choose|p: int| 0 <= p < before.len() && before[p] == x;
                assert(out@[p] == x);
            }
        }
    }
    assert forall|x: Tally| #[trigger] out@.contains(x) <==> a@.contains(x) || b@.contains(x) by {}
    out
}

/// The entries from `lo` to `hi` in order.
fn ordered(v: &Vec<Tally>, lo: usize, hi: usize) -> (out: Vec<Tally>)
    requires
        lo <= hi <= v@.len(),
        v@.no_duplicates(),
    ensures
        in_order(out@),
        forall|x: Tally|
            #[trigger] out@.contains(x) <==> v@.subrange(lo as int, hi as int).contains(x),
    decreases hi - lo,
{
    let part = Ghost(v@.subrange(lo as int, hi as int));
    if hi - lo <= 1 {
        let mut out: Vec<Tally> = Vec::new();
        if lo < hi {
            out.push(v[lo]);
        }
        assert(out@ =~= part@);
        return out;
    }
    let mid: usize = lo + (hi - lo) / 2;
    let a = ordered(v, lo, mid);
    let b = ordered(v, mid, hi);
    let ghost left = v@.subrange(lo as int, mid as int);
    let ghost right = v@.subrange(mid as int, hi as int);
    proof {
        assert(part@ =~= left + right);
        assert forall|i: int, j: int| 0 <= i < a@.len() && 0 <= j < b@.len() implies #[trigger] a@[i]
            != #[trigger] b@[j] by {
            assert(a@.contains(a@[i]) && b@.contains(b@[j]));
            let p = choose|p: int| 0 <= p < left.len() && left[p] == a@[i];
            let q = choose|q: int| 0 <= q < right.len() && right[q] == b@[j];
            assert(v@[lo + p] == a@[i] && v@[mid + q] == b@[j]);
        }
    }
    let out = merge(&a, &b);
    proof {
        assert forall|x: Tally| #[trigger] out@.contains(x) <==> part@.contains(x) by {
            vstd::seq_lib::lemma_seq_concat_contains_all_elements(left, right, x);
        }
    }
    out
}

/// How often each token occurs, in order of first occurrence.
fn tally(ids: &[u32]) -> (v: Vec<Tally>)
    ensures
        v@.no_duplicates(),
        forall|t: u32| #[trigger]
            ids@.contains(t) ==> exists|p: int| 0 <= p < v@.len() && (#[trigger] v@[p]).0 == t,
        forall|p: int|
            0 <= p < v@.len() ==> ids@.contains((#[trigger] v@[p]).0) && v@[p].1 == occurrences(
                ids@,
                v@[p].0,
            ),
{
    let mut v: Vec<Tally> = Vec::new();
    let mut place: HashMap<u32, usize> = HashMap::new();
    let mut i: usize = 0;
    while i < ids.len()
        invariant
            i <= ids@.len(),
            forall|q: int| 0 <= q < i ==> place@.contains_key(#[trigger] ids@[q]),
            forall|t: u32| #[trigger]
                place@.contains_key(t) ==> place@[t] < v@.len() && v@[place@[t] as int].0 == t,
            forall|p: int|
                0 <= p < v@.len() ==> {
                    &&& place@.contains_key((#[trigger] v@[p]).0)
                    &&& place@[v@[p].0] == p
                    &&& ids@.contains(v@[p].0)
                    &&& v@[p].1 == occurrences(ids@.take(i as int), v@[p].0)
                    &&& v@[p].1 <= i
                },
            forall|t: u32|
                !place@.contains_key(t) ==> #[trigger] occurrences(ids@.take(i as int), t) == 0,
        decreases ids@.len() - i,
    {
        let id = ids[i];
        let ghost before = v@;
        let ghost known = place@;
        proof {
            let next = ids@.take(i + 1);
            assert(next.drop_last() =~= ids@.take(i as int));
            assert(next.last() == id);
            assert forall|t: u32| #[trigger] occurrences(next, t) == occurrences(
                ids@.take(i as int),
                t,
            ) + if id == t {
                1nat
            } else {
                0
            } by {}
            assert(ids@.contains(ids@[i as int]));
        }
        match place.get(&id) {
            Some(at) => {
                let p: usize = *at;
                let n: u64 = v[p].1;
                v.set(p, (id, n + 1));
            },
            None => {
                place.insert(id, v.len());
                v.push((id, 1));
            },
        }
        i += 1;
    }
    assert(ids@.take(i as int) =~= ids@);
    proof {
        assert forall|a: int, b: int| 0 <= a < v@.len() && 0 <= b < v@.len() && a != b implies v@[a]
            != v@[b] by {
            assert(place@[v@[a].0] == a && place@[v@[b].0] == b);
        }
        assert forall|t: u32| #[trigger] ids@.contains(t) implies exists|p: int|
            0 <= p < v@.len() && (#[trigger] v@[p]).0 == t by {
            let q = choose|q: int| 0 <= q < ids@.len() && ids@[q] == t;
            assert(place@.contains_key(ids@[q]));
            assert(v@[place@[t] as int].0 == t);
        }
    }
    v
}


/// A ranking of tokens: rank to token, most frequent first, and its inverse.
#[derive(Debug, PartialEq, Eq)]
pub struct RankTable {
    token_of_rank: Vec<u32>,
    rank_of: HashMap<u32, u32>,
}

impl View for RankTable {
    type V = Seq<u32>;

    /// The ranked tokens, most frequent first.
    closed spec fn view(&self) -> Seq<u32> {
        self.token_of_rank@
    }
}

impl Clone for RankTable {
    fn clone(&self) -> (t: Self)
        ensures
            t@ == self@,
    {
        proof {
            use_type_invariant(self);
        }
        let tokens = self.token_of_rank.clone();
        assert(tokens@ =~= self@);
        Self::from_ranked(tokens)
    }
}

impl RankTable {
    #[verifier::type_invariant]
    spec fn wf(self) -> bool {
        &&& self.token_of_rank@.no_duplicates()
        &&& forall|t: u32| #[trigger]
            self.rank_of@.contains_key(t) ==> self.rank_of@[t] < self.token_of_rank@.len()
                && self.token_of_rank@[self.rank_of@[t] as int] == t
        &&& forall|r: int|
            0 <= r < self.token_of_rank@.len() ==> self.rank_of@.contains_key(
                #[trigger] self.token_of_rank@[r],
            )
    }

    /// Train on a corpus of token ids.
    ///
    /// Ranks every token that appears, descending by count, breaking ties by ascending token id
    /// so the result is reproducible. `max_ranks` caps the table size; tokens beyond the cap take
    /// the `k + id` fallback.
    pub fn train(ids: &[u32], max_ranks: Option<usize>) -> (r: Result<Self, TableError>)
        ensures
            match r {
                Ok(t) => {
                    &&& ids@.len() > 0
                    &&& ranks_all(ids@, ranking(ids@))
                    &&& t@ == capped(ranking(ids@), max_ranks)
                    &&& t@.no_duplicates()
                },
                Err(e) => ids@.len() == 0 && e == TableError::Empty,
            },
    {
        if ids.len() == 0 {
            return Err(TableError::Empty);
        }
        let counted = tally(ids);
        assert(counted@.subrange(0, counted@.len() as int) =~= counted@);
        let sorted = ordered(&counted, 0, counted.len());
        let mut tokens: Vec<u32> = Vec::with_capacity(sorted.len());
        let mut i: usize = 0;
        while i < sorted.len()
            invariant
                i <= sorted@.len(),
                tokens@ == Seq::new(i as nat, |r: int| sorted@[r].0),
            decreases sorted@.len() - i,
        {
            tokens.push(sorted[i].0);
            i += 1;
            assert(tokens@ =~= Seq::new(i as nat, |r: int| sorted@[r].0));
        }
        proof {
            assert forall|r: int| 0 <= r < tokens@.len() implies ids@.contains(
                #[trigger] tokens@[r],
            ) && sorted@[r].1 == occurrences(ids@, tokens@[r]) by {
                assert(sorted@.contains(sorted@[r]));
                assert(counted@.contains(sorted@[r]));
            }
            assert forall|t: u32| #[trigger] tokens@.contains(t) <==> ids@.contains(t) by {
                if ids@.contains(t) {
                    let p = choose|p: int| 0 <= p < counted@.len() && (#[trigger] counted@[p]).0 == t;
                    assert(counted@.contains(counted@[p]));
                    assert(sorted@.contains(counted@[p]));
                    let q = choose|q: int| 0 <= q < sorted@.len() && sorted@[q] == counted@[p];
                    assert(tokens@[q] == t);
                }
            }
            assert(ranks_all(ids@, tokens@));
            lemma_ranking_unique(ids@, tokens@, ranking(ids@));
            lemma_ranks_no_duplicates(ids@, tokens@);
        }
        match max_ranks {
            Some(cap) => {
                if cap < tokens.len() {
                    tokens.truncate(cap);
                }
            },
            None => {},
        }
        assert(tokens@ =~= capped(ranking(ids@), max_ranks));
        Ok(Self::from_ranked(tokens))
    }

    fn from_ranked(token_of_rank: Vec<u32>) -> (t: Self)
        requires
            token_of_rank@.no_duplicates(),
        ensures
            t@ == token_of_rank@,
    {
        proof {
            lemma_distinct_bound(token_of_rank@);
        }
        let mut rank_of: HashMap<u32, u32> = HashMap::new();
        let mut r: usize = 0;
        while r < token_of_rank.len()
            invariant
                r <= token_of_rank@.len(),
                token_of_rank@.len() <= 0x1_0000_0000,
                forall|t: u32| #[trigger]
                    rank_of@.contains_key(t) ==> rank_of@[t] < r && token_of_rank@[rank_of@[t] as int]
                        == t,
                forall|q: int|
                    0 <= q < r ==> rank_of@.contains_key(#[trigger] token_of_rank@[q]),
            decreases token_of_rank@.len() - r,
        {
            rank_of.insert(token_of_rank[r], r as u32);
            r += 1;
        }
        RankTable { token_of_rank, rank_of }
    }

    /// Number of ranked tokens, and the offset applied to unranked ids.
    pub fn k(&self) -> (k: u32)
        ensures
            k == low32(self@.len()),
            self@.len() <= 0x1_0000_0000,
            self@.no_duplicates(),
    {
        proof {
            use_type_invariant(self);
            lemma_distinct_bound(self@);
        }
        to_low32(self.token_of_rank.len() as u64)
    }

    /// Map a token id to the integer that actually gets packed.
    pub fn rank(&self, token: u32) -> (r: Result<u32, TableError>)
        ensures
            self@.no_duplicates(),
            match r {
                Ok(rank) => rank_in(self@, token) == Some(rank),
                Err(e) => rank_in(self@, token) is None && e == (TableError::IdTooLarge {
                    id: token,
                    k: low32(self@.len()),
                }),
            },
    {
        proof {
            use_type_invariant(self);
            lemma_distinct_bound(self@);
        }
        match self.rank_of.get(&token) {
            Some(r) => {
                assert(self@[*r as int] == token);
                return Ok(*r);
            },
            None => {},
        }
        let k = self.k();
        proof {
            assert(!self@.contains(token));
            lemma_distinct_bound(self@.push(token));
        }
        match token.checked_add(k) {
            Some(r) => Ok(r),
            None => Err(TableError::IdTooLarge { id: token, k }),
        }
    }

    /// Inverse of [`RankTable::rank`].
    pub fn token(&self, rank: u32) -> (t: u32)
        ensures
            t == token_in(self@, rank),
            self@.no_duplicates(),
    {
        proof {
            use_type_invariant(self);
        }
        if (rank as u64) < self.token_of_rank.len() as u64 {
            self.token_of_rank[rank as usize]
        } else {
            rank - self.k()
        }
    }

    /// The table as a file.
    pub fn to_bytes(&self) -> (out: Vec<u8>)
        ensures
            out@ == rank_bytes(self@),
            self@.no_duplicates(),
    {
        proof {
            use_type_invariant(self);
        }
        let mut out: Vec<u8> = Vec::new();
        push_envelope(&mut out, KIND_RANK, self.k());
        push_words(&mut out, &self.token_of_rank);
        assert(out@ =~= rank_bytes(self@));
        out
    }

    /// Read a table from a file's bytes.
    pub fn from_bytes(buf: &[u8]) -> (r: Result<Self, TableError>)
        ensures
            match r {
                Ok(t) => {
                    &&& rank_fault(buf@) is None
                    &&& rank_bytes(t@) == buf@
                    &&& t@.len() == stated_count(buf@)
                    &&& t@.no_duplicates()
                },
                Err(e) => rank_fault(buf@) == Some(e),
            },
    {
        let k: u32 = match read_envelope(buf, KIND_RANK) {
            Ok(k) => k,
            Err(e) => {
                return Err(e);
            },
        };
        let got: usize = buf.len() - TABLE_HEADER_LEN;
        let want: u64 = k as u64 * 4;
        if got as u64 != want {
            return Err(
                TableError::PayloadLen { want: to_low_usize(want), got },
            );
        }
        let token_of_rank = read_words(buf, TABLE_HEADER_LEN, k as usize);

        // A duplicate would make two ranks decode to the same token and silently corrupt the
        // inverse mapping, so verify rather than trust the file.
        let mut rank_of: HashMap<u32, u32> = HashMap::new();
        let mut r: usize = 0;
        assert(token_of_rank@.take(0) =~= seq![]);
        while r < token_of_rank.len()
            invariant
                r <= token_of_rank@.len() <= u32::MAX,
                first_repeat(token_of_rank@.take(r as int)) is None,
                forall|t: u32| #[trigger]
                    rank_of@.contains_key(t) ==> rank_of@[t] < r && token_of_rank@[rank_of@[t] as int]
                        == t,
                forall|q: int|
                    0 <= q < r ==> rank_of@.contains_key(#[trigger] token_of_rank@[q]),
                rank_fault(buf@) == match first_repeat(token_of_rank@) {
                    Some(t) => Some(TableError::DuplicateToken(t)),
                    None => None,
                },
            decreases token_of_rank@.len() - r,
        {
            let t = token_of_rank[r];
            let ghost next = token_of_rank@.take(r + 1);
            proof {
                assert(next.drop_last() =~= token_of_rank@.take(r as int));
                assert(next.last() == t);
            }
            if rank_of.insert(t, r as u32).is_some() {
                proof {
                    assert(exists|q: int| 0 <= q < r && token_of_rank@[q] == t);
                    let q = choose|q: int| 0 <= q < r && token_of_rank@[q] == t;
                    assert(token_of_rank@.take(r as int)[q] == t);
                    lemma_first_repeat_extends(token_of_rank@, r + 1);
                }
                return Err(TableError::DuplicateToken(t));
            }
            assert(!token_of_rank@.take(r as int).contains(t)) by {
                if token_of_rank@.take(r as int).contains(t) {
                    let q = choose|q: int| 0 <= q < r && token_of_rank@.take(r as int)[q] == t;
                    assert(token_of_rank@[q] == t);
                }
            }
            r += 1;
        }
        proof {
            assert(token_of_rank@.take(r as int) =~= token_of_rank@);
            lemma_first_repeat(token_of_rank@);
            crate::tables::lemma_words_rebuilt(buf@, TABLE_HEADER_LEN as int, k as nat);
            assert(rank_bytes(token_of_rank@) =~= buf@);
        }
        Ok(RankTable { token_of_rank, rank_of })
    }
}

proof fn lemma_ranks_no_duplicates(ids: Seq<u32>, tokens: Seq<u32>)
    requires
        ranks_all(ids, tokens),
    ensures
        tokens.no_duplicates(),
{
    assert forall|i: int, j: int|
        0 <= i < tokens.len() && 0 <= j < tokens.len() && i != j implies tokens[i] != tokens[j] by {
        if i < j {
            assert(outranks(ids, tokens[i], tokens[j]));
        } else {
            assert(outranks(ids, tokens[j], tokens[i]));
        }
    }
}

/// Training is reproducible: the tokens of a corpus can be put in rank order in one way only.
pub proof fn lemma_ranking_unique(ids: Seq<u32>, a: Seq<u32>, b: Seq<u32>)
    requires
        ranks_all(ids, a),
        ranks_all(ids, b),
    ensures
        a == b,
{
    lemma_same_prefix(ids, a, b, a.len());
    lemma_same_prefix(ids, b, a, b.len());
    assert(a =~= b);
}

proof fn lemma_same_prefix(ids: Seq<u32>, a: Seq<u32>, b: Seq<u32>, n: nat)
    requires
        ranks_all(ids, a),
        ranks_all(ids, b),
        n <= a.len(),
    ensures
        n <= b.len(),
        forall|i: int| 0 <= i < n ==> a[i] == b[i],
    decreases n,
{
    if n > 0 {
        let m = n - 1;
        lemma_same_prefix(ids, a, b, m as nat);
        lemma_ranks_no_duplicates(ids, a);
        lemma_ranks_no_duplicates(ids, b);
        assert(a.contains(a[m]));
        assert(b.contains(a[m]));
        let j = choose|j: int| 0 <= j < b.len() && b[j] == a[m];
        if j < m {
            assert(a[j] == b[j]);
        } else if j > m {
            assert(b.contains(b[m]));
            assert(a.contains(b[m]));
            let i = choose|i: int| 0 <= i < a.len() && a[i] == b[m];
            assert(outranks(ids, b[m], b[j]));
            if i < m {
                assert(a[i] == b[i]);
            } else if i > m {
                assert(outranks(ids, a[m], a[i]));
            }
        }
    }
}

/// Common tokens sit on small integers: of two tokens of a corpus, the one that ranks ahead has
/// the smaller rank under every cap, and is ranked wherever the other is.
pub proof fn lemma_frequent_tokens_first(
    ids: Seq<u32>,
    cap: Option<usize>,
    a: u32,
    b: u32,
)
    requires
        ranks_all(ids, ranking(ids)),
        ids.contains(a),
        outranks(ids, a, b),
        capped(ranking(ids), cap).contains(b),
    ensures
        capped(ranking(ids), cap).contains(a),
        capped(ranking(ids), cap).index_of(a) < capped(ranking(ids), cap).index_of(b),
{
    let all = ranking(ids);
    let kept = capped(all, cap);
    assert(all.contains(a));
    let i = choose|i: int| 0 <= i < all.len() && all[i] == a;
    let j = kept.index_of(b);
    assert(0 <= j < kept.len() && kept[j] == b);
    assert(all[j] == b);
    if i > j {
        assert(outranks(ids, all[j], all[i]));
    }
    assert(i < j);
    assert(kept[i] == a);
    lemma_ranks_no_duplicates(ids, all);
    let at = kept.index_of(a);
    assert(0 <= at < kept.len() && kept[at] == a);
    assert(all[at] == all[i]);
}

/// There are no more than 2^32 distinct tokens.
proof fn lemma_distinct_bound(tokens: Seq<u32>)
    requires
        tokens.no_duplicates(),
    ensures
        tokens.len() <= 0x1_0000_0000,
{
    let ints = Seq::new(tokens.len(), |i: int| tokens[i] as int);
    assert(ints.no_duplicates());
    ints.unique_seq_to_set();
    vstd::set_lib::lemma_int_range(0, 0x1_0000_0000);
    assert(ints.to_set().subset_of(vstd::set_lib::set_int_range(0, 0x1_0000_0000)));
    vstd::set_lib::lemma_len_subset(
        ints.to_set(),
        vstd::set_lib::set_int_range(0, 0x1_0000_0000),
    );
}

/// No word is found to repeat exactly where the words are distinct.
pub proof fn lemma_first_repeat(words: Seq<u32>)
    ensures
        first_repeat(words) is None <==> words.no_duplicates(),
    decreases words.len(),
{
    if words.len() > 0 {
        let front = words.drop_last();
        lemma_first_repeat(front);
        if words.no_duplicates() {
            assert(front.no_duplicates());
            if front.contains(words.last()) {
                let i = choose|i: int| 0 <= i < front.len() && front[i] == words.last();
                assert(words[i] == words[words.len() - 1]);
            }
        } else if front.no_duplicates() {
            let (i, j) = choose|i: int, j: int|
                0 <= i < words.len() && 0 <= j < words.len() && i != j && words[i] == words[j];
            if i < front.len() && j < front.len() {
                assert(front[i] == front[j]);
            } else if i < front.len() {
                assert(front[i] == words.last());
            } else {
                assert(front[j] == words.last());
            }
        }
    }
}

proof fn lemma_first_repeat_extends(words: Seq<u32>, n: int)
    requires
        0 <= n <= words.len(),
        first_repeat(words.take(n)) is Some,
    ensures
        first_repeat(words) == first_repeat(words.take(n)),
    decreases words.len(),
{
    if n == words.len() {
        assert(words.take(n) =~= words);
    } else {
        assert(words.drop_last().take(n) =~= words.take(n));
        lemma_first_repeat_extends(words.drop_last(), n);
    }
}

/// Ranks are lossless for every token that has one, and the ranges never collide: a rank below
/// `k` comes from a ranked token, one at or above `k` from an unranked one.
pub proof fn lemma_rank_roundtrip(tokens: Seq<u32>, token: u32)
    requires
        tokens.no_duplicates(),
        rank_in(tokens, token) is Some,
    ensures
        token_in(tokens, rank_in(tokens, token)->0) == token,
        rank_in(tokens, token)->0 < tokens.len() <==> tokens.contains(token),
{
    lemma_distinct_bound(tokens);
    if tokens.contains(token) {
        let i = tokens.index_of(token);
        assert(0 <= i < tokens.len() && tokens[i] == token);
    }
}

/// Every ranked token has a rank, and it is the token's place.
pub proof fn lemma_ranked_token(tokens: Seq<u32>, rank: u32)
    requires
        tokens.no_duplicates(),
        rank < tokens.len(),
    ensures
        rank_in(tokens, token_in(tokens, rank)) == Some(rank),
{
    let t = tokens[rank as int];
    assert(tokens.contains(t));
    assert(tokens[tokens.index_of(t)] == t);
}

/// A table written to bytes reads back as the same table, and is never refused.
pub proof fn lemma_rank_bytes_roundtrip(tokens: Seq<u32>)
    requires
        tokens.no_duplicates(),
        tokens.len() <= u32::MAX,
    ensures
        rank_fault(rank_bytes(tokens)) is None,
        stored_words(
            rank_bytes(tokens),
            TABLE_HEADER_LEN as int,
            stated_count(rank_bytes(tokens)) as nat,
        ) == tokens,
        rank_bytes(tokens).len() == TABLE_HEADER_LEN + 4 * tokens.len(),
{
    let front = envelope(KIND_RANK, low32(tokens.len()));
    crate::tables::lemma_envelope_roundtrip(KIND_RANK, low32(tokens.len()), words_bytes(tokens));
    crate::tables::lemma_words_bytes_len(tokens);
    crate::tables::lemma_words_roundtrip(front, tokens, seq![]);
    assert(front + words_bytes(tokens) + seq![] =~= rank_bytes(tokens));
    lemma_first_repeat(tokens);
}

/// Two tables with the same bytes rank the same tokens.
pub proof fn lemma_rank_bytes_injective(a: Seq<u32>, b: Seq<u32>)
    requires
        a.no_duplicates(),
        b.no_duplicates(),
        a.len() <= u32::MAX,
        b.len() <= u32::MAX,
        rank_bytes(a) == rank_bytes(b),
    ensures
        a == b,
{
    lemma_rank_bytes_roundtrip(a);
    lemma_rank_bytes_roundtrip(b);
}

/// Tokens that the ranking never saw still have a rank, as every id does that `k` can be added to:
/// a ranked token its place, any other `k` more than its id. Only an id that `k` carries past the
/// last 32-bit number has none.
pub proof fn lemma_every_small_id_has_a_rank(tokens: Seq<u32>, id: u32)
    requires
        tokens.no_duplicates(),
    ensures
        tokens.contains(id) ==> exists|i: int|
            0 <= i < tokens.len() && #[trigger] tokens[i] == id && rank_in(tokens, id) == Some(
                i as u32,
            ) && i <= u32::MAX,
        !tokens.contains(id) && id + tokens.len() <= u32::MAX ==> rank_in(tokens, id) is Some
            && rank_in(tokens, id)->0 == id + tokens.len(),
        !tokens.contains(id) && id + tokens.len() > u32::MAX ==> rank_in(tokens, id) is None,
{
    lemma_distinct_bound(tokens);
    if tokens.contains(id) {
        let at = tokens.index_of(id);
        assert(0 <= at < tokens.len() && tokens[at] == id);
    }
}

/// Every rank stands for a token: one below `k` for the token at its place, any other for the id
/// that `k` takes it down to.
pub proof fn lemma_every_rank_has_a_token(tokens: Seq<u32>, rank: u32)
    ensures
        rank < tokens.len() ==> token_in(tokens, rank) == tokens[rank as int],
        rank >= tokens.len() ==> token_in(tokens, rank) + tokens.len() == rank,
{
}

/// How often a token occurs is how many times the corpus holds it.
pub proof fn lemma_occurrences_count(ids: Seq<u32>, t: u32)
    ensures
        occurrences(ids, t) == ids.to_multiset().count(t),
        occurrences(ids, t) > 0 <==> ids.contains(t),
    decreases ids.len(),
{
    broadcast use vstd::multiset::group_multiset_axioms;

    ids.to_multiset_ensures();
    if ids.len() > 0 {
        let front = ids.drop_last();
        lemma_occurrences_count(front, t);
        vstd::seq_lib::to_multiset_build(front, ids.last());
        assert(front.push(ids.last()) =~= ids);
        if front.contains(t) {
            let i = choose|i: int| 0 <= i < front.len() && front[i] == t;
            assert(ids[i] == t);
        }
        if ids.last() == t {
            assert(ids[ids.len() - 1] == t);
        }
        if ids.contains(t) && ids.last() != t {
            let i = choose|i: int| 0 <= i < ids.len() && ids[i] == t;
            assert(front[i] == t);
        }
    } else {
        assert(ids.to_multiset().count(t) == 0);
    }
}

/// A ranking is what it is for: the tokens of the corpus and no others, each once, those that the
/// corpus holds more often first, and of equally frequent ones the smaller id.
pub proof fn lemma_ranking_order(ids: Seq<u32>, tokens: Seq<u32>)
    ensures
        ranks_all(ids, tokens) <==> {
            &&& tokens.to_set() == ids.to_set()
            &&& forall|i: int, j: int|
                0 <= i < j < tokens.len() ==> {
                    let a = ids.to_multiset().count(#[trigger] tokens[i]);
                    let b = ids.to_multiset().count(#[trigger] tokens[j]);
                    a > b || (a == b && tokens[i] < tokens[j])
                }
        },
{
    assert forall|t: u32| #[trigger] occurrences(ids, t) == ids.to_multiset().count(t) by {
        lemma_occurrences_count(ids, t);
    }
    if tokens.to_set() == ids.to_set() {
        assert forall|t: u32| #[trigger] tokens.contains(t) <==> ids.contains(t) by {
            assert(tokens.to_set().contains(t) == ids.to_set().contains(t));
        }
    }
    if ranks_all(ids, tokens) {
        assert(tokens.to_set() =~= ids.to_set());
    }
    if {
        &&& tokens.to_set() == ids.to_set()
        &&& forall|i: int, j: int|
            0 <= i < j < tokens.len() ==> {
                let a = ids.to_multiset().count(#[trigger] tokens[i]);
                let b = ids.to_multiset().count(#[trigger] tokens[j]);
                a > b || (a == b && tokens[i] < tokens[j])
            }
    } {
        assert forall|i: int, j: int| 0 <= i < j < tokens.len() implies outranks(
            ids,
            #[trigger] tokens[i],
            #[trigger] tokens[j],
        ) by {
            assert(occurrences(ids, tokens[i]) == ids.to_multiset().count(tokens[i]));
            assert(occurrences(ids, tokens[j]) == ids.to_multiset().count(tokens[j]));
        }
    }
}

/// A cap keeps the first tokens and drops the rest; without one, and with one that is not reached,
/// all stay.
pub proof fn lemma_capped(tokens: Seq<u32>, cap: usize)
    ensures
        capped(tokens, None) == tokens,
        capped(tokens, Some(cap)).is_prefix_of(tokens),
        capped(tokens, Some(cap)).len() == if cap < tokens.len() {
            cap as nat
        } else {
            tokens.len()
        },
{
    assert(tokens.take(tokens.len() as int) =~= tokens);
    if cap < tokens.len() {
        assert(capped(tokens, Some(cap)) =~= tokens.take(cap as int));
    }
}

/// A word is found to repeat exactly where some word stands a second time behind distinct ones.
pub proof fn lemma_first_repeat_is_first(words: Seq<u32>, j: int)
    requires
        0 <= j < words.len(),
        words.take(j).no_duplicates(),
        words.take(j).contains(words[j]),
    ensures
        first_repeat(words) == Some(words[j]),
{
    let upto = words.take(j + 1);
    lemma_first_repeat(words.take(j));
    assert(upto.drop_last() =~= words.take(j));
    assert(upto.last() == words[j]);
    lemma_first_repeat_extends(words, j + 1);
}

/// The file of a ranking: an envelope with kind 1 and the number of tokens, then each token in its
/// place, four bytes with the lowest first.
pub proof fn lemma_rank_file(tokens: Seq<u32>, i: int)
    requires
        tokens.len() <= u32::MAX,
        0 <= i < tokens.len(),
    ensures
        rank_bytes(tokens).take(6) == seq![0x54u8, 0x4E, 0x54, 0x54, 1, 1],
        rank_bytes(tokens)[6] == 0 && rank_bytes(tokens)[7] == 0,
        crate::bytes::number_at(rank_bytes(tokens), 8) == tokens.len(),
        crate::bytes::number_at(rank_bytes(tokens), 12 + 4 * i) == tokens[i],
        rank_bytes(tokens).len() == 12 + 4 * tokens.len(),
{
    let count = low32(tokens.len());
    crate::tables::lemma_envelope_layout(KIND_RANK, count);
    crate::tables::lemma_words_layout(tokens, i);
    let front = envelope(KIND_RANK, count);
    let words = words_bytes(tokens);
    let b = rank_bytes(tokens);
    assert(b.take(6) =~= seq![0x54u8, 0x4E, 0x54, 0x54, 1, 1]);
    assert(b[8] == front[8] && b[9] == front[9] && b[10] == front[10] && b[11] == front[11]);
    let at = 12 + 4 * i;
    assert(b[at] == words[4 * i] && b[at + 1] == words[4 * i + 1] && b[at + 2] == words[4 * i + 2]
        && b[at + 3] == words[4 * i + 3]);
}

/// A file with a sound envelope is a ranking exactly where it is as long as its count says and no
/// token stands in it twice; otherwise it is refused for its length, or for the first token that
/// does.
pub proof fn lemma_rank_file_checked(buf: Seq<u8>, j: int)
    requires
        buf.len() <= usize::MAX,
        envelope_fault(buf, 1) is None,
    ensures
        ({
            let n = crate::bytes::number_at(buf, 8);
            let word = |i: int| crate::bytes::number_at(buf, 12 + 4 * i);
            &&& buf.len() != 12 + 4 * n && 4 * n <= usize::MAX ==> rank_fault(buf) == Some(
                TableError::PayloadLen { want: (4 * n) as usize, got: (buf.len() - 12) as usize },
            )
            &&& buf.len() != 12 + 4 * n ==> rank_fault(buf) is Some
            &&& buf.len() == 12 + 4 * n && (forall|a: int, b: int|
                0 <= a < b < n ==> #[trigger] word(a) != #[trigger] word(b)) ==> rank_fault(
                buf,
            ) is None
            &&& buf.len() == 12 + 4 * n && 0 <= j < n && (forall|a: int, b: int|
                0 <= a < b < j ==> #[trigger] word(a) != #[trigger] word(b)) && (exists|a: int|
                0 <= a < j && #[trigger] word(a) == word(j)) ==> rank_fault(buf) == Some(
                TableError::DuplicateToken(word(j) as u32),
            )
        }),
{
    crate::tables::lemma_envelope_checked(buf, 1);
    let n = crate::bytes::number_at(buf, 8);
    let word = |i: int| crate::bytes::number_at(buf, 12 + 4 * i);
    crate::bytes::lemma_cut_numbers((4 * n) as nat);
    let words = stored_words(buf, 12, n as nat);
    if buf.len() == 12 + 4 * n {
        assert forall|i: int| 0 <= i < n implies #[trigger] words[i] == word(i) by {
            crate::tables::lemma_stored_words(buf, 12, n as nat, i);
        }
        lemma_first_repeat(words);
        if forall|a: int, b: int| 0 <= a < b < n ==> #[trigger] word(a) != #[trigger] word(b) {
            assert forall|a: int, b: int|
                0 <= a < words.len() && 0 <= b < words.len() && a != b implies words[a]
                != words[b] by {
                if a < b {
                    assert(word(a) != word(b));
                } else {
                    assert(word(b) != word(a));
                }
            }
            assert(words.no_duplicates());
        }
        if 0 <= j < n && (forall|a: int, b: int|
            0 <= a < b < j ==> #[trigger] word(a) != #[trigger] word(b)) && (exists|a: int|
            0 <= a < j && #[trigger] word(a) == word(j)) {
            let upto = words.take(j);
            assert forall|a: int, b: int|
                0 <= a < upto.len() && 0 <= b < upto.len() && a != b implies upto[a] != upto[b] by {
                assert(upto[a] == words[a] && upto[b] == words[b]);
                if a < b {
                    assert(word(a) != word(b));
                } else {
                    assert(word(b) != word(a));
                }
            }
            let a = choose|a: int| 0 <= a < j && #[trigger] word(a) == word(j);
            assert(upto[a] == words[j]);
            lemma_first_repeat_is_first(words, j);
        }
    }
}

} // verus!
