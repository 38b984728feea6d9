//! `token id -> bytes`, for turning stored ids back into text.
//!
//! A dense offset array indexed by token id: `blob[offsets[id]..offsets[id + 1]]`. Sized from the
//! vocabulary's declared size, so a lookup is two loads and a slice: no parsing, no hashing, and
//! nothing to rebuild on load.
//!
//! An id's range being empty means that id has **no entry**, which callers must treat as a fault:
//! the mapping and the stored ids disagree about which tokenizer produced them. This is
//! unambiguous because [`ByteMap::build`] refuses zero-length entries outright.
//!
//! The artefact's count is the vocabulary size, and its contents are the `size + 1` offsets, four
//! bytes each, and then the blob.

use vstd::prelude::*;
use vstd::slice::slice_subrange;

use crate::bytes::{low_usize, to_low_usize};
use crate::tables::{
    envelope, envelope_fault, push_envelope, push_words, read_envelope, read_words, stated_count,
    stored_words, words_bytes, TableError, KIND_MAP, TABLE_HEADER_LEN,
};

verus! {

/// All entries one after the other.
pub open spec fn blob_of(entries: Seq<Seq<u8>>) -> Seq<u8>
    decreases entries.len(),
{
    if entries.len() == 0 {
        seq![]
    } else {
        blob_of(entries.drop_last()) + entries.last()
    }
}

/// Where each entry starts in the blob, and where the last one ends.
pub open spec fn offsets_of(entries: Seq<Seq<u8>>) -> Seq<u32> {
    Seq::new(entries.len() + 1, |i: int| blob_of(entries.take(i)).len() as u32)
}

/// The bytes of the artefact that holds `entries`.
pub open spec fn map_bytes(entries: Seq<Seq<u8>>) -> Seq<u8> {
    envelope(KIND_MAP, entries.len() as u32) + words_bytes(offsets_of(entries)) + blob_of(entries)
}

/// How many entries are there, an empty one counting as absent.
pub open spec fn n_mapped(entries: Seq<Seq<u8>>) -> nat
    decreases entries.len(),
{
    if entries.len() == 0 {
        0
    } else {
        n_mapped(entries.drop_last()) + if entries.last().len() > 0 {
            1nat
        } else {
            0
        }
    }
}

/// The bytes of `id`, if `entries` have any for it.
pub open spec fn entry(entries: Seq<Seq<u8>>, id: u32) -> Option<Seq<u8>> {
    if id < entries.len() && entries[id as int].len() > 0 {
        Some(entries[id as int])
    } else {
        None
    }
}

/// What is wrong with the last of `pairs`, given that nothing is with those ahead of it.
pub open spec fn last_pair_fault(pairs: Seq<(u32, Vec<u8>)>, vocab_size: u32) -> Option<
    TableError,
> {
    let (id, bytes) = pairs.last();
    if id >= vocab_size {
        Some(TableError::IdOutsideVocabulary { id, vocab_size })
    } else if bytes@.len() == 0 {
        Some(TableError::EmptyEntry(id))
    } else if exists|p: int| 0 <= p < pairs.len() - 1 && (#[trigger] pairs[p]).0 == id {
        Some(TableError::DuplicateId(id))
    } else {
        None
    }
}

/// The first thing wrong with `pairs`, if anything is.
pub open spec fn pairs_fault(pairs: Seq<(u32, Vec<u8>)>, vocab_size: u32) -> Option<TableError>
    decreases pairs.len(),
{
    if pairs.len() == 0 {
        None
    } else {
        match pairs_fault(pairs.drop_last(), vocab_size) {
            Some(e) => Some(e),
            None => last_pair_fault(pairs, vocab_size),
        }
    }
}

/// How many bytes `pairs` hold together.
pub open spec fn total_len(pairs: Seq<(u32, Vec<u8>)>) -> nat
    decreases pairs.len(),
{
    if pairs.len() == 0 {
        0
    } else {
        total_len(pairs.drop_last()) + pairs.last().1@.len()
    }
}

/// Whether `pairs` name `id`.
pub open spec fn names(pairs: Seq<(u32, Vec<u8>)>, id: u32) -> bool {
    exists|p: int| 0 <= p < pairs.len() && (#[trigger] pairs[p]).0 == id
}

/// Where `pairs` name `id`.
pub open spec fn place(pairs: Seq<(u32, Vec<u8>)>, id: u32) -> int {
    choose|p: int| 0 <= p < pairs.len() && (#[trigger] pairs[p]).0 == id
}

/// How many bytes `pairs` hold together.
pub fn total_bytes(pairs: &[(u32, Vec<u8>)]) -> (n: u128)
    ensures
        n == total_len(pairs@),
{
    let mut n: u128 = 0;
    let mut i: usize = 0;
    assert(pairs@.take(0) =~= seq![]);
    while i < pairs.len()
        invariant
            i <= pairs@.len(),
            n == total_len(pairs@.take(i as int)),
            n <= i * usize::MAX,
        decreases pairs@.len() - i,
    {
        proof {
            assert(pairs@.take(i + 1).drop_last() =~= pairs@.take(i as int));
            assert(i * usize::MAX + usize::MAX == (i + 1) * usize::MAX) by (nonlinear_arith);
            assert((i + 1) * usize::MAX <= usize::MAX * usize::MAX) by (nonlinear_arith)
                requires
                    i + 1 <= usize::MAX,
            ;
            assert(usize::MAX * usize::MAX <= u128::MAX) by (nonlinear_arith)
                requires
                    usize::MAX <= 0xFFFF_FFFF_FFFF_FFFF,
            ;
        }
        n = n + pairs[i].1.len() as u128;
        i += 1;
    }
    assert(pairs@.take(i as int) =~= pairs@);
    n
}

/// The bytes that `pairs` give `id`; none where they do not name it.
pub open spec fn given(pairs: Seq<(u32, Vec<u8>)>, id: u32) -> Seq<u8> {
    if names(pairs, id) {
        pairs[place(pairs, id)].1@
    } else {
        seq![]
    }
}

/// The entries that `pairs` give a vocabulary of this size.
pub open spec fn entries_of(pairs: Seq<(u32, Vec<u8>)>, vocab_size: u32) -> Seq<Seq<u8>> {
    Seq::new(vocab_size as nat, |id: int| given(pairs, id as u32))
}

/// Whether `offsets` cut `blob` into entries: they start at zero, never fall, and end at its end.
pub open spec fn cuts(offsets: Seq<u32>, blob: Seq<u8>) -> bool {
    &&& offsets.len() > 0
    &&& offsets[0] == 0
    &&& forall|i: int, j: int|
        0 <= i <= j < offsets.len() ==> #[trigger] offsets[i] <= #[trigger] offsets[j]
    &&& offsets.last() == blob.len()
}

/// The first thing wrong with `buf` as the artefact of a mapping, if anything is.
pub open spec fn map_fault(buf: Seq<u8>) -> Option<TableError> {
    if envelope_fault(buf, KIND_MAP) is Some {
        envelope_fault(buf, KIND_MAP)
    } else {
        let n = stated_count(buf) as nat + 1;
        let got = (buf.len() - TABLE_HEADER_LEN) as nat;
        if got < n * 4 {
            Some(TableError::PayloadLen { want: low_usize(n * 4), got: got as usize })
        } else if !cuts(
            stored_words(buf, TABLE_HEADER_LEN as int, n),
            buf.skip(TABLE_HEADER_LEN + n * 4),
        ) {
            Some(TableError::BadOffsets)
        } else {
            None
        }
    }
}

/// The byte strings of a vocabulary, by token id.
#[derive(Debug, PartialEq, Eq)]
pub struct ByteMap {
    offsets: Vec<u32>,
    blob: Vec<u8>,
}

spec fn cut_entries(offsets: Seq<u32>, blob: Seq<u8>) -> Seq<Seq<u8>> {
    Seq::new(
        (offsets.len() - 1) as nat,
        |i: int| blob.subrange(offsets[i] as int, offsets[i + 1] as int),
    )
}

impl View for ByteMap {
    type V = Seq<Seq<u8>>;

    /// The bytes of each id; empty where the id has no entry.
    closed spec fn view(&self) -> Seq<Seq<u8>> {
        cut_entries(self.offsets@, self.blob@)
    }
}

impl Clone for ByteMap {
    fn clone(&self) -> (m: Self)
        ensures
            m@ == self@,
    {
        proof {
            use_type_invariant(self);
        }
        let offsets = self.offsets.clone();
        let blob = self.blob.clone();
        assert(offsets@ =~= self.offsets@ && blob@ =~= self.blob@);
        ByteMap { offsets, blob }
    }
}

impl ByteMap {
    #[verifier::type_invariant]
    spec fn wf(self) -> bool {
        &&& cuts(self.offsets@, self.blob@)
        &&& self.offsets@.len() <= 0x1_0000_0000
    }

    /// Lay out the given byte strings for a vocabulary of `vocab_size` ids.
    pub fn build(pairs: &[(u32, Vec<u8>)], vocab_size: u32) -> (r: Result<Self, TableError>)
        requires
            pairs_fault(pairs@, vocab_size) is None ==> total_len(pairs@) <= u32::MAX,
        ensures
            match r {
                Ok(m) => pairs_fault(pairs@, vocab_size) is None && m@ == entries_of(
                    pairs@,
                    vocab_size,
                ),
                Err(e) => pairs_fault(pairs@, vocab_size) == Some(e),
            },
    {
        let n: usize = vocab_size as usize;
        let mut owner: Vec<Option<usize>> = Vec::with_capacity(n);
        while owner.len() < n
            invariant
                owner@.len() <= n,
                forall|id: int| 0 <= id < owner@.len() ==> #[trigger] owner@[id] is None,
            decreases n - owner@.len(),
        {
            owner.push(None);
        }
        let mut p: usize = 0;
        assert(pairs@.take(0) =~= seq![]);
        while p < pairs.len()
            invariant
                p <= pairs@.len(),
                n == vocab_size,
                owner@.len() == n,
                pairs_fault(pairs@.take(p as int), vocab_size) is None,
                forall|id: int|
                    0 <= id < n ==> match #[trigger] owner@[id] {
                        Some(q) => q < p && pairs@[q as int].0 == id,
                        None => true,
                    },
                forall|q: int|
                    0 <= q < p ==> (#[trigger] pairs@[q]).0 < n && owner@[pairs@[q].0 as int]
                        == Some(q as usize),
            decreases pairs@.len() - p,
        {
            let id: u32 = pairs[p].0;
            let ghost upto = pairs@.take(p + 1);
            proof {
                assert(upto.drop_last() =~= pairs@.take(p as int));
                assert(upto.last() == pairs@[p as int]);
                if pairs_fault(upto, vocab_size) is Some {
                    lemma_pairs_fault_extends(pairs@, vocab_size, p + 1);
                }
            }
            if id >= vocab_size {
                return Err(TableError::IdOutsideVocabulary { id, vocab_size });
            }
            if pairs[p].1.len() == 0 {
                return Err(TableError::EmptyEntry(id));
            }
            match owner[id as usize] {
                Some(q) => {
                    assert(upto[q as int].0 == id);
                    return Err(TableError::DuplicateId(id));
                },
                None => {},
            }
            assert forall|q: int| 0 <= q < p implies (#[trigger] upto[q]).0 != id by {
                assert(upto[q] == pairs@[q]);
            }
            owner.set(id as usize, Some(p));
            p += 1;
        }
        assert(pairs@.take(p as int) =~= pairs@);

        let ghost entries = entries_of(pairs@, vocab_size);
        proof {
            lemma_blob_of_given(pairs@, vocab_size);
        }
        let mut offsets: Vec<u32> = Vec::new();
        let mut blob: Vec<u8> = Vec::new();
        offsets.push(0u32);
        assert(blob@ =~= blob_of(entries.take(0)));
        let mut i: usize = 0;
        while i < n
            invariant
                i <= n,
                n == vocab_size,
                entries == entries_of(pairs@, vocab_size),
                blob_of(entries).len() <= u32::MAX,
                owner@.len() == n,
                p == pairs@.len(),
                forall|id: int|
                    0 <= id < n ==> match #[trigger] owner@[id] {
                        Some(q) => q < p && pairs@[q as int].0 == id,
                        None => true,
                    },
                forall|q: int|
                    0 <= q < p ==> (#[trigger] pairs@[q]).0 < n && owner@[pairs@[q].0 as int]
                        == Some(q as usize),
                blob@ == blob_of(entries.take(i as int)),
                offsets@.len() == i + 1,
                forall|j: int|
                    0 <= j <= i ==> #[trigger] offsets@[j] == blob_of(entries.take(j)).len(),
            decreases n - i,
        {
            let ghost upto = entries.take(i + 1);
            proof {
                assert(upto.drop_last() =~= entries.take(i as int));
                assert(upto.last() == given(pairs@, i as u32));
                lemma_blob_prefix(entries, i + 1);
            }
            match owner[i] {
                Some(q) => {
                    proof {
                        assert(pairs@[q as int].0 == i);
                        let c = place(pairs@, i as u32);
                        assert(owner@[pairs@[c].0 as int] == Some(c as usize));
                    }
                    blob.extend_from_slice(pairs[q].1.as_slice());
                },
                None => {
                    proof {
                        assert(given(pairs@, i as u32) =~= seq![]);
                    }
                },
            }
            assert(blob@ =~= blob_of(upto));
            offsets.push(blob.len() as u32);
            i += 1;
        }
        proof {
            assert(entries.take(n as int) =~= entries);
            assert(blob_of(entries.take(0)) =~= seq![]);
            assert forall|j: int| 0 <= j <= n implies #[trigger] offsets@[j] == offsets_of(
                entries,
            )[j] by {
                lemma_blob_prefix(entries, j);
            }
            assert(offsets@ =~= offsets_of(entries));
            lemma_offsets_cut(entries);
        }
        Ok(ByteMap { offsets, blob })
    }

    /// How many ids the vocabulary has.
    pub fn vocab_size(&self) -> (n: u32)
        ensures
            n == self@.len(),
    {
        proof {
            use_type_invariant(self);
        }
        (self.offsets.len() - 1) as u32
    }

    /// How many ids have an entry.
    pub fn mapped(&self) -> (n: u32)
        ensures
            n == n_mapped(self@),
            n <= self@.len(),
    {
        proof {
            use_type_invariant(self);
        }
        let size: usize = self.offsets.len() - 1;
        let mut n: u32 = 0;
        let mut i: usize = 0;
        while i < size
            invariant
                i <= size,
                self.wf(),
                size + 1 == self.offsets@.len(),
                n == n_mapped(self@.take(i as int)),
                n <= i,
            decreases size - i,
        {
            proof {
                assert(self@.take(i + 1).drop_last() =~= self@.take(i as int));
                assert(self.offsets@[i as int] <= self.offsets@[i + 1]);
                lemma_cut_bounds(self.offsets@, self.blob@, i as int);
            }
            if self.offsets[i + 1] > self.offsets[i] {
                n += 1;
            }
            i += 1;
        }
        assert(self@.take(i as int) =~= self@);
        n
    }

    /// The bytes of `id`, if it has an entry.
    pub fn get(&self, id: u32) -> (r: Option<&[u8]>)
        ensures
            match r {
                Some(b) => entry(self@, id) == Some(b@),
                None => entry(self@, id) is None,
            },
    {
        proof {
            use_type_invariant(self);
        }
        if id >= self.vocab_size() {
            return None;
        }
        let i: usize = id as usize;
        proof {
            lemma_cut_bounds(self.offsets@, self.blob@, i as int);
        }
        let start: usize = self.offsets[i] as usize;
        let end: usize = self.offsets[i + 1] as usize;
        if start == end {
            return None;
        }
        Some(slice_subrange(self.blob.as_slice(), start, end))
    }

    /// The mapping as a file.
    pub fn to_bytes(&self) -> (out: Vec<u8>)
        ensures
            out@ == map_bytes(self@),
    {
        proof {
            use_type_invariant(self);
            lemma_cut_offsets(self.offsets@, self.blob@);
        }
        let mut out: Vec<u8> = Vec::new();
        push_envelope(&mut out, KIND_MAP, self.vocab_size());
        push_words(&mut out, &self.offsets);
        out.extend_from_slice(self.blob.as_slice());
        assert(out@ =~= map_bytes(self@));
        out
    }

    /// Read a mapping from a file's bytes.
    pub fn from_bytes(buf: &[u8]) -> (r: Result<Self, TableError>)
        ensures
            match r {
                Ok(m) => {
                    &&& map_fault(buf@) is None
                    &&& map_bytes(m@) == buf@
                    &&& m@.len() == stated_count(buf@)
                    &&& blob_of(m@).len() <= u32::MAX
                },
                Err(e) => map_fault(buf@) == Some(e),
            },
    {
        let vocab_size: u32 = match read_envelope(buf, KIND_MAP) {
            Ok(n) => n,
            Err(e) => {
                return Err(e);
            },
        };
        let got: usize = buf.len() - TABLE_HEADER_LEN;
        let want: u64 = (vocab_size as u64 + 1) * 4;
        if (got as u64) < want {
            return Err(
                TableError::PayloadLen { want: to_low_usize(want), got },
            );
        }
        let n: usize = vocab_size as usize + 1;
        let offsets = read_words(buf, TABLE_HEADER_LEN, n);
        let at: usize = TABLE_HEADER_LEN + n * 4;
        let mut blob: Vec<u8> = Vec::new();
        blob.extend_from_slice(slice_subrange(buf, at, buf.len()));
        assert(blob@ =~= buf@.skip(at as int));

        assert(map_fault(buf@) == if cuts(offsets@, blob@) {
            None::<TableError>
        } else {
            Some(TableError::BadOffsets)
        });

        // Validate rather than trust: a reversed or overrunning offset would panic on slice, and
        // this buffer came off disk.
        if offsets[0] != 0 {
            return Err(TableError::BadOffsets);
        }
        let mut i: usize = 1;
        while i < n
            invariant
                1 <= i <= n,
                n == offsets@.len(),
                forall|a: int, b: int|
                    0 <= a <= b < i ==> #[trigger] offsets@[a] <= #[trigger] offsets@[b],
                map_fault(buf@) == if cuts(offsets@, blob@) {
                    None::<TableError>
                } else {
                    Some(TableError::BadOffsets)
                },
            decreases n - i,
        {
            if offsets[i] < offsets[i - 1] {
                assert(!(offsets@[i - 1] <= offsets@[i as int]));
                return Err(TableError::BadOffsets);
            }
            i += 1;
        }
        if offsets[n - 1] as u64 != blob.len() as u64 {
            return Err(TableError::BadOffsets);
        }
        proof {
            lemma_map_rebuilt(buf@);
        }
        Ok(ByteMap { offsets, blob })
    }
}

proof fn lemma_pairs_fault_extends(pairs: Seq<(u32, Vec<u8>)>, vocab_size: u32, n: int)
    requires
        0 <= n <= pairs.len(),
        pairs_fault(pairs.take(n), vocab_size) is Some,
    ensures
        pairs_fault(pairs, vocab_size) == pairs_fault(pairs.take(n), vocab_size),
    decreases pairs.len(),
{
    if n == pairs.len() {
        assert(pairs.take(n) =~= pairs);
    } else {
        assert(pairs.drop_last().take(n) =~= pairs.take(n));
        lemma_pairs_fault_extends(pairs.drop_last(), vocab_size, n);
    }
}

/// The entries ahead of `i` come first.
proof fn lemma_blob_prefix(entries: Seq<Seq<u8>>, i: int)
    requires
        0 <= i <= entries.len(),
    ensures
        blob_of(entries.take(i)).len() <= blob_of(entries).len(),
        blob_of(entries).take(blob_of(entries.take(i)).len() as int) == blob_of(entries.take(i)),
    decreases entries.len(),
{
    if i < entries.len() {
        let front = entries.drop_last();
        lemma_blob_prefix(front, i);
        assert(front.take(i) =~= entries.take(i));
        let k = blob_of(entries.take(i)).len() as int;
        assert(blob_of(entries).take(k) =~= blob_of(front).take(k));
    } else {
        assert(entries.take(i) =~= entries);
        assert(blob_of(entries).take(blob_of(entries).len() as int) =~= blob_of(entries));
    }
}

proof fn lemma_blob_of_empty(entries: Seq<Seq<u8>>)
    requires
        forall|i: int| 0 <= i < entries.len() ==> (#[trigger] entries[i]).len() == 0,
    ensures
        blob_of(entries).len() == 0,
    decreases entries.len(),
{
    if entries.len() > 0 {
        assert(entries.last() == entries[entries.len() - 1]);
        lemma_blob_of_empty(entries.drop_last());
    }
}

proof fn lemma_blob_of_update(entries: Seq<Seq<u8>>, i: int, b: Seq<u8>)
    requires
        0 <= i < entries.len(),
        entries[i].len() == 0,
    ensures
        blob_of(entries.update(i, b)).len() == blob_of(entries).len() + b.len(),
    decreases entries.len(),
{
    let front = entries.drop_last();
    if i < front.len() {
        lemma_blob_of_update(front, i, b);
        assert(entries.update(i, b).drop_last() =~= front.update(i, b));
        assert(entries.update(i, b).last() == entries.last());
    } else {
        assert(entries.update(i, b).drop_last() =~= front);
    }
}

/// Sound pairs fill their entries with exactly the bytes they hold.
proof fn lemma_blob_of_given(pairs: Seq<(u32, Vec<u8>)>, vocab_size: u32)
    requires
        pairs_fault(pairs, vocab_size) is None,
    ensures
        blob_of(entries_of(pairs, vocab_size)).len() == total_len(pairs),
    decreases pairs.len(),
{
    let entries = entries_of(pairs, vocab_size);
    if pairs.len() == 0 {
        lemma_blob_of_empty(entries);
    } else {
        let front = pairs.drop_last();
        let (id, bytes) = pairs.last();
        let old_entries = entries_of(front, vocab_size);
        lemma_blob_of_given(front, vocab_size);
        assert(forall|p: int| 0 <= p < front.len() ==> #[trigger] front[p] == pairs[p]);
        assert(given(front, id) =~= seq![]);
        assert forall|j: int| 0 <= j < vocab_size implies #[trigger] entries[j]
            == old_entries.update(id as int, bytes@)[j] by {
            if j == id {
                assert(pairs[pairs.len() - 1].0 == id);
                assert(names(pairs, id));
                assert(place(pairs, id) == pairs.len() - 1);
            } else {
                lemma_given_front(pairs, vocab_size, j as u32);
            }
        }
        assert(entries =~= old_entries.update(id as int, bytes@));
        lemma_blob_of_update(old_entries, id as int, bytes@);
    }
}

proof fn lemma_given_front(pairs: Seq<(u32, Vec<u8>)>, vocab_size: u32, id: u32)
    requires
        pairs.len() > 0,
        pairs_fault(pairs, vocab_size) is None,
        pairs.last().0 != id,
    ensures
        given(pairs, id) == given(pairs.drop_last(), id),
{
    let front = pairs.drop_last();
    assert(forall|p: int| 0 <= p < front.len() ==> #[trigger] front[p] == pairs[p]);
    if names(pairs, id) {
        let a = place(pairs, id);
        assert(front[a].0 == id);
        assert(names(front, id));
        lemma_ids_distinct(front, vocab_size, a, place(front, id));
    } else {
        assert(!names(front, id));
    }
}

proof fn lemma_ids_distinct(pairs: Seq<(u32, Vec<u8>)>, vocab_size: u32, a: int, b: int)
    requires
        pairs_fault(pairs, vocab_size) is None,
        0 <= a < pairs.len(),
        0 <= b < pairs.len(),
        pairs[a].0 == pairs[b].0,
    ensures
        a == b,
    decreases pairs.len(),
{
    let front = pairs.drop_last();
    if a < front.len() && b < front.len() {
        assert(front[a] == pairs[a] && front[b] == pairs[b]);
        lemma_ids_distinct(front, vocab_size, a, b);
    }
}

proof fn lemma_cut_bounds(offsets: Seq<u32>, blob: Seq<u8>, i: int)
    requires
        cuts(offsets, blob),
        0 <= i < offsets.len() - 1,
    ensures
        0 <= offsets[i] <= offsets[i + 1] <= blob.len(),
{
    assert(offsets[i + 1] <= offsets[offsets.len() - 1]);
}

proof fn lemma_cut_prefix(offsets: Seq<u32>, blob: Seq<u8>, i: int)
    requires
        cuts(offsets, blob),
        0 <= i < offsets.len(),
    ensures
        offsets[i] <= blob.len(),
        blob_of(cut_entries(offsets, blob).take(i)) == blob.take(offsets[i] as int),
    decreases i,
{
    let entries = cut_entries(offsets, blob);
    if i == 0 {
        assert(blob_of(entries.take(0)) =~= blob.take(0));
    } else {
        lemma_cut_prefix(offsets, blob, i - 1);
        lemma_cut_bounds(offsets, blob, i - 1);
        assert(entries.take(i).drop_last() =~= entries.take(i - 1));
        assert(blob_of(entries.take(i)) =~= blob.take(offsets[i] as int));
    }
}

/// Cutting a blob into entries loses neither the offsets nor the blob.
proof fn lemma_cut_offsets(offsets: Seq<u32>, blob: Seq<u8>)
    requires
        cuts(offsets, blob),
    ensures
        offsets_of(cut_entries(offsets, blob)) == offsets,
        blob_of(cut_entries(offsets, blob)) == blob,
{
    let entries = cut_entries(offsets, blob);
    assert forall|i: int| 0 <= i < offsets.len() implies #[trigger] offsets_of(entries)[i]
        == offsets[i] by {
        lemma_cut_prefix(offsets, blob, i);
    }
    assert(offsets_of(entries) =~= offsets);
    lemma_cut_prefix(offsets, blob, offsets.len() - 1);
    assert(entries.take(offsets.len() - 1) =~= entries);
    assert(blob.take(blob.len() as int) =~= blob);
}

proof fn lemma_three_parts(buf: Seq<u8>, a: int, b: int)
    requires
        0 <= a <= b <= buf.len(),
    ensures
        buf.take(a) + buf.subrange(a, b) + buf.skip(b) == buf,
{
    assert(buf.take(a) + buf.subrange(a, b) + buf.skip(b) =~= buf);
}

/// The offsets and the blob of a file that is in order.
proof fn lemma_sound_map(buf: Seq<u8>)
    requires
        map_fault(buf) is None,
    ensures
        TABLE_HEADER_LEN + (stated_count(buf) as nat + 1) * 4 <= buf.len(),
        cuts(
            stored_words(buf, TABLE_HEADER_LEN as int, stated_count(buf) as nat + 1),
            buf.skip(TABLE_HEADER_LEN + (stated_count(buf) as nat + 1) * 4),
        ),
{
}

proof fn lemma_joined_map(count: u32, words: Seq<u32>, blob: Seq<u8>)
    requires
        cuts(words, blob),
        words.len() == count + 1,
    ensures
        map_bytes(cut_entries(words, blob)) == envelope(KIND_MAP, count) + words_bytes(words) + blob,
        blob_of(cut_entries(words, blob)).len() <= u32::MAX,
{
    lemma_cut_offsets(words, blob);
    assert(cut_entries(words, blob).len() == count);
}

proof fn lemma_map_rebuilt(buf: Seq<u8>)
    requires
        map_fault(buf) is None,
        buf.take(TABLE_HEADER_LEN as int) == envelope(KIND_MAP, stated_count(buf)),
    ensures
        ({
            let entries = cut_entries(
                stored_words(buf, TABLE_HEADER_LEN as int, stated_count(buf) as nat + 1),
                buf.skip(TABLE_HEADER_LEN + (stated_count(buf) as nat + 1) * 4),
            );
            map_bytes(entries) == buf && blob_of(entries).len() <= u32::MAX
        }),
{
    let count = stated_count(buf);
    let n = count as nat + 1;
    let base = TABLE_HEADER_LEN + n * 4;
    let words = stored_words(buf, TABLE_HEADER_LEN as int, n);
    lemma_sound_map(buf);
    lemma_joined_map(count, words, buf.skip(base));
    crate::tables::lemma_words_rebuilt(buf, TABLE_HEADER_LEN as int, n);
    lemma_three_parts(buf, TABLE_HEADER_LEN as int, base);
}

proof fn lemma_offsets_cut(entries: Seq<Seq<u8>>)
    requires
        blob_of(entries).len() <= u32::MAX,
    ensures
        cuts(offsets_of(entries), blob_of(entries)),
        cut_entries(offsets_of(entries), blob_of(entries)) == entries,
{
    let offsets = offsets_of(entries);
    let blob = blob_of(entries);
    assert(entries.take(0) =~= seq![]);
    assert(entries.take(entries.len() as int) =~= entries);
    assert forall|a: int, b: int| 0 <= a <= b < offsets.len() implies #[trigger] offsets[a]
        <= #[trigger] offsets[b] by {
        lemma_blob_prefix(entries, b);
        lemma_blob_prefix(entries.take(b), a);
        assert(entries.take(b).take(a) =~= entries.take(a));
    }
    assert forall|j: int| 0 <= j < entries.len() implies #[trigger] cut_entries(offsets, blob)[j]
        == entries[j] by {
        let upto = entries.take(j + 1);
        assert(upto.drop_last() =~= entries.take(j));
        lemma_blob_prefix(entries, j);
        lemma_blob_prefix(entries, j + 1);
        let from = blob_of(entries.take(j)).len() as int;
        let to = blob_of(upto).len() as int;
        assert(offsets[j] == from && offsets[j + 1] == to);
        assert(blob.subrange(from, to) =~= blob.take(to).skip(from));
        assert(blob_of(upto).skip(from) =~= entries[j]);
    }
    assert(cut_entries(offsets, blob) =~= entries);
}

/// A mapping written to bytes is never refused when it is read back.
pub proof fn lemma_map_bytes_roundtrip(entries: Seq<Seq<u8>>)
    requires
        entries.len() <= u32::MAX,
        blob_of(entries).len() <= u32::MAX,
    ensures
        map_fault(map_bytes(entries)) is None,
        stated_count(map_bytes(entries)) == entries.len(),
{
    let front = envelope(KIND_MAP, entries.len() as u32);
    let words = offsets_of(entries);
    let blob = blob_of(entries);
    let buf = map_bytes(entries);
    assert(buf =~= front + (words_bytes(words) + blob));
    crate::tables::lemma_envelope_roundtrip(
        KIND_MAP,
        entries.len() as u32,
        words_bytes(words) + blob,
    );
    crate::tables::lemma_words_bytes_len(words);
    crate::tables::lemma_words_roundtrip(front, words, blob);
    lemma_offsets_cut(entries);
    assert(buf.skip(TABLE_HEADER_LEN + words.len() * 4) =~= blob);
}

/// A mapping built from sound pairs is read back from its bytes with the entries it was given.
pub proof fn lemma_built_map_reads_back(
    pairs: Seq<(u32, Vec<u8>)>,
    vocab_size: u32,
    read: Seq<Seq<u8>>,
)
    requires
        pairs_fault(pairs, vocab_size) is None,
        total_len(pairs) <= u32::MAX,
        read.len() <= u32::MAX,
        blob_of(read).len() <= u32::MAX,
        map_bytes(read) == map_bytes(entries_of(pairs, vocab_size)),
    ensures
        map_fault(map_bytes(entries_of(pairs, vocab_size))) is None,
        read == entries_of(pairs, vocab_size),
{
    lemma_blob_of_given(pairs, vocab_size);
    lemma_map_bytes_roundtrip(entries_of(pairs, vocab_size));
    lemma_map_bytes_injective(read, entries_of(pairs, vocab_size));
}

/// Two mappings with the same bytes have the same entries: what is read back is what was written.
pub proof fn lemma_map_bytes_injective(a: Seq<Seq<u8>>, b: Seq<Seq<u8>>)
    requires
        a.len() <= u32::MAX,
        b.len() <= u32::MAX,
        blob_of(a).len() <= u32::MAX,
        blob_of(b).len() <= u32::MAX,
        map_bytes(a) == map_bytes(b),
    ensures
        a == b,
{
    lemma_map_bytes_roundtrip(a);
    lemma_map_bytes_roundtrip(b);
    let front = envelope(KIND_MAP, a.len() as u32);
    crate::tables::lemma_words_roundtrip(front, offsets_of(a), blob_of(a));
    crate::tables::lemma_words_roundtrip(front, offsets_of(b), blob_of(b));
    crate::tables::lemma_words_bytes_len(offsets_of(a));
    crate::tables::lemma_words_bytes_len(offsets_of(b));
    let at = (front.len() + 4 * (a.len() + 1)) as int;
    assert(blob_of(a) =~= map_bytes(a).skip(at));
    assert(blob_of(b) =~= map_bytes(b).skip(at));
    lemma_offsets_cut(a);
    lemma_offsets_cut(b);
}

/// An id has bytes exactly where it was supplied: an absent id cannot be taken for an empty one.
pub proof fn lemma_supplied_ids_have_bytes(
    pairs: Seq<(u32, Vec<u8>)>,
    vocab_size: u32,
    id: u32,
)
    requires
        pairs_fault(pairs, vocab_size) is None,
    ensures
        entry(entries_of(pairs, vocab_size), id) is Some <==> names(pairs, id),
        forall|p: int|
            0 <= p < pairs.len() && (#[trigger] pairs[p]).0 == id ==> entry(
                entries_of(pairs, vocab_size),
                id,
            ) == Some(pairs[p].1@),
{
    assert forall|p: int| 0 <= p < pairs.len() && (#[trigger] pairs[p]).0 == id implies entry(
        entries_of(pairs, vocab_size),
        id,
    ) == Some(pairs[p].1@) by {
        assert(names(pairs, id));
        lemma_ids_distinct(pairs, vocab_size, p, place(pairs, id));
        lemma_pair_sound(pairs, vocab_size, p);
        assert(given(pairs, id) == pairs[p].1@);
    }
    if id < vocab_size {
        assert(entries_of(pairs, vocab_size)[id as int] == given(pairs, id));
    }
}

proof fn lemma_pair_sound(pairs: Seq<(u32, Vec<u8>)>, vocab_size: u32, p: int)
    requires
        pairs_fault(pairs, vocab_size) is None,
        0 <= p < pairs.len(),
    ensures
        pairs[p].0 < vocab_size,
        pairs[p].1@.len() > 0,
    decreases pairs.len(),
{
    if p < pairs.len() - 1 {
        assert(pairs.drop_last()[p] == pairs[p]);
        lemma_pair_sound(pairs.drop_last(), vocab_size, p);
    }
}

/// The blob is the entries one after the other.
pub proof fn lemma_blob_is_flat(entries: Seq<Seq<u8>>)
    ensures
        blob_of(entries) == entries.flatten(),
    decreases entries.len(),
{
    entries.lemma_flatten_and_flatten_alt_are_equivalent();
    if entries.len() > 0 {
        lemma_blob_is_flat(entries.drop_last());
        entries.drop_last().lemma_flatten_and_flatten_alt_are_equivalent();
    }
}

/// As many ids count as mapped as have bytes.
pub proof fn lemma_mapped_are_nonempty(entries: Seq<Seq<u8>>)
    ensures
        n_mapped(entries) == entries.filter(|e: Seq<u8>| e.len() > 0).len(),
    decreases entries.len(),
{
    reveal(Seq::filter);
    if entries.len() > 0 {
        lemma_mapped_are_nonempty(entries.drop_last());
    }
}

/// An id has an entry exactly where the vocabulary has it and it has bytes, and the entry is those
/// bytes.
pub proof fn lemma_entry_is_bytes(entries: Seq<Seq<u8>>, id: u32)
    ensures
        entry(entries, id) is Some <==> 0 <= (id as int) < entries.len() && entries[id as int].len()
            != 0,
        entry(entries, id) is Some ==> entry(entries, id)->0 == entries[id as int],
{
}

/// Pairs hold together what each of them holds.
pub proof fn lemma_total_adds_up(a: Seq<(u32, Vec<u8>)>, b: Seq<(u32, Vec<u8>)>)
    ensures
        total_len(a + b) == total_len(a) + total_len(b),
        b.len() == 1 ==> total_len(b) == b[0].1@.len(),
        total_len(Seq::<(u32, Vec<u8>)>::empty()) == 0,
    decreases b.len(),
{
    if b.len() == 0 {
        assert(a + b =~= a);
    } else {
        lemma_total_adds_up(a, b.drop_last());
        assert((a + b).drop_last() =~= a + b.drop_last());
        assert((a + b).last() == b.last());
        if b.len() == 1 {
            assert(b.drop_last() =~= seq![]);
        }
    }
}

/// A pair is right behind others if its id lies in the vocabulary, it has bytes, and no pair ahead
/// of it has its id.
pub open spec fn pair_is_right(pairs: Seq<(u32, Vec<u8>)>, vocab_size: u32, p: int) -> bool {
    &&& pairs[p].0 < vocab_size
    &&& pairs[p].1@.len() > 0
    &&& forall|q: int| 0 <= q < p ==> (#[trigger] pairs[q]).0 != pairs[p].0
}

/// Pairs are accepted exactly where every pair is right, and otherwise refused for the first that
/// is not: an id outside the vocabulary counts before missing bytes, and those before an id that
/// stands a second time.
pub proof fn lemma_pairs_checked(pairs: Seq<(u32, Vec<u8>)>, vocab_size: u32, p: int)
    requires
        0 <= p <= pairs.len(),
        forall|q: int| 0 <= q < p ==> #[trigger] pair_is_right(pairs, vocab_size, q),
    ensures
        p == pairs.len() ==> pairs_fault(pairs, vocab_size) is None,
        p < pairs.len() && pairs[p].0 >= vocab_size ==> pairs_fault(pairs, vocab_size) == Some(
            TableError::IdOutsideVocabulary { id: pairs[p].0, vocab_size },
        ),
        p < pairs.len() && pairs[p].0 < vocab_size && pairs[p].1@.len() == 0 ==> pairs_fault(
            pairs,
            vocab_size,
        ) == Some(TableError::EmptyEntry(pairs[p].0)),
        p < pairs.len() && pairs[p].0 < vocab_size && pairs[p].1@.len() > 0 && !pair_is_right(
            pairs,
            vocab_size,
            p,
        ) ==> pairs_fault(pairs, vocab_size) == Some(TableError::DuplicateId(pairs[p].0)),
{
    lemma_right_pairs(pairs, vocab_size, p);
    if p < pairs.len() {
        let upto = pairs.take(p + 1);
        assert(upto.drop_last() =~= pairs.take(p));
        assert(upto.last() == pairs[p]);
        if !pair_is_right(pairs, vocab_size, p) {
            if pairs[p].0 < vocab_size && pairs[p].1@.len() > 0 {
                let q = choose|q: int| 0 <= q < p && (#[trigger] pairs[q]).0 == pairs[p].0;
                assert(upto[q].0 == pairs[p].0);
            }
            lemma_pairs_fault_extends(pairs, vocab_size, p + 1);
        }
    } else {
        assert(pairs.take(p) =~= pairs);
    }
}

proof fn lemma_right_pairs(pairs: Seq<(u32, Vec<u8>)>, vocab_size: u32, p: int)
    requires
        0 <= p <= pairs.len(),
        forall|q: int| 0 <= q < p ==> #[trigger] pair_is_right(pairs, vocab_size, q),
    ensures
        pairs_fault(pairs.take(p), vocab_size) is None,
    decreases p,
{
    if p > 0 {
        lemma_right_pairs(pairs, vocab_size, p - 1);
        let upto = pairs.take(p);
        assert(upto.drop_last() =~= pairs.take(p - 1));
        assert(pair_is_right(pairs, vocab_size, p - 1));
        assert(upto.last() == pairs[p - 1]);
        assert forall|q: int| 0 <= q < upto.len() - 1 implies (#[trigger] upto[q]).0
            != pairs[p - 1].0 by {
            assert(upto[q] == pairs[q]);
        }
    }
}

/// The entries that sound pairs give: each named id the bytes it is given, every other id of the
/// vocabulary none, and no id besides.
pub proof fn lemma_entries_are_the_pairs(pairs: Seq<(u32, Vec<u8>)>, vocab_size: u32, id: u32)
    requires
        pairs_fault(pairs, vocab_size) is None,
    ensures
        entries_of(pairs, vocab_size).len() == vocab_size,
        forall|p: int|
            0 <= p < pairs.len() && (#[trigger] pairs[p]).0 == id ==> id < vocab_size && entries_of(
                pairs,
                vocab_size,
            )[id as int] == pairs[p].1@ && pairs[p].1@.len() > 0,
        id < vocab_size && (forall|p: int| 0 <= p < pairs.len() ==> (#[trigger] pairs[p]).0 != id)
            ==> entries_of(pairs, vocab_size)[id as int].len() == 0,
{
    lemma_supplied_ids_have_bytes(pairs, vocab_size, id);
    assert forall|p: int| 0 <= p < pairs.len() && (#[trigger] pairs[p]).0 == id implies id
        < vocab_size && entries_of(pairs, vocab_size)[id as int] == pairs[p].1@
        && pairs[p].1@.len() > 0 by {
        lemma_pair_sound(pairs, vocab_size, p);
    }
}

/// The file of a mapping: an envelope with kind 2 and the vocabulary size, the offsets, and the
/// blob. The bytes of an id stand between its offset and the next.
#[verifier::rlimit(40)]
pub proof fn lemma_map_file(entries: Seq<Seq<u8>>, id: int)
    requires
        entries.len() <= u32::MAX,
        blob_of(entries).len() <= u32::MAX,
        0 <= id < entries.len(),
    ensures
        ({
            let b = map_bytes(entries);
            let base = 12 + 4 * (entries.len() + 1);
            let offset = |i: int| crate::bytes::number_at(b, 12 + 4 * i);
            &&& b.take(6) == seq![0x54u8, 0x4E, 0x54, 0x54, 1, 2]
            &&& b[6] == 0 && b[7] == 0
            &&& crate::bytes::number_at(b, 8) == entries.len()
            &&& offset(0) == 0
            &&& offset(id + 1) == offset(id) + entries[id].len()
            &&& b.len() == base + offset(entries.len() as int)
            &&& b.subrange(base + offset(id), base + offset(id + 1)) == entries[id]
        }),
{
    let b = map_bytes(entries);
    let front = envelope(KIND_MAP, entries.len() as u32);
    let offsets = offsets_of(entries);
    let words = words_bytes(offsets);
    let blob = blob_of(entries);
    let base = 12 + 4 * (entries.len() + 1);
    crate::tables::lemma_envelope_layout(KIND_MAP, entries.len() as u32);
    crate::tables::lemma_words_bytes_len(offsets);
    lemma_map_offset(entries, 0);
    lemma_map_offset(entries, id);
    lemma_map_offset(entries, id + 1);
    lemma_map_offset(entries, entries.len() as int);
    assert(b.take(6) =~= seq![0x54u8, 0x4E, 0x54, 0x54, 1, 2]);
    assert(b[8] == front[8] && b[9] == front[9] && b[10] == front[10] && b[11] == front[11]);
    assert(entries.take(0) =~= seq![]);
    assert(entries.take(entries.len() as int) =~= entries);
    let upto = entries.take(id + 1);
    assert(upto.drop_last() =~= entries.take(id));
    lemma_blob_prefix(entries, id + 1);
    let from = blob_of(entries.take(id)).len() as int;
    let to = blob_of(upto).len() as int;
    assert(blob.subrange(from, to) =~= blob.take(to).skip(from));
    assert(blob_of(upto).skip(from) =~= entries[id]);
    assert(b.subrange(base + from, base + to) =~= blob.subrange(from, to));
}

proof fn lemma_map_offset(entries: Seq<Seq<u8>>, i: int)
    requires
        entries.len() <= u32::MAX,
        blob_of(entries).len() <= u32::MAX,
        0 <= i <= entries.len(),
    ensures
        crate::bytes::number_at(map_bytes(entries), 12 + 4 * i) == blob_of(entries.take(i)).len(),
{
    let front = envelope(KIND_MAP, entries.len() as u32);
    let offsets = offsets_of(entries);
    let words = words_bytes(offsets);
    let b = map_bytes(entries);
    crate::tables::lemma_envelope_layout(KIND_MAP, entries.len() as u32);
    crate::tables::lemma_words_layout(offsets, i);
    lemma_blob_prefix(entries, i);
    let at = 12 + 4 * i;
    assert(b[at] == words[4 * i] && b[at + 1] == words[4 * i + 1] && b[at + 2] == words[4 * i + 2]
        && b[at + 3] == words[4 * i + 3]);
}

/// A file with a sound envelope is a mapping exactly where it has room for its offsets, the first
/// of them is zero, none is less than one ahead of it, and the last is where the file ends.
pub proof fn lemma_map_file_checked(buf: Seq<u8>)
    requires
        buf.len() <= usize::MAX,
        envelope_fault(buf, 2) is None,
    ensures
        ({
            let n = crate::bytes::number_at(buf, 8);
            let base = 12 + 4 * (n + 1);
            let offset = |i: int| crate::bytes::number_at(buf, 12 + 4 * i);
            let sound = offset(0) == 0 && (forall|i: int, j: int|
                0 <= i <= j <= n ==> #[trigger] offset(i) <= #[trigger] offset(j)) && buf.len()
                == base + offset(n);
            &&& buf.len() < base ==> map_fault(buf) is Some
            &&& buf.len() < base && 4 * (n + 1) <= usize::MAX ==> map_fault(buf) == Some(
                TableError::PayloadLen {
                    want: (4 * (n + 1)) as usize,
                    got: (buf.len() - 12) as usize,
                },
            )
            &&& buf.len() >= base && !sound ==> map_fault(buf) == Some(TableError::BadOffsets)
            &&& buf.len() >= base && sound ==> map_fault(buf) is None
        }),
{
    crate::tables::lemma_envelope_checked(buf, 2);
    let n = crate::bytes::number_at(buf, 8);
    let base = 12 + 4 * (n + 1);
    let offset = |i: int| crate::bytes::number_at(buf, 12 + 4 * i);
    crate::bytes::lemma_cut_numbers((4 * (n + 1)) as nat);
    if buf.len() >= base {
        let words = stored_words(buf, 12, (n + 1) as nat);
        let blob = buf.skip(base);
        assert forall|i: int| 0 <= i <= n implies words[i] == #[trigger] offset(i) by {
            crate::tables::lemma_stored_words(buf, 12, (n + 1) as nat, i);
        }
        assert(words[0] == offset(0) && words[n] == offset(n));
        if cuts(words, blob) {
            assert forall|i: int, j: int| 0 <= i <= j <= n implies #[trigger] offset(i)
                <= #[trigger] offset(j) by {
                assert(words[i] <= words[j]);
            }
        }
        if forall|i: int, j: int|
            0 <= i <= j <= n ==> #[trigger] offset(i) <= #[trigger] offset(j) {
            assert forall|i: int, j: int| 0 <= i <= j < words.len() implies #[trigger] words[i]
                <= #[trigger] words[j] by {
                assert(offset(i) <= offset(j));
            }
        }
    }
}

} // verus!
