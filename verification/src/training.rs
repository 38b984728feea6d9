//! Training a ranking from the rows of a query.
//!
//! The ranking holds only the tokens the query actually contained, so nothing needs to declare a
//! vocabulary size. Tokens it never saw still encode losslessly, just a little wider.

use vstd::prelude::*;

use crate::tables::rank::{capped, rank_bytes, ranking, ranks_all};
use crate::tables::RankTable;
use crate::text::{decimal, push_decimal};

verus! {

/// The elements of an array that are token ids: those that are there and not negative.
pub open spec fn kept(a: Seq<Option<i32>>) -> Seq<u32>
    decreases a.len(),
{
    if a.len() == 0 {
        seq![]
    } else {
        match a.last() {
            Some(v) if v >= 0 => kept(a.drop_last()).push(v as u32),
            _ => kept(a.drop_last()),
        }
    }
}

/// The token ids of all rows, one row after the other.
pub open spec fn training_ids(rows: Seq<Option<Vec<Option<i32>>>>) -> Seq<u32>
    decreases rows.len(),
{
    if rows.len() == 0 {
        seq![]
    } else {
        match rows.last() {
            Some(a) => training_ids(rows.drop_last()) + kept(a@),
            None => training_ids(rows.drop_last()),
        }
    }
}

/// How many rows hold an array.
pub open spec fn filled_rows(rows: Seq<Option<Vec<Option<i32>>>>) -> nat
    decreases rows.len(),
{
    if rows.len() == 0 {
        0
    } else {
        filled_rows(rows.drop_last()) + if rows.last() is Some {
            1nat
        } else {
            0
        }
    }
}

/// The cap that `max_ranks` states; a negative number states none.
pub open spec fn cap_of(max_ranks: i32) -> Option<usize> {
    if max_ranks < 0 {
        None
    } else {
        Some(max_ranks as usize)
    }
}

fn push_kept(out: &mut Vec<u32>, a: &Vec<Option<i32>>)
    ensures
        final(out)@ == old(out)@ + kept(a@),
{
    let mut i: usize = 0;
    assert(out@ =~= old(out)@ + kept(a@.take(0)));
    while i < a.len()
        invariant
            i <= a@.len(),
            out@ == old(out)@ + kept(a@.take(i as int)),
        decreases a@.len() - i,
    {
        proof {
            assert(a@.take(i + 1).drop_last() =~= a@.take(i as int));
        }
        match a[i] {
            Some(v) => {
                if v >= 0 {
                    out.push(v as u32);
                }
            },
            None => {},
        }
        assert(out@ =~= old(out)@ + kept(a@.take(i + 1)));
        i += 1;
    }
    assert(a@.take(i as int) =~= a@);
}

/// The token ids of all rows, and how many rows there were.
pub fn collect_ids(rows: &Vec<Option<Vec<Option<i32>>>>) -> (r: (Vec<u32>, usize))
    ensures
        r.0@ == training_ids(rows@),
        r.1 == filled_rows(rows@),
{
    let mut ids: Vec<u32> = Vec::new();
    let mut filled: usize = 0;
    let mut i: usize = 0;
    assert(rows@.take(0) =~= seq![]);
    while i < rows.len()
        invariant
            i <= rows@.len(),
            ids@ == training_ids(rows@.take(i as int)),
            filled == filled_rows(rows@.take(i as int)),
            filled <= i,
        decreases rows@.len() - i,
    {
        proof {
            assert(rows@.take(i + 1).drop_last() =~= rows@.take(i as int));
        }
        match &rows[i] {
            Some(a) => {
                push_kept(&mut ids, a);
                filled += 1;
            },
            None => {},
        }
        i += 1;
    }
    assert(rows@.take(i as int) =~= rows@);
    (ids, filled)
}

/// A ranking ready to be written.
#[derive(Debug, Clone, PartialEq, Eq)]
pub struct Trained {
    pub bytes: Vec<u8>,
    pub rows: usize,
    pub tokens: usize,
    pub ranked: u32,
}

/// Training found nothing to rank.
#[derive(Debug, Clone, Copy, PartialEq, Eq, Structural)]
pub struct NoTokenIds;

impl NoTokenIds {
    /// The text of the error.
    pub fn message(&self) -> (s: String)
        ensures
            s@
                == "training query returned no token ids; the query must return int[] columns"@,
    {
        "training query returned no token ids; the query must return int[] columns".to_owned()
    }
}

/// Train a ranking on the rows of a query, with a cap on how many tokens get ranked. A negative
/// cap is none.
pub fn train(rows: &Vec<Option<Vec<Option<i32>>>>, max_ranks: i32) -> (r: Result<
    Trained,
    NoTokenIds,
>)
    ensures
        match r {
            Ok(t) => {
                let ids = training_ids(rows@);
                let tokens = capped(ranking(ids), cap_of(max_ranks));
                &&& ids.len() > 0
                &&& ranks_all(ids, ranking(ids))
                &&& t.bytes@ == rank_bytes(tokens)
                &&& t.ranked == crate::bytes::low32(tokens.len())
                &&& t.tokens == ids.len()
                &&& t.rows == filled_rows(rows@)
            },
            Err(_) => training_ids(rows@).len() == 0,
        },
{
    let cap: Option<usize> = if max_ranks < 0 {
        None
    } else {
        Some(max_ranks as usize)
    };
    let (ids, filled) = collect_ids(rows);
    match RankTable::train(ids.as_slice(), cap) {
        Ok(table) => Ok(
            Trained {
                bytes: table.to_bytes(),
                rows: filled,
                tokens: ids.len(),
                ranked: table.k(),
            },
        ),
        Err(_) => Err(NoTokenIds),
    }
}

/// What is reported of a ranking once it is written to `path`.
pub fn train_report(vocabulary_id: u16, trained: &Trained, path: &str) -> (s: String)
    ensures
        s@ == "trained table "@ + decimal(vocabulary_id as nat) + " on "@ + decimal(
            trained.rows as nat,
        ) + " rows / "@ + decimal(trained.tokens as nat) + " tokens, "@ + decimal(
            trained.ranked as nat,
        ) + " ranked -> "@ + path@,
{
    let mut s = "trained table ".to_owned();
    push_decimal(&mut s, vocabulary_id as u128);
    s.append(" on ");
    push_decimal(&mut s, trained.rows as u128);
    s.append(" rows / ");
    push_decimal(&mut s, trained.tokens as u128);
    s.append(" tokens, ");
    push_decimal(&mut s, trained.ranked as u128);
    s.append(" ranked -> ");
    s.append(path);
    s
}

/// How often `id` stands in an array.
pub open spec fn standing(a: Seq<Option<i32>>, id: i32) -> nat {
    a.to_multiset().count(Some(id))
}

/// How often `id` stands in the arrays of all rows together.
pub open spec fn standing_in_rows(rows: Seq<Option<Vec<Option<i32>>>>, id: i32) -> nat
    decreases rows.len(),
{
    if rows.len() == 0 {
        0
    } else {
        match rows[0] {
            Some(a) => standing(a@, id) + standing_in_rows(rows.drop_first(), id),
            None => standing_in_rows(rows.drop_first(), id),
        }
    }
}

/// Of one array, the training ids are its elements that are neither null nor negative, in order.
pub proof fn lemma_kept_is_filtered(a: Seq<Option<i32>>)
    ensures
        kept(a) == a.filter(|o: Option<i32>| o is Some && o->0 >= 0).map_values(
            |o: Option<i32>| o->0 as u32,
        ),
    decreases a.len(),
{
    reveal(Seq::filter);
    let there = |o: Option<i32>| o is Some && o->0 >= 0;
    let id = |o: Option<i32>| o->0 as u32;
    if a.len() > 0 {
        lemma_kept_is_filtered(a.drop_last());
        let rest = a.drop_last().filter(there);
        assert(rest.push(a.last()).map_values(id) =~= rest.map_values(id).push(id(a.last())));
    } else {
        assert(kept(a) =~= a.filter(there).map_values(id));
    }
}

proof fn lemma_kept_count(a: Seq<Option<i32>>, id: i32)
    requires
        id >= 0,
    ensures
        kept(a).to_multiset().count(id as u32) == standing(a, id),
    decreases a.len(),
{
    broadcast use vstd::multiset::group_multiset_axioms;

    kept(a).to_multiset_ensures();
    a.to_multiset_ensures();
    if a.len() > 0 {
        let front = a.drop_last();
        lemma_kept_count(front, id);
        vstd::seq_lib::to_multiset_build(front, a.last());
        assert(front.push(a.last()) =~= a);
        if a.last() is Some && a.last()->0 >= 0 {
            vstd::seq_lib::to_multiset_build(kept(front), a.last()->0 as u32);
        }
    }
}

/// The ids of rows one behind the other are the ids of the one, then those of the other. A row
/// without an array adds none.
pub proof fn lemma_rows_one_after_another(
    a: Seq<Option<Vec<Option<i32>>>>,
    b: Seq<Option<Vec<Option<i32>>>>,
)
    ensures
        training_ids(a + b) == training_ids(a) + training_ids(b),
        filled_rows(a + b) == filled_rows(a) + filled_rows(b),
        b.len() == 1 ==> training_ids(b) == match b[0] {
            Some(x) => kept(x@),
            None => Seq::<u32>::empty(),
        },
    decreases b.len(),
{
    if b.len() == 0 {
        assert(a + b =~= a);
        assert(training_ids(a) + training_ids(b) =~= training_ids(a));
    } else {
        let front = b.drop_last();
        lemma_rows_one_after_another(a, front);
        assert((a + b).drop_last() =~= a + front);
        assert((a + b).last() == b.last());
        assert(training_ids(a + b) =~= training_ids(a) + training_ids(b));
        if b.len() == 1 {
            assert(front =~= seq![]);
            assert(b.last() == b[0]);
            match b[0] {
                Some(x) => {
                    assert(training_ids(b) =~= kept(x@));
                },
                None => {},
            }
        }
    }
}

/// Training counts what the rows hold: every id that is not negative occurs among the training ids
/// as often as it stands in the rows' arrays, id 0 no less than any other.
pub proof fn lemma_training_counts_the_rows(rows: Seq<Option<Vec<Option<i32>>>>, id: i32)
    requires
        id >= 0,
    ensures
        training_ids(rows).to_multiset().count(id as u32) == standing_in_rows(rows, id),
        crate::tables::rank::occurrences(training_ids(rows), id as u32) == standing_in_rows(
            rows,
            id,
        ),
    decreases rows.len(),
{
    broadcast use vstd::multiset::group_multiset_axioms;

    training_ids(rows).to_multiset_ensures();
    crate::tables::rank::lemma_occurrences_count(training_ids(rows), id as u32);
    if rows.len() > 0 {
        let first = rows.take(1);
        let rest = rows.drop_first();
        assert(first + rest =~= rows);
        lemma_rows_one_after_another(first, rest);
        lemma_rows_one_after_another(seq![], first);
        lemma_training_counts_the_rows(rest, id);
        vstd::seq_lib::lemma_multiset_commutative(training_ids(first), training_ids(rest));
        match rows[0] {
            Some(a) => {
                lemma_kept_count(a@, id);
            },
            None => {
                training_ids(first).to_multiset_ensures();
            },
        }
    }
}

/// Training ids are what the rows hold and nothing else: none is larger than SQL's integers.
pub proof fn lemma_training_ids_come_from_rows(rows: Seq<Option<Vec<Option<i32>>>>, i: int)
    requires
        0 <= i < training_ids(rows).len(),
    ensures
        training_ids(rows)[i] <= i32::MAX,
        exists|r: int, j: int|
            0 <= r < rows.len() && (#[trigger] rows[r]) is Some && 0 <= j < rows[r]->0@.len()
                && #[trigger] rows[r]->0@[j] == Some(training_ids(rows)[i] as i32),
    decreases rows.len(),
{
    let front = rows.drop_last();
    let n = training_ids(front).len();
    if i < n {
        lemma_training_ids_come_from_rows(front, i);
        let (r, j) = choose|r: int, j: int|
            0 <= r < front.len() && (#[trigger] front[r]) is Some && 0 <= j < front[r]->0@.len()
                && #[trigger] front[r]->0@[j] == Some(training_ids(front)[i] as i32);
        assert(rows[r] == front[r]);
        assert(rows[r]->0@[j] == Some(training_ids(rows)[i] as i32));
    } else {
        let a = rows.last()->0@;
        lemma_kept_from_array(a, i - n);
        let j = choose|j: int|
            0 <= j < a.len() && #[trigger] a[j] == Some(kept(a)[i - n] as i32);
        assert(rows[rows.len() - 1] is Some);
        assert(rows[rows.len() - 1]->0@[j] == Some(training_ids(rows)[i] as i32));
    }
}

proof fn lemma_kept_from_array(a: Seq<Option<i32>>, i: int)
    requires
        0 <= i < kept(a).len(),
    ensures
        kept(a)[i] <= i32::MAX,
        exists|j: int| 0 <= j < a.len() && #[trigger] a[j] == Some(kept(a)[i] as i32),
    decreases a.len(),
{
    let front = a.drop_last();
    if i < kept(front).len() {
        lemma_kept_from_array(front, i);
        let j = choose|j: int|
            0 <= j < front.len() && #[trigger] front[j] == Some(kept(front)[i] as i32);
        assert(a[j] == Some(kept(a)[i] as i32));
    } else {
        assert(a[a.len() - 1] == Some(kept(a)[i] as i32));
    }
}

/// As many rows are counted as hold an array, and a cap is the number that was given; a negative
/// one is none.
pub proof fn lemma_rows_and_cap(rows: Seq<Option<Vec<Option<i32>>>>, max_ranks: i32)
    ensures
        filled_rows(rows) == rows.filter(|r: Option<Vec<Option<i32>>>| r is Some).len(),
        max_ranks < 0 ==> cap_of(max_ranks) is None,
        max_ranks >= 0 ==> cap_of(max_ranks) is Some && cap_of(max_ranks)->0 == max_ranks,
    decreases rows.len(),
{
    reveal(Seq::filter);
    if rows.len() > 0 {
        lemma_rows_and_cap(rows.drop_last(), max_ranks);
    }
}

} // verus!
