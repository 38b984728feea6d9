//! Casts into and out of `pgtoken.tokens`.
//!
//! `int[]` to tokens takes the target column's typmod, without which there would be no width to
//! encode at.

use vstd::prelude::*;

use crate::bytes::{signed32, to_signed32};
use crate::tables::RankTable;
use crate::text::push_signed;
use crate::tokens::{
    decode_value, encode_for, encode_for_fails, encodes_for, has_room, read_fault,
    require_vocabulary, vocabulary_fault, TokensError,
};
use crate::value::{ids_in, runs_through, tokens_in as ranked_in};

verus! {

/// Why an array holds no token ids.
#[derive(Debug, Clone, Copy, PartialEq, Eq, Structural)]
pub enum ArrayError {
    Null,
    Negative(i32),
}

impl ArrayError {
    /// The text of the error.
    pub open spec fn text(self) -> Seq<char> {
        match self {
            ArrayError::Null => "token id array must not contain NULL"@,
            ArrayError::Negative(v) => "token id "@ + crate::text::signed_decimal(v as int)
                + " is negative"@,
        }
    }

    /// The text of the error.
    pub fn message(&self) -> (s: String)
        ensures
            s@ == self.text(),
    {
        match self {
            ArrayError::Null => "token id array must not contain NULL".to_owned(),
            ArrayError::Negative(v) => {
                let mut s = "token id ".to_owned();
                push_signed(&mut s, *v as i64);
                s.append(" is negative");
                s
            },
        }
    }
}

/// What is wrong with one element.
pub open spec fn element_fault(o: Option<i32>) -> Option<ArrayError> {
    match o {
        None => Some(ArrayError::Null),
        Some(v) => if v < 0 {
            Some(ArrayError::Negative(v))
        } else {
            None
        },
    }
}

/// The first thing wrong with an array, if anything is.
pub open spec fn array_fault(a: Seq<Option<i32>>) -> Option<ArrayError>
    decreases a.len(),
{
    if a.len() == 0 {
        None
    } else {
        match array_fault(a.drop_last()) {
            Some(e) => Some(e),
            None => element_fault(a.last()),
        }
    }
}

/// The ids in an array that has nothing wrong with it.
pub open spec fn array_ids(a: Seq<Option<i32>>) -> Seq<u32> {
    Seq::new(a.len(), |i: int| a[i]->0 as u32)
}

proof fn lemma_array_fault_extends(a: Seq<Option<i32>>, n: int)
    requires
        0 <= n <= a.len(),
        array_fault(a.take(n)) is Some,
    ensures
        array_fault(a) == array_fault(a.take(n)),
    decreases a.len(),
{
    if n == a.len() {
        assert(a.take(n) =~= a);
    } else {
        assert(a.drop_last().take(n) =~= a.take(n));
        lemma_array_fault_extends(a.drop_last(), n);
    }
}

/// An array is accepted exactly where it holds numbers that are not negative, and nothing else.
pub proof fn lemma_array_sound(a: Seq<Option<i32>>)
    ensures
        array_fault(a) is None <==> forall|i: int|
            0 <= i < a.len() ==> (#[trigger] a[i]) is Some && a[i]->0 >= 0,
    decreases a.len(),
{
    if a.len() > 0 {
        let front = a.drop_last();
        lemma_array_sound(front);
        assert(forall|i: int| 0 <= i < front.len() ==> #[trigger] front[i] == a[i]);
        if array_fault(a) is None {
            assert forall|i: int| 0 <= i < a.len() implies (#[trigger] a[i]) is Some && a[i]->0
                >= 0 by {
                if i < front.len() {
                    assert(front[i] == a[i]);
                }
            }
        } else if array_fault(front) is Some {
            let i = choose|i: int|
                0 <= i < front.len() && !((#[trigger] front[i]) is Some && front[i]->0 >= 0);
            assert(a[i] == front[i]);
        } else {
            assert(a[a.len() - 1] == a.last());
        }
    }
}

/// SQL `int[]` to token ids. Rejects NULLs and negatives rather than coercing them, since either
/// would silently store a different sequence than the caller meant.
pub fn ids_from_sql(ids: Vec<Option<i32>>) -> (r: Result<Vec<u32>, ArrayError>)
    ensures
        match r {
            Ok(out) => array_fault(ids@) is None && out@ == array_ids(ids@),
            Err(e) => array_fault(ids@) == Some(e),
        },
{
    let mut out: Vec<u32> = Vec::with_capacity(ids.len());
    let mut i: usize = 0;
    while i < ids.len()
        invariant
            i <= ids@.len(),
            array_fault(ids@.take(i as int)) is None,
            out@ == array_ids(ids@.take(i as int)),
        decreases ids@.len() - i,
    {
        proof {
            assert(ids@.take(i + 1).drop_last() =~= ids@.take(i as int));
            if element_fault(ids@[i as int]) is Some {
                lemma_array_fault_extends(ids@, i + 1);
            }
        }
        match ids[i] {
            None => {
                return Err(ArrayError::Null);
            },
            Some(v) => {
                if v < 0 {
                    return Err(ArrayError::Negative(v));
                }
                out.push(v as u32);
            },
        }
        i += 1;
        assert(out@ =~= array_ids(ids@.take(i as int)));
    }
    assert(ids@.take(i as int) =~= ids@);
    Ok(out)
}

/// Token ids as SQL `int[]`: each one's 32 bits, taken as a signed number.
pub fn ids_to_sql(ids: &Vec<u32>) -> (out: Vec<i32>)
    ensures
        out@ == Seq::new(ids@.len(), |i: int| signed32(ids@[i] as nat)),
{
    let mut out: Vec<i32> = Vec::with_capacity(ids.len());
    let mut i: usize = 0;
    while i < ids.len()
        invariant
            i <= ids@.len(),
            out@ == Seq::new(i as nat, |j: int| signed32(ids@[j] as nat)),
        decreases ids@.len() - i,
    {
        out.push(to_signed32(ids[i] as u64));
        i += 1;
        assert(out@ =~= Seq::new(i as nat, |j: int| signed32(ids@[j] as nat)));
    }
    out
}

/// Ids that came from SQL go back as they came.
pub proof fn lemma_array_roundtrip(a: Seq<Option<i32>>)
    requires
        array_fault(a) is None,
    ensures
        Seq::new(a.len(), |i: int| signed32(array_ids(a)[i] as nat)) == Seq::new(a.len(), |i: int| a[i]->0),
{
    lemma_array_sound(a);
    assert forall|i: int| 0 <= i < a.len() implies signed32(
        array_ids(a)[i] as nat,
    ) == (#[trigger] a[i])->0 by {
        assert(a[i] is Some && a[i]->0 >= 0);
    }
    assert(Seq::new(a.len(), |i: int| signed32(array_ids(a)[i] as nat)) =~= Seq::new(
        a.len(),
        |i: int| a[i]->0,
    ));
}

/// Why an array cannot become a value.
#[derive(Debug, Clone, PartialEq, Eq)]
pub enum CastError {
    Array(ArrayError),
    Tokens(TokensError),
}

/// `int[]` to tokens, for a column of this typmod. `size` and `ranking` are those of its
/// vocabulary.
pub fn tokens_from_array(
    ids: Vec<Option<i32>>,
    typmod: i32,
    size: Option<u32>,
    ranking: Option<&RankTable>,
) -> (r: Result<Vec<u8>, CastError>)
    requires
        array_fault(ids@) is None ==> has_room(array_ids(ids@), typmod, size, ranked_in(ranking)),
    ensures
        match r {
            Ok(out) => array_fault(ids@) is None && encodes_for(
                array_ids(ids@),
                typmod,
                size,
                ranked_in(ranking),
                out@,
            ),
            Err(CastError::Array(e)) => array_fault(ids@) == Some(e),
            Err(CastError::Tokens(e)) => array_fault(ids@) is None && encode_for_fails(
                array_ids(ids@),
                typmod,
                size,
                ranked_in(ranking),
                e,
            ),
        },
{
    match ids_from_sql(ids) {
        Ok(ids) => match encode_for(ids.as_slice(), typmod, size, ranking) {
            Ok(out) => Ok(out),
            Err(e) => Err(CastError::Tokens(e)),
        },
        Err(e) => Err(CastError::Array(e)),
    }
}

/// Tokens to `int[]`. A value without a vocabulary is refused, as by every other way of reading
/// one.
pub fn tokens_to_array(v: &[u8], ranking: Option<&RankTable>) -> (r: Result<Vec<i32>, TokensError>)
    requires
        ranking is Some ==> runs_through(v@),
    ensures
        match r {
            Ok(out) => {
                let ids = ids_in(v@, ranked_in(ranking));
                &&& vocabulary_fault(v@) is None
                &&& read_fault(v@, ranked_in(ranking)) is None
                &&& out@ == Seq::new(ids.len(), |i: int| signed32(ids[i] as nat))
            },
            Err(e) => if vocabulary_fault(v@) is Some {
                vocabulary_fault(v@) == Some(e)
            } else {
                read_fault(v@, ranked_in(ranking)) == Some(e)
            },
        },
{
    match require_vocabulary(v) {
        Ok(()) => {},
        Err(e) => {
            return Err(e);
        },
    }
    match decode_value(v, ranking) {
        Ok(ids) => Ok(ids_to_sql(&ids)),
        Err(e) => Err(e),
    }
}

/// An array is taken as its numbers, and otherwise refused for its first element that is null or
/// negative.
pub proof fn lemma_array_outcome(a: Seq<Option<i32>>, i: int)
    requires
        0 <= i <= a.len(),
        forall|j: int| 0 <= j < i ==> (#[trigger] a[j]) is Some && a[j]->0 >= 0,
    ensures
        i == a.len() ==> array_fault(a) is None,
        i < a.len() && a[i] is None ==> array_fault(a) == Some(ArrayError::Null),
        i < a.len() && a[i] is Some && a[i]->0 < 0 ==> array_fault(a) == Some(
            ArrayError::Negative(a[i]->0),
        ),
        array_ids(a).len() == a.len(),
        forall|j: int| 0 <= j < i ==> (#[trigger] array_ids(a)[j]) as int == a[j]->0,
{
    let upto = a.take(i);
    assert forall|j: int| 0 <= j < upto.len() implies (#[trigger] upto[j]) is Some && upto[j]->0
        >= 0 by {
        assert(upto[j] == a[j]);
    }
    lemma_array_sound(upto);
    if i == a.len() {
        assert(upto =~= a);
    } else if a[i] is None || a[i]->0 < 0 {
        let more = a.take(i + 1);
        assert(more.drop_last() =~= upto);
        assert(more.last() == a[i]);
        lemma_array_fault_extends(a, i + 1);
    }
}

/// Two errors of a kind read alike but for the details they give.
pub proof fn lemma_wording_of_array_error(a: ArrayError, b: ArrayError)
    ensures
        a is Negative && b is Negative ==> crate::text::same_wording(
            a.text(),
            crate::text::signed_decimal(a->Negative_0 as int),
            b.text(),
            crate::text::signed_decimal(b->Negative_0 as int),
        ),
{
    if a is Negative && b is Negative {
        assert(crate::text::worded(
            a.text(),
            "token id "@,
            crate::text::signed_decimal(a->Negative_0 as int),
            " is negative"@,
        ));
        assert(crate::text::worded(
            b.text(),
            "token id "@,
            crate::text::signed_decimal(b->Negative_0 as int),
            " is negative"@,
        ));
    }
}

} // verus!
