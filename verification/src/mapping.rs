//! Loading a vocabulary's `token id -> bytes` mapping from rows.
//!
//! The rows are plain `id, bytes`. Every tokenizer-specific decoding step is resolved by whoever
//! exports them, which is what lets a mapping exist while the server has no tokenizer.

use vstd::prelude::*;

use crate::tables::map::{entries_of, map_bytes, n_mapped, pairs_fault, total_len};
use crate::tables::{ByteMap, TableError};
use crate::text::{debug_quoted, push_decimal, push_signed};
use crate::vocabulary::Vocabulary;

verus! {

/// A row of a mapping query.
pub type Row = (Option<i32>, Option<Vec<u8>>);

/// Why a mapping cannot be loaded.
#[derive(Debug, Clone, PartialEq, Eq)]
pub enum MappingError {
    DoesNotExist(String),
    AlreadyMapped(String),
    NoCatalogRow(String),
    Negative(i32),
    Null,
    NoRows,
    Table(TableError),
}

impl MappingError {
    /// The text of the error.
    pub open spec fn text(self) -> Seq<char> {
        match self {
            MappingError::DoesNotExist(n) => "vocabulary "@ + crate::text::debug_text(n@)
                + " does not exist"@,
            MappingError::AlreadyMapped(n) => "vocabulary "@ + n@ + " already has a mapping"@,
            MappingError::NoCatalogRow(n) => "vocabulary "@ + crate::text::debug_text(n@)
                + " has no catalog row"@,
            MappingError::Negative(v) => "token id "@ + crate::text::signed_decimal(v as int)
                + " is negative"@,
            MappingError::Null => "mapping rows must not contain NULL"@,
            MappingError::NoRows =>
                "mapping query returned no rows; it must return (int, bytea)"@,
            MappingError::Table(e) => e.text(),
        }
    }

    /// The text of the error.
    pub fn message(&self) -> (s: String)
        ensures
            s@ == self.text(),
    {
        match self {
            MappingError::DoesNotExist(n) => {
                let mut s = "vocabulary ".to_owned();
                s.append(debug_quoted(n.as_str()).as_str());
                s.append(" does not exist");
                s
            },
            MappingError::AlreadyMapped(n) => {
                let mut s = "vocabulary ".to_owned();
                s.append(n.as_str());
                s.append(" already has a mapping");
                s
            },
            MappingError::NoCatalogRow(n) => {
                let mut s = "vocabulary ".to_owned();
                s.append(debug_quoted(n.as_str()).as_str());
                s.append(" has no catalog row");
                s
            },
            MappingError::Negative(v) => {
                let mut s = "token id ".to_owned();
                push_signed(&mut s, *v as i64);
                s.append(" is negative");
                s
            },
            MappingError::Null => "mapping rows must not contain NULL".to_owned(),
            MappingError::NoRows => {
                "mapping query returned no rows; it must return (int, bytea)".to_owned()
            },
            MappingError::Table(e) => e.message(),
        }
    }
}

/// What is wrong with one row: a negative id counts before a missing part.
pub open spec fn row_fault(row: Row) -> Option<MappingError> {
    match row {
        (Some(i), _) if i < 0 => Some(MappingError::Negative(i)),
        (Some(i), Some(b)) => None,
        _ => Some(MappingError::Null),
    }
}

/// The first thing wrong with the rows, if anything is.
pub open spec fn rows_fault(rows: Seq<Row>) -> Option<MappingError>
    decreases rows.len(),
{
    if rows.len() == 0 {
        None
    } else {
        match rows_fault(rows.drop_last()) {
            Some(e) => Some(e),
            None => row_fault(rows.last()),
        }
    }
}

/// Whether `pairs` are the ids and bytes of sound rows.
pub open spec fn pairs_from(rows: Seq<Row>, pairs: Seq<(u32, Vec<u8>)>) -> bool {
    &&& pairs.len() == rows.len()
    &&& forall|i: int|
        0 <= i < rows.len() ==> (#[trigger] pairs[i]).0 == rows[i].0->0 as u32 && pairs[i].1@
            == rows[i].1->0@
}

/// How many bytes the rows hold together.
pub open spec fn rows_len(rows: Seq<Row>) -> nat
    decreases rows.len(),
{
    if rows.len() == 0 {
        0
    } else {
        rows_len(rows.drop_last()) + match rows.last().1 {
            Some(b) => b@.len(),
            None => 0,
        }
    }
}

/// How many bytes the rows hold together.
pub fn rows_total(rows: &Vec<Row>) -> (n: u128)
    ensures
        n == rows_len(rows@),
{
    let mut n: u128 = 0;
    let mut i: usize = 0;
    assert(rows@.take(0) =~= seq![]);
    while i < rows.len()
        invariant
            i <= rows@.len(),
            n == rows_len(rows@.take(i as int)),
            n <= i * usize::MAX,
        decreases rows@.len() - i,
    {
        proof {
            assert(rows@.take(i + 1).drop_last() =~= rows@.take(i as int));
            assert(i * usize::MAX + usize::MAX == (i + 1) * usize::MAX) by (nonlinear_arith);
            assert((i + 1) * usize::MAX <= usize::MAX * usize::MAX) by (nonlinear_arith)
                requires
                    i + 1 <= usize::MAX,
            ;
            assert(usize::MAX * usize::MAX <= u128::MAX) by (nonlinear_arith)
                requires
                    usize::MAX <= 0xFFFF_FFFF_FFFF_FFFF,
            ;
        }
        let len: usize = match &rows[i].1 {
            Some(b) => b.len(),
            None => 0,
        };
        n = n + len as u128;
        i += 1;
    }
    assert(rows@.take(i as int) =~= rows@);
    n
}

proof fn lemma_rows_fault_extends(rows: Seq<Row>, n: int)
    requires
        0 <= n <= rows.len(),
        rows_fault(rows.take(n)) is Some,
    ensures
        rows_fault(rows) == rows_fault(rows.take(n)),
    decreases rows.len(),
{
    if n == rows.len() {
        assert(rows.take(n) =~= rows);
    } else {
        assert(rows.drop_last().take(n) =~= rows.take(n));
        lemma_rows_fault_extends(rows.drop_last(), n);
    }
}

proof fn lemma_rows_len(rows: Seq<Row>, pairs: Seq<(u32, Vec<u8>)>)
    requires
        rows_fault(rows) is None,
        pairs_from(rows, pairs),
    ensures
        total_len(pairs) == rows_len(rows),
    decreases rows.len(),
{
    if rows.len() > 0 {
        let front = pairs.drop_last();
        assert forall|i: int| 0 <= i < rows.len() - 1 implies (#[trigger] front[i]).0
            == rows.drop_last()[i].0->0 as u32 && front[i].1@ == rows.drop_last()[i].1->0@ by {
            assert(front[i] == pairs[i]);
        }
        lemma_rows_len(rows.drop_last(), front);
        assert(pairs.last() == pairs[rows.len() - 1]);
    }
}

/// The ids and bytes of the rows.
pub fn pairs_from_rows(rows: Vec<Row>) -> (r: Result<Vec<(u32, Vec<u8>)>, MappingError>)
    ensures
        match r {
            Ok(pairs) => {
                &&& rows@.len() > 0
                &&& rows_fault(rows@) is None
                &&& pairs_from(rows@, pairs@)
            },
            Err(e) => if rows_fault(rows@) is Some {
                rows_fault(rows@) == Some(e)
            } else {
                rows@.len() == 0 && e == MappingError::NoRows
            },
        },
{
    let mut pairs: Vec<(u32, Vec<u8>)> = Vec::new();
    let mut i: usize = 0;
    while i < rows.len()
        invariant
            i <= rows@.len(),
            rows_fault(rows@.take(i as int)) is None,
            pairs_from(rows@.take(i as int), pairs@),
        decreases rows@.len() - i,
    {
        let ghost before = pairs@;
        proof {
            let next = rows@.take(i + 1);
            assert(next.drop_last() =~= rows@.take(i as int));
            assert(next.last() == rows@[i as int]);
            if row_fault(rows@[i as int]) is Some {
                lemma_rows_fault_extends(rows@, i + 1);
            }
        }
        match rows[i].0 {
            Some(id) => {
                if id < 0 {
                    return Err(MappingError::Negative(id));
                }
                match &rows[i].1 {
                    Some(b) => {
                        let bytes = b.clone();
                        assert(bytes@ =~= b@);
                        pairs.push((id as u32, bytes));
                    },
                    None => {
                        return Err(MappingError::Null);
                    },
                }
            },
            None => {
                return Err(MappingError::Null);
            },
        }
        proof {
            let next = rows@.take(i + 1);
            assert forall|j: int| 0 <= j < next.len() implies (#[trigger] pairs@[j]).0
                == next[j].0->0 as u32 && pairs@[j].1@ == next[j].1->0@ by {
                if j < i {
                    assert(pairs@[j] == before[j]);
                    assert(next[j] == rows@.take(i as int)[j]);
                }
            }
        }
        i += 1;
    }
    assert(rows@.take(i as int) =~= rows@);
    if pairs.len() == 0 {
        return Err(MappingError::NoRows);
    }
    Ok(pairs)
}

/// A mapping ready to be written.
#[derive(Debug, Clone, PartialEq, Eq)]
pub struct LoadedMapping {
    pub vocabulary_id: u16,
    pub bytes: Vec<u8>,
    /// What to tell whoever loaded it, once it is written.
    pub report: String,
}

/// What is reported of a mapping once it is written.
pub open spec fn mapping_report(mapped: nat, vocab_size: u32, name: Seq<char>) -> Seq<char> {
    "mapped "@ + crate::text::decimal(mapped) + " of "@ + crate::text::decimal(vocab_size as nat)
        + " ids for vocabulary "@ + name
}

/// Build a vocabulary's mapping from the rows of a query.
///
/// Write-once: text depends on the mapping, and an index on the text is only honest if the mapping
/// it reads can never change. `found` and `size` come from the catalog, `has_mapping` says whether
/// a mapping is on disk.
pub fn load_mapping(
    name: &str,
    found: Option<Vocabulary>,
    has_mapping: bool,
    size: Option<u32>,
    rows: Vec<Row>,
) -> (r: Result<LoadedMapping, MappingError>)
    requires
        found is Some && !has_mapping && size is Some && rows_fault(rows@) is None && (exists|
            pairs: Seq<(u32, Vec<u8>)>,
        | #[trigger]
            pairs_from(rows@, pairs) && pairs_fault(pairs, size->0) is None) ==> rows_len(rows@)
            <= u32::MAX,
    ensures
        if found is None {
            r matches Err(MappingError::DoesNotExist(n)) && n@ == name@
        } else if has_mapping {
            r matches Err(MappingError::AlreadyMapped(n)) && n@ == name@
        } else if size is None {
            r matches Err(MappingError::NoCatalogRow(n)) && n@ == name@
        } else if rows_fault(rows@) is Some {
            r == Err::<LoadedMapping, MappingError>(rows_fault(rows@)->0)
        } else if rows@.len() == 0 {
            r == Err::<LoadedMapping, MappingError>(MappingError::NoRows)
        } else {
            exists|pairs: Seq<(u32, Vec<u8>)>| #[trigger]
                pairs_from(rows@, pairs) && match pairs_fault(pairs, size->0) {
                    Some(e) => r == Err::<LoadedMapping, MappingError>(MappingError::Table(e)),
                    None => r matches Ok(m) && {
                        let entries = entries_of(pairs, size->0);
                        &&& m.vocabulary_id == found->0.id
                        &&& m.bytes@ == map_bytes(entries)
                        &&& m.report@ == mapping_report(n_mapped(entries), size->0, name@)
                    },
                }
        },
{
    let v = match found {
        Some(v) => v,
        None => {
            return Err(MappingError::DoesNotExist(name.to_owned()));
        },
    };
    if has_mapping {
        return Err(MappingError::AlreadyMapped(name.to_owned()));
    }
    let vocab_size: u32 = match size {
        Some(n) => n,
        None => {
            return Err(MappingError::NoCatalogRow(name.to_owned()));
        },
    };
    let ghost given = rows@;
    let pairs = match pairs_from_rows(rows) {
        Ok(p) => p,
        Err(e) => {
            return Err(e);
        },
    };
    proof {
        lemma_rows_len(given, pairs@);
        assert(pairs_from(given, pairs@));
    }
    let map = match ByteMap::build(pairs.as_slice(), vocab_size) {
        Ok(m) => m,
        Err(e) => {
            return Err(MappingError::Table(e));
        },
    };
    let mut report = "mapped ".to_owned();
    push_decimal(&mut report, map.mapped() as u128);
    report.append(" of ");
    push_decimal(&mut report, vocab_size as u128);
    report.append(" ids for vocabulary ");
    report.append(name);
    Ok(LoadedMapping { vocabulary_id: v.id, bytes: map.to_bytes(), report })
}

/// A row is whole if it has an id that is not negative, and bytes.
pub open spec fn is_whole(row: Row) -> bool {
    row.0 is Some && row.0->0 >= 0 && row.1 is Some
}

/// Rows are taken exactly where every row is whole, and otherwise refused for the first that is
/// not: for its id where that is negative, else for what is missing.
pub proof fn lemma_rows_checked(rows: Seq<Row>, i: int)
    requires
        0 <= i <= rows.len(),
        forall|j: int| 0 <= j < i ==> is_whole(#[trigger] rows[j]),
    ensures
        i == rows.len() ==> rows_fault(rows) is None,
        i < rows.len() && rows[i].0 is Some && rows[i].0->0 < 0 ==> rows_fault(rows) == Some(
            MappingError::Negative(rows[i].0->0),
        ),
        i < rows.len() && !(rows[i].0 is Some && rows[i].0->0 < 0) && (rows[i].0 is None
            || rows[i].1 is None) ==> rows_fault(rows) == Some(MappingError::Null),
{
    lemma_whole_rows(rows, i);
    if i < rows.len() {
        let upto = rows.take(i + 1);
        assert(upto.drop_last() =~= rows.take(i));
        assert(upto.last() == rows[i]);
        if !is_whole(rows[i]) {
            lemma_rows_fault_extends(rows, i + 1);
        }
    } else {
        assert(rows.take(i) =~= rows);
    }
}

proof fn lemma_whole_rows(rows: Seq<Row>, i: int)
    requires
        0 <= i <= rows.len(),
        forall|j: int| 0 <= j < i ==> is_whole(#[trigger] rows[j]),
    ensures
        rows_fault(rows.take(i)) is None,
    decreases i,
{
    if i > 0 {
        lemma_whole_rows(rows, i - 1);
        assert(rows.take(i).drop_last() =~= rows.take(i - 1));
        assert(is_whole(rows[i - 1]));
    }
}

proof fn lemma_sound_row(rows: Seq<Row>, i: int)
    requires
        rows_fault(rows) is None,
        0 <= i < rows.len(),
    ensures
        is_whole(rows[i]),
    decreases rows.len(),
{
    if i < rows.len() - 1 {
        assert(rows.drop_last()[i] == rows[i]);
        lemma_sound_row(rows.drop_last(), i);
    }
}

/// A loaded mapping is the rows: read back from the bytes that are written, it has for every row
/// the row's bytes under the row's own id, and bytes for no id that no row names.
pub proof fn lemma_loaded_mapping_is_the_rows(
    rows: Seq<Row>,
    pairs: Seq<(u32, Vec<u8>)>,
    vocab_size: u32,
    read: Seq<Seq<u8>>,
)
    requires
        rows_fault(rows) is None,
        rows_len(rows) <= u32::MAX,
        pairs_from(rows, pairs),
        pairs_fault(pairs, vocab_size) is None,
        read.len() <= u32::MAX,
        crate::tables::map::blob_of(read).len() <= u32::MAX,
        map_bytes(read) == map_bytes(entries_of(pairs, vocab_size)),
    ensures
        read.len() == vocab_size,
        forall|i: int|
            0 <= i < rows.len() ==> {
                let id = (#[trigger] rows[i]).0->0 as int;
                0 <= id < read.len() && read[id] == rows[i].1->0@ && read[id].len() > 0
            },
        forall|id: int|
            0 <= id < read.len() && (forall|i: int|
                0 <= i < rows.len() ==> (#[trigger] rows[i]).0->0 as int != id) ==> (
            #[trigger] read[id]).len() == 0,
{
    lemma_rows_len(rows, pairs);
    crate::tables::map::lemma_built_map_reads_back(pairs, vocab_size, read);
    assert forall|i: int| 0 <= i < rows.len() implies {
        let id = (#[trigger] rows[i]).0->0 as int;
        0 <= id < read.len() && read[id] == rows[i].1->0@ && read[id].len() > 0
    } by {
        lemma_sound_row(rows, i);
        assert(pairs[i].1@ == rows[i].1->0@);
        crate::tables::map::lemma_entries_are_the_pairs(pairs, vocab_size, pairs[i].0);
    }
    if pairs.len() == 0 {
        crate::tables::map::lemma_entries_are_the_pairs(pairs, vocab_size, 0);
    } else {
        crate::tables::map::lemma_entries_are_the_pairs(pairs, vocab_size, pairs[0].0);
    }
    assert forall|id: int|
        0 <= id < read.len() && (forall|i: int|
            0 <= i < rows.len() ==> (#[trigger] rows[i]).0->0 as int != id) implies (
    #[trigger] read[id]).len() == 0 by {
        assert forall|p: int| 0 <= p < pairs.len() implies (#[trigger] pairs[p]).0 != id as u32 by {
            lemma_sound_row(rows, p);
            assert(rows[p].0->0 as int != id);
        }
        crate::tables::map::lemma_entries_are_the_pairs(pairs, vocab_size, id as u32);
    }
}

/// Rows that are whole, name each id once, lie in the vocabulary and are not empty are loaded: no
/// such row is a reason to refuse them.
pub proof fn lemma_good_rows_load(
    rows: Seq<Row>,
    pairs: Seq<(u32, Vec<u8>)>,
    vocab_size: u32,
)
    requires
        pairs_from(rows, pairs),
        forall|i: int|
            0 <= i < rows.len() ==> is_whole(#[trigger] rows[i]) && rows[i].0->0 < vocab_size
                && rows[i].1->0@.len() > 0,
        forall|i: int, j: int|
            0 <= i < j < rows.len() ==> (#[trigger] rows[i]).0->0 != (#[trigger] rows[j]).0->0,
    ensures
        rows_fault(rows) is None,
        pairs_fault(pairs, vocab_size) is None,
{
    lemma_rows_checked(rows, rows.len() as int);
    assert forall|p: int| 0 <= p < pairs.len() implies #[trigger]
        crate::tables::map::pair_is_right(pairs, vocab_size, p) by {
        assert(is_whole(rows[p]));
        assert forall|q: int| 0 <= q < p implies (#[trigger] pairs[q]).0 != pairs[p].0 by {
            assert(is_whole(rows[q]));
            assert(rows[q].0->0 != rows[p].0->0);
        }
    }
    crate::tables::map::lemma_pairs_checked(pairs, vocab_size, pairs.len() as int);
}

/// Rows hold together what each of them holds.
pub proof fn lemma_rows_len_adds_up(a: Seq<Row>, b: Seq<Row>)
    ensures
        rows_len(a + b) == rows_len(a) + rows_len(b),
        rows_len(Seq::<Row>::empty()) == 0,
        b.len() == 1 ==> rows_len(b) == if b[0].1 is Some {
            b[0].1->0@.len()
        } else {
            0
        },
    decreases b.len(),
{
    if b.len() == 0 {
        assert(a + b =~= a);
    } else {
        lemma_rows_len_adds_up(a, b.drop_last());
        assert((a + b).drop_last() =~= a + b.drop_last());
        assert((a + b).last() == b.last());
        if b.len() == 1 {
            assert(b.drop_last() =~= seq![]);
        }
    }
}

/// Two errors of a kind read alike but for the details they give, and one that passes another on
/// reads as that does.
pub proof fn lemma_wording_of_mapping_error(a: MappingError, b: MappingError)
    ensures
        a is DoesNotExist && b is DoesNotExist ==> crate::text::same_wording(
            a.text(),
            crate::text::debug_text(a->DoesNotExist_0@),
            b.text(),
            crate::text::debug_text(b->DoesNotExist_0@),
        ),
        a is AlreadyMapped && b is AlreadyMapped ==> crate::text::same_wording(
            a.text(),
            a->AlreadyMapped_0@,
            b.text(),
            b->AlreadyMapped_0@,
        ),
        a is NoCatalogRow && b is NoCatalogRow ==> crate::text::same_wording(
            a.text(),
            crate::text::debug_text(a->NoCatalogRow_0@),
            b.text(),
            crate::text::debug_text(b->NoCatalogRow_0@),
        ),
        a is Negative && b is Negative ==> crate::text::same_wording(
            a.text(),
            crate::text::signed_decimal(a->Negative_0 as int),
            b.text(),
            crate::text::signed_decimal(b->Negative_0 as int),
        ),
        a is Table ==> a.text() == a->Table_0.text(),
{
    if a is DoesNotExist && b is DoesNotExist {
        assert(crate::text::worded(
            a.text(),
            "vocabulary "@,
            crate::text::debug_text(a->DoesNotExist_0@),
            " does not exist"@,
        ));
        assert(crate::text::worded(
            b.text(),
            "vocabulary "@,
            crate::text::debug_text(b->DoesNotExist_0@),
            " does not exist"@,
        ));
    }
    if a is AlreadyMapped && b is AlreadyMapped {
        assert(crate::text::worded(
            a.text(),
            "vocabulary "@,
            a->AlreadyMapped_0@,
            " already has a mapping"@,
        ));
        assert(crate::text::worded(
            b.text(),
            "vocabulary "@,
            b->AlreadyMapped_0@,
            " already has a mapping"@,
        ));
    }
    if a is NoCatalogRow && b is NoCatalogRow {
        assert(crate::text::worded(
            a.text(),
            "vocabulary "@,
            crate::text::debug_text(a->NoCatalogRow_0@),
            " has no catalog row"@,
        ));
        assert(crate::text::worded(
            b.text(),
            "vocabulary "@,
            crate::text::debug_text(b->NoCatalogRow_0@),
            " has no catalog row"@,
        ));
    }
    if a is Negative && b is Negative {
        assert(crate::text::worded(
            a.text(),
            "token id "@,
            crate::text::signed_decimal(a->Negative_0 as int),
            " is negative"@,
        ));
        assert(crate::text::worded(
            b.text(),
            "token id "@,
            crate::text::signed_decimal(b->Negative_0 as int),
            " is negative"@,
        ));
    }
}

/// Two reports read alike but for the counts and the name they give.
pub proof fn lemma_wording_of_report(
    mapped: nat,
    vocab_size: u32,
    name: Seq<char>,
    other_mapped: nat,
    other_size: u32,
    other_name: Seq<char>,
)
    ensures
        crate::text::same_wording_thrice(
            mapping_report(mapped, vocab_size, name),
            (crate::text::decimal(mapped), crate::text::decimal(vocab_size as nat), name),
            mapping_report(other_mapped, other_size, other_name),
            (
                crate::text::decimal(other_mapped),
                crate::text::decimal(other_size as nat),
                other_name,
            ),
        ),
{
    assert(crate::text::worded_thrice(
        mapping_report(mapped, vocab_size, name),
        "mapped "@,
        (crate::text::decimal(mapped), crate::text::decimal(vocab_size as nat), name),
        " of "@,
        " ids for vocabulary "@,
        Seq::<char>::empty(),
    ));
    assert(crate::text::worded_thrice(
        mapping_report(other_mapped, other_size, other_name),
        "mapped "@,
        (crate::text::decimal(other_mapped), crate::text::decimal(other_size as nat), other_name),
        " of "@,
        " ids for vocabulary "@,
        Seq::<char>::empty(),
    ));
}

} // verus!
