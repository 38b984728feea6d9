//! What can be wrong with a `pgtoken.tokens` value or its column.

use vstd::prelude::*;

use crate::detok::DetokError;
use crate::header::Codec;
use crate::text::{decimal, push_decimal, push_signed, signed_decimal};
use crate::tokens::list::ListError;
use crate::value::ValueError;

verus! {

/// Why a value cannot be read, written or moved. Vocabularies are named by id; whoever shows the
/// message supplies their names.
#[derive(Debug, Clone, PartialEq, Eq)]
pub enum TokensError {
    List(ListError),
    Value(ValueError),
    Detok(DetokError),
    /// The input of the type is not text.
    NotUtf8,
    /// A typmod that names no vocabulary was to be applied.
    NoVocabularyTypmod,
    /// A value was read whose typmod was never applied.
    Unresolved,
    /// An assignment would reinterpret token ids under another vocabulary.
    CrossVocabulary { from: u16, to: u16 },
    /// An id that no width can hold.
    BeyondFormat(u32),
    NotRegistered(u16),
    OutsideVocabulary { id: u32, vocabulary: u16, size: u32 },
    NoRanking(u16),
    NoMapping(u16),
    /// A binary value of another vocabulary than the column's.
    WrongVocabulary { found: u16, column: u16 },
    /// A binary value of the column's vocabulary in another packing.
    WrongCodec { codec: Codec, column: u16, want: Codec },
    BadCursor { cursor: i32, total: i32 },
}

/// A vocabulary's name, or its id where the catalog has no row for it. That happens when a value
/// outlives the vocabulary it names, and while an error is being formatted in an already aborted
/// transaction.
pub open spec fn label(id: u16, name: Option<&str>) -> Seq<char> {
    match name {
        Some(n) => n@,
        None => decimal(id as nat),
    }
}

/// A vocabulary's name, or its id where the catalog has no row for it.
pub fn vocabulary_label(id: u16, name: Option<&str>) -> (s: String)
    ensures
        s@ == label(id, name),
{
    match name {
        Some(n) => n.to_owned(),
        None => {
            let mut s = String::new();
            push_decimal(&mut s, id as u128);
            assert(s@ =~= decimal(id as nat));
            s
        },
    }
}

impl TokensError {
    /// The vocabularies that the message names, in the order in which [`TokensError::message`]
    /// takes their names.
    pub fn vocabularies(&self) -> (r: (Option<u16>, Option<u16>))
        ensures
            r == self.named(),
    {
        match self {
            TokensError::CrossVocabulary { from, to } => (Some(*from), Some(*to)),
            TokensError::OutsideVocabulary { vocabulary, .. } => (Some(*vocabulary), None),
            TokensError::NoRanking(v) => (Some(*v), None),
            TokensError::NoMapping(v) => (Some(*v), None),
            TokensError::WrongVocabulary { found, column } => (Some(*found), Some(*column)),
            TokensError::WrongCodec { column, .. } => (Some(*column), None),
            _ => (None, None),
        }
    }

    /// The vocabularies that the message names.
    pub open spec fn named(self) -> (Option<u16>, Option<u16>) {
        match self {
            TokensError::CrossVocabulary { from, to } => (Some(from), Some(to)),
            TokensError::OutsideVocabulary { vocabulary, .. } => (Some(vocabulary), None),
            TokensError::NoRanking(v) => (Some(v), None),
            TokensError::NoMapping(v) => (Some(v), None),
            TokensError::WrongVocabulary { found, column } => (Some(found), Some(column)),
            TokensError::WrongCodec { column, .. } => (Some(column), None),
            _ => (None, None),
        }
    }

    /// The text of the error, given the names of the vocabularies in it.
    pub open spec fn text(self, first: Option<&str>, second: Option<&str>) -> Seq<char> {
        match self {
            TokensError::List(e) => e.text(),
            TokensError::Value(e) => e.text(),
            TokensError::Detok(e) => e.text(),
            TokensError::NotUtf8 => "token id input is not valid UTF-8"@,
            TokensError::NoVocabularyTypmod => "pgtoken.tokens requires a vocabulary"@,
            TokensError::Unresolved =>
                "cannot read a pgtoken.tokens value that has no vocabulary"@,
            TokensError::CrossVocabulary { from, to } => "cannot store "@ + label(from, first)
                + " token ids in a tokens('"@ + label(to, second) + "') column"@,
            TokensError::BeyondFormat(id) => "token id "@ + decimal(id as nat)
                + " exceeds the 16777215 this format can address"@,
            TokensError::NotRegistered(v) => "vocabulary id "@ + decimal(v as nat)
                + " is not registered"@,
            TokensError::OutsideVocabulary { id, vocabulary, size } => "token id "@ + decimal(
                id as nat,
            ) + " is outside vocabulary "@ + label(vocabulary, first) + " (size "@ + decimal(
                size as nat,
            ) + ")"@,
            TokensError::NoRanking(v) => "vocabulary "@ + label(v, first)
                + " has no ranking; run pgtoken.train first"@,
            TokensError::NoMapping(v) => "vocabulary "@ + label(v, first)
                + " has no mapping; run pgtoken.load_mapping first"@,
            TokensError::WrongVocabulary { found, column } => "binary value belongs to vocabulary "@
                + label(found, first) + ", but the column is "@ + label(column, second),
            TokensError::WrongCodec { codec, column, want } => "binary value is encoded "@
                + codec.name() + ", but vocabulary "@ + label(column, first) + " stores "@
                + want.name(),
            TokensError::BadCursor { cursor, total } => "binary buffer has cursor "@
                + signed_decimal(cursor as int) + " and length "@ + signed_decimal(total as int),
        }
    }

    /// The text of the error, given the names of the vocabularies in it.
    pub fn message(&self, first: Option<&str>, second: Option<&str>) -> (s: String)
        ensures
            s@ == self.text(first, second),
    {
        match self {
            TokensError::List(e) => e.message(),
            TokensError::Value(e) => e.message(),
            TokensError::Detok(e) => e.message(),
            TokensError::NotUtf8 => "token id input is not valid UTF-8".to_owned(),
            TokensError::NoVocabularyTypmod => "pgtoken.tokens requires a vocabulary".to_owned(),
            TokensError::Unresolved => {
                "cannot read a pgtoken.tokens value that has no vocabulary".to_owned()
            },
            TokensError::CrossVocabulary { from, to } => {
                let mut s = "cannot store ".to_owned();
                s.append(vocabulary_label(*from, first).as_str());
                s.append(" token ids in a tokens('");
                s.append(vocabulary_label(*to, second).as_str());
                s.append("') column");
                s
            },
            TokensError::BeyondFormat(id) => {
                let mut s = "token id ".to_owned();
                push_decimal(&mut s, *id as u128);
                s.append(" exceeds the 16777215 this format can address");
                s
            },
            TokensError::NotRegistered(v) => {
                let mut s = "vocabulary id ".to_owned();
                push_decimal(&mut s, *v as u128);
                s.append(" is not registered");
                s
            },
            TokensError::OutsideVocabulary { id, vocabulary, size } => {
                let mut s = "token id ".to_owned();
                push_decimal(&mut s, *id as u128);
                s.append(" is outside vocabulary ");
                s.append(vocabulary_label(*vocabulary, first).as_str());
                s.append(" (size ");
                push_decimal(&mut s, *size as u128);
                s.append(")");
                s
            },
            TokensError::NoRanking(v) => {
                let mut s = "vocabulary ".to_owned();
                s.append(vocabulary_label(*v, first).as_str());
                s.append(" has no ranking; run pgtoken.train first");
                s
            },
            TokensError::NoMapping(v) => {
                let mut s = "vocabulary ".to_owned();
                s.append(vocabulary_label(*v, first).as_str());
                s.append(" has no mapping; run pgtoken.load_mapping first");
                s
            },
            TokensError::WrongVocabulary { found, column } => {
                let mut s = "binary value belongs to vocabulary ".to_owned();
                s.append(vocabulary_label(*found, first).as_str());
                s.append(", but the column is ");
                s.append(vocabulary_label(*column, second).as_str());
                s
            },
            TokensError::WrongCodec { codec, column, want } => {
                let mut s = "binary value is encoded ".to_owned();
                s.append(codec.as_str());
                s.append(", but vocabulary ");
                s.append(vocabulary_label(*column, first).as_str());
                s.append(" stores ");
                s.append(want.as_str());
                s
            },
            TokensError::BadCursor { cursor, total } => {
                let mut s = "binary buffer has cursor ".to_owned();
                push_signed(&mut s, *cursor as i64);
                s.append(" and length ");
                push_signed(&mut s, *total as i64);
                s
            },
        }
    }

    /// Why it happened, where the message alone does not say.
    pub open spec fn detail_text(self) -> Option<Seq<char>> {
        match self {
            TokensError::NoVocabularyTypmod => Some(
                "A typmod is the only thing that supplies a vocabulary, and so a storage width. There is no default width to fall back to."@,
            ),
            TokensError::Unresolved => Some(
                "The value was written through a bare pgtoken.tokens, which declares no vocabulary and therefore no storage width, so it was stored unresolved."@,
            ),
            TokensError::CrossVocabulary { from, to } => Some(
                "An assignment will not reinterpret token ids under a different vocabulary. An explicit cast will, and says so at the call site."@,
            ),
            _ => None,
        }
    }

    /// Why it happened, where the message alone does not say.
    pub fn detail(&self) -> (r: Option<String>)
        ensures
            match r {
                Some(s) => self.detail_text() == Some(s@),
                None => self.detail_text() is None,
            },
    {
        match self {
            TokensError::NoVocabularyTypmod => Some(
                "A typmod is the only thing that supplies a vocabulary, and so a storage width. There is no default width to fall back to.".to_owned(),
            ),
            TokensError::Unresolved => Some(
                "The value was written through a bare pgtoken.tokens, which declares no vocabulary and therefore no storage width, so it was stored unresolved.".to_owned(),
            ),
            TokensError::CrossVocabulary { .. } => Some(
                "An assignment will not reinterpret token ids under a different vocabulary. An explicit cast will, and says so at the call site.".to_owned(),
            ),
            _ => None,
        }
    }

    /// What to do about it, where there is something to do. `target` is the name of the vocabulary
    /// that a value was to be moved to.
    pub open spec fn hint_text(self, target: Option<&str>) -> Option<Seq<char>> {
        match self {
            TokensError::Unresolved => Some(
                "Repair in place: ALTER TABLE t ALTER COLUMN x TYPE tokens.<name>. If the stored ids turn out to be wrong for that vocabulary, re-insert the rows instead."@,
            ),
            TokensError::CrossVocabulary { from, to } => Some(
                "token ids are only meaningful to the vocabulary that produced them; to reinterpret them anyway, cast explicitly: ALTER TABLE t ALTER COLUMN c TYPE tokens."@
                    + label(to, target) + " USING c::tokens."@ + label(to, target),
            ),
            _ => None,
        }
    }

    /// What to do about it, where there is something to do.
    pub fn hint(&self, target: Option<&str>) -> (r: Option<String>)
        ensures
            match r {
                Some(s) => self.hint_text(target) == Some(s@),
                None => self.hint_text(target) is None,
            },
    {
        match self {
            TokensError::Unresolved => Some(
                "Repair in place: ALTER TABLE t ALTER COLUMN x TYPE tokens.<name>. If the stored ids turn out to be wrong for that vocabulary, re-insert the rows instead.".to_owned(),
            ),
            TokensError::CrossVocabulary { to, .. } => {
                let name = vocabulary_label(*to, target);
                let mut s =
                    "token ids are only meaningful to the vocabulary that produced them; to reinterpret them anyway, cast explicitly: ALTER TABLE t ALTER COLUMN c TYPE tokens.".to_owned();
                s.append(name.as_str());
                s.append(" USING c::tokens.");
                s.append(name.as_str());
                Some(s)
            },
            _ => None,
        }
    }
}

/// Two errors of a kind read alike but for the details they give, and one that passes another on
/// reads as that does.
pub proof fn lemma_wording_of_tokens_error(
    a: TokensError,
    b: TokensError,
    first: Option<&str>,
    second: Option<&str>,
    other_first: Option<&str>,
    other_second: Option<&str>,
)
    ensures
        a is CrossVocabulary && b is CrossVocabulary ==> crate::text::same_wording_twice(
            a.text(first, second),
            (label(a->CrossVocabulary_from, first), label(a->CrossVocabulary_to, second)),
            b.text(other_first, other_second),
            (
                label(b->CrossVocabulary_from, other_first),
                label(b->CrossVocabulary_to, other_second),
            ),
        ),
        a is BeyondFormat && b is BeyondFormat ==> crate::text::same_wording(
            a.text(first, second),
            decimal(a->BeyondFormat_0 as nat),
            b.text(other_first, other_second),
            decimal(b->BeyondFormat_0 as nat),
        ),
        a is NotRegistered && b is NotRegistered ==> crate::text::same_wording(
            a.text(first, second),
            decimal(a->NotRegistered_0 as nat),
            b.text(other_first, other_second),
            decimal(b->NotRegistered_0 as nat),
        ),
        a is OutsideVocabulary && b is OutsideVocabulary ==> crate::text::same_wording_thrice(
            a.text(first, second),
            (
                decimal(a->OutsideVocabulary_id as nat),
                label(a->OutsideVocabulary_vocabulary, first),
                decimal(a->OutsideVocabulary_size as nat),
            ),
            b.text(other_first, other_second),
            (
                decimal(b->OutsideVocabulary_id as nat),
                label(b->OutsideVocabulary_vocabulary, other_first),
                decimal(b->OutsideVocabulary_size as nat),
            ),
        ),
        a is NoRanking && b is NoRanking ==> crate::text::same_wording(
            a.text(first, second),
            label(a->NoRanking_0, first),
            b.text(other_first, other_second),
            label(b->NoRanking_0, other_first),
        ),
        a is NoMapping && b is NoMapping ==> crate::text::same_wording(
            a.text(first, second),
            label(a->NoMapping_0, first),
            b.text(other_first, other_second),
            label(b->NoMapping_0, other_first),
        ),
        a is WrongVocabulary && b is WrongVocabulary ==> crate::text::same_wording_twice(
            a.text(first, second),
            (label(a->WrongVocabulary_found, first), label(a->WrongVocabulary_column, second)),
            b.text(other_first, other_second),
            (
                label(b->WrongVocabulary_found, other_first),
                label(b->WrongVocabulary_column, other_second),
            ),
        ),
        a is WrongCodec && b is WrongCodec ==> crate::text::same_wording_thrice(
            a.text(first, second),
            (
                a->WrongCodec_codec.name(),
                label(a->WrongCodec_column, first),
                a->WrongCodec_want.name(),
            ),
            b.text(other_first, other_second),
            (
                b->WrongCodec_codec.name(),
                label(b->WrongCodec_column, other_first),
                b->WrongCodec_want.name(),
            ),
        ),
        a is BadCursor && b is BadCursor ==> crate::text::same_wording_twice(
            a.text(first, second),
            (signed_decimal(a->BadCursor_cursor as int), signed_decimal(a->BadCursor_total as int)),
            b.text(other_first, other_second),
            (signed_decimal(b->BadCursor_cursor as int), signed_decimal(b->BadCursor_total as int)),
        ),
        a is List ==> a.text(first, second) == a->List_0.text(),
        a is Value ==> a.text(first, second) == a->Value_0.text(),
        a is Detok ==> a.text(first, second) == a->Detok_0.text(),
{
    if a is CrossVocabulary && b is CrossVocabulary {
        assert(crate::text::worded_twice(
            a.text(first, second),
            "cannot store "@,
            (label(a->CrossVocabulary_from, first), label(a->CrossVocabulary_to, second)),
            " token ids in a tokens('"@,
            "') column"@,
        ));
        assert(crate::text::worded_twice(
            b.text(other_first, other_second),
            "cannot store "@,
            (
                label(b->CrossVocabulary_from, other_first),
                label(b->CrossVocabulary_to, other_second),
            ),
            " token ids in a tokens('"@,
            "') column"@,
        ));
    }
    if a is BeyondFormat && b is BeyondFormat {
        assert(crate::text::worded(
            a.text(first, second),
            "token id "@,
            decimal(a->BeyondFormat_0 as nat),
            " exceeds the 16777215 this format can address"@,
        ));
        assert(crate::text::worded(
            b.text(other_first, other_second),
            "token id "@,
            decimal(b->BeyondFormat_0 as nat),
            " exceeds the 16777215 this format can address"@,
        ));
    }
    if a is NotRegistered && b is NotRegistered {
        assert(crate::text::worded(
            a.text(first, second),
            "vocabulary id "@,
            decimal(a->NotRegistered_0 as nat),
            " is not registered"@,
        ));
        assert(crate::text::worded(
            b.text(other_first, other_second),
            "vocabulary id "@,
            decimal(b->NotRegistered_0 as nat),
            " is not registered"@,
        ));
    }
    if a is OutsideVocabulary && b is OutsideVocabulary {
        assert(crate::text::worded_thrice(
            a.text(first, second),
            "token id "@,
            (
                decimal(a->OutsideVocabulary_id as nat),
                label(a->OutsideVocabulary_vocabulary, first),
                decimal(a->OutsideVocabulary_size as nat),
            ),
            " is outside vocabulary "@,
            " (size "@,
            ")"@,
        ));
        assert(crate::text::worded_thrice(
            b.text(other_first, other_second),
            "token id "@,
            (
                decimal(b->OutsideVocabulary_id as nat),
                label(b->OutsideVocabulary_vocabulary, other_first),
                decimal(b->OutsideVocabulary_size as nat),
            ),
            " is outside vocabulary "@,
            " (size "@,
            ")"@,
        ));
    }
    if a is NoRanking && b is NoRanking {
        assert(crate::text::worded(
            a.text(first, second),
            "vocabulary "@,
            label(a->NoRanking_0, first),
            " has no ranking; run pgtoken.train first"@,
        ));
        assert(crate::text::worded(
            b.text(other_first, other_second),
            "vocabulary "@,
            label(b->NoRanking_0, other_first),
            " has no ranking; run pgtoken.train first"@,
        ));
    }
    if a is NoMapping && b is NoMapping {
        assert(crate::text::worded(
            a.text(first, second),
            "vocabulary "@,
            label(a->NoMapping_0, first),
            " has no mapping; run pgtoken.load_mapping first"@,
        ));
        assert(crate::text::worded(
            b.text(other_first, other_second),
            "vocabulary "@,
            label(b->NoMapping_0, other_first),
            " has no mapping; run pgtoken.load_mapping first"@,
        ));
    }
    if a is WrongVocabulary && b is WrongVocabulary {
        assert(crate::text::worded_twice(
            a.text(first, second),
            "binary value belongs to vocabulary "@,
            (label(a->WrongVocabulary_found, first), label(a->WrongVocabulary_column, second)),
            ", but the column is "@,
            Seq::<char>::empty(),
        ));
        assert(crate::text::worded_twice(
            b.text(other_first, other_second),
            "binary value belongs to vocabulary "@,
            (
                label(b->WrongVocabulary_found, other_first),
                label(b->WrongVocabulary_column, other_second),
            ),
            ", but the column is "@,
            Seq::<char>::empty(),
        ));
    }
    if a is WrongCodec && b is WrongCodec {
        assert(crate::text::worded_thrice(
            a.text(first, second),
            "binary value is encoded "@,
            (
                a->WrongCodec_codec.name(),
                label(a->WrongCodec_column, first),
                a->WrongCodec_want.name(),
            ),
            ", but vocabulary "@,
            " stores "@,
            Seq::<char>::empty(),
        ));
        assert(crate::text::worded_thrice(
            b.text(other_first, other_second),
            "binary value is encoded "@,
            (
                b->WrongCodec_codec.name(),
                label(b->WrongCodec_column, other_first),
                b->WrongCodec_want.name(),
            ),
            ", but vocabulary "@,
            " stores "@,
            Seq::<char>::empty(),
        ));
    }
    if a is BadCursor && b is BadCursor {
        assert(crate::text::worded_twice(
            a.text(first, second),
            "binary buffer has cursor "@,
            (signed_decimal(a->BadCursor_cursor as int), signed_decimal(a->BadCursor_total as int)),
            " and length "@,
            Seq::<char>::empty(),
        ));
        assert(crate::text::worded_twice(
            b.text(other_first, other_second),
            "binary buffer has cursor "@,
            (signed_decimal(b->BadCursor_cursor as int), signed_decimal(b->BadCursor_total as int)),
            " and length "@,
            Seq::<char>::empty(),
        ));
    }
}

/// A vocabulary goes by its name where that is known, and otherwise by its id.
pub proof fn lemma_label(id: u16, name: &str)
    ensures
        label(id, Some(name)) == name@,
        label(id, None) == decimal(id as nat),
{
}

/// An error asks for the names of exactly the vocabularies that it speaks of, in the order in which
/// its text has them.
pub proof fn lemma_named_vocabularies(e: TokensError)
    ensures
        e is CrossVocabulary ==> e.named() == (Some(e->from), Some(e->to)),
        e is WrongVocabulary ==> e.named() == (Some(e->found), Some(e->WrongVocabulary_column)),
        e is OutsideVocabulary ==> e.named() == (Some(e->vocabulary), None::<u16>),
        e is NoRanking ==> e.named() == (Some(e->NoRanking_0), None::<u16>),
        e is NoMapping ==> e.named() == (Some(e->NoMapping_0), None::<u16>),
        e is WrongCodec ==> e.named() == (Some(e->WrongCodec_column), None::<u16>),
        e.named().0 is Some ==> e is CrossVocabulary || e is WrongVocabulary || e
            is OutsideVocabulary || e is NoRanking || e is NoMapping || e is WrongCodec,
{
}

/// A detail goes with the three errors that a missing or a different vocabulary gives, and is the
/// same for every one of a kind; a hint goes with the two that can be repaired, and names the column
/// that was meant.
pub proof fn lemma_details_and_hints(
    a: TokensError,
    b: TokensError,
    target: Option<&str>,
    other: Option<&str>,
)
    ensures
        a.detail_text() is Some <==> a is NoVocabularyTypmod || a is Unresolved || a
            is CrossVocabulary,
        a is NoVocabularyTypmod ==> a.detail_text() == Some(
            "A typmod is the only thing that supplies a vocabulary, and so a storage width. There is no default width to fall back to."@,
        ),
        a is Unresolved ==> a.detail_text() == Some(
            "The value was written through a bare pgtoken.tokens, which declares no vocabulary and therefore no storage width, so it was stored unresolved."@,
        ),
        a is CrossVocabulary ==> a.detail_text() == Some(
            "An assignment will not reinterpret token ids under a different vocabulary. An explicit cast will, and says so at the call site."@,
        ),
        a.hint_text(target) is Some <==> a is Unresolved || a is CrossVocabulary,
        a is Unresolved ==> a.hint_text(target) == Some(
            "Repair in place: ALTER TABLE t ALTER COLUMN x TYPE tokens.<name>. If the stored ids turn out to be wrong for that vocabulary, re-insert the rows instead."@,
        ),
        a is CrossVocabulary ==> a.hint_text(target) == Some(
            "token ids are only meaningful to the vocabulary that produced them; to reinterpret them anyway, cast explicitly: ALTER TABLE t ALTER COLUMN c TYPE tokens."@
                + label(a->to, target) + " USING c::tokens."@ + label(a->to, target),
        ),
        a is CrossVocabulary && b is CrossVocabulary ==> crate::text::same_wording_twice(
            a.hint_text(target)->0,
            (label(a->to, target), label(a->to, target)),
            b.hint_text(other)->0,
            (label(b->to, other), label(b->to, other)),
        ),
{
    if a is CrossVocabulary && b is CrossVocabulary {
        let p =
            "token ids are only meaningful to the vocabulary that produced them; to reinterpret them anyway, cast explicitly: ALTER TABLE t ALTER COLUMN c TYPE tokens."@;
        assert(crate::text::worded_twice(
            a.hint_text(target)->0,
            p,
            (label(a->to, target), label(a->to, target)),
            " USING c::tokens."@,
            Seq::<char>::empty(),
        ));
        assert(crate::text::worded_twice(
            b.hint_text(other)->0,
            p,
            (label(b->to, other), label(b->to, other)),
            " USING c::tokens."@,
            Seq::<char>::empty(),
        ));
    }
}

} // verus!
