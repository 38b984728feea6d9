//! Named vocabularies: the declared id space a column's tokens belong to.
//!
//! A vocabulary is the only source of a storage width. `vocab_size` declares how many token ids
//! the tokenizer has; the width is the narrowest packing that can address them. Nothing inspects
//! the data to choose a width, which is what makes a column's stride uniform.
//!
//! Immutable by construction: stored values reference a vocabulary id, so changing what an id
//! means would change what existing rows decode to.

use vstd::prelude::*;

use crate::bytes::{le_limit, signed32, to_low16, to_low8, to_signed32};
use crate::registry::ArtefactInfo;
use crate::text::{chars_of, debug_quoted, push_signed, same_text};

verus! {

/// Compression method, as stored in the catalog and packed into a typmod.
pub const COMPRESSION_RAW: u8 = 0;

pub const COMPRESSION_FREQ: u8 = 1;

/// Widest packing the format can address: `raw24`. A `vocab_size` needing 4 bytes would need a
/// `raw32` codec, which does not exist because no tokenizer approaches 16.7M tokens.
pub const MAX_VOCAB_SIZE: i64 = 16_777_216;

/// What a typmod needs of a vocabulary.
#[derive(Debug, Clone, Copy, PartialEq, Eq, Structural)]
pub struct Vocabulary {
    pub id: u16,
    pub compression: u8,
    pub width: u8,
}

impl Vocabulary {
    /// Whether this build can store values of the vocabulary: every compression but `freq` needs
    /// a raw codec of its width.
    pub open spec fn storable(self) -> bool {
        self.compression == COMPRESSION_FREQ || 1 <= self.width <= 3
    }

    /// Whether this build can store values of the vocabulary.
    pub fn is_storable(self) -> (r: bool)
        ensures
            r == self.storable(),
    {
        self.compression == COMPRESSION_FREQ || (1 <= self.width && self.width <= 3)
    }
}

/// Why a vocabulary cannot be declared, resolved, described or dropped.
#[derive(Debug, Clone, PartialEq, Eq)]
pub enum VocabularyError {
    SizeTooSmall,
    SizeTooLarge(i32),
    BadName(String),
    UnknownCompression(String),
    AlreadyExists(String),
    NameReserved(String),
    IdOutOfRange(i32),
    /// An artefact file is left over from a vocabulary that is gone.
    ArtefactExists { id: i32, path: String },
    /// No id is free from `start` on, in the artefact directory `dir`.
    NoFreeId { start: i32, dir: String },
    DoesNotExist(String),
    AlreadyDropped(String),
    NoCatalogRow(String),
    UnreadableRanking { name: String, path: String, cause: String },
    UnreadableMapping { name: String, path: String, cause: String },
}

impl VocabularyError {
    /// The text of the error.
    pub open spec fn text(self) -> Seq<char> {
        match self {
            VocabularyError::SizeTooSmall => "vocab_size is required and must be at least 1"@,
            VocabularyError::SizeTooLarge(n) => "vocab_size "@ + crate::text::signed_decimal(
                n as int,
            ) + " exceeds the 16777216 this format can address"@,
            VocabularyError::BadName(n) => "vocabulary name "@ + crate::text::debug_text(n@)
                + " may not contain quotes or backslashes"@,
            VocabularyError::UnknownCompression(n) => "unknown compression "@
                + crate::text::debug_text(n@) + "; expected 'raw' or 'freq'"@,
            VocabularyError::AlreadyExists(n) => "vocabulary "@ + crate::text::debug_text(n@)
                + " already exists"@,
            VocabularyError::NameReserved(n) => "vocabulary "@ + crate::text::debug_text(n@)
                + " was dropped and its name is permanently reserved: stored values may still reference its id, so neither the id nor the name can be recycled; pick a different name"@,
            VocabularyError::IdOutOfRange(v) => "vocabulary id "@ + crate::text::signed_decimal(
                v as int,
            ) + " is out of range (1..65535)"@,
            VocabularyError::ArtefactExists { id, path } => "vocabulary id "@
                + crate::text::signed_decimal(id as int) + " already has an artefact file at "@
                + path@
                + ", left over from a vocabulary that was rolled back or dropped: artefact files are written outside the transaction, so they outlive the catalog row that ordered them. A vocabulary created here would inherit it; remove the file if nothing references it, or pick another id"@,
            VocabularyError::NoFreeId { start, dir } => "no vocabulary id is free: every id from "@
                + crate::text::signed_decimal(start as int)
                + " to 65535 already has an artefact file in "@ + dir@,
            VocabularyError::DoesNotExist(n) => "vocabulary "@ + crate::text::debug_text(n@)
                + " does not exist"@,
            VocabularyError::AlreadyDropped(n) => "vocabulary "@ + crate::text::debug_text(n@)
                + " was already dropped; its id stays reserved forever and cannot be dropped again"@,
            VocabularyError::NoCatalogRow(n) => "vocabulary "@ + crate::text::debug_text(n@)
                + " has no catalog row"@,
            VocabularyError::UnreadableRanking { name, path, cause } => "vocabulary "@
                + crate::text::debug_text(name@) + " has a ranking file at "@ + path@
                + " but it could not be read: "@ + cause@,
            VocabularyError::UnreadableMapping { name, path, cause } => "vocabulary "@
                + crate::text::debug_text(name@) + " has a mapping file at "@ + path@
                + " but it could not be read: "@ + cause@,
        }
    }

    /// The text of the error.
    pub fn message(&self) -> (s: String)
        ensures
            s@ == self.text(),
    {
        match self {
            VocabularyError::SizeTooSmall => {
                "vocab_size is required and must be at least 1".to_owned()
            },
            VocabularyError::SizeTooLarge(n) => {
                let mut s = "vocab_size ".to_owned();
                push_signed(&mut s, *n as i64);
                s.append(" exceeds the 16777216 this format can address");
                s
            },
            VocabularyError::BadName(n) => {
                let mut s = "vocabulary name ".to_owned();
                s.append(debug_quoted(n.as_str()).as_str());
                s.append(" may not contain quotes or backslashes");
                s
            },
            VocabularyError::UnknownCompression(n) => {
                let mut s = "unknown compression ".to_owned();
                s.append(debug_quoted(n.as_str()).as_str());
                s.append("; expected 'raw' or 'freq'");
                s
            },
            VocabularyError::AlreadyExists(n) => {
                let mut s = "vocabulary ".to_owned();
                s.append(debug_quoted(n.as_str()).as_str());
                s.append(" already exists");
                s
            },
            VocabularyError::NameReserved(n) => {
                let mut s = "vocabulary ".to_owned();
                s.append(debug_quoted(n.as_str()).as_str());
                s.append(
                    " was dropped and its name is permanently reserved: stored values may still reference its id, so neither the id nor the name can be recycled; pick a different name",
                );
                s
            },
            VocabularyError::IdOutOfRange(v) => {
                let mut s = "vocabulary id ".to_owned();
                push_signed(&mut s, *v as i64);
                s.append(" is out of range (1..65535)");
                s
            },
            VocabularyError::ArtefactExists { id, path } => {
                let mut s = "vocabulary id ".to_owned();
                push_signed(&mut s, *id as i64);
                s.append(" already has an artefact file at ");
                s.append(path.as_str());
                s.append(
                    ", left over from a vocabulary that was rolled back or dropped: artefact files are written outside the transaction, so they outlive the catalog row that ordered them. A vocabulary created here would inherit it; remove the file if nothing references it, or pick another id",
                );
                s
            },
            VocabularyError::NoFreeId { start, dir } => {
                let mut s = "no vocabulary id is free: every id from ".to_owned();
                push_signed(&mut s, *start as i64);
                s.append(" to 65535 already has an artefact file in ");
                s.append(dir.as_str());
                s
            },
            VocabularyError::DoesNotExist(n) => {
                let mut s = "vocabulary ".to_owned();
                s.append(debug_quoted(n.as_str()).as_str());
                s.append(" does not exist");
                s
            },
            VocabularyError::AlreadyDropped(n) => {
                let mut s = "vocabulary ".to_owned();
                s.append(debug_quoted(n.as_str()).as_str());
                s.append(
                    " was already dropped; its id stays reserved forever and cannot be dropped again",
                );
                s
            },
            VocabularyError::NoCatalogRow(n) => {
                let mut s = "vocabulary ".to_owned();
                s.append(debug_quoted(n.as_str()).as_str());
                s.append(" has no catalog row");
                s
            },
            VocabularyError::UnreadableRanking { name, path, cause } => {
                let mut s = "vocabulary ".to_owned();
                s.append(debug_quoted(name.as_str()).as_str());
                s.append(" has a ranking file at ");
                s.append(path.as_str());
                s.append(" but it could not be read: ");
                s.append(cause.as_str());
                s
            },
            VocabularyError::UnreadableMapping { name, path, cause } => {
                let mut s = "vocabulary ".to_owned();
                s.append(debug_quoted(name.as_str()).as_str());
                s.append(" has a mapping file at ");
                s.append(path.as_str());
                s.append(" but it could not be read: ");
                s.append(cause.as_str());
                s
            },
        }
    }
}

/// Whether `width` bytes, and no fewer, can address `vocab_size` distinct ids. At least one byte
/// is taken.
pub open spec fn narrowest(vocab_size: int, width: int) -> bool {
    &&& width >= 1
    &&& vocab_size <= le_limit(width as nat)
    &&& width > 1 ==> vocab_size > le_limit((width - 1) as nat)
}

/// The narrowest width that can address `vocab_size` distinct ids, at least one byte. A size that
/// is not positive takes the widest.
pub fn width_for(vocab_size: i32) -> (w: i32)
    requires
        vocab_size > i32::MIN,
    ensures
        1 <= w <= 4,
        vocab_size >= 1 ==> narrowest(vocab_size as int, w as int),
        vocab_size < 1 ==> w == 4,
        1 <= vocab_size <= MAX_VOCAB_SIZE ==> w <= 3,
{
    proof {
        crate::bytes::lemma_le_limits();
    }
    if vocab_size < 1 {
        4
    } else if vocab_size <= 0x100 {
        1
    } else if vocab_size <= 0x1_0000 {
        2
    } else if vocab_size <= 0x100_0000 {
        3
    } else {
        4
    }
}

/// The name of a compression method.
pub open spec fn name_of_compression(code: u8) -> Seq<char> {
    if code == COMPRESSION_FREQ {
        "freq"@
    } else {
        "raw"@
    }
}

/// Whether a compression method goes by this name.
pub open spec fn compression_known(name: Seq<char>) -> bool {
    name == "raw"@ || name == "freq"@
}

/// The compression method that goes by `name`.
pub fn compression_code(name: &str) -> (r: Result<u8, VocabularyError>)
    ensures
        match r {
            Ok(code) => {
                &&& code == COMPRESSION_RAW || code == COMPRESSION_FREQ
                &&& name@ == name_of_compression(code)
            },
            Err(e) => {
                &&& !compression_known(name@)
                &&& e matches VocabularyError::UnknownCompression(n) && n@ == name@
            },
        },
{
    if same_text(name, "raw") {
        Ok(COMPRESSION_RAW)
    } else if same_text(name, "freq") {
        Ok(COMPRESSION_FREQ)
    } else {
        Err(VocabularyError::UnknownCompression(name.to_owned()))
    }
}

/// The name that a compression method goes by.
pub fn compression_name(code: u8) -> (s: &'static str)
    ensures
        s@ == name_of_compression(code),
{
    if code == COMPRESSION_FREQ {
        "freq"
    } else {
        "raw"
    }
}

/// Whether a name needs quoting that the type's declaration could not survive.
pub open spec fn has_quotes(name: Seq<char>) -> bool {
    exists|i: int|
        0 <= i < name.len() && (#[trigger] name[i] == '\'' || name[i] == '"' || name[i] == '\\')
}

fn quotes_in(name: &str) -> (r: bool)
    ensures
        r == has_quotes(name@),
{
    let chars = chars_of(name);
    let mut i: usize = 0;
    while i < chars.len()
        invariant
            i <= chars@.len(),
            chars@ == name@,
            forall|j: int|
                0 <= j < i ==> #[trigger] chars@[j] != '\'' && chars@[j] != '"' && chars@[j] != '\\',
        decreases chars@.len() - i,
    {
        if chars[i] == '\'' || chars[i] == '"' || chars[i] == '\\' {
            assert(name@[i as int] == chars@[i as int]);
            return true;
        }
        i += 1;
    }
    false
}

/// Whether `e` is the first thing wrong with a declaration.
pub open spec fn declaration_fault(
    name: Seq<char>,
    vocab_size: i32,
    compression: Seq<char>,
    e: VocabularyError,
) -> bool {
    if vocab_size < 1 {
        e == VocabularyError::SizeTooSmall
    } else if vocab_size > MAX_VOCAB_SIZE {
        e == VocabularyError::SizeTooLarge(vocab_size)
    } else if has_quotes(name) {
        e matches VocabularyError::BadName(n) && n@ == name
    } else {
        !compression_known(compression) && (e matches VocabularyError::UnknownCompression(n)
            && n@ == compression)
    }
}

/// Check what a new vocabulary declares, before anything is touched, and give its width.
pub fn check_declaration(name: &str, vocab_size: i32, compression: &str) -> (r: Result<
    i32,
    VocabularyError,
>)
    ensures
        match r {
            Ok(w) => {
                &&& 1 <= vocab_size <= MAX_VOCAB_SIZE
                &&& !has_quotes(name@)
                &&& compression_known(compression@)
                &&& 1 <= w <= 3
                &&& narrowest(vocab_size as int, w as int)
            },
            Err(e) => declaration_fault(name@, vocab_size, compression@, e),
        },
{
    if vocab_size < 1 {
        return Err(VocabularyError::SizeTooSmall);
    }
    if vocab_size as i64 > MAX_VOCAB_SIZE {
        return Err(VocabularyError::SizeTooLarge(vocab_size));
    }
    if quotes_in(name) {
        return Err(VocabularyError::BadName(name.to_owned()));
    }
    match compression_code(compression) {
        Ok(_) => Ok(width_for(vocab_size)),
        Err(e) => Err(e),
    }
}

/// Check that a name is free. A catalog row survives a drop, so a live vocabulary and a dropped
/// one both have a row, and they need different messages.
pub fn check_name_free(name: &str, has_row: bool, has_domain: bool) -> (r: Result<
    (),
    VocabularyError,
>)
    ensures
        match r {
            Ok(_) => !has_row,
            Err(VocabularyError::AlreadyExists(n)) => has_row && has_domain && n@ == name@,
            Err(VocabularyError::NameReserved(n)) => has_row && !has_domain && n@ == name@,
            Err(_) => false,
        },
{
    if has_row {
        if has_domain {
            return Err(VocabularyError::AlreadyExists(name.to_owned()));
        }
        return Err(VocabularyError::NameReserved(name.to_owned()));
    }
    Ok(())
}

/// Check that a vocabulary can be dropped: it has a row, and its domain is still there.
pub fn check_droppable(name: &str, has_row: bool, has_domain: bool) -> (r: Result<
    (),
    VocabularyError,
>)
    ensures
        match r {
            Ok(_) => has_row && has_domain,
            Err(VocabularyError::DoesNotExist(n)) => !has_row && n@ == name@,
            Err(VocabularyError::AlreadyDropped(n)) => has_row && !has_domain && n@ == name@,
            Err(_) => false,
        },
{
    if !has_row {
        return Err(VocabularyError::DoesNotExist(name.to_owned()));
    }
    if !has_domain {
        return Err(VocabularyError::AlreadyDropped(name.to_owned()));
    }
    Ok(())
}

/// The lowest id from `start` on that no vocabulary has ever used, counting artefact files as use.
///
/// An artefact file outlives the catalog row that ordered it: it is written through the
/// filesystem, outside the transaction, so a rollback removes the row and leaves the file. An id
/// whose file is still there would hand the next vocabulary an artefact it never created.
/// `artefact` says which file of an id is there, if one is.
pub fn next_free_id<F: Fn(u16) -> Option<String>>(start: i32, artefact: &F, dir: &str) -> (r:
    Result<i32, VocabularyError>)
    requires
        start >= 1,
        forall|id: u16| #[trigger] artefact.requires((id,)),
    ensures
        match r {
            Ok(id) => {
                &&& start <= id <= 65535
                &&& artefact.ensures((id as u16,), None)
                &&& forall|i: int| start <= i < id ==> #[trigger] occupied(artefact, i)
            },
            Err(e) => {
                &&& forall|i: int| start <= i <= 65535 ==> #[trigger] occupied(artefact, i)
                &&& e matches VocabularyError::NoFreeId { start: s, dir: d } && s == start && d@
                    == dir@
            },
        },
{
    let mut candidate: i32 = start;
    while candidate <= 65535
        invariant
            1 <= start <= candidate,
            forall|id: u16| #[trigger] artefact.requires((id,)),
            forall|i: int| start <= i < candidate && i <= 65535 ==> #[trigger] occupied(artefact, i),
        decreases 65536 - candidate,
    {
        match artefact(candidate as u16) {
            None => {
                return Ok(candidate);
            },
            Some(path) => {
                assert(occupied(artefact, candidate as int));
            },
        }
        candidate += 1;
    }
    Err(VocabularyError::NoFreeId { start, dir: dir.to_owned() })
}

/// Whether `artefact` found a file for this id.
pub open spec fn occupied<F: Fn(u16) -> Option<String>>(artefact: &F, id: int) -> bool {
    exists|path: String| #[trigger] artefact.ensures((id as u16,), Some(path))
}

/// Whether `id` is the one asked for and free, or the lowest free one from `start` on. It is never
/// zero, which stands for "no vocabulary".
pub open spec fn id_assigned<F: Fn(u16) -> Option<String>>(
    asked: Option<i32>,
    start: i32,
    artefact: &F,
    id: i32,
) -> bool {
    &&& 1 <= id <= 65535
    &&& artefact.ensures((id as u16,), None)
    &&& match asked {
        Some(v) => id == v,
        None => start <= id && forall|i: int|
            start <= i < id ==> #[trigger] occupied(artefact, i),
    }
}

/// Whether `e` says why no id can be assigned.
pub open spec fn id_refused<F: Fn(u16) -> Option<String>>(
    asked: Option<i32>,
    start: i32,
    artefact: &F,
    dir: Seq<char>,
    e: VocabularyError,
) -> bool {
    match asked {
        Some(v) => if v < 1 || v > 65535 {
            e == VocabularyError::IdOutOfRange(v)
        } else {
            e matches VocabularyError::ArtefactExists { id, path } && id == v && artefact.ensures(
                (v as u16,),
                Some(path),
            )
        },
        None => {
            &&& forall|i: int| start <= i <= 65535 ==> #[trigger] occupied(artefact, i)
            &&& e matches VocabularyError::NoFreeId { start: s, dir: d } && s == start && d@ == dir
        },
    }
}

/// The id for a new vocabulary: the one asked for, if it is in range and no artefact file is left
/// over under it, or else the lowest free one from `start` on.
pub fn assign_id<F: Fn(u16) -> Option<String>>(
    asked: Option<i32>,
    start: i32,
    artefact: &F,
    dir: &str,
) -> (r: Result<i32, VocabularyError>)
    requires
        start >= 1,
        forall|id: u16| #[trigger] artefact.requires((id,)),
    ensures
        match r {
            Ok(id) => id_assigned(asked, start, artefact, id),
            Err(e) => id_refused(asked, start, artefact, dir@, e),
        },
{
    match asked {
        Some(v) => {
            if v < 1 || v > 65535 {
                return Err(VocabularyError::IdOutOfRange(v));
            }
            match artefact(v as u16) {
                Some(path) => Err(VocabularyError::ArtefactExists { id: v, path }),
                None => Ok(v),
            }
        },
        None => next_free_id(start, artefact, dir),
    }
}

/// A vocabulary about to be entered in the catalog.
#[derive(Debug, Clone, PartialEq, Eq)]
pub struct NewVocabulary {
    pub id: i32,
    pub vocab_size: i32,
    pub width: i32,
}

/// Decide on a new vocabulary: what it declares must be sound, its name free, and its id the one
/// asked for or the lowest that nothing has used.
///
/// `has_row` and `has_domain` say what the catalog and the type system know of the name, `start`
/// is one past the highest id in the catalog, and `artefact` says which file of an id is on disk.
pub fn create_vocabulary<F: Fn(u16) -> Option<String>>(
    name: &str,
    vocab_size: i32,
    compression: &str,
    asked: Option<i32>,
    has_row: bool,
    has_domain: bool,
    start: i32,
    artefact: &F,
    dir: &str,
) -> (r: Result<NewVocabulary, VocabularyError>)
    requires
        start >= 1,
        forall|id: u16| #[trigger] artefact.requires((id,)),
    ensures
        ({
            let sound = 1 <= vocab_size <= MAX_VOCAB_SIZE && !has_quotes(name@)
                && compression_known(compression@);
            match r {
                Ok(v) => {
                    &&& sound
                    &&& !has_row
                    &&& v.vocab_size == vocab_size
                    &&& v.width <= 3
                    &&& narrowest(vocab_size as int, v.width as int)
                    &&& id_assigned(asked, start, artefact, v.id)
                },
                Err(e) => if !sound {
                    declaration_fault(name@, vocab_size, compression@, e)
                } else if has_row {
                    if has_domain {
                        e matches VocabularyError::AlreadyExists(n) && n@ == name@
                    } else {
                        e matches VocabularyError::NameReserved(n) && n@ == name@
                    }
                } else {
                    id_refused(asked, start, artefact, dir@, e)
                },
            }
        }),
{
    let width: i32 = match check_declaration(name, vocab_size, compression) {
        Ok(w) => w,
        Err(e) => {
            return Err(e);
        },
    };
    match check_name_free(name, has_row, has_domain) {
        Ok(()) => {},
        Err(e) => {
            return Err(e);
        },
    }
    match assign_id(asked, start, artefact, dir) {
        Ok(id) => Ok(NewVocabulary { id, vocab_size, width }),
        Err(e) => Err(e),
    }
}

/// The statement that declares a vocabulary's domain. The domain is what users write: it carries
/// the packed typmod, and two vocabularies become two distinct types. `quoted` is the name as an
/// identifier.
pub fn create_domain_sql(quoted: &str, name: &str) -> (s: String)
    ensures
        s@ == "CREATE DOMAIN tokens."@ + quoted@ + " AS pgtoken.tokens('"@ + name@ + "')"@,
{
    let mut s = "CREATE DOMAIN tokens.".to_owned();
    s.append(quoted);
    s.append(" AS pgtoken.tokens('");
    s.append(name);
    s.append("')");
    s
}

/// The statement that removes a vocabulary's domain.
pub fn drop_domain_sql(quoted: &str) -> (s: String)
    ensures
        s@ == "DROP DOMAIN tokens."@ + quoted@,
{
    let mut s = "DROP DOMAIN tokens.".to_owned();
    s.append(quoted);
    s
}

/// The statement that gives a vocabulary's domain its own `pgtoken.text`, so that a bare
/// `text(body)` calls it rather than the cast to `text`.
pub fn create_text_sql(quoted: &str) -> (s: String)
    ensures
        s@ == "CREATE FUNCTION pgtoken.text(tokens."@ + quoted@
            + ") RETURNS text LANGUAGE sql IMMUTABLE STRICT PARALLEL SAFE AS 'SELECT pgtoken.text($1::pgtoken.tokens)'"@,
{
    let mut s = "CREATE FUNCTION pgtoken.text(tokens.".to_owned();
    s.append(quoted);
    s.append(
        ") RETURNS text LANGUAGE sql IMMUTABLE STRICT PARALLEL SAFE AS 'SELECT pgtoken.text($1::pgtoken.tokens)'",
    );
    s
}

/// The statement that takes the domain's own `pgtoken.text` away again.
pub fn drop_text_sql(quoted: &str) -> (s: String)
    ensures
        s@ == "DROP FUNCTION pgtoken.text(tokens."@ + quoted@ + ")"@,
{
    let mut s = "DROP FUNCTION pgtoken.text(tokens.".to_owned();
    s.append(quoted);
    s.append(")");
    s
}

/// The three fields a typmod needs, from a catalog row. The id is its low 16 bits, the width its
/// low 8.
pub fn vocabulary_from_row(id: i32, compression: &str, width: i32) -> (r: Result<
    Vocabulary,
    VocabularyError,
>)
    ensures
        match r {
            Ok(v) => {
                &&& v.id == id as int % 0x1_0000
                &&& v.compression == COMPRESSION_RAW || v.compression == COMPRESSION_FREQ
                &&& compression@ == name_of_compression(v.compression)
                &&& v.width == width as int % 0x100
            },
            Err(e) => {
                &&& !compression_known(compression@)
                &&& e matches VocabularyError::UnknownCompression(n) && n@ == compression@
            },
        },
{
    match compression_code(compression) {
        Ok(code) => Ok(
            Vocabulary {
                id: to_low16(id),
                compression: code,
                width: to_low8(width),
            },
        ),
        Err(e) => Err(e),
    }
}

/// What a vocabulary declares, and which optional parts are filled.
///
/// Both artefacts get a digest and a length, not just the ranking: a vocabulary is the pair, and
/// identical rankings with different mappings are different vocabularies.
#[derive(Debug, Clone, PartialEq, Eq)]
pub struct VocabularyInfo {
    pub id: i32,
    pub vocab_size: i32,
    pub compression: String,
    pub width: i32,
    pub ranking: Option<ArtefactInfo>,
    pub mapping: Option<ArtefactInfo>,
}

/// Report what a vocabulary declares and which optional parts are filled.
///
/// `found` and `size` come from the catalog. `ranking` and `mapping` are what the artefact files
/// hold; an absent file is a normal state, an unreadable one is a fault.
pub fn vocabulary_info(
    name: &str,
    found: Option<Vocabulary>,
    size: Option<u32>,
    ranking: Result<Option<ArtefactInfo>, String>,
    ranking_path: &str,
    mapping: Result<Option<ArtefactInfo>, String>,
    mapping_path: &str,
) -> (r: Result<VocabularyInfo, VocabularyError>)
    ensures
        found is None ==> (r matches Err(VocabularyError::DoesNotExist(n)) && n@ == name@),
        found is Some && size is None ==> (r matches Err(VocabularyError::NoCatalogRow(n)) && n@
            == name@),
        found is Some && size is Some ==> match (ranking, mapping) {
            (Err(cause), _) => r matches Err(
                VocabularyError::UnreadableRanking { name: n, path: p, cause: c },
            ) && n@ == name@ && p@ == ranking_path@ && c@ == cause@,
            (Ok(_), Err(cause)) => r matches Err(
                VocabularyError::UnreadableMapping { name: n, path: p, cause: c },
            ) && n@ == name@ && p@ == mapping_path@ && c@ == cause@,
            (Ok(ranked), Ok(mapped)) => r matches Ok(info) && {
                &&& info.id == found->0.id
                &&& info.vocab_size == signed32(size->0 as nat)
                &&& info.compression@ == name_of_compression(found->0.compression)
                &&& info.width == found->0.width
                &&& info.ranking == ranked
                &&& info.mapping == mapped
            },
        },
{
    let v = match found {
        Some(v) => v,
        None => {
            return Err(VocabularyError::DoesNotExist(name.to_owned()));
        },
    };
    let size: u32 = match size {
        Some(n) => n,
        None => {
            return Err(VocabularyError::NoCatalogRow(name.to_owned()));
        },
    };
    let ranking = match ranking {
        Ok(r) => r,
        Err(cause) => {
            return Err(
                VocabularyError::UnreadableRanking {
                    name: name.to_owned(),
                    path: ranking_path.to_owned(),
                    cause,
                },
            );
        },
    };
    let mapping = match mapping {
        Ok(m) => m,
        Err(cause) => {
            return Err(
                VocabularyError::UnreadableMapping {
                    name: name.to_owned(),
                    path: mapping_path.to_owned(),
                    cause,
                },
            );
        },
    };
    Ok(
        VocabularyInfo {
            id: v.id as i32,
            vocab_size: to_signed32(size as u64),
            compression: compression_name(v.compression).to_owned(),
            width: v.width as i32,
            ranking,
            mapping,
        },
    )
}

/// A declared size always has a width that this build can store.
pub proof fn lemma_declared_is_storable(vocab_size: i32, width: i32, id: u16, compression: u8)
    requires
        1 <= vocab_size <= MAX_VOCAB_SIZE,
        width <= 4,
        narrowest(vocab_size as int, width as int),
    ensures
        (Vocabulary { id, compression, width: width as u8 }).storable(),
{
    crate::bytes::lemma_le_limits();
}

/// The width of a vocabulary size: one byte up to 256 ids, two up to 65536, three up to 16777216,
/// and four beyond.
pub proof fn lemma_width_of_a_size(vocab_size: int, width: int)
    requires
        1 <= vocab_size <= i32::MAX,
        width <= 4,
    ensures
        narrowest(vocab_size, width) <==> width == if vocab_size <= 256 {
            1int
        } else if vocab_size <= 65_536 {
            2
        } else if vocab_size <= 16_777_216 {
            3
        } else {
            4
        },
{
    crate::bytes::lemma_le_limits();
}

/// This build stores every `freq` vocabulary, and others up to three bytes wide.
pub proof fn lemma_storable_means(v: Vocabulary)
    ensures
        v.storable() <==> v.compression == 1 || v.width == 1 || v.width == 2 || v.width == 3,
{
}

/// Two compression methods have a name, each its own.
pub proof fn lemma_compression_names(name: Seq<char>, code: u8)
    ensures
        compression_known(name) <==> name == "raw"@ || name == "freq"@,
        name_of_compression(code) == "freq"@ <==> code == 1,
        name_of_compression(code) == "raw"@ <==> code != 1,
        compression_known(name_of_compression(code)),
{
    reveal_strlit("raw");
    reveal_strlit("freq");
    assert("raw"@.len() == 3 && "freq"@.len() == 4);
}

/// A name may hold any character but a quote of either sort or a backslash.
pub proof fn lemma_quotes_are_found(name: Seq<char>)
    ensures
        has_quotes(name) <==> name.contains('\'') || name.contains('"') || name.contains('\\'),
{
    if has_quotes(name) {
        let i = choose|i: int|
            0 <= i < name.len() && (#[trigger] name[i] == '\'' || name[i] == '"' || name[i]
                == '\\');
        assert(name.contains(name[i]));
    }
    if name.contains('\'') {
        let i = choose|i: int| 0 <= i < name.len() && name[i] == '\'';
        assert(name[i] == '\'');
    }
    if name.contains('"') {
        let i = choose|i: int| 0 <= i < name.len() && name[i] == '"';
        assert(name[i] == '"');
    }
    if name.contains('\\') {
        let i = choose|i: int| 0 <= i < name.len() && name[i] == '\\';
        assert(name[i] == '\\');
    }
}

/// A declaration is refused for its size before its name, and for its name before its compression,
/// and for nothing else.
pub proof fn lemma_declaration_outcome(
    name: Seq<char>,
    vocab_size: i32,
    compression: Seq<char>,
    e: VocabularyError,
)
    ensures
        vocab_size < 1 ==> (declaration_fault(name, vocab_size, compression, e) <==> e
            == VocabularyError::SizeTooSmall),
        vocab_size > 16_777_216 ==> (declaration_fault(name, vocab_size, compression, e) <==> e
            == VocabularyError::SizeTooLarge(vocab_size)),
        1 <= vocab_size <= 16_777_216 && (name.contains('\'') || name.contains('"')
            || name.contains('\\')) ==> (declaration_fault(name, vocab_size, compression, e) <==> e
            is BadName && e->BadName_0@ == name),
        1 <= vocab_size <= 16_777_216 && !(name.contains('\'') || name.contains('"')
            || name.contains('\\')) && compression != "raw"@ && compression != "freq"@ ==> (
        declaration_fault(name, vocab_size, compression, e) <==> e is UnknownCompression
            && e->UnknownCompression_0@ == compression),
        1 <= vocab_size <= 16_777_216 && !(name.contains('\'') || name.contains('"')
            || name.contains('\\')) && (compression == "raw"@ || compression == "freq"@)
            ==> !declaration_fault(name, vocab_size, compression, e),
{
    lemma_quotes_are_found(name);
}

/// An id is given out only where nothing is left under it, it is never zero, and it is the one
/// asked for; or, where none was, no id from `start` up to it was free.
pub proof fn lemma_assigned_id<F: Fn(u16) -> Option<String>>(
    asked: Option<i32>,
    start: i32,
    artefact: &F,
    id: i32,
    other: u16,
    e: VocabularyError,
)
    requires
        start >= 1,
    ensures
        asked is Some && 1 <= asked->0 <= 65_535 ==> (id_assigned(asked, start, artefact, id) <==> id
            == asked->0 && artefact.ensures((asked->0 as u16,), None)),
        asked is Some && !(1 <= asked->0 <= 65_535) ==> !id_assigned(asked, start, artefact, id),
        asked is Some && !(1 <= asked->0 <= 65_535) ==> (id_refused(
            asked,
            start,
            artefact,
            seq![],
            e,
        ) <==> e == VocabularyError::IdOutOfRange(asked->0)),
        asked is Some && 1 <= asked->0 <= 65_535 && id_refused(asked, start, artefact, seq![], e)
            ==> e is ArtefactExists && artefact.ensures(
            (asked->0 as u16,),
            Some(e->ArtefactExists_path),
        ) && e->ArtefactExists_id == asked->0,
        asked is None && id_assigned(asked, start, artefact, id) ==> start <= id <= 65_535
            && artefact.ensures((id as u16,), None) && (start <= other < id ==> exists|path: String|
            #[trigger]
            artefact.ensures((other,), Some(path))),
        occupied(artefact, other as int) <==> exists|path: String| #[trigger]
            artefact.ensures((other,), Some(path)),
        asked is None && start <= id <= 65_535 && artefact.ensures((id as u16,), None) && (forall|
            i: int,
        |
            start <= i < id ==> #[trigger] occupied(artefact, i)) ==> id_assigned(
            asked,
            start,
            artefact,
            id,
        ),
{
    assert((other as int) as u16 == other);
    if exists|path: String| #[trigger] artefact.ensures((other,), Some(path)) {
        let path = choose|path: String| #[trigger] artefact.ensures((other,), Some(path));
        assert(artefact.ensures(((other as int) as u16,), Some(path)));
    }
    if asked is None && id_assigned(asked, start, artefact, id) && start <= other < id {
        assert(occupied(artefact, other as int));
    }
}

/// Two errors of a kind read alike but for the details they give.
pub proof fn lemma_wording_of_vocabulary_error(a: VocabularyError, b: VocabularyError)
    ensures
        a is SizeTooLarge && b is SizeTooLarge ==> crate::text::same_wording(
            a.text(),
            crate::text::signed_decimal(a->SizeTooLarge_0 as int),
            b.text(),
            crate::text::signed_decimal(b->SizeTooLarge_0 as int),
        ),
        a is BadName && b is BadName ==> crate::text::same_wording(
            a.text(),
            crate::text::debug_text(a->BadName_0@),
            b.text(),
            crate::text::debug_text(b->BadName_0@),
        ),
        a is UnknownCompression && b is UnknownCompression ==> crate::text::same_wording(
            a.text(),
            crate::text::debug_text(a->UnknownCompression_0@),
            b.text(),
            crate::text::debug_text(b->UnknownCompression_0@),
        ),
        a is AlreadyExists && b is AlreadyExists ==> crate::text::same_wording(
            a.text(),
            crate::text::debug_text(a->AlreadyExists_0@),
            b.text(),
            crate::text::debug_text(b->AlreadyExists_0@),
        ),
        a is NameReserved && b is NameReserved ==> crate::text::same_wording(
            a.text(),
            crate::text::debug_text(a->NameReserved_0@),
            b.text(),
            crate::text::debug_text(b->NameReserved_0@),
        ),
        a is IdOutOfRange && b is IdOutOfRange ==> crate::text::same_wording(
            a.text(),
            crate::text::signed_decimal(a->IdOutOfRange_0 as int),
            b.text(),
            crate::text::signed_decimal(b->IdOutOfRange_0 as int),
        ),
        a is ArtefactExists && b is ArtefactExists ==> crate::text::same_wording_twice(
            a.text(),
            (crate::text::signed_decimal(a->ArtefactExists_id as int), a->ArtefactExists_path@),
            b.text(),
            (crate::text::signed_decimal(b->ArtefactExists_id as int), b->ArtefactExists_path@),
        ),
        a is NoFreeId && b is NoFreeId ==> crate::text::same_wording_twice(
            a.text(),
            (crate::text::signed_decimal(a->NoFreeId_start as int), a->NoFreeId_dir@),
            b.text(),
            (crate::text::signed_decimal(b->NoFreeId_start as int), b->NoFreeId_dir@),
        ),
        a is DoesNotExist && b is DoesNotExist ==> crate::text::same_wording(
            a.text(),
            crate::text::debug_text(a->DoesNotExist_0@),
            b.text(),
            crate::text::debug_text(b->DoesNotExist_0@),
        ),
        a is AlreadyDropped && b is AlreadyDropped ==> crate::text::same_wording(
            a.text(),
            crate::text::debug_text(a->AlreadyDropped_0@),
            b.text(),
            crate::text::debug_text(b->AlreadyDropped_0@),
        ),
        a is NoCatalogRow && b is NoCatalogRow ==> crate::text::same_wording(
            a.text(),
            crate::text::debug_text(a->NoCatalogRow_0@),
            b.text(),
            crate::text::debug_text(b->NoCatalogRow_0@),
        ),
        a is UnreadableRanking && b is UnreadableRanking ==> crate::text::same_wording_thrice(
            a.text(),
            (
                crate::text::debug_text(a->UnreadableRanking_name@),
                a->UnreadableRanking_path@,
                a->UnreadableRanking_cause@,
            ),
            b.text(),
            (
                crate::text::debug_text(b->UnreadableRanking_name@),
                b->UnreadableRanking_path@,
                b->UnreadableRanking_cause@,
            ),
        ),
        a is UnreadableMapping && b is UnreadableMapping ==> crate::text::same_wording_thrice(
            a.text(),
            (
                crate::text::debug_text(a->UnreadableMapping_name@),
                a->UnreadableMapping_path@,
                a->UnreadableMapping_cause@,
            ),
            b.text(),
            (
                crate::text::debug_text(b->UnreadableMapping_name@),
                b->UnreadableMapping_path@,
                b->UnreadableMapping_cause@,
            ),
        ),
{
    if a is SizeTooLarge && b is SizeTooLarge {
        assert(crate::text::worded(
            a.text(),
            "vocab_size "@,
            crate::text::signed_decimal(a->SizeTooLarge_0 as int),
            " exceeds the 16777216 this format can address"@,
        ));
        assert(crate::text::worded(
            b.text(),
            "vocab_size "@,
            crate::text::signed_decimal(b->SizeTooLarge_0 as int),
            " exceeds the 16777216 this format can address"@,
        ));
    }
    if a is BadName && b is BadName {
        assert(crate::text::worded(
            a.text(),
            "vocabulary name "@,
            crate::text::debug_text(a->BadName_0@),
            " may not contain quotes or backslashes"@,
        ));
        assert(crate::text::worded(
            b.text(),
            "vocabulary name "@,
            crate::text::debug_text(b->BadName_0@),
            " may not contain quotes or backslashes"@,
        ));
    }
    if a is UnknownCompression && b is UnknownCompression {
        assert(crate::text::worded(
            a.text(),
            "unknown compression "@,
            crate::text::debug_text(a->UnknownCompression_0@),
            "; expected 'raw' or 'freq'"@,
        ));
        assert(crate::text::worded(
            b.text(),
            "unknown compression "@,
            crate::text::debug_text(b->UnknownCompression_0@),
            "; expected 'raw' or 'freq'"@,
        ));
    }
    if a is AlreadyExists && b is AlreadyExists {
        assert(crate::text::worded(
            a.text(),
            "vocabulary "@,
            crate::text::debug_text(a->AlreadyExists_0@),
            " already exists"@,
        ));
        assert(crate::text::worded(
            b.text(),
            "vocabulary "@,
            crate::text::debug_text(b->AlreadyExists_0@),
            " already exists"@,
        ));
    }
    if a is NameReserved && b is NameReserved {
        assert(crate::text::worded(
            a.text(),
            "vocabulary "@,
            crate::text::debug_text(a->NameReserved_0@),
            " was dropped and its name is permanently reserved: stored values may still reference its id, so neither the id nor the name can be recycled; pick a different name"@,
        ));
        assert(crate::text::worded(
            b.text(),
            "vocabulary "@,
            crate::text::debug_text(b->NameReserved_0@),
            " was dropped and its name is permanently reserved: stored values may still reference its id, so neither the id nor the name can be recycled; pick a different name"@,
        ));
    }
    if a is IdOutOfRange && b is IdOutOfRange {
        assert(crate::text::worded(
            a.text(),
            "vocabulary id "@,
            crate::text::signed_decimal(a->IdOutOfRange_0 as int),
            " is out of range (1..65535)"@,
        ));
        assert(crate::text::worded(
            b.text(),
            "vocabulary id "@,
            crate::text::signed_decimal(b->IdOutOfRange_0 as int),
            " is out of range (1..65535)"@,
        ));
    }
    if a is ArtefactExists && b is ArtefactExists {
        assert(crate::text::worded_twice(
            a.text(),
            "vocabulary id "@,
            (crate::text::signed_decimal(a->ArtefactExists_id as int), a->ArtefactExists_path@),
            " already has an artefact file at "@,
            ", left over from a vocabulary that was rolled back or dropped: artefact files are written outside the transaction, so they outlive the catalog row that ordered them. A vocabulary created here would inherit it; remove the file if nothing references it, or pick another id"@,
        ));
        assert(crate::text::worded_twice(
            b.text(),
            "vocabulary id "@,
            (crate::text::signed_decimal(b->ArtefactExists_id as int), b->ArtefactExists_path@),
            " already has an artefact file at "@,
            ", left over from a vocabulary that was rolled back or dropped: artefact files are written outside the transaction, so they outlive the catalog row that ordered them. A vocabulary created here would inherit it; remove the file if nothing references it, or pick another id"@,
        ));
    }
    if a is NoFreeId && b is NoFreeId {
        assert(crate::text::worded_twice(
            a.text(),
            "no vocabulary id is free: every id from "@,
            (crate::text::signed_decimal(a->NoFreeId_start as int), a->NoFreeId_dir@),
            " to 65535 already has an artefact file in "@,
            Seq::<char>::empty(),
        ));
        assert(crate::text::worded_twice(
            b.text(),
            "no vocabulary id is free: every id from "@,
            (crate::text::signed_decimal(b->NoFreeId_start as int), b->NoFreeId_dir@),
            " to 65535 already has an artefact file in "@,
            Seq::<char>::empty(),
        ));
    }
    if a is DoesNotExist && b is DoesNotExist {
        assert(crate::text::worded(
            a.text(),
            "vocabulary "@,
            crate::text::debug_text(a->DoesNotExist_0@),
            " does not exist"@,
        ));
        assert(crate::text::worded(
            b.text(),
            "vocabulary "@,
            crate::text::debug_text(b->DoesNotExist_0@),
            " does not exist"@,
        ));
    }
    if a is AlreadyDropped && b is AlreadyDropped {
        assert(crate::text::worded(
            a.text(),
            "vocabulary "@,
            crate::text::debug_text(a->AlreadyDropped_0@),
            " was already dropped; its id stays reserved forever and cannot be dropped again"@,
        ));
        assert(crate::text::worded(
            b.text(),
            "vocabulary "@,
            crate::text::debug_text(b->AlreadyDropped_0@),
            " was already dropped; its id stays reserved forever and cannot be dropped again"@,
        ));
    }
    if a is NoCatalogRow && b is NoCatalogRow {
        assert(crate::text::worded(
            a.text(),
            "vocabulary "@,
            crate::text::debug_text(a->NoCatalogRow_0@),
            " has no catalog row"@,
        ));
        assert(crate::text::worded(
            b.text(),
            "vocabulary "@,
            crate::text::debug_text(b->NoCatalogRow_0@),
            " has no catalog row"@,
        ));
    }
    if a is UnreadableRanking && b is UnreadableRanking {
        assert(crate::text::worded_thrice(
            a.text(),
            "vocabulary "@,
            (
                crate::text::debug_text(a->UnreadableRanking_name@),
                a->UnreadableRanking_path@,
                a->UnreadableRanking_cause@,
            ),
            " has a ranking file at "@,
            " but it could not be read: "@,
            Seq::<char>::empty(),
        ));
        assert(crate::text::worded_thrice(
            b.text(),
            "vocabulary "@,
            (
                crate::text::debug_text(b->UnreadableRanking_name@),
                b->UnreadableRanking_path@,
                b->UnreadableRanking_cause@,
            ),
            " has a ranking file at "@,
            " but it could not be read: "@,
            Seq::<char>::empty(),
        ));
    }
    if a is UnreadableMapping && b is UnreadableMapping {
        assert(crate::text::worded_thrice(
            a.text(),
            "vocabulary "@,
            (
                crate::text::debug_text(a->UnreadableMapping_name@),
                a->UnreadableMapping_path@,
                a->UnreadableMapping_cause@,
            ),
            " has a mapping file at "@,
            " but it could not be read: "@,
            Seq::<char>::empty(),
        ));
        assert(crate::text::worded_thrice(
            b.text(),
            "vocabulary "@,
            (
                crate::text::debug_text(b->UnreadableMapping_name@),
                b->UnreadableMapping_path@,
                b->UnreadableMapping_cause@,
            ),
            " has a mapping file at "@,
            " but it could not be read: "@,
            Seq::<char>::empty(),
        ));
    }
}

} // verus!
