//! The artefact files of a vocabulary: where they stand, how they are written once, and what they
//! hold.
//!
//! A vocabulary owns up to two optional artefacts, both named after its id and both under one
//! directory: `<id>.tntt`, the frequency ranking the `freq` codec encodes against, and
//! `<id>.tnmap`, the `token id -> bytes` mapping that text is read with. It may have either, both
//! or neither.
//!
//! A parsed artefact is cached **by its path**, and entries are never invalidated: a given path is
//! read at most once, and every later read answers from the first. What keeps that honest is that
//! nothing puts a second file at one path: both writers refuse to overwrite, and no vocabulary is
//! given an id whose artefact files already exist.

use vstd::prelude::*;

use crate::tables::digest::{hex, sha256};
use crate::tables::map::{map_bytes, map_fault, n_mapped};
use crate::tables::rank::{rank_bytes, rank_fault};
use crate::tables::{digest_hex, table_digest, ByteMap, RankTable, TableError};
use crate::text::{decimal, push_decimal};

pub mod cache;
pub mod write;

pub use cache::ArtefactCache;

verus! {

/// Why an artefact cannot be found, read or written.
#[derive(Debug, Clone, PartialEq, Eq)]
pub enum RegistryError {
    /// The artefact directory is not set; the text completes "cannot ...".
    NoDirectory(String),
    BadRanking { id: u16, fault: TableError },
    BadMapping { id: u16, fault: TableError },
    RankingExists { id: u16, path: String },
    MappingExists { id: u16, path: String },
    CannotOpen { path: String, cause: String },
    CannotMap { path: String, cause: String },
    CannotCreateDirectory { path: String, cause: String },
    CannotStage { path: String, cause: String },
    CannotWrite { path: String, cause: String },
    CannotFlush { path: String, cause: String },
    CannotCreateMapping { path: String, cause: String },
}

impl RegistryError {
    /// The text of the error.
    pub open spec fn text(self) -> Seq<char> {
        match self {
            RegistryError::NoDirectory(purpose) => "pgtoken.table_dir is not set; cannot "@
                + purpose@,
            RegistryError::BadRanking { id, fault } => "coding table "@ + decimal(id as nat)
                + " is not valid: "@ + fault.text(),
            RegistryError::BadMapping { id, fault } => "mapping for vocabulary "@ + decimal(
                id as nat,
            ) + " is not valid: "@ + fault.text(),
            RegistryError::RankingExists { id, path } => "coding table "@ + decimal(id as nat)
                + " already exists at "@ + path@
                + "; stored values reference vocabulary ids, so pick an unused id rather than replacing one"@,
            RegistryError::MappingExists { id, path } => "mapping for vocabulary "@ + decimal(
                id as nat,
            ) + " already exists at "@ + path@
                + "; stored values reference vocabulary ids, so pick an unused id rather than replacing one"@,
            RegistryError::CannotOpen { path, cause } => "cannot open "@ + path@ + ": "@ + cause@,
            RegistryError::CannotMap { path, cause } => "cannot mmap "@ + path@ + ": "@ + cause@,
            RegistryError::CannotCreateDirectory { path, cause } => "cannot create "@ + path@
                + ": "@ + cause@,
            RegistryError::CannotStage { path, cause } => "cannot create temporary mapping file "@
                + path@ + ": "@ + cause@,
            RegistryError::CannotWrite { path, cause } => "cannot write "@ + path@ + ": "@ + cause@,
            RegistryError::CannotFlush { path, cause } => "cannot flush "@ + path@ + " to disk: "@
                + cause@,
            RegistryError::CannotCreateMapping { path, cause } => "cannot create mapping file "@
                + path@ + ": "@ + cause@,
        }
    }

    /// The text of the error.
    pub fn message(&self) -> (s: String)
        ensures
            s@ == self.text(),
    {
        match self {
            RegistryError::NoDirectory(purpose) => {
                let mut s = "pgtoken.table_dir is not set; cannot ".to_owned();
                s.append(purpose.as_str());
                s
            },
            RegistryError::BadRanking { id, fault } => {
                let mut s = "coding table ".to_owned();
                push_decimal(&mut s, *id as u128);
                s.append(" is not valid: ");
                s.append(fault.message().as_str());
                s
            },
            RegistryError::BadMapping { id, fault } => {
                let mut s = "mapping for vocabulary ".to_owned();
                push_decimal(&mut s, *id as u128);
                s.append(" is not valid: ");
                s.append(fault.message().as_str());
                s
            },
            RegistryError::RankingExists { id, path } => {
                let mut s = "coding table ".to_owned();
                push_decimal(&mut s, *id as u128);
                s.append(" already exists at ");
                s.append(path.as_str());
                s.append(
                    "; stored values reference vocabulary ids, so pick an unused id rather than replacing one",
                );
                s
            },
            RegistryError::MappingExists { id, path } => {
                let mut s = "mapping for vocabulary ".to_owned();
                push_decimal(&mut s, *id as u128);
                s.append(" already exists at ");
                s.append(path.as_str());
                s.append(
                    "; stored values reference vocabulary ids, so pick an unused id rather than replacing one",
                );
                s
            },
            RegistryError::CannotOpen { path, cause } => {
                let mut s = "cannot open ".to_owned();
                s.append(path.as_str());
                s.append(": ");
                s.append(cause.as_str());
                s
            },
            RegistryError::CannotMap { path, cause } => {
                let mut s = "cannot mmap ".to_owned();
                s.append(path.as_str());
                s.append(": ");
                s.append(cause.as_str());
                s
            },
            RegistryError::CannotCreateDirectory { path, cause } => {
                let mut s = "cannot create ".to_owned();
                s.append(path.as_str());
                s.append(": ");
                s.append(cause.as_str());
                s
            },
            RegistryError::CannotStage { path, cause } => {
                let mut s = "cannot create temporary mapping file ".to_owned();
                s.append(path.as_str());
                s.append(": ");
                s.append(cause.as_str());
                s
            },
            RegistryError::CannotWrite { path, cause } => {
                let mut s = "cannot write ".to_owned();
                s.append(path.as_str());
                s.append(": ");
                s.append(cause.as_str());
                s
            },
            RegistryError::CannotFlush { path, cause } => {
                let mut s = "cannot flush ".to_owned();
                s.append(path.as_str());
                s.append(" to disk: ");
                s.append(cause.as_str());
                s
            },
            RegistryError::CannotCreateMapping { path, cause } => {
                let mut s = "cannot create mapping file ".to_owned();
                s.append(path.as_str());
                s.append(": ");
                s.append(cause.as_str());
                s
            },
        }
    }
}

/// A file's path under a directory, the separator added where it is missing.
pub open spec fn path_under(dir: Seq<char>, file: Seq<char>) -> Seq<char> {
    if dir.len() == 0 || dir.last() == '/' {
        dir + file
    } else {
        dir.push('/') + file
    }
}

/// A file's path under a directory.
pub fn join_path(dir: &str, file: &str) -> (s: String)
    ensures
        s@ == path_under(dir@, file@),
{
    let chars = crate::text::chars_of(dir);
    let mut s = dir.to_owned();
    if chars.len() > 0 && chars[chars.len() - 1] != '/' {
        s.push('/');
    }
    s.append(file);
    s
}

/// The ranking file of a vocabulary.
pub open spec fn table_file(id: u16) -> Seq<char> {
    decimal(id as nat) + ".tntt"@
}

/// The mapping file of a vocabulary.
pub open spec fn map_file(id: u16) -> Seq<char> {
    decimal(id as nat) + ".tnmap"@
}

/// Path of a vocabulary's ranking.
pub fn table_path(dir: &str, vocabulary_id: u16) -> (s: String)
    ensures
        s@ == path_under(dir@, table_file(vocabulary_id)),
{
    let mut file = String::new();
    push_decimal(&mut file, vocabulary_id as u128);
    file.append(".tntt");
    assert(file@ =~= table_file(vocabulary_id));
    join_path(dir, file.as_str())
}

/// Path of a vocabulary's mapping. Sits beside the ranking; the two are separate files because a
/// vocabulary may have either, both, or neither.
pub fn map_path(dir: &str, vocabulary_id: u16) -> (s: String)
    ensures
        s@ == path_under(dir@, map_file(vocabulary_id)),
{
    let mut file = String::new();
    push_decimal(&mut file, vocabulary_id as u128);
    file.append(".tnmap");
    assert(file@ =~= map_file(vocabulary_id));
    join_path(dir, file.as_str())
}

/// Check that the artefact directory is set. `purpose` completes the sentence "cannot ...".
///
/// Every question about an artefact goes through this: under an empty directory a path is a bare
/// relative name, which is looked for in the wrong place, and "unset" would read as "absent".
pub fn require_dir(dir: &str, purpose: &str) -> (r: Result<(), RegistryError>)
    ensures
        match r {
            Ok(_) => dir@.len() > 0,
            Err(e) => dir@.len() == 0 && (e matches RegistryError::NoDirectory(p) && p@
                == purpose@),
        },
{
    if crate::text::chars_of(dir).len() == 0 {
        Err(RegistryError::NoDirectory(purpose.to_owned()))
    } else {
        Ok(())
    }
}

/// The first artefact file of a vocabulary that is on disk, the ranking before the mapping. None
/// where no directory is set: nothing can have been written then, and there is nowhere to look.
/// `on_disk` says whether a path is on disk.
pub fn existing_artefact<F: Fn(&str) -> bool>(dir: &str, vocabulary_id: u16, on_disk: &F) -> (r:
    Option<String>)
    requires
        forall|path: &str| #[trigger] on_disk.requires((path,)),
    ensures
        dir@.len() == 0 ==> r is None,
        dir@.len() > 0 ==> artefact_found(dir@, vocabulary_id, on_disk, r),
{
    if crate::text::chars_of(dir).len() == 0 {
        return None;
    }
    let table = table_path(dir, vocabulary_id);
    if on_disk(table.as_str()) {
        assert(answers(on_disk, table@, true));
        return Some(table);
    }
    assert(answers(on_disk, table@, false));
    let map = map_path(dir, vocabulary_id);
    if on_disk(map.as_str()) {
        assert(answers(on_disk, map@, true));
        return Some(map);
    }
    assert(answers(on_disk, map@, false));
    None
}

/// Whether `on_disk` gave this answer for a path.
pub open spec fn answers<F: Fn(&str) -> bool>(on_disk: &F, path: Seq<char>, answer: bool) -> bool {
    exists|p: &str| #[trigger] on_disk.ensures((p,), answer) && p@ == path
}

/// Whether `r` is the first artefact file that `on_disk` found.
pub open spec fn artefact_found<F: Fn(&str) -> bool>(
    dir: Seq<char>,
    id: u16,
    on_disk: &F,
    r: Option<String>,
) -> bool {
    let table = path_under(dir, table_file(id));
    let map = path_under(dir, map_file(id));
    match r {
        Some(path) => {
            ||| path@ == table && answers(on_disk, table, true)
            ||| path@ == map && answers(on_disk, table, false) && answers(on_disk, map, true)
        },
        None => answers(on_disk, table, false) && answers(on_disk, map, false),
    }
}

/// What an artefact file holds: how many entries, its digest, its length.
#[derive(Debug, Clone, PartialEq, Eq)]
pub struct ArtefactInfo {
    pub entries: u32,
    pub sha256: String,
    pub bytes: u64,
}

/// The ranking in a file's bytes; none where there is no file.
pub fn rank_table(vocabulary_id: u16, file: Option<&[u8]>) -> (r: Result<
    Option<RankTable>,
    RegistryError,
>)
    ensures
        match (file, r) {
            (None, Ok(t)) => t is None,
            (Some(b), Ok(Some(t))) => {
                &&& rank_fault(b@) is None
                &&& rank_bytes(t@) == b@
                &&& t@.no_duplicates()
            },
            (Some(b), Err(e)) => rank_fault(b@) is Some && e == (RegistryError::BadRanking {
                id: vocabulary_id,
                fault: rank_fault(b@)->0,
            }),
            _ => false,
        },
{
    match file {
        None => Ok(None),
        Some(b) => match RankTable::from_bytes(b) {
            Ok(t) => Ok(Some(t)),
            Err(fault) => Err(RegistryError::BadRanking { id: vocabulary_id, fault }),
        },
    }
}

/// The mapping in a file's bytes; none where there is no file.
pub fn byte_map(vocabulary_id: u16, file: Option<&[u8]>) -> (r: Result<
    Option<ByteMap>,
    RegistryError,
>)
    ensures
        match (file, r) {
            (None, Ok(m)) => m is None,
            (Some(b), Ok(Some(m))) => map_fault(b@) is None && map_bytes(m@) == b@,
            (Some(b), Err(e)) => map_fault(b@) is Some && e == (RegistryError::BadMapping {
                id: vocabulary_id,
                fault: map_fault(b@)->0,
            }),
            _ => false,
        },
{
    match file {
        None => Ok(None),
        Some(b) => match ByteMap::from_bytes(b) {
            Ok(m) => Ok(Some(m)),
            Err(fault) => Err(RegistryError::BadMapping { id: vocabulary_id, fault }),
        },
    }
}

/// Report what a ranking file holds; none where there is no file.
pub fn describe_table(vocabulary_id: u16, file: Option<&[u8]>) -> (r: Result<
    Option<ArtefactInfo>,
    RegistryError,
>)
    ensures
        match (file, r) {
            (None, Ok(info)) => info is None,
            (Some(b), Ok(Some(info))) => {
                &&& rank_fault(b@) is None
                &&& info.entries == crate::tables::stated_count(b@)
                &&& info.sha256@ == hex(sha256(b@))
                &&& info.bytes == b@.len()
            },
            (Some(b), Err(e)) => rank_fault(b@) is Some && e == (RegistryError::BadRanking {
                id: vocabulary_id,
                fault: rank_fault(b@)->0,
            }),
            _ => false,
        },
{
    let b = match file {
        None => {
            return Ok(None);
        },
        Some(b) => b,
    };
    match RankTable::from_bytes(b) {
        Ok(t) => Ok(
            Some(
                ArtefactInfo {
                    entries: t.k(),
                    sha256: digest_hex(&table_digest(b)),
                    bytes: b.len() as u64,
                },
            ),
        ),
        Err(fault) => Err(RegistryError::BadRanking { id: vocabulary_id, fault }),
    }
}

/// Report what a mapping file holds; none where there is no file.
pub fn describe_map(vocabulary_id: u16, file: Option<&[u8]>) -> (r: Result<
    Option<ArtefactInfo>,
    RegistryError,
>)
    ensures
        match (file, r) {
            (None, Ok(info)) => info is None,
            (Some(b), Ok(Some(info))) => {
                &&& map_fault(b@) is None
                &&& exists|entries: Seq<Seq<u8>>| #[trigger]
                    map_bytes(entries) == b@ && entries.len() == crate::tables::stated_count(b@)
                        && crate::tables::map::blob_of(entries).len() <= u32::MAX && info.entries
                        == n_mapped(entries)
                &&& info.sha256@ == hex(sha256(b@))
                &&& info.bytes == b@.len()
            },
            (Some(b), Err(e)) => map_fault(b@) is Some && e == (RegistryError::BadMapping {
                id: vocabulary_id,
                fault: map_fault(b@)->0,
            }),
            _ => false,
        },
{
    let b = match file {
        None => {
            return Ok(None);
        },
        Some(b) => b,
    };
    match ByteMap::from_bytes(b) {
        Ok(m) => {
            let info = ArtefactInfo {
                entries: m.mapped(),
                sha256: digest_hex(&table_digest(b)),
                bytes: b.len() as u64,
            };
            assert(map_bytes(m@) == b@ && info.entries == n_mapped(m@));
            Ok(Some(info))
        },
        Err(fault) => Err(RegistryError::BadMapping { id: vocabulary_id, fault }),
    }
}

/// A file stands in its directory: its path is the directory, one separator, and the file's name.
pub proof fn lemma_path_layout(dir: Seq<char>, file: Seq<char>)
    ensures
        path_under(Seq::<char>::empty(), file) == file,
        path_under(dir.push('/'), file) == dir + seq!['/'] + file,
        dir.len() > 0 && dir.last() != '/' ==> path_under(dir, file) == dir + seq!['/'] + file,
{
    assert(path_under(Seq::<char>::empty(), file) =~= file);
    assert(path_under(dir.push('/'), file) =~= dir + seq!['/'] + file);
    assert(dir.push('/') + file =~= dir + seq!['/'] + file);
}

proof fn lemma_decimal_injective(a: nat, b: nat)
    requires
        decimal(a) == decimal(b),
    ensures
        a == b,
    decreases a,
{
    reveal(vstd::arithmetic::power::pow);
    crate::text::lemma_decimal_digit(a, 0);
    crate::text::lemma_decimal_digit(b, 0);
    assert(a as int / 1 == a && b as int / 1 == b);
    assert(a % 10 == b % 10);
    crate::text::lemma_decimal_digit(a / 10, 0);
    crate::text::lemma_decimal_digit(b / 10, 0);
    if a >= 10 && b >= 10 {
        assert(decimal(a).drop_last() =~= decimal(a / 10));
        assert(decimal(b).drop_last() =~= decimal(b / 10));
        lemma_decimal_injective(a / 10, b / 10);
    } else if a >= 10 {
        assert(decimal(a).len() > 1 && decimal(b).len() == 1);
    } else if b >= 10 {
        assert(decimal(b).len() > 1 && decimal(a).len() == 1);
    }
}

/// Artefact files are named after their vocabulary's id and their kind, so no two artefacts share
/// a name.
pub proof fn lemma_artefact_names(a: u16, b: u16)
    ensures
        table_file(a) == decimal(a as nat) + ".tntt"@,
        map_file(a) == decimal(a as nat) + ".tnmap"@,
        table_file(a) == table_file(b) <==> a == b,
        map_file(a) == map_file(b) <==> a == b,
        table_file(a) != map_file(b),
{
    reveal_strlit(".tntt");
    reveal_strlit(".tnmap");
    let x = decimal(a as nat);
    let y = decimal(b as nat);
    if table_file(a) == table_file(b) {
        assert(table_file(a).len() == x.len() + 5 && table_file(b).len() == y.len() + 5);
        assert(x =~= table_file(a).take(x.len() as int));
        assert(y =~= table_file(b).take(y.len() as int));
        lemma_decimal_injective(a as nat, b as nat);
    }
    if map_file(a) == map_file(b) {
        assert(map_file(a).len() == x.len() + 6 && map_file(b).len() == y.len() + 6);
        assert(x =~= map_file(a).take(x.len() as int));
        assert(y =~= map_file(b).take(y.len() as int));
        lemma_decimal_injective(a as nat, b as nat);
    }
    assert(table_file(a).last() == 't');
    assert(map_file(b).last() == 'p');
}

/// The artefact that is found is the ranking where that is on disk, else the mapping where that is,
/// and none is found only where neither is.
pub proof fn lemma_artefact_outcome<F: Fn(&str) -> bool>(
    dir: Seq<char>,
    id: u16,
    on_disk: &F,
    r: Option<String>,
)
    requires
        artefact_found(dir, id, on_disk, r),
    ensures
        r is Some ==> r->0@ == path_under(dir, table_file(id)) || r->0@ == path_under(
            dir,
            map_file(id),
        ),
        r is Some && r->0@ == path_under(dir, table_file(id)) && r->0@ != path_under(
            dir,
            map_file(id),
        ) ==> exists|p: &str| #[trigger]
            on_disk.ensures((p,), true) && p@ == path_under(dir, table_file(id)),
        r is Some && r->0@ != path_under(dir, table_file(id)) ==> (exists|p: &str| #[trigger]
            on_disk.ensures((p,), false) && p@ == path_under(dir, table_file(id))) && (exists|
            p: &str,
        | #[trigger] on_disk.ensures((p,), true) && p@ == path_under(dir, map_file(id))),
        r is None ==> (exists|p: &str| #[trigger]
            on_disk.ensures((p,), false) && p@ == path_under(dir, table_file(id))) && (exists|
            p: &str,
        | #[trigger] on_disk.ensures((p,), false) && p@ == path_under(dir, map_file(id))),
{
}

/// Two errors of a kind read alike but for the details they give.
pub proof fn lemma_wording_of_registry_error(a: RegistryError, b: RegistryError)
    ensures
        a is NoDirectory && b is NoDirectory ==> crate::text::same_wording(
            a.text(),
            a->NoDirectory_0@,
            b.text(),
            b->NoDirectory_0@,
        ),
        a is BadRanking && b is BadRanking ==> crate::text::same_wording_twice(
            a.text(),
            (decimal(a->BadRanking_id as nat), a->BadRanking_fault.text()),
            b.text(),
            (decimal(b->BadRanking_id as nat), b->BadRanking_fault.text()),
        ),
        a is BadMapping && b is BadMapping ==> crate::text::same_wording_twice(
            a.text(),
            (decimal(a->BadMapping_id as nat), a->BadMapping_fault.text()),
            b.text(),
            (decimal(b->BadMapping_id as nat), b->BadMapping_fault.text()),
        ),
        a is RankingExists && b is RankingExists ==> crate::text::same_wording_twice(
            a.text(),
            (decimal(a->RankingExists_id as nat), a->RankingExists_path@),
            b.text(),
            (decimal(b->RankingExists_id as nat), b->RankingExists_path@),
        ),
        a is MappingExists && b is MappingExists ==> crate::text::same_wording_twice(
            a.text(),
            (decimal(a->MappingExists_id as nat), a->MappingExists_path@),
            b.text(),
            (decimal(b->MappingExists_id as nat), b->MappingExists_path@),
        ),
        a is CannotOpen && b is CannotOpen ==> crate::text::same_wording_twice(
            a.text(),
            (a->CannotOpen_path@, a->CannotOpen_cause@),
            b.text(),
            (b->CannotOpen_path@, b->CannotOpen_cause@),
        ),
        a is CannotMap && b is CannotMap ==> crate::text::same_wording_twice(
            a.text(),
            (a->CannotMap_path@, a->CannotMap_cause@),
            b.text(),
            (b->CannotMap_path@, b->CannotMap_cause@),
        ),
        a is CannotCreateDirectory && b is CannotCreateDirectory ==> crate::text::same_wording_twice(
            a.text(),
            (a->CannotCreateDirectory_path@, a->CannotCreateDirectory_cause@),
            b.text(),
            (b->CannotCreateDirectory_path@, b->CannotCreateDirectory_cause@),
        ),
        a is CannotStage && b is CannotStage ==> crate::text::same_wording_twice(
            a.text(),
            (a->CannotStage_path@, a->CannotStage_cause@),
            b.text(),
            (b->CannotStage_path@, b->CannotStage_cause@),
        ),
        a is CannotWrite && b is CannotWrite ==> crate::text::same_wording_twice(
            a.text(),
            (a->CannotWrite_path@, a->CannotWrite_cause@),
            b.text(),
            (b->CannotWrite_path@, b->CannotWrite_cause@),
        ),
        a is CannotFlush && b is CannotFlush ==> crate::text::same_wording_twice(
            a.text(),
            (a->CannotFlush_path@, a->CannotFlush_cause@),
            b.text(),
            (b->CannotFlush_path@, b->CannotFlush_cause@),
        ),
        a is CannotCreateMapping && b is CannotCreateMapping ==> crate::text::same_wording_twice(
            a.text(),
            (a->CannotCreateMapping_path@, a->CannotCreateMapping_cause@),
            b.text(),
            (b->CannotCreateMapping_path@, b->CannotCreateMapping_cause@),
        ),
{
    if a is NoDirectory && b is NoDirectory {
        assert(crate::text::worded(
            a.text(),
            "pgtoken.table_dir is not set; cannot "@,
            a->NoDirectory_0@,
            Seq::<char>::empty(),
        ));
        assert(crate::text::worded(
            b.text(),
            "pgtoken.table_dir is not set; cannot "@,
            b->NoDirectory_0@,
            Seq::<char>::empty(),
        ));
    }
    if a is BadRanking && b is BadRanking {
        assert(crate::text::worded_twice(
            a.text(),
            "coding table "@,
            (decimal(a->BadRanking_id as nat), a->BadRanking_fault.text()),
            " is not valid: "@,
            Seq::<char>::empty(),
        ));
        assert(crate::text::worded_twice(
            b.text(),
            "coding table "@,
            (decimal(b->BadRanking_id as nat), b->BadRanking_fault.text()),
            " is not valid: "@,
            Seq::<char>::empty(),
        ));
    }
    if a is BadMapping && b is BadMapping {
        assert(crate::text::worded_twice(
            a.text(),
            "mapping for vocabulary "@,
            (decimal(a->BadMapping_id as nat), a->BadMapping_fault.text()),
            " is not valid: "@,
            Seq::<char>::empty(),
        ));
        assert(crate::text::worded_twice(
            b.text(),
            "mapping for vocabulary "@,
            (decimal(b->BadMapping_id as nat), b->BadMapping_fault.text()),
            " is not valid: "@,
            Seq::<char>::empty(),
        ));
    }
    if a is RankingExists && b is RankingExists {
        assert(crate::text::worded_twice(
            a.text(),
            "coding table "@,
            (decimal(a->RankingExists_id as nat), a->RankingExists_path@),
            " already exists at "@,
            "; stored values reference vocabulary ids, so pick an unused id rather than replacing one"@,
        ));
        assert(crate::text::worded_twice(
            b.text(),
            "coding table "@,
            (decimal(b->RankingExists_id as nat), b->RankingExists_path@),
            " already exists at "@,
            "; stored values reference vocabulary ids, so pick an unused id rather than replacing one"@,
        ));
    }
    if a is MappingExists && b is MappingExists {
        assert(crate::text::worded_twice(
            a.text(),
            "mapping for vocabulary "@,
            (decimal(a->MappingExists_id as nat), a->MappingExists_path@),
            " already exists at "@,
            "; stored values reference vocabulary ids, so pick an unused id rather than replacing one"@,
        ));
        assert(crate::text::worded_twice(
            b.text(),
            "mapping for vocabulary "@,
            (decimal(b->MappingExists_id as nat), b->MappingExists_path@),
            " already exists at "@,
            "; stored values reference vocabulary ids, so pick an unused id rather than replacing one"@,
        ));
    }
    if a is CannotOpen && b is CannotOpen {
        assert(crate::text::worded_twice(
            a.text(),
            "cannot open "@,
            (a->CannotOpen_path@, a->CannotOpen_cause@),
            ": "@,
            Seq::<char>::empty(),
        ));
        assert(crate::text::worded_twice(
            b.text(),
            "cannot open "@,
            (b->CannotOpen_path@, b->CannotOpen_cause@),
            ": "@,
            Seq::<char>::empty(),
        ));
    }
    if a is CannotMap && b is CannotMap {
        assert(crate::text::worded_twice(
            a.text(),
            "cannot mmap "@,
            (a->CannotMap_path@, a->CannotMap_cause@),
            ": "@,
            Seq::<char>::empty(),
        ));
        assert(crate::text::worded_twice(
            b.text(),
            "cannot mmap "@,
            (b->CannotMap_path@, b->CannotMap_cause@),
            ": "@,
            Seq::<char>::empty(),
        ));
    }
    if a is CannotCreateDirectory && b is CannotCreateDirectory {
        assert(crate::text::worded_twice(
            a.text(),
            "cannot create "@,
            (a->CannotCreateDirectory_path@, a->CannotCreateDirectory_cause@),
            ": "@,
            Seq::<char>::empty(),
        ));
        assert(crate::text::worded_twice(
            b.text(),
            "cannot create "@,
            (b->CannotCreateDirectory_path@, b->CannotCreateDirectory_cause@),
            ": "@,
            Seq::<char>::empty(),
        ));
    }
    if a is CannotStage && b is CannotStage {
        assert(crate::text::worded_twice(
            a.text(),
            "cannot create temporary mapping file "@,
            (a->CannotStage_path@, a->CannotStage_cause@),
            ": "@,
            Seq::<char>::empty(),
        ));
        assert(crate::text::worded_twice(
            b.text(),
            "cannot create temporary mapping file "@,
            (b->CannotStage_path@, b->CannotStage_cause@),
            ": "@,
            Seq::<char>::empty(),
        ));
    }
    if a is CannotWrite && b is CannotWrite {
        assert(crate::text::worded_twice(
            a.text(),
            "cannot write "@,
            (a->CannotWrite_path@, a->CannotWrite_cause@),
            ": "@,
            Seq::<char>::empty(),
        ));
        assert(crate::text::worded_twice(
            b.text(),
            "cannot write "@,
            (b->CannotWrite_path@, b->CannotWrite_cause@),
            ": "@,
            Seq::<char>::empty(),
        ));
    }
    if a is CannotFlush && b is CannotFlush {
        assert(crate::text::worded_twice(
            a.text(),
            "cannot flush "@,
            (a->CannotFlush_path@, a->CannotFlush_cause@),
            " to disk: "@,
            Seq::<char>::empty(),
        ));
        assert(crate::text::worded_twice(
            b.text(),
            "cannot flush "@,
            (b->CannotFlush_path@, b->CannotFlush_cause@),
            " to disk: "@,
            Seq::<char>::empty(),
        ));
    }
    if a is CannotCreateMapping && b is CannotCreateMapping {
        assert(crate::text::worded_twice(
            a.text(),
            "cannot create mapping file "@,
            (a->CannotCreateMapping_path@, a->CannotCreateMapping_cause@),
            ": "@,
            Seq::<char>::empty(),
        ));
        assert(crate::text::worded_twice(
            b.text(),
            "cannot create mapping file "@,
            (b->CannotCreateMapping_path@, b->CannotCreateMapping_cause@),
            ": "@,
            Seq::<char>::empty(),
        ));
    }
}

} // verus!
