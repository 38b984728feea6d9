use pgtoken::registry::cache::PathKey;
use pgtoken::registry::write::{MapStep, MapWrite, Outcome, TableStep, TableWrite};
use pgtoken::registry::{
    byte_map, describe_map, describe_table, existing_artefact, join_path, map_path, rank_table,
    require_dir, table_path, ArtefactCache, RegistryError,
};
use pgtoken::tables::{digest_hex, table_digest};
use pgtoken::{ByteMap, RankTable, TableError};

fn failed(cause: &str) -> Outcome {
    Outcome::Failed {
        exists: false,
        cause: cause.to_string(),
    }
}

#[test]
fn artefacts_are_named_after_their_vocabulary() {
    assert_eq!(table_path("/t", 7), "/t/7.tntt");
    assert_eq!(map_path("/t/", 65535), "/t/65535.tnmap");
    assert_eq!(map_path("", 1), "1.tnmap");
    assert_eq!(join_path("a", "b"), "a/b");
}

#[test]
fn an_unset_directory_says_so() {
    assert!(require_dir("/t", "read vocabulary artefacts").is_ok());
    assert_eq!(
        require_dir("", "read vocabulary artefacts").unwrap_err().message(),
        "pgtoken.table_dir is not set; cannot read vocabulary artefacts"
    );
}

#[test]
fn an_existing_artefact_is_found() {
    let mapping = |p: &str| p == "/t/3.tnmap";
    assert_eq!(existing_artefact("/t", 3, &mapping), Some("/t/3.tnmap".to_string()));
    assert_eq!(existing_artefact("/t", 4, &mapping), None);
    let both = |p: &str| p.starts_with("/t/3.");
    assert_eq!(existing_artefact("/t", 3, &both), Some("/t/3.tntt".to_string()));
    let all = |_: &str| true;
    assert_eq!(existing_artefact("", 3, &all), None);
}

#[test]
fn artefacts_are_described_by_their_bytes() {
    let rank = RankTable::train(&[3, 3, 1], None).unwrap().to_bytes();
    let info = describe_table(7, Some(&rank)).unwrap().unwrap();
    assert_eq!((info.entries, info.bytes), (2, 20));
    assert_eq!(info.sha256, digest_hex(&table_digest(&rank)));
    assert_eq!(describe_table(7, None).unwrap(), None);
    assert_eq!(rank_table(7, None).unwrap(), None);
    assert_eq!(rank_table(7, Some(&rank)).unwrap().unwrap().token(0), 3);

    let map = ByteMap::build(&[(1, b"x".to_vec())], 4).unwrap().to_bytes();
    let info = describe_map(7, Some(&map)).unwrap().unwrap();
    assert_eq!((info.entries, info.bytes), (1, map.len() as u64));
    assert_eq!(describe_map(7, None).unwrap(), None);
    assert_eq!(byte_map(7, None).unwrap(), None);
    assert_eq!(byte_map(7, Some(&map)).unwrap().unwrap().get(1), Some(&b"x"[..]));

    // Each refuses the other.
    assert_eq!(
        rank_table(7, Some(&map)).unwrap_err().message(),
        "coding table 7 is not valid: unknown table kind 2"
    );
    assert_eq!(
        describe_map(7, Some(&rank)).unwrap_err(),
        RegistryError::BadMapping {
            id: 7,
            fault: TableError::UnknownKind(1)
        }
    );
    assert_eq!(
        byte_map(7, Some(&rank)).unwrap_err().message(),
        "mapping for vocabulary 7 is not valid: unknown table kind 1"
    );
    assert_eq!(
        describe_table(7, Some(&[])).unwrap_err().message(),
        "coding table 7 is not valid: table file is only 0 bytes"
    );
}

#[test]
fn the_cache_keeps_its_first_answer() {
    let mut c: ArtefactCache<u32> = ArtefactCache::new();
    assert_eq!(c.get("/a"), None);
    c.insert("/a", 1);
    c.insert("/b", 2);
    c.insert("/a", 3);
    assert_eq!(c.get("/a"), Some(&1));
    assert_eq!(c.get("/b"), Some(&2));
    assert_eq!(c.get("/c"), None);
}

#[test]
fn a_mapping_is_staged_flushed_and_linked() {
    let mut w = MapWrite::begin("/t", 9, 123, 456).unwrap();
    assert_eq!(w.path, "/t/9.tnmap");
    assert_eq!(w.temporary, "/t/.9.tnmap.123.456.tmp");
    for step in [
        MapStep::CreateDirectory,
        MapStep::OpenTemporary,
        MapStep::WriteTemporary,
        MapStep::FlushTemporary,
        MapStep::Link,
        MapStep::RemoveTemporary,
    ] {
        assert_eq!(w.step, step);
        w = w.advance(Outcome::Done);
    }
    assert_eq!(w.step, MapStep::Finished);
    assert_eq!(w.result().unwrap(), "/t/9.tnmap");
    assert!(MapWrite::begin("", 9, 1, 2).is_err());
}

#[test]
fn the_temporary_file_is_removed_whatever_fails() {
    let cases = [
        (1, failed("e"), "cannot create temporary mapping file /t/.9.tnmap.1.2.tmp: e"),
        (2, failed("e"), "cannot write /t/.9.tnmap.1.2.tmp: e"),
        (3, failed("e"), "cannot flush /t/.9.tnmap.1.2.tmp to disk: e"),
        (4, failed("e"), "cannot create mapping file /t/9.tnmap: e"),
        (
            4,
            Outcome::Failed {
                exists: true,
                cause: "e".to_string(),
            },
            "mapping for vocabulary 9 already exists at /t/9.tnmap; stored values reference \
             vocabulary ids, so pick an unused id rather than replacing one",
        ),
    ];
    for (done, failure, message) in cases {
        let mut w = MapWrite::begin("/t", 9, 1, 2).unwrap();
        for _ in 0..done {
            w = w.advance(Outcome::Done);
        }
        w = w.advance(failure);
        assert_eq!(w.step, MapStep::RemoveTemporary);
        w = w.advance(failed("ignored"));
        assert_eq!(w.step, MapStep::Finished);
        assert_eq!(w.result().unwrap_err().message(), message);
    }
    let w = MapWrite::begin("/t", 9, 1, 2).unwrap().advance(failed("e"));
    assert_eq!(w.step, MapStep::Finished);
    assert_eq!(w.result().unwrap_err().message(), "cannot create /t: e");
}

#[test]
fn a_ranking_is_not_overwritten() {
    let mut w = TableWrite::begin("/t", 9).unwrap();
    for step in [TableStep::CreateDirectory, TableStep::CheckAbsent, TableStep::Write] {
        assert_eq!(w.step, step);
        w = w.advance(Outcome::Done);
    }
    assert_eq!(w.step, TableStep::Finished);
    assert_eq!(w.result().unwrap(), "/t/9.tntt");

    let w = TableWrite::begin("/t", 9).unwrap().advance(Outcome::Done).advance(failed(""));
    assert_eq!(w.step, TableStep::Finished);
    assert_eq!(
        w.result().unwrap_err().message(),
        "coding table 9 already exists at /t/9.tntt; stored values reference \
         vocabulary ids, so pick an unused id rather than replacing one"
    );
    let w = TableWrite::begin("/t", 9)
        .unwrap()
        .advance(Outcome::Done)
        .advance(Outcome::Done)
        .advance(failed("full"));
    assert_eq!(w.result().unwrap_err().message(), "cannot write /t/9.tntt: full");
    let w = TableWrite::begin("/t", 9).unwrap().advance(failed("no"));
    assert_eq!(w.result().unwrap_err().message(), "cannot create /t: no");
    assert_eq!(
        TableWrite::begin("", 9).unwrap_err().message(),
        "pgtoken.table_dir is not set; cannot write a vocabulary ranking"
    );
}

#[test]
fn reading_faults_name_the_file() {
    let path = "/t/1.tntt".to_string();
    let cause = "denied".to_string();
    assert_eq!(
        RegistryError::CannotOpen {
            path: path.clone(),
            cause: cause.clone()
        }
        .message(),
        "cannot open /t/1.tntt: denied"
    );
    assert_eq!(
        RegistryError::CannotMap { path, cause }.message(),
        "cannot mmap /t/1.tntt: denied"
    );
}

#[test]
fn two_spellings_of_a_path_are_one_path() {
    let mut c: ArtefactCache<u32> = ArtefactCache::new();
    c.insert("/d/1.tntt", 1);
    for spelling in ["/d//1.tntt", "//d/1.tntt", "/d/./1.tntt", "/./d/1.tntt", "/d/1.tntt/", "/d/1.tntt/."] {
        assert_eq!(c.get(spelling), Some(&1), "{spelling}");
    }
    for other in ["d/1.tntt", "./d/1.tntt", "/d/../d/1.tntt", "/d/1.tnmap", "/d", "", "/", "."] {
        assert_eq!(c.get(other), None, "{other}");
    }
}

#[test]
fn paths_are_compared_as_the_standard_library_does() {
    let paths = [
        "", "/", "//", ".", "./", "/.", "..", "../", "a", "./a", "a/", "a/.", "a//b", "a/./b",
        "a/b", "/a/b", "a/../b", "././a", "./a/.", "...", "/..", ".a", "a.", "a/.b",
    ];
    for a in paths {
        for b in paths {
            assert_eq!(
                PathKey::new(a).same(&PathKey::new(b)),
                std::path::Path::new(a) == std::path::Path::new(b),
                "{a:?} and {b:?}"
            );
        }
    }
}
