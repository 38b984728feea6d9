use pgtoken::registry::ArtefactInfo;
use pgtoken::vocabulary::{
    assign_id, check_declaration, check_droppable, check_name_free, compression_code,
    compression_name, create_domain_sql, create_text_sql, create_vocabulary, drop_domain_sql,
    drop_text_sql, next_free_id, vocabulary_from_row, vocabulary_info, width_for, Vocabulary,
    VocabularyError, COMPRESSION_FREQ, COMPRESSION_RAW,
};

#[test]
fn width_is_derived_from_vocab_size() {
    for (size, want) in [
        (1, 1),
        (256, 1),
        (257, 2),
        (32000, 2),
        (65536, 2),
        (65537, 3),
        (100277, 3),
        (200019, 3),
        (16777216, 3),
        (16777217, 4),
        (i32::MAX, 4),
        (0, 4),
        (-5, 4),
    ] {
        assert_eq!(width_for(size), want, "vocab_size {size}");
    }
}

#[test]
fn compression_goes_by_name() {
    assert_eq!(compression_code("raw").unwrap(), COMPRESSION_RAW);
    assert_eq!(compression_code("freq").unwrap(), COMPRESSION_FREQ);
    assert_eq!(compression_name(COMPRESSION_FREQ), "freq");
    assert_eq!(compression_name(COMPRESSION_RAW), "raw");
    assert_eq!(compression_name(9), "raw");
    assert_eq!(
        compression_code("lz4").unwrap_err().message(),
        "unknown compression \"lz4\"; expected 'raw' or 'freq'"
    );
}

#[test]
fn declarations_are_checked_in_order() {
    let message = |name: &str, size: i32, compression: &str| {
        check_declaration(name, size, compression).unwrap_err().message()
    };
    assert_eq!(
        message("a'b", 0, "lz4"),
        "vocab_size is required and must be at least 1"
    );
    assert_eq!(
        message("a'b", 20_000_000, "lz4"),
        "vocab_size 20000000 exceeds the 16777216 this format can address"
    );
    for name in ["a'b", "a\"b", "a\\b"] {
        assert_eq!(
            message(name, 300, "lz4"),
            format!("vocabulary name {name:?} may not contain quotes or backslashes")
        );
    }
    assert_eq!(
        message("ok", 300, "lz4"),
        "unknown compression \"lz4\"; expected 'raw' or 'freq'"
    );
    assert_eq!(check_declaration("ok", 300, "raw").unwrap(), 2);
    assert_eq!(check_declaration("ok", 16_777_216, "freq").unwrap(), 3);
}

#[test]
fn a_name_is_taken_forever() {
    assert!(check_name_free("n", false, false).is_ok());
    assert_eq!(
        check_name_free("dup", true, true).unwrap_err().message(),
        "vocabulary \"dup\" already exists"
    );
    assert_eq!(
        check_name_free("dom_reserved", true, false).unwrap_err().message(),
        "vocabulary \"dom_reserved\" was dropped and its name is permanently reserved: \
         stored values may still reference its id, so neither the id nor the name can be \
         recycled; pick a different name"
    );
}

#[test]
fn dropping_names_the_real_state() {
    assert!(check_droppable("n", true, true).is_ok());
    assert_eq!(
        check_droppable("n", false, false).unwrap_err().message(),
        "vocabulary \"n\" does not exist"
    );
    assert_eq!(
        check_droppable("dom_double", true, false).unwrap_err().message(),
        "vocabulary \"dom_double\" was already dropped; its id stays reserved forever \
         and cannot be dropped again"
    );
}

#[test]
fn ids_skip_orphaned_artefacts() {
    let artefact = |id: u16| match id {
        62202 => Some("/t/62202.tnmap".to_string()),
        62203 => Some("/t/62203.tntt".to_string()),
        _ => None,
    };
    assert_eq!(next_free_id(62202, &artefact, "/t").unwrap(), 62204);
    assert_eq!(next_free_id(1, &artefact, "/t").unwrap(), 1);
    assert_eq!(assign_id(None, 62203, &artefact, "/t").unwrap(), 62204);
    assert_eq!(assign_id(Some(40000), 1, &artefact, "/t").unwrap(), 40000);
    assert_eq!(
        assign_id(Some(62202), 1, &artefact, "/t").unwrap_err().message(),
        "vocabulary id 62202 already has an artefact file at \
         /t/62202.tnmap, left over from a vocabulary that was \
         rolled back or dropped: artefact files are written outside the transaction, so \
         they outlive the catalog row that ordered them. A vocabulary created here would \
         inherit it; remove the file if nothing references it, or pick another id"
    );
    for v in [0, -1, 65536] {
        assert_eq!(
            assign_id(Some(v), 1, &artefact, "/t").unwrap_err().message(),
            format!("vocabulary id {v} is out of range (1..65535)")
        );
    }
}

#[test]
fn ids_can_run_out() {
    let all = |id: u16| Some(format!("/t/{id}.tntt"));
    assert_eq!(
        next_free_id(65534, &all, "/t").unwrap_err().message(),
        "no vocabulary id is free: every id from 65534 to 65535 already has an artefact file in /t"
    );
    let none = |_: u16| None;
    assert_eq!(
        next_free_id(65536, &none, "/t").unwrap_err(),
        VocabularyError::NoFreeId {
            start: 65536,
            dir: "/t".to_string()
        }
    );
}

#[test]
fn creating_a_vocabulary_decides_in_order() {
    let none = |_: u16| None;
    let v = create_vocabulary("o200k", 200_019, "raw", None, false, false, 4, &none, "/t").unwrap();
    assert_eq!((v.id, v.vocab_size, v.width), (4, 200_019, 3));
    let v = create_vocabulary("p", 300, "freq", Some(41), false, false, 4, &none, "").unwrap();
    assert_eq!((v.id, v.width), (41, 2));
    assert_eq!(
        create_vocabulary("p", 0, "raw", Some(0), true, true, 4, &none, "").unwrap_err(),
        VocabularyError::SizeTooSmall
    );
    assert_eq!(
        create_vocabulary("p", 3, "raw", Some(0), true, true, 4, &none, "").unwrap_err(),
        VocabularyError::AlreadyExists("p".to_string())
    );
    assert_eq!(
        create_vocabulary("p", 3, "raw", Some(0), false, false, 4, &none, "").unwrap_err(),
        VocabularyError::IdOutOfRange(0)
    );
}

#[test]
fn the_domain_carries_the_vocabulary() {
    assert_eq!(
        create_domain_sql("o200k", "o200k"),
        "CREATE DOMAIN tokens.o200k AS pgtoken.tokens('o200k')"
    );
    assert_eq!(drop_domain_sql("\"My V\""), "DROP DOMAIN tokens.\"My V\"");
    assert!(create_text_sql("o200k").starts_with("CREATE FUNCTION pgtoken.text(tokens.o200k)"));
    assert_eq!(drop_text_sql("o200k"), "DROP FUNCTION pgtoken.text(tokens.o200k)");
}

#[test]
fn a_catalog_row_resolves() {
    assert_eq!(
        vocabulary_from_row(40000, "freq", 3).unwrap(),
        Vocabulary {
            id: 40000,
            compression: COMPRESSION_FREQ,
            width: 3
        }
    );
    assert!(vocabulary_from_row(1, "lz4", 1).is_err());
}

#[test]
fn info_tells_absent_from_unreadable() {
    let v = Vocabulary {
        id: 7,
        compression: COMPRESSION_FREQ,
        width: 3,
    };
    let ranking = ArtefactInfo {
        entries: 4,
        sha256: "ab".to_string(),
        bytes: 28,
    };
    let info = vocabulary_info(
        "v",
        Some(v),
        Some(200_019),
        Ok(Some(ranking.clone())),
        "/t/7.tntt",
        Ok(None),
        "/t/7.tnmap",
    )
    .unwrap();
    assert_eq!((info.id, info.vocab_size, info.width), (7, 200_019, 3));
    assert_eq!(info.compression, "freq");
    assert_eq!(info.ranking, Some(ranking));
    assert_eq!(info.mapping, None);

    let message = |found, size, ranking, mapping| {
        vocabulary_info("v", found, size, ranking, "/t/7.tntt", mapping, "/t/7.tnmap")
            .unwrap_err()
            .message()
    };
    assert_eq!(
        message(None, None, Ok(None), Ok(None)),
        "vocabulary \"v\" does not exist"
    );
    assert_eq!(
        message(Some(v), None, Ok(None), Ok(None)),
        "vocabulary \"v\" has no catalog row"
    );
    assert_eq!(
        message(Some(v), Some(1), Err("short".to_string()), Err("long".to_string())),
        "vocabulary \"v\" has a ranking file at /t/7.tntt but it could not be read: short"
    );
    assert_eq!(
        message(Some(v), Some(1), Ok(None), Err("long".to_string())),
        "vocabulary \"v\" has a mapping file at /t/7.tnmap but it could not be read: long"
    );
}
