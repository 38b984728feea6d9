use pgtoken::tables::map::total_bytes;
use pgtoken::tables::{digest_hex, table_digest, TABLE_HEADER_LEN};
use pgtoken::{ByteMap, RankTable, TableError};

/// Token 3 most common, then 1, then 2. Nothing else is seen.
fn corpus() -> Vec<u32> {
    let mut v = vec![3u32; 10];
    v.extend(vec![1u32; 5]);
    v.extend(vec![2u32; 2]);
    v
}

#[test]
fn ranks_by_descending_frequency() {
    let t = RankTable::train(&corpus(), None).unwrap();
    assert_eq!(t.k(), 3);
    assert_eq!(t.rank(3).unwrap(), 0);
    assert_eq!(t.rank(1).unwrap(), 1);
    assert_eq!(t.rank(2).unwrap(), 2);
}

#[test]
fn breaks_ties_by_ascending_token_id() {
    let ids = vec![7u32, 7, 4, 4, 9, 9]; // all count 2
    let t = RankTable::train(&ids, None).unwrap();
    assert_eq!(t.token(0), 4);
    assert_eq!(t.token(1), 7);
    assert_eq!(t.token(2), 9);
}

#[test]
fn training_is_deterministic() {
    let a = RankTable::train(&corpus(), None).unwrap();
    let b = RankTable::train(&corpus(), None).unwrap();
    assert_eq!(a.to_bytes(), b.to_bytes());
}

#[test]
fn tables_roundtrips_ranked_tokens() {
    let t = RankTable::train(&corpus(), None).unwrap();
    for tok in [1u32, 2, 3] {
        assert_eq!(t.token(t.rank(tok).unwrap()), tok);
    }
}

#[test]
fn roundtrips_unranked_tokens_of_any_size() {
    // The property that removes vocabulary from the interface entirely: a token the table
    // never saw still roundtrips, whatever its ID.
    let t = RankTable::train(&corpus(), None).unwrap();
    for tok in [0u32, 4, 99, 50_000, 200_018, 1_000_000, u32::MAX - 3] {
        let r = t.rank(tok).unwrap();
        assert!(r >= t.k(), "unranked token {tok} should map at or above k");
        assert_eq!(t.token(r), tok, "unranked token {tok} did not roundtrip");
    }
}

#[test]
fn ranked_and_unranked_ranges_never_collide() {
    let t = RankTable::train(&corpus(), None).unwrap();
    let k = t.k();
    for tok in 0..200u32 {
        let r = t.rank(tok).unwrap();
        assert_eq!(t.token(r), tok, "token {tok} did not roundtrip");
        assert_eq!(r < k, [1u32, 2, 3].contains(&tok));
    }
}

#[test]
fn rejects_ids_that_would_overflow() {
    let t = RankTable::train(&corpus(), None).unwrap();
    let too_big = u32::MAX - 1;
    assert_eq!(
        t.rank(too_big),
        Err(TableError::IdTooLarge { id: too_big, k: 3 })
    );
}

#[test]
fn max_ranks_caps_the_table() {
    let t = RankTable::train(&corpus(), Some(2)).unwrap();
    assert_eq!(t.k(), 2);
    assert_eq!(t.rank(3).unwrap(), 0);
    assert_eq!(t.rank(1).unwrap(), 1);
    // Token 2 fell outside the cap and now takes the fallback path, still losslessly.
    assert!(t.rank(2).unwrap() >= t.k());
    assert_eq!(t.token(t.rank(2).unwrap()), 2);
}

#[test]
fn roundtrips_through_bytes() {
    let t = RankTable::train(&corpus(), None).unwrap();
    let bytes = t.to_bytes();
    let back = RankTable::from_bytes(&bytes).expect("should load");
    assert_eq!(back, t);
    assert_eq!(back.to_bytes(), bytes);
}

#[test]
fn table_file_scales_with_observed_tokens_not_vocabulary() {
    // 3 distinct tokens seen -> a 12-byte header plus 3 x u32, regardless of how large the
    // tokenizer's vocabulary happens to be.
    let t = RankTable::train(&corpus(), None).unwrap();
    assert_eq!(t.to_bytes().len(), TABLE_HEADER_LEN + 3 * 4);
}

#[test]
fn rejects_empty_corpus() {
    assert_eq!(RankTable::train(&[], None), Err(TableError::Empty));
}

#[test]
fn rejects_duplicate_token_in_file() {
    let t = RankTable::train(&corpus(), None).unwrap();
    let mut bytes = t.to_bytes();
    let a = TABLE_HEADER_LEN;
    let dup: Vec<u8> = bytes[a..a + 4].to_vec();
    bytes[a + 4..a + 8].copy_from_slice(&dup);
    assert!(matches!(
        RankTable::from_bytes(&bytes),
        Err(TableError::DuplicateToken(_))
    ));
}

#[test]
fn rejects_bad_magic_version_and_kind() {
    let base = RankTable::train(&corpus(), None).unwrap().to_bytes();

    let mut b = base.clone();
    b[0] = b'X';
    assert_eq!(RankTable::from_bytes(&b), Err(TableError::BadMagic));

    let mut b = base.clone();
    b[4] = 9;
    assert_eq!(
        RankTable::from_bytes(&b),
        Err(TableError::UnsupportedVersion(9))
    );

    let mut b = base.clone();
    b[5] = 7;
    assert_eq!(RankTable::from_bytes(&b), Err(TableError::UnknownKind(7)));

    let mut b = base;
    b[6] = 1;
    assert_eq!(RankTable::from_bytes(&b), Err(TableError::ReservedNotZero));
}

#[test]
fn digest_is_stable_and_hex_is_64_chars() {
    let bytes = RankTable::train(&corpus(), None).unwrap().to_bytes();
    assert_eq!(table_digest(&bytes), table_digest(&bytes));
    assert_eq!(digest_hex(&table_digest(&bytes)).len(), 64);
}

fn pairs() -> Vec<(u32, Vec<u8>)> {
    vec![
        (0, b"!".to_vec()),
        (1, b" the".to_vec()),
        (3, b"Hello".to_vec()),
    ]
}

#[test]
fn byte_map_roundtrips_through_bytes() {
    let m = ByteMap::build(&pairs(), 5).expect("build");
    let back = ByteMap::from_bytes(&m.to_bytes()).expect("from_bytes");
    assert_eq!(back.get(0), Some(&b"!"[..]));
    assert_eq!(back.get(1), Some(&b" the"[..]));
    assert_eq!(back.get(3), Some(&b"Hello"[..]));
    assert_eq!(back.vocab_size(), 5);
}

#[test]
fn byte_map_distinguishes_absent_from_empty() {
    // id 2 was never supplied. No real tokenizer decodes a token to zero bytes, so `build`
    // refuses a zero-length entry outright -- that keeps "empty range" an unambiguous
    // synonym for "absent" once the mapping has round-tripped through bytes.
    let mut p = pairs();
    p.push((4, Vec::new()));
    let err = ByteMap::build(&p, 5);
    assert!(err.is_err(), "a zero-length entry must be rejected");

    let m = ByteMap::build(&pairs(), 5).expect("build");
    assert_eq!(m.get(2), None, "never supplied");
}

#[test]
fn byte_map_reports_how_many_ids_it_covers() {
    let m = ByteMap::build(&pairs(), 5).expect("build");
    assert_eq!(m.mapped(), 3);
    assert_eq!(m.vocab_size(), 5);
}

#[test]
fn byte_map_rejects_an_id_outside_the_declared_space() {
    let err = ByteMap::build(&[(9, b"x".to_vec())], 5);
    assert!(err.is_err(), "id 9 is outside vocab_size 5");
}

#[test]
fn byte_map_rejects_a_duplicate_id() {
    let err = ByteMap::build(&[(1, b"a".to_vec()), (1, b"b".to_vec())], 5);
    assert!(err.is_err(), "one id cannot have two byte strings");
}

#[test]
fn byte_map_refuses_a_rank_table_file() {
    // The kind byte exists so the wrong artefact cannot be parsed as this one.
    let rank = RankTable::train(&[1, 1, 2], None).unwrap().to_bytes();
    assert_eq!(ByteMap::from_bytes(&rank), Err(TableError::UnknownKind(1)));
}

#[test]
fn byte_map_rejects_non_monotonic_offsets() {
    // A hand-corrupted file must not produce a reversed slice range and panic.
    let mut b = ByteMap::build(&pairs(), 5).unwrap().to_bytes();
    let off1 = TABLE_HEADER_LEN + 4;
    b[off1..off1 + 4].copy_from_slice(&u32::MAX.to_le_bytes());
    assert!(
        ByteMap::from_bytes(&b).is_err(),
        "offsets must be validated"
    );
}

#[test]
fn byte_map_handles_an_empty_mapping() {
    let m = ByteMap::build(&[], 3).expect("build");
    assert_eq!(m.mapped(), 0);
    assert_eq!(m.get(0), None);
}

#[test]
fn a_digest_is_sha256_in_lower_case() {
    assert_eq!(
        digest_hex(&table_digest(b"")),
        "e3b0c44298fc1c149afbf4c8996fb92427ae41e4649b934ca495991b7852b855"
    );
    assert_eq!(
        digest_hex(&table_digest(b"abc")),
        "ba7816bf8f01cfea414140de5dae2223b00361a396177a9cb410ff61f20015ad"
    );
}

#[test]
fn a_ranking_has_these_bytes() {
    let t = RankTable::train(&[5, 5, 70_000], None).unwrap();
    assert_eq!(
        t.to_bytes(),
        vec![
            b'T', b'N', b'T', b'T', 1, 1, 0, 0, 2, 0, 0, 0, 5, 0, 0, 0, 0x70, 0x11, 0x01, 0x00
        ]
    );
    assert_eq!(t.clone(), t);
}

#[test]
fn a_mapping_has_these_bytes() {
    let m = ByteMap::build(&[(1, b"ab".to_vec()), (0, b"c".to_vec())], 3).unwrap();
    assert_eq!(
        m.to_bytes(),
        vec![
            b'T', b'N', b'T', b'T', 1, 2, 0, 0, 3, 0, 0, 0, 0, 0, 0, 0, 1, 0, 0, 0, 3, 0, 0, 0, 3,
            0, 0, 0, b'c', b'a', b'b'
        ]
    );
    assert_eq!(m.clone(), m);
    assert_eq!(m.get(3), None, "beyond the vocabulary");
}

#[test]
fn a_ranking_file_is_refused_for_its_first_fault() {
    let base = RankTable::train(&corpus(), None).unwrap().to_bytes();
    assert_eq!(RankTable::from_bytes(&base[..11]), Err(TableError::TooShort(11)));
    assert_eq!(
        RankTable::from_bytes(&base[..20]),
        Err(TableError::PayloadLen { want: 12, got: 8 })
    );
    let mut b = base.clone();
    b.push(0);
    assert_eq!(
        RankTable::from_bytes(&b),
        Err(TableError::PayloadLen { want: 12, got: 13 })
    );
    let mut b = base;
    b[16..20].copy_from_slice(&[3, 0, 0, 0]);
    b[20..24].copy_from_slice(&[3, 0, 0, 0]);
    assert_eq!(RankTable::from_bytes(&b), Err(TableError::DuplicateToken(3)));
}

#[test]
fn a_mapping_file_is_refused_for_its_first_fault() {
    let base = ByteMap::build(&pairs(), 5).unwrap().to_bytes();
    assert_eq!(ByteMap::from_bytes(&base[..3]), Err(TableError::TooShort(3)));
    assert_eq!(
        ByteMap::from_bytes(&base[..30]),
        Err(TableError::PayloadLen { want: 24, got: 18 })
    );
    let mut b = base.clone();
    b[12] = 1;
    assert_eq!(ByteMap::from_bytes(&b), Err(TableError::BadOffsets), "must start at zero");
    let mut b = base.clone();
    b.pop();
    assert_eq!(ByteMap::from_bytes(&b), Err(TableError::BadOffsets), "must end at the end");
    let mut b = base.clone();
    b[4] = 2;
    assert_eq!(ByteMap::from_bytes(&b), Err(TableError::UnsupportedVersion(2)));
    let mut b = base;
    b[7] = 2;
    assert_eq!(ByteMap::from_bytes(&b), Err(TableError::ReservedNotZero));
}

#[test]
fn the_first_bad_pair_decides() {
    let x = || b"x".to_vec();
    assert_eq!(
        ByteMap::build(&[(9, vec![]), (1, vec![])], 5),
        Err(TableError::IdOutsideVocabulary { id: 9, vocab_size: 5 })
    );
    assert_eq!(
        ByteMap::build(&[(1, x()), (1, vec![]), (9, x())], 5),
        Err(TableError::EmptyEntry(1))
    );
    assert_eq!(
        ByteMap::build(&[(1, x()), (2, x()), (1, x()), (9, x())], 5),
        Err(TableError::DuplicateId(1))
    );
}

#[test]
fn table_errors_say_what_is_wrong() {
    for (e, text) in [
        (TableError::TooShort(3), "table file is only 3 bytes"),
        (TableError::BadMagic, "table file has bad magic, expected TNTT"),
        (TableError::UnsupportedVersion(9), "unsupported table version 9"),
        (TableError::UnknownKind(7), "unknown table kind 7"),
        (TableError::ReservedNotZero, "reserved table header bytes are not zero"),
        (
            TableError::PayloadLen { want: 12, got: 8 },
            "table payload is 8 bytes, expected 12",
        ),
        (
            TableError::DuplicateToken(3),
            "token 3 appears twice in the table; ranks must be a bijection",
        ),
        (TableError::Empty, "cannot train a table on an empty corpus"),
        (
            TableError::IdTooLarge { id: 10, k: 3 },
            "token id 10 is too large to remap against a table of 3 ranks",
        ),
        (
            TableError::IdOutsideVocabulary { id: 9, vocab_size: 5 },
            "token id 9 is outside the vocabulary's declared size 5",
        ),
        (TableError::DuplicateId(4), "token id 4 appears twice in the mapping"),
        (
            TableError::EmptyEntry(4),
            "token id 4 decodes to zero bytes, which no real tokenizer produces",
        ),
        (
            TableError::BadOffsets,
            "mapping offsets are not monotonic or run past the blob",
        ),
    ] {
        assert_eq!(e.message(), text);
    }
}

#[test]
fn a_large_corpus_is_ranked_like_a_sorted_count() {
    let mut x: u32 = 12345;
    let ids: Vec<u32> = (0..50_000)
        .map(|_| {
            x = x.wrapping_mul(1_664_525).wrapping_add(1_013_904_223);
            (x >> 16) % 997 * ((x >> 8) % 7)
        })
        .collect();
    let mut counts = std::collections::BTreeMap::new();
    for &id in &ids {
        *counts.entry(id).or_insert(0u64) += 1;
    }
    let mut want: Vec<(u64, u32)> = counts.iter().map(|(&t, &n)| (n, t)).collect();
    want.sort_by(|a, b| b.0.cmp(&a.0).then(a.1.cmp(&b.1)));
    let t = RankTable::train(&ids, None).unwrap();
    assert_eq!(t.k() as usize, want.len());
    for (r, &(_, token)) in want.iter().enumerate() {
        assert_eq!(t.token(r as u32), token);
    }
}

#[test]
fn the_more_frequent_token_has_the_smaller_rank() {
    let ids = [9u32, 9, 9, 4, 4, 70_000, 70_000, 1];
    for cap in [None, Some(2), Some(3)] {
        let t = RankTable::train(&ids, cap).unwrap();
        assert_eq!(t.rank(9).unwrap(), 0);
        assert_eq!(t.rank(4).unwrap(), 1);
        assert!(t.rank(70_000).unwrap() >= 2);
    }
}

#[test]
fn pairs_know_how_many_bytes_they_hold() {
    assert_eq!(total_bytes(&pairs()), 10);
    assert_eq!(total_bytes(&[]), 0);
}
