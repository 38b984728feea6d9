use pgtoken::tokens::list::space;
use pgtoken::tokens::{
    check_against_typmod, check_cursor, check_ids, coercion_for, decode_value, encode_for,
    encode_unresolved, parse_ids, receive, render_ids, require_vocabulary, text, tokens_in,
    tokens_out, typmod_apply, validate, vocabulary_label, Coercion, ListError, TokensError,
};
use pgtoken::typmod::pack;
use pgtoken::vocabulary::{width_for, Vocabulary, COMPRESSION_FREQ, COMPRESSION_RAW};
use pgtoken::{encode, ByteMap, Codec, DetokError, HeaderError, RankTable, ValueError, HEADER_LEN};

fn raw(id: u16, width: u8) -> i32 {
    pack(Vocabulary {
        id,
        compression: COMPRESSION_RAW,
        width,
    })
}

fn freq(id: u16) -> i32 {
    pack(Vocabulary {
        id,
        compression: COMPRESSION_FREQ,
        width: 3,
    })
}

fn ranking() -> RankTable {
    RankTable::train(&[7, 7, 7, 7, 3, 3, 199_999], None).unwrap()
}

#[test]
fn lists_parse_with_and_without_white_space() {
    assert_eq!(parse_ids("{24912,2375}").unwrap(), vec![24912, 2375]);
    assert_eq!(parse_ids("{ 1, 2 , 3 }").unwrap(), vec![1, 2, 3]);
    assert_eq!(parse_ids(" \t{1}\u{3000}\n").unwrap(), vec![1]);
    assert_eq!(parse_ids("{}").unwrap(), Vec::<u32>::new());
    assert_eq!(parse_ids("{ \u{a0} }").unwrap(), Vec::<u32>::new());
    assert_eq!(parse_ids("{4294967295}").unwrap(), vec![u32::MAX]);
    assert_eq!(parse_ids("{+5,-0,000017}").unwrap(), vec![5, 0, 17]);
    let zeros = format!("{{{}9}}", "0".repeat(60));
    assert_eq!(parse_ids(&zeros).unwrap(), vec![9]);
}

#[test]
fn lists_that_are_not_understood_are_refused_whole() {
    let message = |s: &str| parse_ids(s).unwrap_err().message();
    assert_eq!(message("nope"), "expected '{' at the start of a token id list");
    assert_eq!(message(""), "expected '{' at the start of a token id list");
    assert_eq!(message("{"), "expected '}' at the end of a token id list");
    assert_eq!(message("{1,2"), "expected '}' at the end of a token id list");
    assert_eq!(message("{1,,2}"), "empty token id between commas");
    assert_eq!(message("{1,2,}"), "empty token id between commas");
    assert_eq!(message("{,}"), "empty token id between commas");
    assert_eq!(message("{1,-1}"), "token id -1 is negative");
    assert_eq!(message("{4294967296}"), "token id 4294967296 is too large");
    assert_eq!(
        message("{9223372036854775807}"),
        "token id 9223372036854775807 is too large"
    );
    assert_eq!(
        message("{-9223372036854775808}"),
        "token id -9223372036854775808 is negative"
    );
    assert_eq!(
        message("{9223372036854775808}"),
        "\"9223372036854775808\" is not a token id"
    );
    assert_eq!(message("{1, a\"b ,2}"), "\"a\\\"b\" is not a token id");
    assert_eq!(message("{-}"), "\"-\" is not a token id");
    assert_eq!(message("{1 2}"), "\"1 2\" is not a token id");
    // The first bad field decides.
    assert_eq!(parse_ids("{x,-1}"), Err(ListError::NotAnId("x".to_string())));
}

#[test]
fn lists_render_without_white_space() {
    assert_eq!(render_ids(&[]), "{}");
    assert_eq!(render_ids(&[0]), "{0}");
    assert_eq!(render_ids(&[24912, 2375, u32::MAX]), "{24912,2375,4294967295}");
}

#[test]
fn rendered_lists_parse_back() {
    for ids in [vec![], vec![0], vec![10, 9, 100], vec![u32::MAX, 1, 0, 16_777_216]] {
        assert_eq!(parse_ids(&render_ids(&ids)).unwrap(), ids);
    }
}

#[test]
fn white_space_is_what_unicode_says() {
    for u in 0..=0x10_FFFFu32 {
        if let Some(c) = char::from_u32(u) {
            assert_eq!(space(c), c.is_whitespace(), "U+{u:04X}");
        }
    }
}

#[test]
fn the_vocabulary_fixes_the_width() {
    let small = encode_for(&[1, 2, 3], raw(1, 1), Some(256), None).unwrap();
    let big = encode_for(&[1, 2, 3], raw(2, 3), Some(200_019), None).unwrap();
    assert_eq!(small.len(), 12 + 3, "raw8: one byte per token");
    assert_eq!(big.len(), 12 + 9, "raw24: three bytes per token");
    assert_eq!(&small[12..], &[1, 2, 3]);
    assert_eq!(decode_value(&small, None).unwrap(), vec![1, 2, 3]);
}

#[test]
fn ids_outside_the_vocabulary_are_refused() {
    let err = encode_for(&[1, 300, 400], raw(5, 1), Some(256), None).unwrap_err();
    assert_eq!(
        err,
        TokensError::OutsideVocabulary {
            id: 300,
            vocabulary: 5,
            size: 256
        }
    );
    assert_eq!(
        err.message(Some("t_bound"), None),
        "token id 300 is outside vocabulary t_bound (size 256)"
    );
    assert_eq!(
        err.message(None, None),
        "token id 300 is outside vocabulary 5 (size 256)"
    );
    assert_eq!(err.vocabularies(), (Some(5), None));
    assert_eq!(
        encode_for(&[1], raw(5, 1), None, None).unwrap_err().message(None, None),
        "vocabulary id 5 is not registered"
    );
    assert!(check_ids(&[255], raw(5, 1), Some(256)).is_ok());
}

#[test]
fn freq_needs_a_trained_ranking() {
    let err = encode_for(&[1, 2, 3], freq(60001), Some(200_019), None).unwrap_err();
    assert_eq!(
        err.message(Some("t_freq"), None),
        "vocabulary t_freq has no ranking; run pgtoken.train first"
    );
    let t = ranking();
    let v = encode_for(&[7, 3, 199_999, 42], freq(60001), Some(200_019), Some(&t)).unwrap();
    assert_eq!(decode_value(&v, Some(&t)).unwrap(), vec![7, 3, 199_999, 42]);
    assert_eq!(decode_value(&v, None), Err(TokensError::NoRanking(60001)));
}

#[test]
fn text_goes_in_and_comes_out() {
    let t = ranking();
    for (typmod, table) in [(raw(4, 3), None), (freq(4), Some(&t))] {
        let v = tokens_in(b"{ 24912, 2375,7 }", typmod, Some(200_019), table).unwrap();
        let shown = tokens_out(&v, table).unwrap();
        assert_eq!(shown, "{24912,2375,7}");
        // A dump restores to the same bytes.
        assert_eq!(
            tokens_in(shown.as_bytes(), typmod, Some(200_019), table).unwrap(),
            v
        );
    }
    assert_eq!(
        tokens_in(&[b'{', 0xFF, b'}'], raw(4, 3), Some(10), None)
            .unwrap_err()
            .message(None, None),
        "token id input is not valid UTF-8"
    );
    assert_eq!(
        tokens_in(b"nope", raw(4, 3), Some(10), None).unwrap_err(),
        TokensError::List(ListError::NoOpeningBrace)
    );
}

#[test]
fn a_value_without_a_vocabulary_cannot_be_read() {
    let v = tokens_in(b"{1,2,3}", -1, None, None).unwrap();
    assert_eq!(v, encode_unresolved(&[1, 2, 3]).unwrap());
    assert_eq!(v.len(), HEADER_LEN + 9, "the widest packing");
    for err in [
        tokens_out(&v, None).unwrap_err(),
        require_vocabulary(&v).unwrap_err(),
        validate(&v).unwrap_err(),
        receive(&v, -1).unwrap_err(),
        text(&v, None, None).unwrap_err(),
    ] {
        assert_eq!(err, TokensError::Unresolved);
        assert_eq!(
            err.message(None, None),
            "cannot read a pgtoken.tokens value that has no vocabulary"
        );
        assert!(err.detail().unwrap().contains("stored unresolved"));
        assert!(err.hint(None).unwrap().starts_with("Repair in place: ALTER TABLE"));
    }
    // An assignment gives it a vocabulary.
    let applied = typmod_apply(&v, raw(9, 1), false, None, Some(256), None).unwrap();
    assert_eq!(applied, encode_for(&[1, 2, 3], raw(9, 1), Some(256), None).unwrap());
    assert_eq!(tokens_out(&applied, None).unwrap(), "{1,2,3}");
}

#[test]
fn an_id_the_format_cannot_address_is_refused() {
    assert!(encode_unresolved(&[16_777_215]).is_ok());
    let err = encode_unresolved(&[1, 16_777_216]).unwrap_err();
    assert_eq!(
        err.message(None, None),
        "token id 16777216 exceeds the 16777215 this format can address"
    );
}

#[test]
fn applying_a_negative_typmod_is_refused() {
    let v = encode_for(&[1, 2], raw(1, 2), Some(300), None).unwrap();
    let err = typmod_apply(&v, -1, false, None, None, None).unwrap_err();
    assert_eq!(err, TokensError::NoVocabularyTypmod);
    assert_eq!(err.message(None, None), "pgtoken.tokens requires a vocabulary");
    assert!(err.detail().unwrap().ends_with("no default width to fall back to."));
    assert_eq!(err.hint(None), None);
    assert_eq!(encode_for(&[1], -1, None, None), Err(TokensError::NoVocabularyTypmod));
}

#[test]
fn an_explicit_cast_moves_a_value_to_another_vocabulary() {
    let v = encode_for(&[1, 2, 3], raw(1, 3), Some(200_019), None).unwrap();
    assert_eq!(coercion_for(&v, raw(2, 1), true), Ok(Coercion::Recode));
    let moved = typmod_apply(&v, raw(2, 1), true, None, Some(256), None).unwrap();
    assert_eq!(moved.len(), 12 + 3, "re-encoded to raw8");
    assert_eq!(tokens_out(&moved, None).unwrap(), "{1,2,3}");
}

#[test]
fn an_assignment_and_binary_input_refuse_another_vocabulary() {
    let v = encode_for(&[1, 2, 70_000], raw(1, 3), Some(200_019), None).unwrap();
    let err = typmod_apply(&v, raw(2, 3), false, None, Some(200_019), None).unwrap_err();
    assert_eq!(err, TokensError::CrossVocabulary { from: 1, to: 2 });
    assert_eq!(
        err.message(Some("a_from"), Some("a_to")),
        "cannot store a_from token ids in a tokens('a_to') column"
    );
    assert!(err.detail().is_some());
    assert!(err
        .hint(Some("a_to"))
        .unwrap()
        .ends_with("ALTER TABLE t ALTER COLUMN c TYPE tokens.a_to USING c::tokens.a_to"));
    let err = receive(&v, raw(2, 3)).unwrap_err();
    assert_eq!(err.vocabularies(), (Some(1), Some(2)));
    assert_eq!(
        err.message(Some("v_from"), Some("v_to")),
        "binary value belongs to vocabulary v_from, but the column is v_to"
    );
}

#[test]
fn binary_input_refuses_the_wrong_width() {
    let v = encode(&[1, 2, 3], Codec::Raw16, 8, None).unwrap();
    let err = check_against_typmod(&v, raw(8, 3)).unwrap_err();
    assert_eq!(
        err.message(Some("w_to"), None),
        "binary value is encoded raw16, but vocabulary w_to stores raw24"
    );
    assert_eq!(receive(&v, raw(8, 2)).unwrap(), v);
    // A mere recode within one vocabulary is no reinterpretation.
    assert_eq!(coercion_for(&v, raw(8, 3), false), Ok(Coercion::Recode));
    assert_eq!(coercion_for(&v, raw(8, 2), false), Ok(Coercion::Keep));
    assert_eq!(typmod_apply(&v, raw(8, 2), false, None, None, None).unwrap(), v);
}

#[test]
fn sending_does_not_run_the_codec() {
    // A header that names `freq` against a vocabulary nobody trained, and one payload byte.
    let v = [0xa7, 1, 2, 0, 0x62, 0xea, 0, 0, 3, 0, 0, 0, 1];
    assert_eq!(validate(&v).unwrap(), v.to_vec());
    assert_eq!(receive(&v, -1).unwrap(), v.to_vec());
}

#[test]
fn a_corrupt_value_is_refused_everywhere() {
    let v = [0u8; 12];
    let want = TokensError::Value(ValueError::Header(HeaderError::BadMagic(0)));
    assert_eq!(validate(&v).unwrap_err(), want);
    assert_eq!(require_vocabulary(&v).unwrap_err(), want);
    assert_eq!(decode_value(&v, None).unwrap_err(), want);
    assert_eq!(check_against_typmod(&v, raw(1, 1)).unwrap_err(), want);
    assert_eq!(coercion_for(&v, raw(1, 1), true).unwrap_err(), want);
    assert_eq!(want.message(None, None), "bad magic byte 0x00, expected 0xA7");
}

#[test]
fn a_cursor_has_to_lie_in_its_buffer() {
    assert!(check_cursor(0, 0).is_ok());
    assert!(check_cursor(3, 7).is_ok());
    for (cursor, total) in [(-1, 3), (4, 3), (0, -1)] {
        let err = check_cursor(cursor, total).unwrap_err();
        assert_eq!(
            err.message(None, None),
            format!("binary buffer has cursor {cursor} and length {total}")
        );
    }
}

#[test]
fn a_value_reads_as_text_with_its_mapping() {
    let map = ByteMap::build(
        &[(0, b"Hello".to_vec()), (1, b", ".to_vec()), (2, b"world".to_vec()), (3, vec![0xFF])],
        8,
    )
    .unwrap();
    let v = encode_for(&[0, 1, 2], raw(3, 1), Some(8), None).unwrap();
    assert_eq!(text(&v, None, Some(&map)).unwrap(), "Hello, world");
    let err = text(&v, None, None).unwrap_err();
    assert_eq!(
        err.message(Some("docs"), None),
        "vocabulary docs has no mapping; run pgtoken.load_mapping first"
    );
    let v = encode_for(&[0, 5], raw(3, 1), Some(8), None).unwrap();
    let err = text(&v, None, Some(&map)).unwrap_err();
    assert_eq!(err, TokensError::Detok(DetokError::UnmappedId(5)));
    assert_eq!(err.message(None, None), "token id 5 has no entry in the mapping");
    let v = encode_for(&[0, 3, 0], raw(3, 1), Some(8), None).unwrap();
    assert_eq!(
        text(&v, None, Some(&map)).unwrap_err().message(None, None),
        "detokenized bytes are not valid UTF-8 at byte 5, and not merely cut short"
    );
}

#[test]
fn a_vocabulary_goes_by_its_name_or_its_id() {
    assert_eq!(vocabulary_label(7, Some("o200k")), "o200k");
    assert_eq!(vocabulary_label(65535, None), "65535");
}

#[test]
fn every_declared_id_fits_its_width() {
    for size in [1u32, 2, 256, 257, 65_536, 65_537, 16_777_216] {
        let width = width_for(size as i32) as u8;
        let v = encode_for(&[size - 1, 0], raw(1, width), Some(size), None).unwrap();
        assert_eq!(v.len(), HEADER_LEN + 2 * width as usize);
        assert_eq!(decode_value(&v, None).unwrap(), vec![size - 1, 0]);
    }
}

#[test]
fn a_width_nobody_reaches_is_no_obstacle() {
    // A typmod of width four, for which there is no codec: what is refused before the width counts
    // is refused as ever.
    let wide = raw(9, 4);
    let bad_header = TokensError::Value(ValueError::Header(HeaderError::BadMagic(0)));
    assert_eq!(check_against_typmod(&[0; 12], wide), Err(bad_header.clone()));
    assert_eq!(coercion_for(&[0; 12], wide, true), Err(bad_header));
    let other = encode(&[1], Codec::Raw8, 3, None).unwrap();
    assert_eq!(
        receive(&other, wide),
        Err(TokensError::WrongVocabulary { found: 3, column: 9 })
    );
    assert_eq!(
        typmod_apply(&other, wide, false, None, None, None),
        Err(TokensError::CrossVocabulary { from: 3, to: 9 })
    );
    assert_eq!(
        typmod_apply(&other, wide, true, None, None, None),
        Err(TokensError::NotRegistered(9))
    );
    assert_eq!(encode_for(&[1], wide, None, None), Err(TokensError::NotRegistered(9)));
    assert_eq!(
        tokens_in(b"{7}", wide, Some(5), None),
        Err(TokensError::OutsideVocabulary { id: 7, vocabulary: 9, size: 5 })
    );
    assert_eq!(
        tokens_in(b"7", wide, Some(5), None),
        Err(TokensError::List(ListError::NoOpeningBrace))
    );
}
