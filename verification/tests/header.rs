use pgtoken::{Codec, Header, HeaderError, HEADER_LEN, MAGIC};

fn valid_raw24(n: u32) -> Vec<u8> {
    let mut v = Vec::new();
    Header::new(Codec::Raw24, 0, n).write_to(&mut v);
    v.extend(std::iter::repeat_n(0u8, n as usize * 3));
    v
}

#[test]
fn header_roundtrips() {
    for (codec, table) in [(Codec::Raw16, 0u16), (Codec::Raw24, 0), (Codec::Freq, 7)] {
        let h = Header::new(codec, table, 512);
        let mut buf = Vec::new();
        h.write_to(&mut buf);
        match codec {
            Codec::Raw16 => buf.extend(std::iter::repeat_n(0u8, 1024)),
            Codec::Raw24 => buf.extend(std::iter::repeat_n(0u8, 1536)),
            _ => buf.extend_from_slice(&[1, 2, 3]),
        }
        let (parsed, payload) = Header::parse(&buf).expect("should parse");
        assert_eq!(parsed, h);
        assert!(!payload.is_empty());
    }
}

#[test]
fn header_is_exactly_12_bytes() {
    assert_eq!(
        Header::new(Codec::Freq, 1, 512).to_bytes().len(),
        HEADER_LEN
    );
    assert_eq!(HEADER_LEN, 12);
}

#[test]
fn header_carries_no_tokenizer() {
    // The point of the format: values are interchangeable regardless of which tokenizer
    // produced their IDs, so nothing in the header may encode one.
    let bytes = Header::new(Codec::Raw24, 0, 3).to_bytes();
    assert_eq!(
        bytes[3], 0,
        "byte 3 must stay reserved, not become a tokenizer tag"
    );
}

#[test]
fn rejects_short_buffer() {
    assert_eq!(Header::parse(&[]), Err(HeaderError::TooShort(0)));
    assert_eq!(Header::parse(&[MAGIC; 11]), Err(HeaderError::TooShort(11)));
}

#[test]
fn rejects_bad_magic() {
    let mut v = valid_raw24(2);
    v[0] = 0x00;
    assert_eq!(Header::parse(&v), Err(HeaderError::BadMagic(0x00)));
}

#[test]
fn rejects_unknown_version() {
    let mut v = valid_raw24(2);
    v[1] = 99;
    assert_eq!(Header::parse(&v), Err(HeaderError::UnsupportedVersion(99)));
}

#[test]
fn rejects_unknown_codec() {
    let mut v = valid_raw24(2);
    v[2] = 9;
    assert_eq!(Header::parse(&v), Err(HeaderError::UnknownCodec(9)));
}

#[test]
fn rejects_nonzero_reserved() {
    for idx in [3usize, 6, 7] {
        let mut v = valid_raw24(2);
        v[idx] = 1;
        assert_eq!(
            Header::parse(&v),
            Err(HeaderError::ReservedNotZero),
            "reserved byte {idx} was not checked"
        );
    }
}

#[test]
fn rejects_truncated_and_padded_raw_payload() {
    let mut v = valid_raw24(4);
    v.pop();
    assert_eq!(
        Header::parse(&v),
        Err(HeaderError::PayloadLen { want: 12, got: 11 })
    );

    let mut v = valid_raw24(4);
    v.push(0);
    assert_eq!(
        Header::parse(&v),
        Err(HeaderError::PayloadLen { want: 12, got: 13 })
    );
}

#[test]
fn freq_still_requires_a_vocabulary() {
    let mut v = Vec::new();
    Header::new(Codec::Freq, 0, 1).write_to(&mut v);
    v.push(1);
    assert_eq!(
        Header::parse(&v),
        Err(HeaderError::MissingTable(Codec::Freq))
    );
}

#[test]
fn raw_codecs_may_carry_a_vocabulary_id() {
    // Every column belongs to a vocabulary now, including `raw` ones, and the value must
    // record which — for the cast's type check, and for detokenization later.
    let mut v = Vec::new();
    Header::new(Codec::Raw24, 3, 1).write_to(&mut v);
    v.extend_from_slice(&[0, 0, 0]);
    let (h, _) = Header::parse(&v).expect("raw with a vocabulary id must parse");
    assert_eq!(h.vocabulary_id, 3);
}

#[test]
fn empty_token_sequence_is_valid() {
    let v = valid_raw24(0);
    let (h, payload) = Header::parse(&v).expect("empty should be valid");
    assert_eq!(h.n_tokens, 0);
    assert!(payload.is_empty());
}

#[test]
fn codec_id_ranges() {
    assert_eq!(Codec::Raw16.max_id(), Some(65_535));
    assert_eq!(Codec::Raw24.max_id(), Some(16_777_215));
    assert_eq!(Codec::Freq.max_id(), None);
    assert_eq!(
        Codec::from_u8(3),
        Err(HeaderError::UnknownCodec(3)),
        "ANS was removed"
    );
}

#[test]
fn a_header_has_these_bytes() {
    assert_eq!(
        Header::new(Codec::Raw8, 0x1234, 0x0102_0304).to_bytes(),
        [0xA7, 1, 4, 0, 0x34, 0x12, 0, 0, 4, 3, 2, 1]
    );
}

#[test]
fn codecs_go_by_number_and_name() {
    for (codec, code, name) in [
        (Codec::Raw16, 0, "raw16"),
        (Codec::Raw24, 1, "raw24"),
        (Codec::Freq, 2, "freq"),
        (Codec::Raw8, 4, "raw8"),
    ] {
        assert_eq!(codec.code(), code);
        assert_eq!(Codec::from_u8(code), Ok(codec));
        assert_eq!(codec.as_str(), name);
        assert_eq!(Codec::parse(name), Ok(codec));
        assert_eq!(codec.needs_table(), codec == Codec::Freq);
    }
    assert_eq!(Codec::Raw8.max_id(), Some(255));
    assert_eq!(
        Codec::parse("raw"),
        Err(HeaderError::UnknownCodecName("raw".to_string()))
    );
}

#[test]
fn a_freq_value_with_tokens_needs_a_payload() {
    let v = Header::new(Codec::Freq, 1, 1).to_bytes();
    assert_eq!(
        Header::parse(&v),
        Err(HeaderError::PayloadLen { want: 1, got: 0 })
    );
    let v = Header::new(Codec::Freq, 1, 0).to_bytes();
    assert!(Header::parse(&v).is_ok());
}

#[test]
fn header_errors_say_what_is_wrong() {
    for (e, text) in [
        (HeaderError::TooShort(3), "value is 3 bytes, shorter than the 12-byte header"),
        (HeaderError::BadMagic(0x0F), "bad magic byte 0x0F, expected 0xA7"),
        (
            HeaderError::UnsupportedVersion(9),
            "unsupported format version 9, this build understands 1",
        ),
        (HeaderError::UnknownCodec(3), "unknown codec id 3"),
        (
            HeaderError::UnknownCodecName("a\"b\n".to_string()),
            "unknown codec name \"a\\\"b\\n\"",
        ),
        (HeaderError::ReservedNotZero, "reserved header bytes are not zero"),
        (
            HeaderError::MissingTable(Codec::Freq),
            "codec freq requires a table but vocabulary_id is 0",
        ),
        (
            HeaderError::PayloadLen { want: 12, got: 11 },
            "payload is 11 bytes, expected 12",
        ),
    ] {
        assert_eq!(e.message(), text);
    }
}
