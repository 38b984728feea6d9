use pgtoken::codec::raw::{
    decode16, decode24, decode8, encode16, encode24, encode8, preferred_raw, RawError,
};
use pgtoken::{Codec, HeaderError};

#[test]
fn raw24_is_big_endian() {
    let mut out = Vec::new();
    encode24(&[0x01_02_03], &mut out).unwrap();
    assert_eq!(out, vec![0x01, 0x02, 0x03]);
}

#[test]
fn raw16_is_little_endian() {
    let mut out = Vec::new();
    encode16(&[0x0102], &mut out).unwrap();
    assert_eq!(out, vec![0x02, 0x01]);
}

#[test]
fn raw16_roundtrips_its_whole_range() {
    let ids: Vec<u32> = (0..=u16::MAX as u32).collect();
    let mut out = Vec::new();
    encode16(&ids, &mut out).unwrap();
    assert_eq!(out.len(), ids.len() * 2);
    assert_eq!(decode16(&out, ids.len()).unwrap(), ids);
}

#[test]
fn raw24_roundtrips_across_a_large_range() {
    let ids: Vec<u32> = (0..300_000).collect();
    let mut out = Vec::new();
    encode24(&ids, &mut out).unwrap();
    assert_eq!(out.len(), ids.len() * 3);
    assert_eq!(decode24(&out, ids.len()).unwrap(), ids);
}

#[test]
fn raw_empty_roundtrips() {
    let mut out = Vec::new();
    encode24(&[], &mut out).unwrap();
    assert!(out.is_empty());
    assert_eq!(decode24(&out, 0).unwrap(), Vec::<u32>::new());
}

#[test]
fn rejects_id_too_wide_for_codec() {
    let mut out = Vec::new();
    assert_eq!(
        encode16(&[65_536], &mut out),
        Err(RawError::IdTooWide {
            id: 65_536,
            codec: Codec::Raw16
        })
    );
    let mut out = Vec::new();
    assert_eq!(
        encode24(&[0x0100_0000], &mut out),
        Err(RawError::IdTooWide {
            id: 0x0100_0000,
            codec: Codec::Raw24
        })
    );
}

#[test]
fn decode_rejects_wrong_length() {
    assert!(decode16(&[0, 0, 0], 1).is_err());
    assert!(decode24(&[0, 0], 1).is_err());
}

#[test]
fn preferred_raw_widens_only_when_the_data_needs_it() {
    assert_eq!(preferred_raw(&[]), Codec::Raw16);
    assert_eq!(preferred_raw(&[0, 1, 65_535]), Codec::Raw16);
    assert_eq!(preferred_raw(&[0, 65_536]), Codec::Raw24);
    assert_eq!(preferred_raw(&[200_018]), Codec::Raw24);
}

#[test]
fn raw8_is_one_byte_per_id() {
    let mut out = vec![7];
    encode8(&[0, 255, 1], &mut out).unwrap();
    assert_eq!(out, vec![7, 0, 255, 1]);
    assert_eq!(decode8(&out[1..], 3).unwrap(), vec![0, 255, 1]);
    assert_eq!(
        encode8(&[1, 256], &mut out),
        Err(RawError::IdTooWide {
            id: 256,
            codec: Codec::Raw8
        })
    );
    assert_eq!(out, vec![7, 0, 255, 1, 1], "what came before the wide id is there");
    assert_eq!(
        decode8(&[1, 2], 3),
        Err(HeaderError::PayloadLen { want: 3, got: 2 })
    );
}

#[test]
fn raw_errors_say_what_is_wrong() {
    assert_eq!(
        RawError::IdTooWide {
            id: 65_536,
            codec: Codec::Raw16
        }
        .message(),
        "token id 65536 does not fit codec raw16 (max 65535)"
    );
    assert_eq!(
        RawError::IdTooWide {
            id: 1,
            codec: Codec::Freq
        }
        .message(),
        "token id 1 does not fit codec freq (max 4294967295)"
    );
}
