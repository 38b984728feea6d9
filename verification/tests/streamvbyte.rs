use pgtoken::codec::freq::{decode_freq, encode_freq, FreqError};
use pgtoken::codec::streamvbyte::holds_stream;
use pgtoken::{RankTable, TableError};

/// Token 0 has rank 0, so every other id packs as itself plus one.
fn shifted() -> RankTable {
    RankTable::train(&[0], None).unwrap()
}

#[test]
fn a_stream_is_control_bytes_and_then_data() {
    let mut out = vec![0xAA];
    // Ranks 0, 256, 65536, 16777216 and 255.
    encode_freq(&[0, 255, 65_535, 16_777_215, 254], &shifted(), &mut out).unwrap();
    assert_eq!(
        out,
        vec![
            0xAA, 0b1110_0100, 0b0000_0000, // the controls
            0x00, 0x00, 0x01, 0x00, 0x00, 0x01, 0x00, 0x00, 0x00, 0x01, 0xFF,
        ]
    );
    assert_eq!(
        decode_freq(&out[1..], 5, &shifted()).unwrap(),
        vec![0, 255, 65_535, 16_777_215, 254]
    );
}

#[test]
fn a_count_that_disagrees_leaves_bytes_over() {
    let mut out = Vec::new();
    encode_freq(&[1, 2, 3, 4], &shifted(), &mut out).unwrap();
    out.push(7);
    let err = decode_freq(&out, 4, &shifted()).unwrap_err();
    assert_eq!(err, FreqError::TrailingBytes { consumed: 5, len: 6 });
    assert_eq!(
        err.message(),
        "streamvbyte consumed 5 of 6 payload bytes; the token count and payload disagree"
    );
    // No ids ask nothing of the payload.
    assert_eq!(decode_freq(&out, 0, &shifted()).unwrap(), Vec::<u32>::new());
}

#[test]
fn a_stream_can_be_seen_to_stop_short() {
    let mut out = Vec::new();
    encode_freq(&[1, 300, 70_000, 4, 5], &shifted(), &mut out).unwrap();
    assert!(holds_stream(&out, 5));
    for n in 0..out.len() {
        assert!(!holds_stream(&out[..n], 5), "{n} bytes");
    }
    assert!(holds_stream(&[], 0));
    assert!(!holds_stream(&[], 1));
    assert!(!holds_stream(&[0; 64], usize::MAX));
}

#[test]
fn a_refused_id_leaves_the_output_alone() {
    let mut out = vec![1, 2];
    let err = encode_freq(&[5, u32::MAX, 0], &shifted(), &mut out).unwrap_err();
    assert_eq!(err, FreqError::Table(TableError::IdTooLarge { id: u32::MAX, k: 1 }));
    assert_eq!(
        err.message(),
        "token id 4294967295 is too large to remap against a table of 1 ranks"
    );
    assert_eq!(out, vec![1, 2]);
    assert_eq!(FreqError::from(TableError::Empty), FreqError::Table(TableError::Empty));
}
