use pgtoken::blob::{
    decode_blob, describe_value, encode_request, request, table_id_u16, token_count, BlobError,
};
use pgtoken::{encode, Codec, HeaderError, RankTable, ValueError};

#[test]
fn table_ids_have_sixteen_bits() {
    assert_eq!(table_id_u16(0).unwrap(), 0);
    assert_eq!(table_id_u16(65535).unwrap(), 65535);
    for id in [-1, 65536] {
        assert_eq!(
            table_id_u16(id).unwrap_err().message(),
            format!("table_id {id} is out of range (0..65535)")
        );
    }
}

#[test]
fn a_request_resolves_the_codec_first() {
    let q = request(&[1, 2], "raw", 3).unwrap();
    assert_eq!((q.codec, q.table_id), (Codec::Raw16, 3));
    assert_eq!(request(&[70_000], "raw", 0).unwrap().codec, Codec::Raw24);
    assert_eq!(request(&[1], "freq", 9).unwrap().codec, Codec::Freq);
    assert_eq!(
        request(&[1], "nope", -1),
        Err(BlobError::Codec(HeaderError::UnknownCodecName("nope".to_string())))
    );
    assert_eq!(request(&[1], "raw8", -1), Err(BlobError::TableId(-1)));
}

#[test]
fn blobs_encode_and_decode() {
    let t = RankTable::train(&[1, 1, 1, 2], None).unwrap();
    let ids = [1, 2, 999_999, 0, 16_000_000];
    let q = request(&ids, "freq", 1002).unwrap();
    let v = encode_request(&ids, &q, Some(&t), "/t/1002.tntt").unwrap();
    assert_eq!(decode_blob(&v, Some(&t), "").unwrap(), ids.to_vec());
    // Recoding keeps the ids.
    let again = decode_blob(&v, Some(&t), "").unwrap();
    let q = request(&again, "raw24", 0).unwrap();
    let r = encode_request(&again, &q, None, "").unwrap();
    assert_eq!(decode_blob(&r, None, "").unwrap(), ids.to_vec());
}

#[test]
fn freq_errors_without_its_coding_table() {
    let q = request(&[1, 2, 3], "freq", 1).unwrap();
    let err = encode_request(&[1, 2, 3], &q, None, "/t/1.tntt").unwrap_err();
    assert_eq!(
        err.message(),
        "cannot open coding table /t/1.tntt: No such file or directory (os error 2)"
    );
    let t = RankTable::train(&[1], None).unwrap();
    let v = encode(&[1], Codec::Freq, 1, Some(&t)).unwrap();
    assert_eq!(
        decode_blob(&v, None, "/t/1.tntt"),
        Err(BlobError::NoTable("/t/1.tntt".to_string()))
    );
}

#[test]
fn broken_blobs_are_refused() {
    assert_eq!(
        decode_blob(&[0], None, "").unwrap_err().message(),
        "value is 1 bytes, shorter than the 12-byte header"
    );
    assert_eq!(
        token_count(&[0; 12]).unwrap_err().message(),
        "bad magic byte 0x00, expected 0xA7"
    );
    assert_eq!(
        describe_value(&[]).unwrap_err(),
        ValueError::Header(HeaderError::TooShort(0))
    );
}

#[test]
fn a_value_describes_itself() {
    let v = encode(&[1, 2, 3], Codec::Raw16, 6, None).unwrap();
    assert_eq!(token_count(&v).unwrap(), 3);
    let info = describe_value(&v).unwrap();
    assert_eq!(info.version, 1);
    assert_eq!(info.codec, "raw16");
    assert_eq!((info.table_id, info.n_tokens), (6, 3));
    assert_eq!((info.payload_bytes, info.total_bytes), (6, 18));
}
