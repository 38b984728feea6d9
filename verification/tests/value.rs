use pgtoken::value::resolve_codec;
use pgtoken::{
    decode, describe, encode, recode, Codec, HeaderError, RankTable, ValueError, HEADER_LEN,
};

fn table() -> RankTable {
    let mut corpus = vec![3u32; 10];
    corpus.extend(vec![1u32; 5]);
    corpus.extend(vec![2u32; 2]);
    RankTable::train(&corpus, None).unwrap()
}

const CASES: &[&[u32]] = &[
    &[],
    &[0],
    &[3, 1, 2],
    &[3, 1, 2, 3, 3, 1, 2, 2, 0, 4],
    &[65_535, 65_536, 200_018],
    &[1_000_000, 0, 7],
];

fn codecs_for(ids: &[u32]) -> Vec<Codec> {
    let mut v = vec![Codec::Raw24, Codec::Freq];
    if ids.iter().all(|&i| i <= u16::MAX as u32) {
        v.push(Codec::Raw16);
    }
    v
}

#[test]
fn roundtrips_every_codec() {
    let t = table();
    for ids in CASES {
        for codec in codecs_for(ids) {
            let (tid, tbl) =
                if codec.needs_table() { (1u16, Some(&t)) } else { (0u16, None) };
            let v = encode(ids, codec, tid, tbl)
                .unwrap_or_else(|e| panic!("encode {} {ids:?}: {}", codec.as_str(), e.message()));
            let back = decode(&v, tbl)
                .unwrap_or_else(|e| panic!("decode {} {ids:?}: {}", codec.as_str(), e.message()));
            assert_eq!(&back, ids, "{} lost data", codec.as_str());
        }
    }
}

#[test]
fn encoding_is_canonical() {
    // The property that makes `=`, `GROUP BY`, `DISTINCT` and hash joins correct on a
    // pgtoken column: identical input must give byte-identical output.
    let t = table();
    for ids in CASES {
        for codec in codecs_for(ids) {
            let (tid, tbl) =
                if codec.needs_table() { (1u16, Some(&t)) } else { (0u16, None) };
            let first = encode(ids, codec, tid, tbl).unwrap();
            for _ in 0..32 {
                assert_eq!(encode(ids, codec, tid, tbl).unwrap(), first);
            }
        }
    }
}

#[test]
fn recode_preserves_ids_across_every_pair() {
    let t = table();
    let ids: &[u32] = &[3, 1, 2, 0, 65_536, 200_018];
    for from in [Codec::Raw24, Codec::Freq] {
        for to in [Codec::Raw24, Codec::Freq] {
            let (fid, ftbl) = if from.needs_table() { (1u16, Some(&t)) } else { (0, None) };
            let (tid, ttbl) = if to.needs_table() { (1u16, Some(&t)) } else { (0, None) };
            let v = encode(ids, from, fid, ftbl).unwrap();
            let r = recode(&v, to, tid, ftbl, ttbl).unwrap_or_else(|e| {
                panic!("recode {} -> {}: {}", from.as_str(), to.as_str(), e.message())
            });
            assert_eq!(decode(&r, ttbl).unwrap(), ids);
        }
    }
}

#[test]
fn describe_reads_only_the_header() {
    let v = encode(&[1, 2, 3, 4, 5], Codec::Raw24, 0, None).unwrap();
    let (h, payload_len) = describe(&v).unwrap();
    assert_eq!(h.n_tokens, 5);
    assert_eq!(h.codec, Codec::Raw24);
    assert_eq!(payload_len, 15);
}

#[test]
fn freq_refuses_to_run_without_a_table() {
    assert_eq!(
        encode(&[1, 2, 3], Codec::Freq, 1, None),
        Err(ValueError::MissingTable(Codec::Freq))
    );
}

#[test]
fn resolve_codec_picks_raw_width_from_the_data() {
    assert_eq!(resolve_codec("raw", &[1, 2, 3]).unwrap(), Codec::Raw16);
    assert_eq!(resolve_codec("raw", &[70_000]).unwrap(), Codec::Raw24);
    assert_eq!(resolve_codec("freq", &[1]).unwrap(), Codec::Freq);
    assert!(resolve_codec("nope", &[1]).is_err());
}

#[test]
fn empty_input_is_a_bare_header() {
    let v = encode(&[], Codec::Raw24, 0, None).unwrap();
    assert_eq!(v.len(), HEADER_LEN);
    assert_eq!(decode(&v, None).unwrap(), Vec::<u32>::new());
}

#[test]
fn freq_beats_raw_on_a_realistic_distribution() {
    // Zipf-ish: a few tokens dominate, which is what the rank remap exploits.
    let t = table();
    let ids: Vec<u32> = (0..512).map(|i| [3u32, 3, 3, 1, 1, 2][(i % 6) as usize]).collect();
    let raw = encode(&ids, Codec::Raw24, 0, None).unwrap();
    let freq = encode(&ids, Codec::Freq, 1, Some(&t)).unwrap();
    assert!(freq.len() < raw.len(), "freq {} vs raw {}", freq.len(), raw.len());
    assert_eq!(decode(&freq, Some(&t)).unwrap(), ids);
}

#[test]
fn raw8_values_roundtrip() {
    let v = encode(&[0, 7, 255], Codec::Raw8, 9, None).unwrap();
    assert_eq!(v.len(), HEADER_LEN + 3);
    assert_eq!(decode(&v, None).unwrap(), vec![0, 7, 255]);
    let r = recode(&v, Codec::Raw16, 9, None, None).unwrap();
    assert_eq!(decode(&r, None).unwrap(), vec![0, 7, 255]);
}

#[test]
fn equal_values_hold_equal_ids() {
    let t = table();
    let a = encode(&[3, 1, 2], Codec::Freq, 1, Some(&t)).unwrap();
    assert_ne!(a, encode(&[3, 1, 3], Codec::Freq, 1, Some(&t)).unwrap());
    assert_ne!(a, encode(&[3, 1], Codec::Freq, 1, Some(&t)).unwrap());
    assert_ne!(a, encode(&[3, 1, 2], Codec::Freq, 2, Some(&t)).unwrap());
}

#[test]
fn value_errors_say_what_is_wrong() {
    let t = table();
    let err = decode(&[0; 3], None).unwrap_err();
    assert_eq!(err, ValueError::Header(HeaderError::TooShort(3)));
    assert_eq!(err.message(), "value is 3 bytes, shorter than the 12-byte header");
    let err = encode(&[70_000], Codec::Raw16, 0, None).unwrap_err();
    assert_eq!(err.message(), "token id 70000 does not fit codec raw16 (max 65535)");
    let mut v = encode(&[3, 1], Codec::Freq, 1, Some(&t)).unwrap();
    let err = decode(&v, None).unwrap_err();
    assert_eq!(err.message(), "codec freq needs a coding table, none was supplied");
    v.push(0);
    assert_eq!(
        decode(&v, Some(&t)).unwrap_err().message(),
        "streamvbyte consumed 3 of 4 payload bytes; the token count and payload disagree"
    );
    let err = encode(&[u32::MAX], Codec::Freq, 1, Some(&t)).unwrap_err();
    assert_eq!(
        err.message(),
        "token id 4294967295 is too large to remap against a table of 3 ranks"
    );
    assert_eq!(
        ValueError::TooManyTokens(4_294_967_296).message(),
        "4294967296 tokens exceeds the 4294967295 the format can address"
    );
    assert_eq!(
        recode(&[0; 3], Codec::Raw16, 0, None, None),
        Err(ValueError::Header(HeaderError::TooShort(3)))
    );
}

#[test]
fn freq_without_a_vocabulary_id_does_not_parse() {
    let t = table();
    let v = encode(&[3], Codec::Freq, 0, Some(&t)).unwrap();
    assert_eq!(
        decode(&v, Some(&t)),
        Err(ValueError::Header(HeaderError::MissingTable(Codec::Freq)))
    );
}
