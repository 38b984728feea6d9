use pgtoken::codec::freq::{decode_freq, encode_freq, FreqError};
use pgtoken::{RankTable, TableError};

fn table() -> RankTable {
    let mut corpus = vec![3u32; 10];
    corpus.extend(vec![1u32; 5]);
    corpus.extend(vec![2u32; 2]);
    RankTable::train(&corpus, None).unwrap()
}

fn roundtrip(ids: &[u32], t: &RankTable) -> Vec<u32> {
    let mut out = Vec::new();
    encode_freq(ids, t, &mut out).expect("encode");
    decode_freq(&out, ids.len(), t).expect("decode")
}

#[test]
fn freq_roundtrips_ranked_tokens() {
    let t = table();
    let ids = vec![3, 1, 2, 3, 3, 1];
    assert_eq!(roundtrip(&ids, &t), ids);
}

#[test]
fn roundtrips_every_quad_remainder() {
    // streamvbyte groups values into quads, so lengths 1..=9 exercise the complete-quad
    // path and every partial remainder.
    let t = table();
    for n in 1..=9usize {
        let ids: Vec<u32> = (0..n as u32).map(|i| (i * 7) % 100).collect();
        assert_eq!(roundtrip(&ids, &t), ids, "failed at n={n}");
    }
}

#[test]
fn roundtrips_ids_the_table_never_saw() {
    // No vocabulary is declared anywhere, so arbitrarily large IDs must still work.
    let t = table();
    let ids = vec![0, 4, 65_535, 65_536, 200_018, 1_000_000];
    assert_eq!(roundtrip(&ids, &t), ids);
}

#[test]
fn roundtrips_a_mix_of_ranked_and_unranked() {
    let t = table();
    let ids = vec![3, 999_999, 1, 0, 2, 123_456];
    assert_eq!(roundtrip(&ids, &t), ids);
}

#[test]
fn freq_empty_roundtrips() {
    let t = table();
    let mut out = Vec::new();
    encode_freq(&[], &t, &mut out).expect("encode");
    assert!(out.is_empty());
    assert_eq!(decode_freq(&out, 0, &t).unwrap(), Vec::<u32>::new());
}

#[test]
fn remap_shrinks_frequent_high_ids() {
    // The point of the remap: a frequent but high-numbered token packs in one byte, where
    // its bare ID would have taken three.
    let t = RankTable::train(&vec![199_999u32; 100], None).unwrap();
    assert_eq!(t.rank(199_999).unwrap(), 0);

    let ids = vec![199_999u32; 4];
    let mut out = Vec::new();
    encode_freq(&ids, &t, &mut out).expect("encode");
    assert_eq!(
        out.len(),
        5,
        "4 values in one quad: 1 control byte + 1 data byte each"
    );
    assert!(out.len() < ids.len() * 3, "should beat 3-byte raw packing");
}

#[test]
fn rejects_ids_that_cannot_be_remapped() {
    let t = table();
    let mut out = Vec::new();
    assert!(matches!(
        encode_freq(&[u32::MAX], &t, &mut out),
        Err(FreqError::Table(TableError::IdTooLarge { .. }))
    ));
}
