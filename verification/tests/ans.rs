use constriction::stream::model::{
    DefaultContiguousCategoricalEntropyModel, IterableEntropyModel,
};
use constriction::stream::stack::DefaultAnsCoder;
use pgtoken::codec::ans::{decode_ans, encode_ans, AnsError, AnsModel, AnsTable};
use pgtoken::tokenizer::Tokenizer;
use pgtoken::TableError;

/// The fixed-point model of a table's smoothed probabilities.
fn build_model(table: &AnsTable) -> AnsModel {
    let weights: Vec<f64> = (0..table.vocab()).map(|id| table.weight(id) as f64).collect();
    let total: f64 = weights.iter().sum();
    let probs: Vec<f64> = weights.iter().map(|w| w / total).collect();
    let model = DefaultContiguousCategoricalEntropyModel::from_floating_point_probabilities_fast(
        &probs, None,
    )
    .unwrap();
    AnsModel::new(model.symbol_table().map(|(_, _, p)| p.get()).collect()).unwrap()
}

fn table(tok: Tokenizer) -> AnsModel {
    let mut corpus = vec![3u32; 1000];
    corpus.extend(vec![1u32; 500]);
    corpus.extend(vec![2u32; 200]);
    corpus.extend(vec![7u32; 50]);
    build_model(&AnsTable::train(&corpus, tok))
}

fn roundtrip(ids: &[u32], t: &AnsModel) -> Vec<u32> {
    let mut out = Vec::new();
    encode_ans(ids, t, &mut out).expect("encode");
    decode_ans(&out, ids.len(), t).expect("decode")
}

#[test]
fn roundtrips_in_forward_order() {
    // The critical property: rANS is a stack, so a missing `reverse` would hand back
    // the sequence backwards. An asymmetric input catches that; a palindrome would not.
    let t = table(Tokenizer::O200k);
    let ids = vec![3, 1, 1, 2, 7, 3];
    assert_eq!(roundtrip(&ids, &t), ids);
}

#[test]
fn roundtrips_unseen_tokens() {
    // Laplace smoothing means a token absent from the training corpus is still
    // encodable, just expensively.
    let t = table(Tokenizer::O200k);
    let ids = vec![3, 199_999, 42, 1];
    assert_eq!(roundtrip(&ids, &t), ids);
}

#[test]
fn roundtrips_across_tokenizers() {
    for tok in [Tokenizer::R50k, Tokenizer::Cl100k, Tokenizer::O200k] {
        let t = table(tok);
        let ids = vec![3, 1, 2, 7, 0];
        assert_eq!(roundtrip(&ids, &t), ids, "failed for {}", tok.as_str());
    }
}

#[test]
fn roundtrips_long_sequence() {
    let t = table(Tokenizer::O200k);
    let ids: Vec<u32> = (0..512).map(|i| [3u32, 1, 2, 7][(i % 4) as usize]).collect();
    assert_eq!(roundtrip(&ids, &t), ids);
}

#[test]
fn ans_empty_roundtrips() {
    let t = table(Tokenizer::O200k);
    let mut out = Vec::new();
    encode_ans(&[], &t, &mut out).expect("encode");
    assert!(out.is_empty());
    assert_eq!(decode_ans(&out, 0, &t).unwrap(), Vec::<u32>::new());
}

#[test]
fn compresses_frequent_tokens_below_raw_packing() {
    // 512 copies of the most frequent token should cost far less than 3 bytes each.
    let t = table(Tokenizer::O200k);
    let ids = vec![3u32; 512];
    let mut out = Vec::new();
    encode_ans(&ids, &t, &mut out).expect("encode");
    assert!(out.len() < ids.len(), "expected under 1 byte/token, got {} bytes", out.len());
    assert_eq!(decode_ans(&out, ids.len(), &t).unwrap(), ids);
}

#[test]
fn rejects_id_outside_vocabulary() {
    let t = table(Tokenizer::R50k);
    let mut out = Vec::new();
    assert_eq!(
        encode_ans(&[50_257], &t, &mut out),
        Err(AnsError::IdOutOfRange { id: 50_257, vocab: 50_257 })
    );
}

#[test]
fn rejects_misaligned_payload() {
    let t = table(Tokenizer::O200k);
    assert_eq!(
        decode_ans(&[0, 1, 2], 1, &t),
        Err(AnsError::NotWordAligned { len: 3 })
    );
}

#[test]
fn decoding_with_the_wrong_table_does_not_return_the_original() {
    // The table is part of the contract, which is why a value has to name it.
    let t1 = table(Tokenizer::O200k);
    let mut other = vec![9u32; 1000];
    other.extend(vec![11u32; 500]);
    let t2 = build_model(&AnsTable::train(&other, Tokenizer::O200k));

    let ids = vec![3, 1, 2, 7];
    let mut out = Vec::new();
    encode_ans(&ids, &t1, &mut out).expect("encode");
    let decoded = decode_ans(&out, ids.len(), &t2);
    // It may error or return different IDs; it must not return the originals.
    if let Ok(got) = decoded {
        assert_ne!(got, ids, "wrong table decoded to the original IDs");
    }
}

#[test]
fn payload_is_the_coder_words_in_little_endian() {
    // Four equally likely ids, two bits each.
    let quarter = 1u32 << 22;
    let probabilities = vec![quarter; 4];
    let model = AnsModel::new(probabilities.clone()).unwrap();
    let ids = [3u32, 0, 2, 1, 3, 3, 0, 1, 2, 2, 1, 0, 3, 1, 2, 0, 1, 3];
    let mut out = vec![0xEE];
    encode_ans(&ids, &model, &mut out).unwrap();

    let direct = DefaultContiguousCategoricalEntropyModel::from_nonzero_fixed_point_probabilities(
        &probabilities,
        false,
    )
    .unwrap();
    let mut coder = DefaultAnsCoder::new();
    coder
        .encode_iid_symbols_reverse(ids.iter().map(|&id| id as usize), &direct)
        .unwrap();
    let mut want = vec![0xEE];
    for w in coder.into_compressed().unwrap() {
        want.extend_from_slice(&w.to_le_bytes());
    }
    assert_eq!(out, want);
    assert!(out.len() > 1);
}

#[test]
fn a_buffer_that_ends_in_a_zero_word_is_corrupt() {
    let model = AnsModel::new(vec![1 << 23, 1 << 23]).unwrap();
    let err = decode_ans(&[1, 0, 0, 0, 0, 0, 0, 0], 3, &model).unwrap_err();
    assert_eq!(err, AnsError::Corrupt("not a valid ANS buffer".to_string()));
    assert_eq!(err.message(), "ANS payload is corrupt: not a valid ANS buffer");
}

#[test]
fn a_refused_encode_leaves_the_output_alone() {
    let model = AnsModel::new(vec![1 << 23, 1 << 23]).unwrap();
    let mut out = vec![9];
    let err = encode_ans(&[0, 1, 2, 5], &model, &mut out).unwrap_err();
    assert_eq!(err, AnsError::IdOutOfRange { id: 2, vocab: 2 });
    assert_eq!(err.message(), "token id 2 is outside the table vocabulary (2)");
    assert_eq!(out, vec![9]);
}

#[test]
fn a_model_needs_nonzero_probabilities_that_add_up_to_one() {
    assert!(AnsModel::new(vec![1 << 23, 1 << 23]).is_ok());
    assert_eq!(AnsModel::new(vec![1 << 24]).unwrap_err(), AnsError::ModelBuild);
    assert_eq!(AnsModel::new(vec![]).unwrap_err(), AnsError::ModelBuild);
    assert_eq!(AnsModel::new(vec![1 << 23, 0, 1 << 23]).unwrap_err(), AnsError::ModelBuild);
    assert_eq!(AnsModel::new(vec![1 << 23, 1 << 22]).unwrap_err(), AnsError::ModelBuild);
    let model = AnsModel::new(vec![1, (1 << 24) - 1]).unwrap();
    assert_eq!(model.vocab(), 2);
    assert_eq!(
        AnsError::ModelBuild.message(),
        "could not build the ANS model from the table"
    );
    assert_eq!(AnsError::from(TableError::Empty), AnsError::ModelBuild);
}

#[test]
fn counts_cover_the_vocabulary_and_nothing_else() {
    let t = AnsTable::train(&[3, 3, 0, 50_256, 50_257, u32::MAX], Tokenizer::R50k);
    assert_eq!(t.vocab(), 50_257);
    assert_eq!(t.counts[3], 2);
    assert_eq!(t.counts[0], 1);
    assert_eq!(t.counts[50_256], 1);
    assert_eq!(t.counts.iter().sum::<u64>(), 4);
    assert_eq!(t.weight(3), 3);
    assert_eq!(t.weight(1), 1);
}

#[test]
fn ans_alignment_message() {
    assert_eq!(
        AnsError::NotWordAligned { len: 3 }.message(),
        "ANS payload is 3 bytes, not a multiple of 4"
    );
}

#[test]
fn a_refused_payload_does_not_ask_for_room() {
    let model = AnsModel::new(vec![1 << 23, 1 << 23]).unwrap();
    assert_eq!(
        decode_ans(&[0, 1, 2], usize::MAX, &model),
        Err(AnsError::NotWordAligned { len: 3 })
    );
    assert!(matches!(
        decode_ans(&[0, 0, 0, 0], usize::MAX, &model),
        Err(AnsError::Corrupt(_))
    ));
}
