use pgtoken::tokenizer::{
    bpe, decode, decoded_text, encode, try_encode, Tokenizer, TokenizerError,
};
use pgtoken::tokens::encode_for;
use pgtoken::typmod::pack;
use pgtoken::vocabulary::{Vocabulary, COMPRESSION_RAW};
use pgtoken::{to_text, ByteMap};

const CASES: &[&str] = &[
    "",
    " ",
    "hello world",
    "Token-native storage",
    // Devanagari: r50k has no merges for this script, the paper's worst case. Must
    // still be lossless, only larger.
    "भारत में वेक्टर डेटाबेस",
    // Emoji and combining characters: multi-byte sequences BPE may split across tokens.
    "🚀 café naïve résumé 👨‍👩‍👧‍👦",
    // Code, including the runs of punctuation that hurt raw packing.
    "def f(x):\n    return {'a': [1, 2, 3], 'b': None}\n",
    // A literal special-token string, which must not collapse into one special ID.
    "<|endoftext|>",
    "tabs\tand\r\nnewlines",
];

#[test]
fn roundtrips_every_tokenizer() {
    for tok in [Tokenizer::R50k, Tokenizer::Cl100k, Tokenizer::O200k] {
        for case in CASES {
            let ids = encode(case, tok);
            let back = decode(&ids, tok).expect("decode should succeed");
            assert_eq!(&back, case, "roundtrip failed for {} on {case:?}", tok.as_str());
        }
    }
}

#[test]
fn ids_are_within_declared_vocabulary() {
    // The vocab sizes in `Tokenizer::vocab` set the width of every trained table, so an
    // ID past the end would silently corrupt the rank and ANS tables.
    for tok in [Tokenizer::R50k, Tokenizer::Cl100k, Tokenizer::O200k] {
        for case in CASES {
            for id in encode(case, tok) {
                assert!(
                    id < tok.vocab(),
                    "{} produced id {id}, past declared vocab {}",
                    tok.as_str(),
                    tok.vocab()
                );
            }
        }
    }
}

#[test]
fn special_token_text_does_not_collapse() {
    // "<|endoftext|>" must encode as ordinary text (several tokens), not as the single
    // special-token ID, or the roundtrip would depend on the text's content.
    for tok in [Tokenizer::R50k, Tokenizer::Cl100k, Tokenizer::O200k] {
        let ids = encode("<|endoftext|>", tok);
        assert!(ids.len() > 1, "{} collapsed the literal to {ids:?}", tok.as_str());
        assert_eq!(decode(&ids, tok).unwrap(), "<|endoftext|>");
    }
}

#[test]
fn encoding_is_deterministic() {
    // Canonicality at the storage layer depends on this: same text, same IDs, therefore
    // same bytes. Without it, `=` and `GROUP BY` on a token-native column are wrong.
    for tok in [Tokenizer::R50k, Tokenizer::Cl100k, Tokenizer::O200k] {
        for case in CASES {
            let a = encode(case, tok);
            for _ in 0..8 {
                assert_eq!(encode(case, tok), a, "nondeterministic for {}", tok.as_str());
            }
        }
    }
}

#[test]
fn rejects_unknown_token_id() {
    let err = decode(&[u32::MAX], Tokenizer::O200k);
    assert_eq!(err, Err(TokenizerError::UnknownToken(u32::MAX)));
}

#[test]
fn empty_input_gives_empty_output() {
    for tok in [Tokenizer::R50k, Tokenizer::Cl100k, Tokenizer::O200k] {
        assert!(encode("", tok).is_empty());
        assert_eq!(decode(&[], tok).unwrap(), "");
    }
}

#[test]
fn hindi_costs_more_tokens_on_r50k_than_o200k() {
    // Documents the paper's tokenizer-coverage limitation as an executable fact: r50k
    // never learned Devanagari merges, so it splits the script far more finely.
    let hindi = "भारत में वेक्टर डेटाबेस का उपयोग";
    let r50k = encode(hindi, Tokenizer::R50k).len();
    let o200k = encode(hindi, Tokenizer::O200k).len();
    assert!(r50k > o200k, "expected r50k ({r50k}) to need more tokens than o200k ({o200k})");
}

#[test]
fn known_texts_have_known_ids() {
    assert_eq!(encode("hello world", Tokenizer::R50k), vec![31373, 995]);
    assert_eq!(encode("hello world", Tokenizer::Cl100k), vec![15339, 1917]);
    assert_eq!(encode("hello world", Tokenizer::O200k), vec![24912, 2375]);
    assert_eq!(decode(&[24912, 2375], Tokenizer::O200k).unwrap(), "hello world");
}

#[test]
fn special_tokens_decode_to_their_text() {
    assert_eq!(decode(&[50_256], Tokenizer::R50k).unwrap(), "<|endoftext|>");
    assert_eq!(decode(&[200_018], Tokenizer::O200k).unwrap(), "<|endofprompt|>");
    assert_eq!(bpe(Tokenizer::R50k).decode_bytes(&[50_256]).unwrap(), b"<|endoftext|>".to_vec());
}

#[test]
fn a_sequence_cut_mid_character_is_not_text() {
    let ids = encode("🚀", Tokenizer::R50k);
    assert!(ids.len() > 1);
    let err = decode(&ids[..1], Tokenizer::R50k).unwrap_err();
    assert_eq!(err, TokenizerError::NotUtf8);
    assert_eq!(
        err.message(),
        "decoded token IDs are not valid UTF-8; the sequence is not a whole text"
    );
    assert_eq!(
        decode(&[5, 50_257, u32::MAX], Tokenizer::R50k).unwrap_err().message(),
        "token id 50257 is not in the vocabulary"
    );
}

#[test]
fn decoded_bytes_become_text_or_an_error() {
    assert_eq!(decoded_text(Ok("é".as_bytes().to_vec())).unwrap(), "é");
    assert_eq!(decoded_text(Ok(vec![])).unwrap(), "");
    assert_eq!(decoded_text(Ok(vec![0xC3])), Err(TokenizerError::NotUtf8));
    assert_eq!(decoded_text(Err(9)), Err(TokenizerError::UnknownToken(9)));
}

#[test]
fn trying_to_encode_agrees_with_encoding() {
    for case in CASES {
        assert_eq!(
            try_encode(case, Tokenizer::R50k),
            Some(encode(case, Tokenizer::R50k))
        );
    }
}

#[test]
fn a_run_too_long_for_the_pattern_is_not_encoded() {
    let mut text = " ".repeat(3_000_000);
    text.push('a');
    assert_eq!(try_encode(&text, Tokenizer::R50k), None);
}

#[test]
fn stored_text_comes_back_through_an_exported_mapping() {
    let text = "Hello, café 🚀 भारत";
    let tok = Tokenizer::O200k;
    let ids = encode(text, tok);
    let mut seen = ids.clone();
    seen.sort();
    seen.dedup();
    let pairs: Vec<(u32, Vec<u8>)> = seen
        .into_iter()
        .map(|id| (id, bpe(tok).decode_bytes(&[id]).unwrap()))
        .collect();
    let map = ByteMap::build(&pairs, tok.vocab()).unwrap();
    assert_eq!(to_text(&ids, &map).unwrap(), text);
    let typmod = pack(Vocabulary {
        id: 1,
        compression: COMPRESSION_RAW,
        width: 3,
    });
    let v = encode_for(&ids, typmod, Some(tok.vocab()), None).unwrap();
    assert_eq!(pgtoken::tokens::text(&v, None, Some(&map)).unwrap(), text);
}
