use pgtoken::{to_text, ByteMap, DetokError};

/// A tiny byte-level mapping: ids 0-3 are ASCII, 4 and 5 are the two halves of the
/// two-byte UTF-8 sequence for 'é' (0xC3 0xA9), so a chunk can be cut mid-character.
fn map() -> ByteMap {
    ByteMap::build(
        &[
            (0, b"Hello".to_vec()),
            (1, b", ".to_vec()),
            (2, b"world".to_vec()),
            (3, b"!".to_vec()),
            (4, vec![0xC3]),
            (5, vec![0xA9]),
        ],
        8,
    )
    .unwrap()
}

#[test]
fn concatenates_mapped_bytes() {
    assert_eq!(to_text(&[0, 1, 2, 3], &map()).unwrap(), "Hello, world!");
}

#[test]
fn joins_a_character_split_across_two_tokens() {
    // Neither 0xC3 nor 0xA9 is valid UTF-8 alone; together they are 'é'. This is why the
    // mapping is id -> bytes and not id -> text.
    assert_eq!(to_text(&[4, 5], &map()).unwrap(), "é");
}

#[test]
fn drops_an_incomplete_trailing_character() {
    // The chunk ended mid-character, which is an artefact of chunking by token count, not a
    // fault. Return what is readable.
    assert_eq!(to_text(&[0, 4], &map()).unwrap(), "Hello");
}

#[test]
fn errors_on_invalid_bytes_in_the_middle() {
    // A stray continuation byte followed by more text cannot be a chunk boundary artefact —
    // it means the mapping or the ids are wrong.
    let err = to_text(&[5, 0], &map()).expect_err("must not be papered over");
    assert!(matches!(err, DetokError::InvalidUtf8 { .. }), "got {err:?}");
}

#[test]
fn errors_on_an_unmapped_id() {
    let err = to_text(&[0, 6], &map()).expect_err("id 6 has no entry");
    assert_eq!(err, DetokError::UnmappedId(6));
}

#[test]
fn empty_input_is_empty_text() {
    assert_eq!(to_text(&[], &map()).unwrap(), "");
}

#[test]
fn a_wholly_unreadable_chunk_is_empty_not_an_error() {
    // One token that is only the first half of a character: everything is an incomplete
    // trailing sequence, so there is nothing readable and nothing wrong.
    assert_eq!(to_text(&[4], &map()).unwrap(), "");
}

#[test]
fn the_first_unmapped_id_decides() {
    let err = to_text(&[5, 7, 99], &map()).unwrap_err();
    assert_eq!(err, DetokError::UnmappedId(7));
    assert_eq!(err.message(), "token id 7 has no entry in the mapping");
}

#[test]
fn a_fault_names_the_byte() {
    let err = to_text(&[0, 5, 0], &map()).unwrap_err();
    assert_eq!(err, DetokError::InvalidUtf8 { at: 5 });
    assert_eq!(
        err.message(),
        "detokenized bytes are not valid UTF-8 at byte 5, and not merely cut short"
    );
}

#[test]
fn text_cut_anywhere_reads_as_its_beginning() {
    // One id per byte, so that a cut can fall anywhere.
    let pairs: Vec<(u32, Vec<u8>)> = (0..256).map(|b| (b, vec![b as u8])).collect();
    let map = ByteMap::build(&pairs, 256).unwrap();
    let text = "aé€🚀z";
    let ids: Vec<u32> = text.bytes().map(u32::from).collect();
    for n in 0..=ids.len() {
        let read = to_text(&ids[..n], &map).unwrap();
        assert!(text.starts_with(&read), "{n}");
        assert!(n - read.len() < 4);
    }
    assert_eq!(to_text(&ids, &map).unwrap(), text);
    // Lone surrogates and overlong forms are faults even at the end.
    for bad in [vec![0xED, 0xA0], vec![0xC0], vec![0xF5], vec![0xE0, 0x80]] {
        let ids: Vec<u32> = bad.iter().map(|&b: &u8| u32::from(b)).collect();
        assert_eq!(to_text(&ids, &map), Err(DetokError::InvalidUtf8 { at: 0 }));
    }
}
