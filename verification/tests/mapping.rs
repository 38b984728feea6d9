use pgtoken::mapping::{load_mapping, pairs_from_rows, rows_total, MappingError};
use pgtoken::vocabulary::Vocabulary;
use pgtoken::{to_text, ByteMap, TableError};

const V: Vocabulary = Vocabulary {
    id: 62001,
    compression: 0,
    width: 1,
};

fn stage() -> Vec<(Option<i32>, Option<Vec<u8>>)> {
    vec![
        (Some(0), Some(b"Hello".to_vec())),
        (Some(1), Some(b", ".to_vec())),
        (Some(2), Some(b"world".to_vec())),
        (Some(3), Some(b"!".to_vec())),
        (Some(4), Some(vec![0xc3])),
        (Some(5), Some(vec![0xa9])),
    ]
}

#[test]
fn loads_a_mapping_and_reports_it() {
    let m = load_mapping("m_load", Some(V), false, Some(8), stage()).unwrap();
    assert_eq!(m.vocabulary_id, 62001);
    assert_eq!(m.report, "mapped 6 of 8 ids for vocabulary m_load");
    let map = ByteMap::from_bytes(&m.bytes).unwrap();
    assert_eq!(map.mapped(), 6);
    assert_eq!(to_text(&[0, 1, 2, 3, 4, 5], &map).unwrap(), "Hello, world!é");
}

#[test]
fn a_mapping_is_refused_in_order() {
    let message = |found, has, size, rows| {
        load_mapping("m", found, has, size, rows).unwrap_err().message()
    };
    assert_eq!(message(None, true, None, vec![]), "vocabulary \"m\" does not exist");
    assert_eq!(message(Some(V), true, None, vec![]), "vocabulary m already has a mapping");
    assert_eq!(message(Some(V), false, None, vec![]), "vocabulary \"m\" has no catalog row");
    assert_eq!(
        message(Some(V), false, Some(8), vec![]),
        "mapping query returned no rows; it must return (int, bytea)"
    );
    assert_eq!(
        message(Some(V), false, Some(8), vec![(Some(99), Some(b"x".to_vec()))]),
        "token id 99 is outside the vocabulary's declared size 8"
    );
    assert_eq!(
        load_mapping("m", Some(V), false, Some(8), vec![(Some(1), Some(vec![]))]),
        Err(MappingError::Table(TableError::EmptyEntry(1)))
    );
}

#[test]
fn rows_must_be_whole() {
    assert_eq!(
        pairs_from_rows(vec![(Some(-1), None)]).unwrap_err().message(),
        "token id -1 is negative"
    );
    for bad in [(Some(1), None), (None, Some(vec![1])), (None, None)] {
        let err = pairs_from_rows(vec![(Some(0), Some(vec![1])), bad]).unwrap_err();
        assert_eq!(err.message(), "mapping rows must not contain NULL");
    }
    assert_eq!(pairs_from_rows(vec![]), Err(MappingError::NoRows));
    assert_eq!(
        pairs_from_rows(vec![(Some(7), Some(vec![1, 2]))]).unwrap(),
        vec![(7, vec![1, 2])]
    );
}

#[test]
fn rows_know_how_many_bytes_they_hold() {
    assert_eq!(rows_total(&stage()), 15);
    assert_eq!(rows_total(&vec![(None, None), (Some(1), Some(vec![0; 7]))]), 7);
}
