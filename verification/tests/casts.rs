use pgtoken::casts::{
    ids_from_sql, ids_to_sql, tokens_from_array, tokens_to_array, ArrayError, CastError,
};
use pgtoken::tokens::{encode_for, encode_unresolved, TokensError};
use pgtoken::typmod::pack;
use pgtoken::vocabulary::Vocabulary;

fn typmod(width: u8) -> i32 {
    pack(Vocabulary {
        id: 1,
        compression: 0,
        width,
    })
}

#[test]
fn arrays_become_ids() {
    assert_eq!(ids_from_sql(vec![Some(1), Some(0), Some(i32::MAX)]).unwrap(), vec![1, 0, 2147483647]);
    assert_eq!(ids_from_sql(vec![]).unwrap(), Vec::<u32>::new());
}

#[test]
fn arrays_with_nulls_or_negatives_are_refused() {
    let err = ids_from_sql(vec![Some(1), None, Some(-3)]).unwrap_err();
    assert_eq!(err, ArrayError::Null);
    assert_eq!(err.message(), "token id array must not contain NULL");
    let err = ids_from_sql(vec![Some(1), Some(-3), None]).unwrap_err();
    assert_eq!(err, ArrayError::Negative(-3));
    assert_eq!(err.message(), "token id -3 is negative");
}

#[test]
fn ids_go_back_bit_by_bit() {
    assert_eq!(ids_to_sql(&vec![1, 2, u32::MAX, 0x8000_0000]), vec![1, 2, -1, i32::MIN]);
    let array = vec![Some(0), Some(5), Some(i32::MAX)];
    let back: Vec<Option<i32>> =
        ids_to_sql(&ids_from_sql(array.clone()).unwrap()).into_iter().map(Some).collect();
    assert_eq!(back, array);
}

#[test]
fn the_cast_honours_the_target_width() {
    let ids = vec![Some(1), Some(2), Some(3)];
    let small = tokens_from_array(ids.clone(), typmod(1), Some(256), None).unwrap();
    let big = tokens_from_array(ids.clone(), typmod(3), Some(200_019), None).unwrap();
    assert_eq!(small.len(), 12 + 3, "raw8 via the target typmod");
    assert_eq!(big.len(), 12 + 9, "raw24 via the target typmod");
    assert_eq!(tokens_to_array(&small, None).unwrap(), vec![1, 2, 3]);
    assert_eq!(
        tokens_from_array(vec![None], typmod(1), Some(256), None),
        Err(CastError::Array(ArrayError::Null))
    );
    assert_eq!(
        tokens_from_array(ids.clone(), -1, None, None),
        Err(CastError::Tokens(TokensError::NoVocabularyTypmod))
    );
}

#[test]
fn tokens_beat_the_int_array_they_replace() {
    let ids: Vec<u32> = (1..=512).map(|i| i % 60000).collect();
    let packed = encode_for(&ids, typmod(2), Some(60000), None).unwrap();
    assert!(packed.len() < ids.len() * 4);
}

#[test]
fn arrays_refuse_an_unresolved_value() {
    let v = encode_unresolved(&[1, 2]).unwrap();
    assert_eq!(tokens_to_array(&v, None), Err(TokensError::Unresolved));
}

#[test]
fn a_bad_array_is_refused_before_its_width_counts() {
    assert_eq!(
        tokens_from_array(vec![Some(-1)], typmod(4), Some(256), None),
        Err(CastError::Array(ArrayError::Negative(-1)))
    );
    assert_eq!(
        tokens_from_array(vec![Some(1)], typmod(4), None, None),
        Err(CastError::Tokens(TokensError::NotRegistered(1)))
    );
}
