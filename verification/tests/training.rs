use pgtoken::training::{collect_ids, train, train_report, NoTokenIds};
use pgtoken::RankTable;

#[test]
fn training_drops_nulls_and_negatives() {
    let rows = vec![
        Some(vec![Some(7), None, Some(-1), Some(7)]),
        None,
        Some(vec![]),
        Some(vec![Some(3)]),
    ];
    assert_eq!(collect_ids(&rows), (vec![7, 7, 3], 3));
}

#[test]
fn trains_a_ranking_and_reports_it() {
    let rows = vec![Some(vec![Some(7), Some(7), Some(3), Some(199_999)]); 40];
    let t = train(&rows, -1).unwrap();
    assert_eq!((t.rows, t.tokens, t.ranked), (40, 160, 3));
    let table = RankTable::from_bytes(&t.bytes).unwrap();
    assert_eq!((table.token(0), table.token(1), table.token(2)), (7, 3, 199_999));
    assert_eq!(
        train_report(12, &t, "/t/12.tntt"),
        "trained table 12 on 40 rows / 160 tokens, 3 ranked -> /t/12.tntt"
    );
}

#[test]
fn a_cap_keeps_the_most_frequent() {
    let rows = vec![Some(vec![Some(1), Some(2), Some(2), Some(3), Some(3), Some(3)])];
    assert_eq!(train(&rows, 2).unwrap().ranked, 2);
    assert_eq!(train(&rows, 0).unwrap().ranked, 0);
    assert_eq!(train(&rows, 99).unwrap().ranked, 3);
    let table = RankTable::from_bytes(&train(&rows, 2).unwrap().bytes).unwrap();
    assert_eq!((table.token(0), table.token(1)), (3, 2));
}

#[test]
fn training_needs_token_ids() {
    for rows in [vec![], vec![None], vec![Some(vec![None, Some(-4)])]] {
        assert_eq!(train(&rows, -1), Err(NoTokenIds));
    }
    assert_eq!(
        NoTokenIds.message(),
        "training query returned no token ids; the query must return int[] columns"
    );
}
