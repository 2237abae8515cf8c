use gbdt::{Data, FormatError, Row, SortedEntry};

fn row(label: u8, features: Vec<(usize, i64)>) -> Row {
    Row { label, features }
}

#[test]
fn rejects_row_count_mismatch() {
    let rows = vec![row(1, vec![(0, 3)]), row(0, vec![(0, 4)])];
    let r = Data::new(&rows, 3, 1);
    assert_eq!(r.err(), Some(FormatError::RowCount { expected: 3, found: 2 }));
}

#[test]
fn rejects_bad_label() {
    let rows = vec![row(1, vec![(0, 3)]), row(2, vec![(0, 4)])];
    let r = Data::new(&rows, 2, 1);
    assert_eq!(r.err(), Some(FormatError::BadLabel { row: 1 }));
}

#[test]
fn rejects_feature_out_of_range() {
    let rows = vec![row(1, vec![(0, 3), (2, 7)]), row(0, vec![(1, 4)])];
    let r = Data::new(&rows, 2, 2);
    assert_eq!(r.err(), Some(FormatError::FeatureOutOfRange { row: 0, feature: 2 }));
}

#[test]
fn dense_values_default_to_zero_and_last_pair_wins() {
    let rows = vec![row(1, vec![(1, 5), (1, 9)]), row(0, vec![(0, -2)])];
    let data = Data::new(&rows, 2, 2).ok().unwrap();
    assert_eq!(data.values[0], vec![0, 9]);
    assert_eq!(data.values[1], vec![-2, 0]);
    assert_eq!(data.labels, vec![1, -1]);
}

#[test]
fn columns_are_sorted_with_ties_in_document_order() {
    let rows = vec![
        row(1, vec![(0, 7)]),
        row(0, vec![(0, -3)]),
        row(1, vec![(0, 7)]),
        row(0, vec![]),
    ];
    let data = Data::new(&rows, 4, 1).ok().unwrap();
    let col: Vec<SortedEntry> = data.sorted[0].clone();
    let expected = vec![
        SortedEntry { doc_id: 1, value: -3 },
        SortedEntry { doc_id: 3, value: 0 },
        SortedEntry { doc_id: 0, value: 7 },
        SortedEntry { doc_id: 2, value: 7 },
    ];
    assert_eq!(col, expected);
}

#[test]
fn every_document_appears_once_per_column() {
    let rows: Vec<Row> = (0..10).map(|i| row((i % 2) as u8, vec![(0, (i * 7 % 5) as i64), (1, -(i as i64))])).collect();
    let data = Data::new(&rows, 10, 2).ok().unwrap();
    for f in 0..2 {
        let mut ids: Vec<usize> = data.sorted[f].iter().map(|e| e.doc_id).collect();
        for w in data.sorted[f].windows(2) {
            assert!(w[0].value <= w[1].value);
        }
        ids.sort();
        assert_eq!(ids, (0..10).collect::<Vec<usize>>());
    }
}
