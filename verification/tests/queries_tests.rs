use lazy_segment_tree::queries::{decode_query, run_query, Query, QueryError};
use lazy_segment_tree::range_max::SegmentTree;

#[test]
fn a_lowering_is_decoded_with_positions_from_zero() {
    assert_eq!(
        decode_query(&vec![0, 2, 4, 7]),
        Ok(Query::Lower { left: 1, right: 3, val: 7 })
    );
}

#[test]
fn a_question_is_decoded_with_positions_from_zero() {
    assert_eq!(decode_query(&vec![1, 1, 5]), Ok(Query::Max { left: 0, right: 4 }));
    assert_eq!(decode_query(&vec![1, 1, 5, 9]), Ok(Query::Max { left: 0, right: 4 }));
}

#[test]
fn a_short_line_is_malformed() {
    assert_eq!(decode_query(&vec![]), Err(QueryError::Malformed));
    assert_eq!(decode_query(&vec![1]), Err(QueryError::Malformed));
    assert_eq!(decode_query(&vec![1, 2]), Err(QueryError::Malformed));
    assert_eq!(decode_query(&vec![0, 2, 3]), Err(QueryError::Malformed));
    assert_eq!(decode_query(&vec![7, 2]), Err(QueryError::Malformed));
}

#[test]
fn a_position_below_every_number_is_malformed() {
    assert_eq!(decode_query(&vec![1, i32::MIN, 3]), Err(QueryError::Malformed));
    assert_eq!(decode_query(&vec![1, 3, i32::MIN]), Err(QueryError::Malformed));
}

#[test]
fn an_unknown_kind_is_unrecognized() {
    assert_eq!(decode_query(&vec![2, 1, 1]), Err(QueryError::Unrecognized));
    assert_eq!(decode_query(&vec![-1, 1, 1, 1]), Err(QueryError::Unrecognized));
}

#[test]
fn queries_run_in_turn() {
    let mut tree = SegmentTree::new(&vec![5, 1, 4, 2, 8]);
    let lower = decode_query(&vec![0, 2, 4, 2]).unwrap();
    assert_eq!(run_query(&mut tree, lower), Ok(None));
    let whole = decode_query(&vec![1, 1, 5]).unwrap();
    assert_eq!(run_query(&mut tree, whole), Ok(Some(8)));
    let middle = decode_query(&vec![1, 2, 4]).unwrap();
    assert_eq!(run_query(&mut tree, middle), Ok(Some(2)));
}

#[test]
fn a_query_beside_the_array_is_refused_and_changes_nothing() {
    let mut tree = SegmentTree::new(&vec![5, 1, 4]);
    let refused = [
        Query::Lower { left: -1, right: 1, val: 0 },
        Query::Lower { left: 0, right: 3, val: 0 },
        Query::Lower { left: 2, right: 1, val: 0 },
        Query::Max { left: -1, right: 1 },
        Query::Max { left: 0, right: 3 },
        Query::Max { left: 2, right: 1 },
        Query::Max { left: 3, right: 3 },
    ];
    for query in refused {
        assert_eq!(run_query(&mut tree, query), Err(QueryError::OutOfRange));
    }
    assert_eq!(run_query(&mut tree, Query::Max { left: 0, right: 0 }), Ok(Some(5)));
    assert_eq!(run_query(&mut tree, Query::Max { left: 1, right: 1 }), Ok(Some(1)));
    assert_eq!(run_query(&mut tree, Query::Max { left: 2, right: 2 }), Ok(Some(4)));
}

#[test]
fn the_query_errors_in_words() {
    assert_eq!(QueryError::Malformed.message(), "Malformed query.");
    assert_eq!(QueryError::Unrecognized.message(), "Unrecognized query type.");
    assert_eq!(QueryError::OutOfRange.message(), "Index out of bounds.");
}
