use lazy_segment_tree::additions::Operation;
use lazy_segment_tree::schedule::{
    count_requests, decode_operation, decode_request, run_schedule, Request,
};

#[test]
fn requests_are_counted_per_operation() {
    let requests = vec![
        Request { first: 0, last: 1 },
        Request { first: 0, last: 2 },
        Request { first: 1, last: 2 },
    ];
    assert_eq!(count_requests(3, &requests), vec![2, 3, 2]);
}

#[test]
fn an_operation_that_nobody_asks_for_counts_zero() {
    let requests = vec![Request { first: 1, last: 1 }, Request { first: 3, last: 3 }];
    assert_eq!(count_requests(5, &requests), vec![0, 1, 0, 1, 0]);
    assert_eq!(count_requests(2, &vec![]), vec![0, 0]);
    assert_eq!(count_requests(0, &vec![]), Vec::<i32>::new());
}

#[test]
fn a_schedule_of_three_operations() {
    let elems = vec![1, 2, 3];
    let ops = vec![
        Operation { start: 0, end: 1, val: 1 },
        Operation { start: 0, end: 2, val: 2 },
        Operation { start: 1, end: 2, val: 4 },
    ];
    let requests = vec![
        Request { first: 0, last: 1 },
        Request { first: 0, last: 2 },
        Request { first: 1, last: 2 },
    ];
    assert_eq!(run_schedule(&elems, &ops, &requests), Some(vec![9, 18, 17]));
}

#[test]
fn a_schedule_without_requests_leaves_the_array() {
    let elems = vec![4, 5];
    let ops = vec![Operation { start: 0, end: 1, val: 100 }];
    assert_eq!(run_schedule(&elems, &ops, &vec![]), Some(vec![4, 5]));
    assert_eq!(run_schedule(&elems, &vec![], &vec![]), Some(vec![4, 5]));
}

#[test]
fn a_schedule_that_cannot_be_run() {
    let ops = vec![Operation { start: 0, end: 1, val: 1 }];
    let once = vec![Request { first: 0, last: 0 }];
    assert_eq!(run_schedule(&vec![], &vec![], &vec![]), None);
    assert_eq!(run_schedule(&vec![1], &ops, &once), None);
    assert_eq!(
        run_schedule(&vec![1, 2], &vec![Operation { start: -1, end: 1, val: 1 }], &once),
        None
    );
    assert_eq!(
        run_schedule(&vec![1, 2], &vec![Operation { start: 1, end: 0, val: 1 }], &once),
        None
    );
    assert_eq!(
        run_schedule(&vec![1, 2], &ops, &vec![Request { first: 0, last: 1 }]),
        None
    );
    assert_eq!(
        run_schedule(&vec![1, 2], &ops, &vec![Request { first: 1, last: 0 }]),
        None
    );
    assert_eq!(run_schedule(&vec![1, 2], &ops, &once), Some(vec![2, 3]));
}

#[test]
fn products_wrap_around() {
    let elems = vec![0];
    let ops = vec![Operation { start: 0, end: 0, val: i32::MAX }];
    let twice = vec![Request { first: 0, last: 0 }, Request { first: 0, last: 0 }];
    assert_eq!(run_schedule(&elems, &ops, &twice), Some(vec![-2]));
}

#[test]
fn an_operation_is_decoded_with_positions_from_zero() {
    assert_eq!(
        decode_operation(&vec![1, 3, -5]),
        Some(Operation { start: 0, end: 2, val: -5 })
    );
    assert_eq!(
        decode_operation(&vec![0, -1, 7, 8]),
        Some(Operation { start: -1, end: -2, val: 7 })
    );
    assert_eq!(decode_operation(&vec![1, 3]), None);
    assert_eq!(decode_operation(&vec![]), None);
    assert_eq!(decode_operation(&vec![i32::MIN, 3, 1]), None);
    assert_eq!(decode_operation(&vec![1, i32::MIN, 1]), None);
}

#[test]
fn a_request_is_decoded_with_operations_from_zero() {
    assert_eq!(decode_request(&vec![1, 3]), Some(Request { first: 0, last: 2 }));
    assert_eq!(decode_request(&vec![2, 2, 9]), Some(Request { first: 1, last: 1 }));
    assert_eq!(decode_request(&vec![1]), None);
    assert_eq!(decode_request(&vec![0, 3]), None);
    assert_eq!(decode_request(&vec![1, 0]), None);
    assert_eq!(decode_request(&vec![-4, 3]), None);
}
