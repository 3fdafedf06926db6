use lazy_segment_tree::range_add::SegmentTree;

fn read_all(tree: &mut SegmentTree) -> Vec<i32> {
    let mut out = Vec::new();
    tree.get_leaves(0, &mut out);
    out
}

#[test]
fn two_additions_side_by_side() {
    let mut tree = SegmentTree::new(&vec![0, 0, 0, 0]);
    tree.range_update(0, 5, 0, 1);
    tree.range_update(0, 3, 2, 3);
    assert_eq!(read_all(&mut tree), vec![5, 5, 3, 3]);
}

#[test]
fn a_fresh_tree_reads_out_the_array() {
    for n in 1..=20usize {
        let data: Vec<i32> = (0..n as i32).map(|p| p * p - 7).collect();
        let mut tree = SegmentTree::new(&data);
        assert_eq!(tree.len(), n);
        assert_eq!(read_all(&mut tree), data);
    }
}

#[test]
fn reading_appends_to_what_is_there() {
    let mut tree = SegmentTree::new(&vec![1, 2, 3]);
    let mut out = vec![9, 9];
    tree.get_leaves(0, &mut out);
    assert_eq!(out, vec![9, 9, 1, 2, 3]);
}

#[test]
fn reading_twice_gives_the_same() {
    let mut tree = SegmentTree::new(&vec![1, 2, 3, 4, 5]);
    tree.range_update(0, 10, 0, 4);
    tree.range_update(0, -3, 1, 3);
    let first = read_all(&mut tree);
    let second = read_all(&mut tree);
    assert_eq!(first, vec![11, 9, 10, 11, 15]);
    assert_eq!(second, first);
}

#[test]
fn parked_values_add_up() {
    // All three additions cover the left half of the array, which is one node.
    let mut tree = SegmentTree::new(&vec![1, 1, 1, 1, 1, 1, 1, 1]);
    tree.range_update(0, 4, 0, 3);
    tree.range_update(0, 6, 0, 3);
    tree.range_update(0, -1, 0, 3);
    assert_eq!(read_all(&mut tree), vec![10, 10, 10, 10, 1, 1, 1, 1]);
}

#[test]
fn adding_zero_is_an_update_like_any_other() {
    let mut tree = SegmentTree::new(&vec![4, 5, 6]);
    tree.range_update(0, 0, 0, 2);
    tree.range_update(0, 2, 0, 2);
    assert_eq!(read_all(&mut tree), vec![6, 7, 8]);
}

#[test]
fn an_addition_to_one_position() {
    let mut tree = SegmentTree::new(&vec![4, 5, 6, 7, 8]);
    tree.range_update(0, 100, 3, 3);
    assert_eq!(read_all(&mut tree), vec![4, 5, 6, 107, 8]);
}

#[test]
fn a_tree_over_one_entry_takes_additions() {
    let mut tree = SegmentTree::new(&vec![-2]);
    tree.range_update(0, 5, 0, 0);
    tree.range_update(0, 5, 0, 0);
    assert_eq!(read_all(&mut tree), vec![8]);
}

#[test]
fn sums_wrap_around() {
    let mut tree = SegmentTree::new(&vec![i32::MAX, 0, i32::MIN]);
    tree.range_update(0, 1, 0, 2);
    assert_eq!(read_all(&mut tree), vec![i32::MIN, 1, i32::MIN + 1]);
    tree.range_update(0, -1, 0, 2);
    assert_eq!(read_all(&mut tree), vec![i32::MAX, 0, i32::MIN]);
}

#[test]
fn a_sum_that_fits_is_exact_though_its_parts_do_not() {
    // The two additions to the whole array are parked on one node one after
    // the other; their sum does not fit, the entries they lead to do.
    let mut tree = SegmentTree::new(&vec![-2_000_000_000, -2_000_000_000]);
    tree.range_update(0, 1_500_000_000, 0, 1);
    tree.range_update(0, 1_500_000_000, 0, 1);
    assert_eq!(read_all(&mut tree), vec![1_000_000_000, 1_000_000_000]);
}

#[test]
fn many_additions_agree_with_a_plain_array() {
    let mut state: u64 = 99;
    let mut next = |below: u64| {
        state = state
            .wrapping_mul(6364136223846793005)
            .wrapping_add(1442695040888963407);
        (state >> 33) % below
    };
    for n in 1..=33usize {
        let mut plain: Vec<i32> = (0..n).map(|_| next(200) as i32 - 100).collect();
        let mut tree = SegmentTree::new(&plain);
        for round in 0..60 {
            let a = next(n as u64) as usize;
            let b = next(n as u64) as usize;
            let (start, end) = if a <= b { (a, b) } else { (b, a) };
            let val = next(200) as i32 - 100;
            tree.range_update(0, val, start as i32, end as i32);
            for p in start..=end {
                plain[p] += val;
            }
            if round % 7 == 0 {
                assert_eq!(read_all(&mut tree), plain);
            }
        }
        assert_eq!(read_all(&mut tree), plain);
        assert_eq!(tree.len(), n);
    }
}

#[test]
fn reading_a_node_gives_the_positions_of_the_node() {
    // Over five entries node 1 covers the positions 0 to 2, node 2 the rest.
    let mut tree = SegmentTree::new(&vec![10, 20, 30, 40, 50]);
    let mut left = Vec::new();
    tree.get_leaves(1, &mut left);
    assert_eq!(left, vec![10, 20, 30]);
    let mut right = Vec::new();
    tree.get_leaves(2, &mut right);
    assert_eq!(right, vec![40, 50]);
}

#[test]
fn an_addition_on_a_node_stays_within_the_node() {
    let mut tree = SegmentTree::new(&vec![10, 20, 30, 40, 50]);
    tree.range_update(1, 1, 0, 4);
    assert_eq!(read_all(&mut tree), vec![11, 21, 31, 40, 50]);
}

#[test]
fn an_adding_tree_has_as_many_slots() {
    let sizes = [(1, 1), (2, 3), (3, 7), (5, 15), (8, 15), (9, 31), (33, 127)];
    for (n, slots) in sizes {
        let tree = SegmentTree::new(&vec![0; n]);
        assert_eq!(tree.slots(), slots);
        assert_eq!(tree.len(), n);
    }
}
