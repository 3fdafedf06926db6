use lazy_segment_tree::range_max::SegmentTree;

/// The array that the tree should stand for, kept naively.
struct Plain {
    entries: Vec<i32>,
}

impl Plain {
    fn lower(&mut self, val: i32, start: usize, end: usize) {
        for p in start..=end {
            if val < self.entries[p] {
                self.entries[p] = val;
            }
        }
    }

    fn max(&self, start: usize, end: usize) -> i32 {
        let mut best = self.entries[start];
        for p in start..=end {
            if self.entries[p] > best {
                best = self.entries[p];
            }
        }
        best
    }

    fn min(&self, start: usize, end: usize) -> i32 {
        let mut best = self.entries[start];
        for p in start..=end {
            if self.entries[p] < best {
                best = self.entries[p];
            }
        }
        best
    }
}

/// A small generator of numbers that look random and are the same on every run.
struct Dice {
    state: u64,
}

impl Dice {
    fn next(&mut self, below: u64) -> u64 {
        self.state = self
            .state
            .wrapping_mul(6364136223846793005)
            .wrapping_add(1442695040888963407);
        (self.state >> 33) % below
    }
}

#[test]
fn lowering_a_range_then_asking_for_maxima() {
    let mut tree = SegmentTree::new(&vec![5, 1, 4, 2, 8]);
    tree.range_update(0, 2, 1, 3);
    assert_eq!(tree.range_max(0, 0, 4), 8);
    assert_eq!(tree.range_max(0, 1, 3), 2);
    assert_eq!(tree.range_max(0, 0, 0), 5);
    assert_eq!(tree.range_max(0, 1, 1), 1);
    assert_eq!(tree.range_max(0, 2, 2), 2);
    assert_eq!(tree.range_max(0, 3, 3), 2);
    assert_eq!(tree.range_max(0, 4, 4), 8);
}

#[test]
fn update_returns_the_smallest_and_largest_entry() {
    let mut tree = SegmentTree::new(&vec![5, 1, 4, 2, 8]);
    let whole = tree.range_update(0, 2, 1, 3);
    assert_eq!(whole.min, 1);
    assert_eq!(whole.max, 8);
    let whole = tree.range_update(0, 3, 0, 4);
    assert_eq!(whole.min, 1);
    assert_eq!(whole.max, 3);
}

#[test]
fn a_fresh_tree_answers_from_the_array() {
    let data = vec![7, -3, 12, 0, 5, 5, -8];
    let mut tree = SegmentTree::new(&data);
    assert_eq!(tree.len(), 7);
    for start in 0..data.len() {
        for end in start..data.len() {
            let expected = *data[start..=end].iter().max().unwrap();
            assert_eq!(tree.range_max(0, start as i32, end as i32), expected);
        }
    }
}

#[test]
fn a_tree_over_one_entry() {
    let mut tree = SegmentTree::new(&vec![42]);
    assert_eq!(tree.len(), 1);
    assert_eq!(tree.range_max(0, 0, 0), 42);
    let whole = tree.range_update(0, 50, 0, 0);
    assert_eq!((whole.min, whole.max), (42, 42));
    assert_eq!(tree.range_max(0, 0, 0), 42);
    let whole = tree.range_update(0, 7, 0, 0);
    assert_eq!((whole.min, whole.max), (7, 7));
    assert_eq!(tree.range_max(0, 0, 0), 7);
}

#[test]
fn lowering_twice_is_lowering_once() {
    let data = vec![9, 4, 7, 1, 8, 6];
    let mut once = SegmentTree::new(&data);
    let mut twice = SegmentTree::new(&data);
    let first = once.range_update(0, 5, 1, 4);
    twice.range_update(0, 5, 1, 4);
    let second = twice.range_update(0, 5, 1, 4);
    assert_eq!((first.min, first.max), (second.min, second.max));
    for start in 0..6 {
        for end in start..6 {
            assert_eq!(once.range_max(0, start, end), twice.range_max(0, start, end));
        }
    }
}

#[test]
fn a_range_of_one_position_changes_one_entry() {
    let data = vec![9, 4, 7, 1, 8, 6];
    let mut tree = SegmentTree::new(&data);
    tree.range_update(0, 3, 2, 2);
    let expected = [9, 4, 3, 1, 8, 6];
    for p in 0..6 {
        assert_eq!(tree.range_max(0, p as i32, p as i32), expected[p]);
    }
}

#[test]
fn the_smaller_of_two_parked_values_stays() {
    // Both updates cover the left half of the array, which is one node.
    let mut tree = SegmentTree::new(&vec![10, 20, 30, 40, 50, 60, 70, 80]);
    tree.range_update(0, 25, 0, 3);
    tree.range_update(0, 15, 0, 3);
    tree.range_update(0, 35, 0, 3);
    let expected = [10, 15, 15, 15, 50, 60, 70, 80];
    for p in 0..8 {
        assert_eq!(tree.range_max(0, p as i32, p as i32), expected[p]);
    }
    assert_eq!(tree.range_max(0, 0, 3), 15);
    assert_eq!(tree.range_max(0, 0, 7), 80);
}

#[test]
fn an_update_above_every_entry_changes_nothing() {
    let data = vec![3, 1, 2];
    let mut tree = SegmentTree::new(&data);
    let whole = tree.range_update(0, i32::MAX, 0, 2);
    assert_eq!((whole.min, whole.max), (1, 3));
    assert_eq!(tree.range_max(0, 0, 2), 3);
}

#[test]
fn the_extremes_of_the_number_range() {
    let mut tree = SegmentTree::new(&vec![i32::MAX, i32::MIN, 0]);
    assert_eq!(tree.range_max(0, 1, 1), i32::MIN);
    assert_eq!(tree.range_max(0, 0, 2), i32::MAX);
    let whole = tree.range_update(0, i32::MIN, 0, 2);
    assert_eq!((whole.min, whole.max), (i32::MIN, i32::MIN));
    assert_eq!(tree.range_max(0, 0, 2), i32::MIN);
}

#[test]
fn many_updates_agree_with_a_plain_array() {
    let mut dice = Dice { state: 17 };
    for n in 1..=33usize {
        let data: Vec<i32> = (0..n).map(|_| dice.next(2000) as i32 - 1000).collect();
        let mut tree = SegmentTree::new(&data);
        let mut plain = Plain { entries: data };
        for _ in 0..60 {
            let a = dice.next(n as u64) as usize;
            let b = dice.next(n as u64) as usize;
            let (start, end) = if a <= b { (a, b) } else { (b, a) };
            if dice.next(2) == 0 {
                let val = dice.next(2000) as i32 - 1000;
                let whole = tree.range_update(0, val, start as i32, end as i32);
                plain.lower(val, start, end);
                assert_eq!(whole.max, plain.max(0, n - 1));
                assert_eq!(whole.min, plain.min(0, n - 1));
            } else {
                assert_eq!(
                    tree.range_max(0, start as i32, end as i32),
                    plain.max(start, end)
                );
            }
        }
        for p in 0..n {
            assert_eq!(tree.range_max(0, p as i32, p as i32), plain.entries[p]);
        }
    }
}

#[test]
fn a_query_on_a_node_sees_the_positions_of_the_node() {
    // Over five entries node 1 covers the positions 0 to 2, node 2 the rest.
    let mut tree = SegmentTree::new(&vec![5, 1, 4, 2, 8]);
    assert_eq!(tree.range_max(1, 0, 4), 5);
    assert_eq!(tree.range_max(2, 0, 4), 8);
    assert_eq!(tree.range_max(1, 1, 3), 4);
    assert_eq!(tree.range_max(2, 1, 3), 2);
}

#[test]
fn a_query_beside_a_node_answers_with_the_least_number() {
    let mut tree = SegmentTree::new(&vec![5, 1, 4, 2, 8]);
    assert_eq!(tree.range_max(2, 0, 2), i32::MIN);
    assert_eq!(tree.range_max(1, 3, 4), i32::MIN);
}

#[test]
fn an_update_on_a_node_returns_the_extremes_of_the_node() {
    let mut tree = SegmentTree::new(&vec![5, 1, 4, 2, 8]);
    let right = tree.range_update(2, 6, 0, 4);
    assert_eq!((right.min, right.max), (2, 6));
    let left = tree.range_update(1, 0, 3, 4);
    assert_eq!((left.min, left.max), (1, 5));
}

#[test]
fn trees_of_every_small_size_have_room_for_their_nodes() {
    for n in 1..=70usize {
        let data: Vec<i32> = (0..n as i32).collect();
        let mut tree = SegmentTree::new(&data);
        assert_eq!(tree.len(), n);
        assert_eq!(tree.range_max(0, 0, n as i32 - 1), n as i32 - 1);
        let whole = tree.range_update(0, 3, 0, n as i32 - 1);
        assert_eq!(whole.min, 0);
        assert_eq!(whole.max, if n > 3 { 3 } else { n as i32 - 1 });
    }
}

#[test]
fn the_slots_are_one_less_than_twice_the_padded_length() {
    let sizes = [
        (1, 1),
        (2, 3),
        (3, 7),
        (4, 7),
        (5, 15),
        (8, 15),
        (9, 31),
        (16, 31),
        (17, 63),
        (100, 255),
    ];
    for (n, slots) in sizes {
        let tree = SegmentTree::new(&vec![0; n]);
        assert_eq!(tree.slots(), slots);
        assert_eq!(tree.len(), n);
    }
}
