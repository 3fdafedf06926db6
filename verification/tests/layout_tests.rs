use lazy_segment_tree::layout::padded_leaves;

#[test]
fn the_least_power_of_two_not_below() {
    let expected = [1, 1, 2, 4, 4, 8, 8, 8, 8, 16];
    for n in 0..expected.len() {
        assert_eq!(padded_leaves(n), expected[n]);
    }
    assert_eq!(padded_leaves(1023), 1024);
    assert_eq!(padded_leaves(1024), 1024);
    assert_eq!(padded_leaves(1025), 2048);
    assert_eq!(padded_leaves(0x8000_0000), 0x8000_0000);
    assert_eq!(padded_leaves(0x4000_0001), 0x8000_0000);
}
