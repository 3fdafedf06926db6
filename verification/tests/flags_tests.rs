use lazy_segment_tree::flags::{count_flags, count_reverse_flags, FlagsError};

#[test]
fn a_single_flag() {
    assert_eq!(count_reverse_flags("RWG"), Ok(1));
}

#[test]
fn flags_may_share_houses() {
    // Two reds, two whites, one green: each red with each white.
    assert_eq!(count_reverse_flags("RRWWG"), Ok(4));
    assert_eq!(count_reverse_flags("RWGRWG"), Ok(4));
}

#[test]
fn houses_in_the_wrong_order_make_no_flag() {
    assert_eq!(count_reverse_flags("GWR"), Ok(0));
    assert_eq!(count_reverse_flags(""), Ok(0));
    assert_eq!(count_reverse_flags("RW"), Ok(0));
}

#[test]
fn unpainted_houses() {
    assert_eq!(count_reverse_flags("X"), Ok(0));
    assert_eq!(count_reverse_flags(&"X".repeat(3)), Ok(1));
    assert_eq!(count_reverse_flags("RWX"), Ok(1));
    assert_eq!(count_reverse_flags("RXG"), Ok(1));
    assert_eq!(count_reverse_flags("XWG"), Ok(1));
    assert_eq!(count_reverse_flags("XRWG"), Ok(2));
    assert_eq!(count_reverse_flags("RWGX"), Ok(4));
}

#[test]
fn white_space_around_the_street_is_set_aside() {
    assert_eq!(count_reverse_flags("  RWG\n"), Ok(1));
    assert_eq!(count_reverse_flags("\tRRWWG \r\n"), Ok(4));
    assert_eq!(count_reverse_flags(" \n "), Ok(0));
}

#[test]
fn white_space_inside_the_street_is_no_house() {
    assert_eq!(count_reverse_flags("RW G"), Err(FlagsError::InvalidHouse(' ')));
    assert_eq!(count_flags(" RWG"), Err(FlagsError::InvalidHouse(' ')));
    assert_eq!(count_flags("RWG\n"), Err(FlagsError::InvalidHouse('\n')));
}

#[test]
fn the_first_mark_that_is_no_house_is_reported() {
    assert_eq!(count_reverse_flags("RWGA"), Err(FlagsError::InvalidHouse('A')));
    assert_eq!(count_reverse_flags("RbWcG"), Err(FlagsError::InvalidHouse('b')));
    assert_eq!(count_reverse_flags("rwg"), Err(FlagsError::InvalidHouse('r')));
}

#[test]
fn the_errors_in_words() {
    assert_eq!(
        FlagsError::InvalidHouse('A').message(),
        "A is not a valid character!"
    );
    assert_eq!(
        FlagsError::InvalidHouse('\u{e9}').message(),
        "\u{e9} is not a valid character!"
    );
    assert_eq!(
        FlagsError::TooMany.message(),
        "there are more flags than 32 bits can count"
    );
}

#[test]
fn a_count_beyond_32_bits_is_refused() {
    // Twenty unpainted houses: the tally of starts is 20 * 3^19, more than 2^32.
    let street = "X".repeat(20);
    assert_eq!(count_reverse_flags(&street), Err(FlagsError::TooMany));
    // Two thousand of each colour in a row: 8 * 10^9 flags.
    let street = format!("{}{}{}", "R".repeat(2000), "W".repeat(2000), "G".repeat(2000));
    assert_eq!(count_reverse_flags(&street), Err(FlagsError::TooMany));
    let street = format!("{}{}{}", "R".repeat(1000), "W".repeat(1000), "G".repeat(1000));
    assert_eq!(count_reverse_flags(&street), Ok(1_000_000_000));
}

#[test]
fn whatever_stops_the_walk_first_is_reported() {
    let street = format!("{}A", "X".repeat(20));
    assert_eq!(count_reverse_flags(&street), Err(FlagsError::TooMany));
    let street = format!("A{}", "X".repeat(20));
    assert_eq!(count_reverse_flags(&street), Err(FlagsError::InvalidHouse('A')));
}
