use lazy_segment_tree::holiday::{plan_holiday, try_plan_holiday, HolidayError};

#[test]
fn two_cities_three_days() {
    // Three days in the second city show 9 + 9 + 1; two there and one in the
    // first show 9 + 9 + 3.
    let cities = vec![vec![3, 2, 1], vec![9, 9, 1]];
    assert_eq!(plan_holiday(2, 3, cities), 21);
}

#[test]
fn the_best_plan_may_skip_a_city() {
    let cities = vec![vec![1, 1], vec![0, 0], vec![5, 6]];
    assert_eq!(plan_holiday(3, 2, cities), 11);
}

#[test]
fn the_best_plan_may_split_the_days() {
    let cities = vec![vec![10, 1, 1], vec![10, 1, 1], vec![10, 1, 1]];
    assert_eq!(plan_holiday(3, 3, cities.clone()), 30);
    assert_eq!(plan_holiday(3, 2, cities.clone()), 20);
    assert_eq!(plan_holiday(3, 1, cities.clone()), 10);
    assert_eq!(plan_holiday(2, 3, cities), 21);
}

#[test]
fn a_late_attraction_is_worth_the_wait() {
    let cities = vec![vec![0, 0, 100], vec![30, 30, 30]];
    assert_eq!(plan_holiday(2, 3, cities.clone()), 100);
    assert_eq!(plan_holiday(2, 2, cities), 60);
}

#[test]
fn no_days_or_no_cities_show_nothing() {
    assert_eq!(plan_holiday(0, 0, vec![]), 0);
    assert_eq!(plan_holiday(2, 0, vec![vec![], vec![]]), 0);
    assert_eq!(plan_holiday(0, 3, vec![vec![1, 2, 3]]), 0);
}

#[test]
fn only_the_first_cities_and_days_count() {
    let cities = vec![vec![1, 2, 50], vec![3, 4, 50], vec![99, 99, 99]];
    assert_eq!(plan_holiday(2, 2, cities), 7);
}

#[test]
fn the_careful_plan_agrees_where_the_best_fits() {
    let cities = vec![vec![3, 2, 1], vec![9, 9, 1]];
    assert_eq!(try_plan_holiday(2, 3, &cities), Ok(21));
    assert_eq!(try_plan_holiday(1, 3, &cities), Ok(6));
    assert_eq!(try_plan_holiday(0, 0, &vec![]), Ok(0));
}

#[test]
fn the_careful_plan_gives_up_where_the_best_does_not_fit() {
    let cities = vec![vec![u32::MAX, 1]];
    assert_eq!(try_plan_holiday(1, 1, &cities), Ok(u32::MAX));
    assert_eq!(try_plan_holiday(1, 2, &cities), Err(HolidayError::TooMuch));
    let cities = vec![vec![u32::MAX], vec![1]];
    assert_eq!(try_plan_holiday(2, 1, &cities), Ok(u32::MAX));
    let cities = vec![vec![u32::MAX, 0], vec![1, 0]];
    assert_eq!(try_plan_holiday(2, 2, &cities), Err(HolidayError::TooMuch));
}

#[test]
fn the_careful_plan_asks_for_every_itinerary() {
    let cities = vec![vec![1, 2, 3], vec![4, 5]];
    assert_eq!(try_plan_holiday(3, 1, &cities), Err(HolidayError::Incomplete));
    assert_eq!(try_plan_holiday(2, 3, &cities), Err(HolidayError::Incomplete));
    assert_eq!(try_plan_holiday(1, 3, &cities), Ok(6));
    assert_eq!(try_plan_holiday(2, 2, &cities), Ok(9));
    assert_eq!(
        try_plan_holiday(usize::MAX, 0, &cities),
        Err(HolidayError::Incomplete)
    );
    assert_eq!(
        try_plan_holiday(0, usize::MAX, &cities),
        Err(HolidayError::Incomplete)
    );
}
