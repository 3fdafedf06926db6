//! Planning a holiday over a row of cities. Each city has an itinerary: what
//! a visitor sees there on the first day, on the second day, and so on. A
//! plan stays in the cities in their order, some days in each, none in those
//! it skips, and within a city follows the itinerary from its first day. The
//! question is how much the best plan of a given length sees.

use vstd::prelude::*;

verus! {

/// What the first `k` days of an itinerary show.
pub open spec fn prefix_sum(city: Seq<u32>, k: int) -> int
    decreases k,
{
    if k <= 0 {
        0
    } else {
        prefix_sum(city, k - 1) + city[k - 1]
    }
}

/// What a plan shows that stays `stay[c]` days in city `c`.
pub open spec fn plan_value(cities: Seq<Seq<u32>>, stay: Seq<int>) -> int
    decreases stay.len(),
{
    if stay.len() == 0 {
        0
    } else {
        plan_value(cities, stay.drop_last()) + prefix_sum(cities[stay.len() - 1], stay.last())
    }
}

/// The days that a plan takes.
pub open spec fn plan_days(stay: Seq<int>) -> int
    decreases stay.len(),
{
    if stay.len() == 0 {
        0
    } else {
        plan_days(stay.drop_last()) + stay.last()
    }
}

/// `stay` plans the first `n` cities with at most `days` days in all.
pub open spec fn is_plan(stay: Seq<int>, n: int, days: int) -> bool {
    &&& stay.len() == n
    &&& forall|c: int| 0 <= c < n ==> 0 <= #[trigger] stay[c]
    &&& plan_days(stay) <= days
}

/// The most that the first `i` cities show in `d` days when the last of them
/// gets at most `k` days: the best of giving it `k` days and the rest to the
/// cities before it, and of giving it fewer.
pub open spec fn best_within(cities: Seq<Seq<u32>>, i: int, d: int, k: int) -> int
    decreases i, k,
{
    if i <= 0 || k < 0 || d < k {
        0
    } else {
        let here = best_within(cities, i - 1, d - k, d - k) + prefix_sum(cities[i - 1], k);
        if k == 0 {
            here
        } else {
            let fewer = best_within(cities, i, d, k - 1);
            if here >= fewer {
                here
            } else {
                fewer
            }
        }
    }
}

/// The most that the first `i` cities show in `d` days.
pub open spec fn best(cities: Seq<Seq<u32>>, i: int, d: int) -> int {
    best_within(cities, i, d, d)
}

proof fn lemma_prefix_nonneg(city: Seq<u32>, k: int)
    ensures
        0 <= prefix_sum(city, k),
    decreases k,
{
    if k > 0 {
        lemma_prefix_nonneg(city, k - 1);
    }
}

proof fn lemma_best_nonneg(cities: Seq<Seq<u32>>, i: int, d: int, k: int)
    ensures
        0 <= best_within(cities, i, d, k),
    decreases i, k,
{
    if !(i <= 0 || k < 0 || d < k) {
        lemma_best_nonneg(cities, i - 1, d - k, d - k);
        lemma_prefix_nonneg(cities[i - 1], k);
    }
}

/// With no day to spend nothing is seen.
proof fn lemma_best_of_no_days(cities: Seq<Seq<u32>>, i: int)
    ensures
        best(cities, i, 0) == 0,
    decreases i,
{
    if i > 0 {
        lemma_best_of_no_days(cities, i - 1);
    }
}

/// Giving the last city `j` days, `j` no more than the days it may get, shows
/// no more than the best.
proof fn lemma_best_covers(cities: Seq<Seq<u32>>, i: int, d: int, k: int, j: int)
    requires
        1 <= i,
        0 <= j <= k <= d,
    ensures
        best(cities, i - 1, d - j) + prefix_sum(cities[i - 1], j) <= best_within(cities, i, d, k),
    decreases k,
{
    if j < k {
        lemma_best_covers(cities, i, d, k - 1, j);
    }
}

/// The best is reached by some number of days for the last city.
proof fn lemma_best_reached(cities: Seq<Seq<u32>>, i: int, d: int, k: int) -> (j: int)
    requires
        1 <= i,
        0 <= k <= d,
    ensures
        0 <= j <= k,
        best(cities, i - 1, d - j) + prefix_sum(cities[i - 1], j) == best_within(cities, i, d, k),
    decreases k,
{
    let here = best_within(cities, i - 1, d - k, d - k) + prefix_sum(cities[i - 1], k);
    if k == 0 || here >= best_within(cities, i, d, k - 1) {
        k
    } else {
        lemma_best_reached(cities, i, d, k - 1)
    }
}

/// More days show no less.
proof fn lemma_best_grows_with_days(cities: Seq<Seq<u32>>, i: int, d: int, e: int)
    requires
        0 <= d <= e,
    ensures
        best(cities, i, d) <= best(cities, i, e),
    decreases i,
{
    if i >= 1 {
        let j = lemma_best_reached(cities, i, d, d);
        lemma_best_grows_with_days(cities, i - 1, d - j, e - j);
        lemma_best_covers(cities, i, e, e, j);
    }
}

/// More cities show no less.
proof fn lemma_best_grows_with_cities(cities: Seq<Seq<u32>>, i: int, n: int, d: int)
    requires
        0 <= i <= n,
        0 <= d,
    ensures
        best(cities, i, d) <= best(cities, n, d),
    decreases n - i,
{
    if i < n {
        lemma_best_grows_with_cities(cities, i, n - 1, d);
        lemma_best_covers(cities, n, d, d, 0);
    }
}

/// Whatever the computation of the best for `n` cities and `days` days adds
/// up on its way stays below that best.
proof fn lemma_step_bounded(cities: Seq<Seq<u32>>, n: int, days: int, i: int, d: int, j: int)
    requires
        1 <= i <= n,
        0 <= j <= d <= days,
    ensures
        0 <= prefix_sum(cities[i - 1], j) <= best(cities, n, days),
        0 <= best(cities, i - 1, d - j),
        best(cities, i - 1, d - j) + prefix_sum(cities[i - 1], j) <= best(cities, n, days),
{
    lemma_prefix_nonneg(cities[i - 1], j);
    lemma_best_nonneg(cities, i - 1, d - j, d - j);
    lemma_best_covers(cities, i, d, d, j);
    lemma_best_grows_with_days(cities, i, d, days);
    lemma_best_grows_with_cities(cities, i, n, days);
}

/// No plan shows more than the best.
pub proof fn lemma_best_is_upper_bound(cities: Seq<Seq<u32>>, n: int, days: int, stay: Seq<int>)
    requires
        is_plan(stay, n, days),
    ensures
        plan_value(cities, stay) <= best(cities, n, days),
    decreases n,
{
    if n >= 1 {
        let earlier = stay.drop_last();
        let k = stay.last();
        assert(plan_days(earlier) >= 0) by {
            lemma_days_nonneg(earlier);
        }
        lemma_best_is_upper_bound(cities, n - 1, days - k, earlier);
        lemma_best_covers(cities, n, days, days, k);
    }
}

proof fn lemma_days_nonneg(stay: Seq<int>)
    requires
        forall|c: int| 0 <= c < stay.len() ==> 0 <= #[trigger] stay[c],
    ensures
        0 <= plan_days(stay),
    decreases stay.len(),
{
    if stay.len() > 0 {
        lemma_days_nonneg(stay.drop_last());
    }
}

/// Some plan shows the best.
pub proof fn lemma_best_is_planned(cities: Seq<Seq<u32>>, n: int, days: int) -> (stay: Seq<int>)
    requires
        0 <= n,
        0 <= days,
    ensures
        is_plan(stay, n, days),
        plan_value(cities, stay) == best(cities, n, days),
    decreases n,
{
    if n == 0 {
        Seq::empty()
    } else {
        let k = lemma_best_reached(cities, n, days, days);
        let earlier = lemma_best_is_planned(cities, n - 1, days - k);
        let stay = earlier.push(k);
        assert(stay.drop_last() =~= earlier);
        stay
    }
}

/// Why a holiday has no best plan that can be returned.
#[derive(Copy, Clone, Debug, PartialEq, Eq)]
pub enum HolidayError {
    /// There are fewer cities than the plan is to cover, or one of them has
    /// an itinerary of fewer days than the holiday.
    Incomplete,
    /// The best plan shows more than 32 bits hold.
    TooMuch,
}

/// The cities hold an itinerary of at least `days` days for each of the first
/// `n` of them, and `n + 1` and `days + 1` are machine numbers.
pub open spec fn well_shaped(n: usize, days: usize, cities: Seq<Seq<u32>>) -> bool {
    &&& n <= cities.len()
    &&& forall|c: int| 0 <= c < n ==> days <= (#[trigger] cities[c]).len()
    &&& n < usize::MAX
    &&& days < usize::MAX
}

/// Returns the most that a holiday of `days` days over the first `n` cities
/// can show, where `cities[c][d]` is what city `c` shows on the day `d` of a
/// stay; or why there is no such number to return.
pub fn try_plan_holiday(n: usize, days: usize, cities: &Vec<Vec<u32>>) -> (r: Result<
    u32,
    HolidayError,
>)
    ensures
        (match r {
            Ok(v) => well_shaped(n, days, cities.deep_view()) && v == best(
                cities.deep_view(),
                n as int,
                days as int,
            ),
            Err(HolidayError::Incomplete) => !well_shaped(n, days, cities.deep_view()),
            Err(HolidayError::TooMuch) => well_shaped(n, days, cities.deep_view()) && best(
                cities.deep_view(),
                n as int,
                days as int,
            ) > u32::MAX,
        }),
{
    let ghost model = cities.deep_view();
    if n > cities.len() || n == usize::MAX || days == usize::MAX {
        return Err(HolidayError::Incomplete);
    }
    let mut seen: usize = 0;
    while seen < n
        invariant
            seen <= n <= cities.len(),
            model == cities.deep_view(),
            forall|c: int| 0 <= c < seen ==> days <= (#[trigger] cities[c]).len(),
        decreases n - seen,
    {
        if cities[seen].len() < days {
            assert(model[seen as int].len() == cities[seen as int].len());
            return Err(HolidayError::Incomplete);
        }
        seen += 1;
    }
    assert(well_shaped(n, days, model));

    // What each city shows in its first day, its first two days, and so on.
    let mut itineraries: Vec<Vec<u32>> = Vec::new();
    let mut city: usize = 0;
    while city < n
        invariant
            city <= n,
            model == cities.deep_view(),
            well_shaped(n, days, model),
            forall|c: int| 0 <= c < n ==> days <= (#[trigger] cities[c]).len(),
            itineraries.len() == city,
            forall|c: int| 0 <= c < city ==> (#[trigger] itineraries[c]).len() == days,
            forall|c: int, d: int|
                0 <= c < city && 0 <= d < days ==> (#[trigger] itineraries[c][d]) == prefix_sum(
                    model[c],
                    d + 1,
                ),
        decreases n - city,
    {
        let mut row: Vec<u32> = Vec::new();
        let mut prefix: u32 = 0;
        let mut day: usize = 0;
        while day < days
            invariant
                city < n,
                day <= days <= cities[city as int].len(),
                model == cities.deep_view(),
                well_shaped(n, days, model),
                row.len() == day,
                prefix == prefix_sum(model[city as int], day as int),
                forall|d: int|
                    0 <= d < day ==> (#[trigger] row[d]) == prefix_sum(model[city as int], d + 1),
            decreases days - day,
        {
            proof {
                lemma_step_bounded(
                    model,
                    n as int,
                    days as int,
                    city + 1,
                    days as int,
                    day + 1,
                );
            }
            match prefix.checked_add(cities[city][day]) {
                Some(sum) => {
                    prefix = sum;
                },
                None => {
                    return Err(HolidayError::TooMuch);
                },
            }
            row.push(prefix);
            day += 1;
        }
        itineraries.push(row);
        city += 1;
    }

    // Row `i` holds, for each number of days, the best of the first `i` cities.
    let mut matrix: Vec<Vec<u32>> = Vec::new();
    let mut first: Vec<u32> = Vec::new();
    let mut d: usize = 0;
    while d <= days
        invariant
            d <= days + 1,
            days < usize::MAX,
            first.len() == d,
            forall|e: int| 0 <= e < d ==> (#[trigger] first[e]) == 0,
        decreases days + 1 - d,
    {
        first.push(0);
        d += 1;
    }
    matrix.push(first);
    let mut i: usize = 1;
    while i <= n
        invariant
            1 <= i <= n + 1,
            model == cities.deep_view(),
            well_shaped(n, days, model),
            itineraries.len() == n,
            forall|c: int| 0 <= c < n ==> (#[trigger] itineraries[c]).len() == days,
            forall|c: int, d: int|
                0 <= c < n && 0 <= d < days ==> (#[trigger] itineraries[c][d]) == prefix_sum(
                    model[c],
                    d + 1,
                ),
            matrix.len() == i,
            forall|c: int| 0 <= c < i ==> (#[trigger] matrix[c]).len() == days + 1,
            forall|c: int, d: int|
                0 <= c < i && 0 <= d <= days ==> (#[trigger] matrix[c][d]) == best(model, c, d),
        decreases n + 1 - i,
    {
        let mut row: Vec<u32> = Vec::new();
        row.push(0);
        proof {
            lemma_best_of_no_days(model, i as int);
        }
        let mut d: usize = 1;
        while d <= days
            invariant
                1 <= i <= n,
                1 <= d <= days + 1,
                model == cities.deep_view(),
                well_shaped(n, days, model),
                itineraries.len() == n,
                forall|c: int| 0 <= c < n ==> (#[trigger] itineraries[c]).len() == days,
                forall|c: int, d: int|
                    0 <= c < n && 0 <= d < days ==> (#[trigger] itineraries[c][d]) == prefix_sum(
                        model[c],
                        d + 1,
                    ),
                matrix.len() == i,
                forall|c: int| 0 <= c < i ==> (#[trigger] matrix[c]).len() == days + 1,
                forall|c: int, d: int|
                    0 <= c < i && 0 <= d <= days ==> (#[trigger] matrix[c][d]) == best(
                        model,
                        c,
                        d,
                    ),
                row.len() == d,
                forall|e: int| 0 <= e < d ==> (#[trigger] row[e]) == best(model, i as int, e),
            decreases days + 1 - d,
        {
            // Three ways to use the days: none of them here, all of them
            // here, or some here and the rest before.
            let without_current_city = matrix[i - 1][d];
            let only_current_city = itineraries[i - 1][d - 1];
            let mut with_current_city: u32 = 0;
            let mut k: usize = 1;
            while k <= d
                invariant
                    1 <= i <= n,
                    1 <= k <= d + 1,
                    d <= days,
                    model == cities.deep_view(),
                    well_shaped(n, days, model),
                    itineraries.len() == n,
                    itineraries[i - 1].len() == days,
                    forall|e: int|
                        0 <= e < days ==> (#[trigger] itineraries[i - 1][e]) == prefix_sum(
                            model[i - 1],
                            e + 1,
                        ),
                    matrix.len() == i,
                    matrix[i - 1].len() == days + 1,
                    forall|e: int|
                        0 <= e <= days ==> (#[trigger] matrix[i - 1][e]) == best(model, i - 1, e),
                    without_current_city == best(model, i - 1, d as int),
                    (if with_current_city >= without_current_city {
                        with_current_city
                    } else {
                        without_current_city
                    }) == best_within(model, i as int, d as int, k - 1),
                    k > 1 ==> with_current_city >= prefix_sum(model[i - 1], k - 1),
                decreases d + 1 - k,
            {
                proof {
                    lemma_step_bounded(model, n as int, days as int, i as int, d as int, k as int);
                }
                match matrix[i - 1][d - k].checked_add(itineraries[i - 1][k - 1]) {
                    Some(candidate) => {
                        if candidate > with_current_city {
                            with_current_city = candidate;
                        }
                    },
                    None => {
                        return Err(HolidayError::TooMuch);
                    },
                }
                k += 1;
            }
            let best_here = if with_current_city >= only_current_city {
                with_current_city
            } else {
                only_current_city
            };
            row.push(
                if without_current_city >= best_here {
                    without_current_city
                } else {
                    best_here
                },
            );
            d += 1;
        }
        matrix.push(row);
        i += 1;
    }
    Ok(matrix[n][days])
}

/// Returns the most that a holiday of `days` days over the first `n` cities
/// can show, where `cities[c][d]` is what city `c` shows on the day `d` of a
/// stay: no plan shows more, and some plan shows as much.
pub fn plan_holiday(n: usize, days: usize, cities: Vec<Vec<u32>>) -> (r: u32)
    requires
        well_shaped(n, days, cities.deep_view()),
        best(cities.deep_view(), n as int, days as int) <= u32::MAX,
    ensures
        r == best(cities.deep_view(), n as int, days as int),
        forall|stay: Seq<int>|
            is_plan(stay, n as int, days as int) ==> #[trigger] plan_value(
                cities.deep_view(),
                stay,
            ) <= r,
        exists|stay: Seq<int>|
            is_plan(stay, n as int, days as int) && #[trigger] plan_value(
                cities.deep_view(),
                stay,
            ) == r,
{
    proof {
        let model = cities.deep_view();
        assert forall|stay: Seq<int>|
            is_plan(stay, n as int, days as int) implies #[trigger] plan_value(model, stay)
            <= best(model, n as int, days as int) by {
            lemma_best_is_upper_bound(model, n as int, days as int, stay);
        }
        let reached = lemma_best_is_planned(model, n as int, days as int);
        assert(is_plan(reached, n as int, days as int) && plan_value(model, reached) == best(
            model,
            n as int,
            days as int,
        ));
    }
    try_plan_holiday(n, days, &cities).unwrap()
}

} // verus!
