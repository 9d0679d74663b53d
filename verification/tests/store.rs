use means::message::{Insert, Query};
use means::store::State;

fn filled(entries: &[(i32, i32)]) -> State {
    let mut state = State::default();
    for &(timestamp, price) in entries {
        assert_eq!(state.insert(Insert { timestamp, price }), Ok(()));
    }
    state
}

fn mean(state: &State, min_time: i32, max_time: i32) -> i32 {
    state.select_mean(&Query { min_time, max_time })
}

fn sorted_prices(state: &State, min_time: i32, max_time: i32) -> Vec<i64> {
    let mut prices = state.select_prices(&Query { min_time, max_time });
    prices.sort();
    prices
}

#[test]
fn empty_store_has_mean_zero() {
    let state = State::default();
    assert_eq!(mean(&state, i32::MIN, i32::MAX), 0);
    assert_eq!(sorted_prices(&state, i32::MIN, i32::MAX), Vec::<i64>::new());
}

#[test]
fn insert_takes_new_timestamps() {
    let mut state = State::default();
    assert_eq!(state.insert(Insert { timestamp: 1, price: 10 }), Ok(()));
    assert_eq!(state.insert(Insert { timestamp: 2, price: 10 }), Ok(()));
    assert_eq!(state.insert(Insert { timestamp: -1, price: -10 }), Ok(()));
    assert_eq!(sorted_prices(&state, i32::MIN, i32::MAX), vec![-10, 10, 10]);
}

#[test]
fn insert_refuses_a_timestamp_twice() {
    let mut state = State::default();
    assert_eq!(state.insert(Insert { timestamp: 7, price: 10 }), Ok(()));
    assert_eq!(state.insert(Insert { timestamp: 7, price: 99 }), Err(7));
    assert_eq!(state.insert(Insert { timestamp: 7, price: 10 }), Err(7));
}

#[test]
fn refused_insert_keeps_the_first_price() {
    let mut state = State::default();
    assert_eq!(state.insert(Insert { timestamp: 7, price: 10 }), Ok(()));
    assert_eq!(state.insert(Insert { timestamp: 7, price: 99 }), Err(7));
    assert_eq!(mean(&state, 7, 7), 10);
    assert_eq!(sorted_prices(&state, 0, 10), vec![10]);
}

#[test]
fn mean_of_two_prices() {
    let state = filled(&[(1000, 100), (2000, 200)]);
    assert_eq!(mean(&state, 0, 3000), 150);
}

#[test]
fn mean_counts_only_the_range() {
    let state = filled(&[(12345, 101), (12346, 102), (12347, 100), (41019, 5)]);
    assert_eq!(mean(&state, 12288, 16384), 101);
    assert_eq!(sorted_prices(&state, 12288, 16384), vec![100, 101, 102]);
    assert_eq!(mean(&state, 12288, 50000), 77);
    assert_eq!(mean(&state, 41019, 41019), 5);
}

#[test]
fn range_ends_are_included() {
    let state = filled(&[(10, 1), (20, 5), (30, 9)]);
    assert_eq!(mean(&state, 10, 20), 3);
    assert_eq!(mean(&state, 20, 30), 7);
    assert_eq!(mean(&state, 10, 30), 5);
    assert_eq!(mean(&state, 10, 10), 1);
    assert_eq!(mean(&state, 30, 30), 9);
    assert_eq!(sorted_prices(&state, 10, 30), vec![1, 5, 9]);
    assert_eq!(sorted_prices(&state, 11, 29), vec![5]);
}

#[test]
fn range_without_timestamps_has_mean_zero() {
    let state = filled(&[(10, 1), (20, 5), (30, 9)]);
    assert_eq!(mean(&state, 11, 19), 0);
    assert_eq!(mean(&state, 31, i32::MAX), 0);
    assert_eq!(mean(&state, i32::MIN, 9), 0);
    assert_eq!(sorted_prices(&state, 11, 19), Vec::<i64>::new());
}

#[test]
fn inverted_range_has_mean_zero() {
    let state = filled(&[(10, 1), (20, 5), (30, 9)]);
    assert_eq!(mean(&state, 30, 10), 0);
    assert_eq!(mean(&state, 21, 20), 0);
    assert_eq!(mean(&state, i32::MAX, i32::MIN), 0);
    assert_eq!(sorted_prices(&state, 30, 10), Vec::<i64>::new());
}

#[test]
fn mean_rounds_toward_zero() {
    assert_eq!(mean(&filled(&[(1, 1), (2, 2)]), 0, 10), 1);
    assert_eq!(mean(&filled(&[(1, -1), (2, -2)]), 0, 10), -1);
    assert_eq!(mean(&filled(&[(1, -7), (2, 0), (3, 0)]), 0, 10), -2);
    assert_eq!(mean(&filled(&[(1, 7), (2, 0), (3, 0)]), 0, 10), 2);
    assert_eq!(mean(&filled(&[(1, -1), (2, 0)]), 0, 10), 0);
}

#[test]
fn prices_that_cancel_have_mean_zero() {
    assert_eq!(mean(&filled(&[(1, 5), (2, -5)]), 0, 10), 0);
    assert_eq!(mean(&filled(&[(1, i32::MAX), (2, -i32::MAX)]), 0, 10), 0);
}

#[test]
fn mean_of_extreme_prices_does_not_overflow() {
    let high = filled(&[(1, i32::MAX), (2, i32::MAX), (3, i32::MAX)]);
    assert_eq!(mean(&high, 0, 10), i32::MAX);
    let low = filled(&[(1, i32::MIN), (2, i32::MIN), (3, i32::MIN)]);
    assert_eq!(mean(&low, 0, 10), i32::MIN);
    let mixed = filled(&[(1, i32::MAX), (2, i32::MIN)]);
    assert_eq!(mean(&mixed, 0, 10), 0);
    let near = filled(&[(1, i32::MAX), (2, i32::MAX - 1)]);
    assert_eq!(mean(&near, 0, 10), i32::MAX - 1);
}

#[test]
fn timestamps_may_be_negative_or_extreme() {
    let state = filled(&[(i32::MIN, 4), (-5, 8), (i32::MAX, 12)]);
    assert_eq!(mean(&state, i32::MIN, i32::MAX), 8);
    assert_eq!(mean(&state, i32::MIN, i32::MIN), 4);
    assert_eq!(mean(&state, i32::MAX, i32::MAX), 12);
    assert_eq!(mean(&state, -5, -5), 8);
    assert_eq!(mean(&state, i32::MIN, -5), 6);
}

#[test]
fn mean_over_many_entries_is_the_average() {
    let mut state = State::default();
    let mut total: i64 = 0;
    for i in 0..1000 {
        let price = (i * 37) % 101 - 50;
        total += price as i64;
        assert_eq!(state.insert(Insert { timestamp: i, price }), Ok(()));
    }
    assert_eq!(mean(&state, 0, 999), (total / 1000) as i32);
    assert_eq!(sorted_prices(&state, 0, 999).len(), 1000);
    assert_eq!(sorted_prices(&state, 0, 999).iter().sum::<i64>(), total);
}

#[test]
fn order_of_inserts_does_not_matter() {
    let forward = filled(&[(1, 10), (2, 21), (3, 32), (4, 50)]);
    let backward = filled(&[(4, 50), (3, 32), (2, 21), (1, 10)]);
    for (min_time, max_time) in [(1, 4), (2, 3), (1, 1), (3, 4), (0, 9), (4, 1)] {
        assert_eq!(mean(&forward, min_time, max_time), mean(&backward, min_time, max_time));
        assert_eq!(
            sorted_prices(&forward, min_time, max_time),
            sorted_prices(&backward, min_time, max_time)
        );
    }
    assert_eq!(mean(&forward, 1, 4), 28);
}
