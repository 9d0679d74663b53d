//! The prices of one session, keyed by timestamp, and the mean over a range
//! of timestamps.

use crate::message::{Insert, Query};
use std::collections::HashMap;
use vstd::prelude::*;
use vstd::set_lib::{lemma_int_range, lemma_len_subset, lemma_map_size, set_int_range};

verus! {

/// The timestamps of `data` that lie in the closed range from `min_time` to
/// `max_time`. The set is empty when `min_time` exceeds `max_time`.
pub open spec fn selected(data: Map<i32, i32>, min_time: i32, max_time: i32) -> Set<i32> {
    Set::new(|t: i32| data.contains_key(t) && min_time <= t <= max_time)
}

/// The sum of the prices that `data` holds at the timestamps in `keys`.
pub open spec fn price_sum(data: Map<i32, i32>, keys: Set<i32>) -> int
    decreases keys.len(),
{
    if keys.finite() && keys.len() > 0 {
        let t = keys.choose();
        data[t] + price_sum(data, keys.remove(t))
    } else {
        0
    }
}

/// The quotient of `total` by a positive `count`, rounded toward zero.
pub open spec fn truncated_quotient(total: int, count: int) -> int {
    if total >= 0 {
        total / count
    } else {
        -((-total) / count)
    }
}

/// The mean of the prices in the closed range, rounded toward zero, and 0 when
/// no timestamp lies in the range.
pub open spec fn range_mean(data: Map<i32, i32>, min_time: i32, max_time: i32) -> int {
    let keys = selected(data, min_time, max_time);
    if keys.len() == 0 {
        0
    } else {
        truncated_quotient(price_sum(data, keys), keys.len() as int)
    }
}

/// The sum of a sequence of 64-bit integers.
pub open spec fn total_of(prices: Seq<i64>) -> int
    decreases prices.len(),
{
    if prices.len() == 0 {
        0
    } else {
        total_of(prices.drop_last()) + prices.last()
    }
}

/// `prices` holds, position by position, the price that `data` has at each of
/// the timestamps in `keys`, and no timestamp comes twice.
pub open spec fn lists_prices(data: Map<i32, i32>, keys: Seq<i32>, prices: Seq<i64>) -> bool {
    &&& keys.no_duplicates()
    &&& prices.len() == keys.len()
    &&& forall|i: int|
        0 <= i < keys.len() ==> data.contains_key(#[trigger] keys[i]) && prices[i] == data[keys[i]]
}

/// Taking one timestamp out of a finite set takes its price out of the sum,
/// whichever timestamp it is.
pub proof fn lemma_price_sum_remove(data: Map<i32, i32>, keys: Set<i32>, t: i32)
    requires
        keys.finite(),
        keys.contains(t),
    ensures
        price_sum(data, keys) == data[t] + price_sum(data, keys.remove(t)),
    decreases keys.len(),
{
    let c = keys.choose();
    if c != t {
        lemma_price_sum_remove(data, keys.remove(c), t);
        lemma_price_sum_remove(data, keys.remove(t), c);
        assert(keys.remove(c).remove(t) =~= keys.remove(t).remove(c));
    }
}

/// Adding a new timestamp to a finite set adds its price to the sum.
pub proof fn lemma_price_sum_insert(data: Map<i32, i32>, keys: Set<i32>, t: i32)
    requires
        keys.finite(),
        !keys.contains(t),
    ensures
        price_sum(data, keys.insert(t)) == data[t] + price_sum(data, keys),
{
    lemma_price_sum_remove(data, keys.insert(t), t);
    assert(keys.insert(t).remove(t) =~= keys);
}

/// A set of 32-bit timestamps has at most 2^32 members.
pub proof fn lemma_timestamp_count(keys: Set<i32>)
    requires
        keys.finite(),
    ensures
        keys.len() <= 0x1_0000_0000,
{
    let widen = |t: i32| t as int;
    let wide = keys.map(widen);
    assert(vstd::relations::injective_on(widen, keys));
    lemma_map_size(keys, wide, widen);
    lemma_int_range(i32::MIN as int, i32::MAX as int + 1);
    assert(wide.subset_of(set_int_range(i32::MIN as int, i32::MAX as int + 1)));
    lemma_len_subset(wide, set_int_range(i32::MIN as int, i32::MAX as int + 1));
}

/// The sum over a set of timestamps lies within the count of timestamps
/// times the 32-bit limits.
pub proof fn lemma_price_sum_bounds(data: Map<i32, i32>, keys: Set<i32>)
    requires
        keys.finite(),
    ensures
        keys.len() * i32::MIN <= price_sum(data, keys) <= keys.len() * i32::MAX,
    decreases keys.len(),
{
    if keys.len() > 0 {
        let t = keys.choose();
        lemma_price_sum_bounds(data, keys.remove(t));
        assert(keys.len() * i32::MIN == keys.remove(t).len() * i32::MIN + i32::MIN)
            by (nonlinear_arith)
            requires
                keys.len() == keys.remove(t).len() + 1,
        ;
        assert(keys.len() * i32::MAX == keys.remove(t).len() * i32::MAX + i32::MAX)
            by (nonlinear_arith)
            requires
                keys.len() == keys.remove(t).len() + 1,
        ;
    }
}

/// A listing of prices adds up to the sum over the set of its timestamps.
pub proof fn lemma_total_of_listing(data: Map<i32, i32>, keys: Seq<i32>, prices: Seq<i64>)
    requires
        lists_prices(data, keys, prices),
    ensures
        total_of(prices) == price_sum(data, keys.to_set()),
        keys.to_set().finite(),
        keys.to_set().len() == keys.len(),
    decreases keys.len(),
{
    keys.unique_seq_to_set();
    if keys.len() == 0 {
        assert(keys.to_set() =~= Set::<i32>::empty());
    } else {
        let rest = keys.drop_last();
        let t = keys.last();
        assert(lists_prices(data, rest, prices.drop_last())) by {
            assert forall|i: int| 0 <= i < rest.len() implies data.contains_key(#[trigger] rest[i])
                && prices.drop_last()[i] == data[rest[i]] by {
                assert(rest[i] == keys[i]);
            }
        }
        lemma_total_of_listing(data, rest, prices.drop_last());
        assert(!rest.to_set().contains(t)) by {
            if rest.to_set().contains(t) {
                let j = choose|j: int| 0 <= j < rest.len() && rest[j] == t;
                assert(keys[j] == keys[keys.len() - 1]);
            }
        }
        assert(rest.to_set().insert(t) =~= keys.to_set()) by {
            assert forall|x: i32| keys.to_set().contains(x) implies rest.to_set().insert(
                t,
            ).contains(x) by {
                let j = choose|j: int| 0 <= j < keys.len() && keys[j] == x;
                if j < rest.len() {
                    assert(rest[j] == x);
                }
            }
            assert forall|x: i32| rest.to_set().insert(t).contains(x) implies keys.to_set().contains(
                x,
            ) by {
                if x == t {
                    assert(keys[keys.len() - 1] == x);
                } else {
                    let j = choose|j: int| 0 <= j < rest.len() && rest[j] == x;
                    assert(keys[j] == x);
                }
            }
        }
        lemma_price_sum_insert(data, rest.to_set(), t);
    }
}

/// The mean of values within the 32-bit limits lies within them too.
pub proof fn lemma_truncated_quotient_bounds(total: int, count: int)
    requires
        count > 0,
        count * i32::MIN <= total <= count * i32::MAX,
    ensures
        i32::MIN <= truncated_quotient(total, count) <= i32::MAX,
{
    if total >= 0 {
        assert(0 <= total / count <= i32::MAX) by (nonlinear_arith)
            requires
                count > 0,
                0 <= total <= count * i32::MAX,
        ;
    } else {
        assert(0 <= (-total) / count <= -i32::MIN) by (nonlinear_arith)
            requires
                count > 0,
                0 <= -total <= count * (-i32::MIN),
        ;
    }
}

/// The mean over any range of a finite store fits in 32 bits.
pub proof fn lemma_range_mean_bounds(data: Map<i32, i32>, min_time: i32, max_time: i32)
    requires
        data.dom().finite(),
    ensures
        i32::MIN <= range_mean(data, min_time, max_time) <= i32::MAX,
{
    let keys = selected(data, min_time, max_time);
    lemma_selected_finite(data, min_time, max_time);
    if keys.len() > 0 {
        lemma_price_sum_bounds(data, keys);
        lemma_truncated_quotient_bounds(price_sum(data, keys), keys.len() as int);
    }
}

/// The store that results from recording the entries one after another,
/// starting with nothing.
pub open spec fn store_of(entries: Seq<Insert>) -> Map<i32, i32>
    decreases entries.len(),
{
    if entries.len() == 0 {
        Map::empty()
    } else {
        store_of(entries.drop_last()).insert(entries.last().timestamp, entries.last().price)
    }
}

/// No two entries share a timestamp.
pub open spec fn distinct_timestamps(entries: Seq<Insert>) -> bool {
    forall|i: int, j: int|
        0 <= i < j < entries.len() ==> (#[trigger] entries[i]).timestamp != (
        #[trigger] entries[j]).timestamp
}

/// The timestamps of the entries, in their order.
pub open spec fn timestamps_of(entries: Seq<Insert>) -> Seq<i32> {
    entries.map_values(|entry: Insert| entry.timestamp)
}

/// The prices of the entries, in their order, widened to 64 bits.
pub open spec fn prices_of(entries: Seq<Insert>) -> Seq<i64> {
    entries.map_values(|entry: Insert| entry.price as i64)
}

/// A store built from entries holds the timestamps of the entries and no
/// others, and for entries with distinct timestamps the price of each.
pub proof fn lemma_store_of_entries(entries: Seq<Insert>)
    ensures
        store_of(entries).dom() =~= timestamps_of(entries).to_set(),
        distinct_timestamps(entries) ==> forall|i: int|
            0 <= i < entries.len() ==> store_of(entries)[(#[trigger] entries[i]).timestamp]
                == entries[i].price,
    decreases entries.len(),
{
    let stamps = timestamps_of(entries);
    if entries.len() > 0 {
        let rest = entries.drop_last();
        let last = entries.last();
        lemma_store_of_entries(rest);
        assert(timestamps_of(rest) =~= stamps.drop_last());
        assert forall|t: i32| stamps.to_set().contains(t) <==> stamps.drop_last().to_set().contains(
            t,
        ) || t == last.timestamp by {
            if stamps.to_set().contains(t) {
                let j = choose|j: int| 0 <= j < stamps.len() && stamps[j] == t;
                if j < stamps.len() - 1 {
                    assert(stamps.drop_last()[j] == t);
                }
            }
            if stamps.drop_last().to_set().contains(t) {
                let j = choose|j: int| 0 <= j < stamps.len() - 1 && stamps.drop_last()[j] == t;
                assert(stamps[j] == t);
            }
            if t == last.timestamp {
                assert(stamps[stamps.len() - 1] == t);
            }
        }
        if distinct_timestamps(entries) {
            assert(distinct_timestamps(rest)) by {
                assert forall|i: int, j: int| 0 <= i < j < rest.len() implies (
                #[trigger] rest[i]).timestamp != (#[trigger] rest[j]).timestamp by {
                    assert(rest[i] == entries[i] && rest[j] == entries[j]);
                }
            }
            assert forall|i: int| 0 <= i < entries.len() implies store_of(entries)[(
            #[trigger] entries[i]).timestamp] == entries[i].price by {
                if i < rest.len() {
                    assert(rest[i] == entries[i]);
                    assert(entries[i].timestamp != entries[entries.len() - 1].timestamp);
                }
            }
        }
    } else {
        assert(stamps.to_set() =~= Set::<i32>::empty());
    }
}

/// After entries with distinct timestamps, a query whose range covers them
/// all gets the sum of their prices divided by their number, rounded toward
/// zero; with no entries it gets 0.
pub proof fn lemma_mean_of_covered_entries(entries: Seq<Insert>, min_time: i32, max_time: i32)
    requires
        distinct_timestamps(entries),
        forall|i: int|
            0 <= i < entries.len() ==> min_time <= (#[trigger] entries[i]).timestamp <= max_time,
    ensures
        range_mean(store_of(entries), min_time, max_time) == if entries.len() == 0 {
            0
        } else {
            truncated_quotient(total_of(prices_of(entries)), entries.len() as int)
        },
{
    let data = store_of(entries);
    let stamps = timestamps_of(entries);
    let prices = prices_of(entries);
    lemma_store_of_entries(entries);
    assert(stamps.no_duplicates()) by {
        assert forall|i: int, j: int| 0 <= i < stamps.len() && 0 <= j < stamps.len() && i
            != j implies stamps[i] != stamps[j] by {
            if i < j {
                assert(entries[i].timestamp != entries[j].timestamp);
            } else {
                assert(entries[j].timestamp != entries[i].timestamp);
            }
        }
    }
    assert(lists_prices(data, stamps, prices)) by {
        assert forall|i: int| 0 <= i < stamps.len() implies data.contains_key(
            #[trigger] stamps[i],
        ) && prices[i] == data[stamps[i]] by {
            assert(stamps.to_set().contains(stamps[i]));
            assert(data[entries[i].timestamp] == entries[i].price);
        }
    }
    assert(stamps.to_set() =~= selected(data, min_time, max_time)) by {
        assert forall|t: i32| stamps.to_set().contains(t) implies selected(
            data,
            min_time,
            max_time,
        ).contains(t) by {
            let j = choose|j: int| 0 <= j < stamps.len() && stamps[j] == t;
            assert(entries[j].timestamp == t);
        }
    }
    lemma_total_of_listing(data, stamps, prices);
}

/// A range that holds no timestamp of the store has the mean 0, and so has
/// every range whose lower end exceeds its upper end.
pub proof fn lemma_mean_of_empty_range(data: Map<i32, i32>, min_time: i32, max_time: i32)
    requires
        min_time > max_time || forall|t: i32|
            min_time <= t <= max_time ==> !(#[trigger] data.contains_key(t)),
    ensures
        range_mean(data, min_time, max_time) == 0,
{
    assert(selected(data, min_time, max_time) =~= Set::<i32>::empty());
}

/// Both ends of a range belong to it: a timestamp of the store that equals
/// the lower or the upper end is selected, and its price counts in the sum.
pub proof fn lemma_range_ends_included(
    data: Map<i32, i32>,
    timestamp: i32,
    min_time: i32,
    max_time: i32,
)
    requires
        data.dom().finite(),
        data.contains_key(timestamp),
        min_time <= max_time,
        timestamp == min_time || timestamp == max_time,
    ensures
        selected(data, min_time, max_time).contains(timestamp),
        price_sum(data, selected(data, min_time, max_time)) == data[timestamp] + price_sum(
            data,
            selected(data, min_time, max_time).remove(timestamp),
        ),
{
    lemma_selected_finite(data, min_time, max_time);
    lemma_price_sum_remove(data, selected(data, min_time, max_time), timestamp);
}

/// A finite store has finitely many timestamps in any range.
pub proof fn lemma_selected_finite(data: Map<i32, i32>, min_time: i32, max_time: i32)
    requires
        data.dom().finite(),
    ensures
        selected(data, min_time, max_time).finite(),
        selected(data, min_time, max_time).len() <= data.dom().len(),
{
    lemma_len_subset(selected(data, min_time, max_time), data.dom());
}

/// The prices of one session: at most one price for each timestamp.
pub struct State {
    data: HashMap<i32, i32>,
}

impl View for State {
    type V = Map<i32, i32>;

    closed spec fn view(&self) -> Map<i32, i32> {
        self.data@
    }
}

impl Default for State {
    fn default() -> (state: State)
        ensures
            state@ == Map::<i32, i32>::empty(),
    {
        State { data: HashMap::new() }
    }
}

impl State {
    /// A session holds finitely many timestamps.
    pub proof fn lemma_finite(&self)
        ensures
            self@.dom().finite(),
    {
        broadcast use vstd::std_specs::hash::group_hash_axioms;

    }

    /// Records a price at a timestamp that has none yet. A timestamp that
    /// already has a price is refused and named in the error, and the session
    /// stays as it was.
    pub fn insert(&mut self, insert: Insert) -> (result: Result<(), i32>)
        ensures
            old(self)@.contains_key(insert.timestamp) ==> result == Err::<(), i32>(insert.timestamp)
                && final(self)@ == old(self)@,
            !old(self)@.contains_key(insert.timestamp) ==> result == Ok::<(), i32>(())
                && final(self)@ == old(self)@.insert(insert.timestamp, insert.price),
    {
        broadcast use vstd::std_specs::hash::group_hash_axioms;

        if self.data.contains_key(&insert.timestamp) {
            Err(insert.timestamp)
        } else {
            self.data.insert(insert.timestamp, insert.price);
            Ok(())
        }
    }

    /// The prices at the timestamps in the query's closed range, one for each
    /// such timestamp, in no particular order.
    pub fn select_prices(&self, query: &Query) -> (prices: Vec<i64>)
        ensures
            exists|keys: Seq<i32>|
                keys.to_set() == selected(self@, query.min_time, query.max_time) && lists_prices(
                    self@,
                    keys,
                    prices@,
                ),
    {
        broadcast use vstd::std_specs::hash::group_hash_axioms;

        let mut prices: Vec<i64> = Vec::new();
        let ghost mut keys: Seq<i32> = Seq::empty();
        let ghost min_time = query.min_time;
        let ghost max_time = query.max_time;
        for pair in it: self.data.iter()
            invariant
                min_time == query.min_time,
                max_time == query.max_time,
                it.seq().no_duplicates(),
                forall|i: int|
                    0 <= i < it.seq().len() ==> self.data@.contains_key(
                        *(#[trigger] it.seq()[i]).0,
                    ) && self.data@[*it.seq()[i].0] == *it.seq()[i].1,
                lists_prices(self.data@, keys, prices@),
                forall|j: int|
                    0 <= j < keys.len() ==> min_time <= (#[trigger] keys[j]) <= max_time
                        && exists|i: int|
                        0 <= i < it.index() && *(#[trigger] it.seq()[i]).0 == keys[j],
                forall|k: i32|
                    (#[trigger] self.data@.contains_key(k)) && min_time <= k <= max_time
                        ==> keys.contains(k) || exists|i: int|
                        it.index() <= i < it.seq().len() && *(#[trigger] it.seq()[i]).0 == k,
        {
            let ghost at = it.index() as int;
            let ghost before = keys;
            assert(pair == it.seq()[at]);
            let (timestamp, price) = pair;
            if *timestamp >= query.min_time && *timestamp <= query.max_time {
                proof {
                    assert forall|j: int| 0 <= j < before.len() implies before[j] != *timestamp by {
                        let i = choose|i: int|
                            0 <= i < at && *(#[trigger] it.seq()[i]).0 == before[j];
                        if before[j] == *timestamp {
                            assert(it.seq()[i] == it.seq()[at]);
                        }
                    }
                    keys = before.push(*timestamp);
                    assert(keys[before.len() as int] == *timestamp);
                }
                prices.push(*price as i64);
            }
            proof {
                assert forall|j: int| 0 <= j < keys.len() implies min_time <= (#[trigger] keys[j])
                    <= max_time && exists|i: int|
                    0 <= i < at + 1 && *(#[trigger] it.seq()[i]).0 == keys[j] by {
                    if j < before.len() {
                        assert(keys[j] == before[j]);
                        let i = choose|i: int|
                            0 <= i < at && *(#[trigger] it.seq()[i]).0 == before[j];
                        assert(0 <= i < at + 1 && *it.seq()[i].0 == keys[j]);
                    } else {
                        assert(0 <= at < at + 1 && *it.seq()[at].0 == keys[j]);
                    }
                }
                assert forall|k: i32|
                    (#[trigger] self.data@.contains_key(k)) && min_time <= k
                        <= max_time implies keys.contains(k) || exists|i: int|
                    at + 1 <= i < it.seq().len() && *(#[trigger] it.seq()[i]).0 == k by {
                    if before.contains(k) {
                        let j = choose|j: int| 0 <= j < before.len() && before[j] == k;
                        assert(keys[j] == k);
                    } else {
                        let i = choose|i: int|
                            at <= i < it.seq().len() && *(#[trigger] it.seq()[i]).0 == k;
                        if i == at {
                            assert(keys[before.len() as int] == k);
                        } else {
                            assert(at + 1 <= i < it.seq().len() && *it.seq()[i].0 == k);
                        }
                    }
                }
            }
        }
        proof {
            assert(keys.to_set() =~= selected(self@, query.min_time, query.max_time));
        }
        prices
    }

    /// The mean price over the query's closed range, rounded toward zero; 0
    /// when the range holds no timestamp, which includes every range whose
    /// lower end exceeds its upper end.
    pub fn select_mean(&self, query: &Query) -> (mean: i32)
        ensures
            mean == range_mean(self@, query.min_time, query.max_time),
    {
        let results = self.select_prices(query);
        let ghost chosen = selected(self@, query.min_time, query.max_time);
        proof {
            let keys = choose|keys: Seq<i32>|
                keys.to_set() == chosen && lists_prices(self@, keys, results@);
            lemma_total_of_listing(self@, keys, results@);
            lemma_timestamp_count(chosen);
            lemma_price_sum_bounds(self@, chosen);
            assert forall|j: int| 0 <= j < results@.len() implies i32::MIN <= (
            #[trigger] results@[j]) <= i32::MAX by {
                assert(results@[j] == self@[keys[j]]);
            }
        }
        let count: usize = results.len();
        let mut total: i64 = 0;
        let mut i: usize = 0;
        while i < count
            invariant
                i <= count,
                count == results@.len(),
                count <= 0x1_0000_0000,
                forall|j: int| 0 <= j < results@.len() ==> i32::MIN <= (#[trigger] results@[j]) <= i32::MAX,
                total == total_of(results@.take(i as int)),
                i * i32::MIN <= total <= i * i32::MAX,
            decreases count - i,
        {
            assert(results@.take(i + 1).drop_last() =~= results@.take(i as int));
            total = total + results[i];
            i = i + 1;
        }
        assert(results@.take(count as int) =~= results@);
        if total == 0 {
            proof {
                if count > 0 {
                    assert(0int / (count as int) == 0) by (nonlinear_arith)
                        requires
                            count > 0,
                    ;
                }
            }
            0
        } else {
            let mean: i64 = total / (count as i64);
            proof {
                lemma_truncated_quotient_bounds(total as int, count as int);
            }
            mean as i32
        }
    }
}

} // verus!
