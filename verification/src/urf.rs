//! Unit response lagging: monthly usage spread over later months by a table
//! of weights for each reach, and the reaches' series combined into one.

use crate::calendar::month_shift_clamped;
use crate::calendar::Date;
use crate::daily::usage_ok;
use crate::daily::MAX_VOLUME;
use itertools::Itertools;
use vstd::prelude::*;

verus! {

/// The largest number of entries of a unit response table.
pub const MAX_URF: usize = 2048;

/// The largest magnitude of one month's usage times one weight.
pub const MAX_LAGGED: i128 = 0x0008_0000_0000_0000_0000;

/// The largest number of entries of a lagged series.
pub const MAX_SERIES_LEN: usize = 8_388_608;

/// The largest magnitude of an amount of a lagged series.
pub const MAX_SERIES_AMOUNT: i128 = 0x0400_0000_0000_0000_0000_0000;

/// One entry of a unit response table: the share of a month's usage, in
/// billionths, that reaches `reach` after the lag that `month` orders.
#[derive(Clone, Copy, Debug, PartialEq, Eq, Structural)]
pub struct UrfValue {
    pub month: i32,
    pub reach: i32,
    pub urf_val: i32,
}

impl UrfValue {
    /// The entry with these fields.
    pub fn new(month: i32, reach: i32, urf_val: i32) -> (r: UrfValue)
        ensures
            r == (UrfValue { month, reach, urf_val }),
    {
        UrfValue { month, reach, urf_val }
    }
}

/// The values of a sequence, each where it first occurs.
pub open spec fn first_occurrences(s: Seq<i32>) -> Seq<i32>
    decreases s.len(),
{
    if s.len() == 0 {
        s
    } else {
        let rest = first_occurrences(s.drop_last());
        if rest.contains(s.last()) {
            rest
        } else {
            rest.push(s.last())
        }
    }
}

/// A sequence in ascending order of month with `entry` put in behind the
/// entries of its own month.
pub open spec fn insert_by_month(s: Seq<(i32, i32)>, entry: (i32, i32)) -> Seq<(i32, i32)>
    decreases s.len(),
{
    if s.len() == 0 {
        seq![entry]
    } else if s.last().0 <= entry.0 {
        s.push(entry)
    } else {
        insert_by_month(s.drop_last(), entry).push(s.last())
    }
}

/// The entries of a sequence in ascending order of month, those of one
/// month in the order in which the sequence has them.
pub open spec fn sorted_by_month(s: Seq<(i32, i32)>) -> Seq<(i32, i32)>
    decreases s.len(),
{
    if s.len() == 0 {
        s
    } else {
        insert_by_month(sorted_by_month(s.drop_last()), s.last())
    }
}

/// A sequence in ascending order of date with `entry` put in behind the
/// entries of its own date.
pub open spec fn insert_by_date(s: Seq<(Date, i128)>, entry: (Date, i128)) -> Seq<(Date, i128)>
    decreases s.len(),
{
    if s.len() == 0 {
        seq![entry]
    } else if !entry.0.is_before(s.last().0) {
        s.push(entry)
    } else {
        insert_by_date(s.drop_last(), entry).push(s.last())
    }
}

/// The entries of a sequence in ascending order of date, those of one date
/// in the order in which the sequence has them.
pub open spec fn sorted_by_date(s: Seq<(Date, i128)>) -> Seq<(Date, i128)>
    decreases s.len(),
{
    if s.len() == 0 {
        s
    } else {
        insert_by_date(sorted_by_date(s.drop_last()), s.last())
    }
}

/// Calls itertools' `unique` on the values. Claimed of it: the values come
/// back in their order, each only where it first occurs.
#[verifier::external_body]
fn unique_in_order(values: Vec<i32>) -> (r: Vec<i32>)
    ensures
        r@ == first_occurrences(values@),
{
    values.into_iter().unique().collect()
}

/// Calls itertools' `sorted_by_key` with the month as key. Claimed of it:
/// the entries come back in ascending order of month, and entries of one
/// month keep their order.
#[verifier::external_body]
fn sorted_by_key_month(entries: Vec<(i32, i32)>) -> (r: Vec<(i32, i32)>)
    ensures
        r@ == sorted_by_month(entries@),
{
    entries.into_iter().sorted_by_key(|entry| entry.0).collect()
}

/// Calls `sort_by_key` of std's slices with year, month and day as key.
/// Claimed of it: the entries are put in ascending order of date, and
/// entries of one date keep their order.
#[verifier::external_body]
fn sort_by_key_date(entries: &mut Vec<(Date, i128)>)
    ensures
        final(entries)@ == sorted_by_date(old(entries)@),
{
    entries.sort_by_key(|entry| (entry.0.year, entry.0.month, entry.0.day));
}

/// The reach of each entry of a table.
pub open spec fn reaches_of(urf: Seq<UrfValue>) -> Seq<i32> {
    Seq::new(urf.len(), |i: int| urf[i].reach)
}

/// Month and weight of the entries of a table that belong to `reach`.
pub open spec fn reach_entries(urf: Seq<UrfValue>, reach: i32) -> Seq<(i32, i32)>
    decreases urf.len(),
{
    if urf.len() == 0 {
        Seq::empty()
    } else {
        let rest = reach_entries(urf.drop_last(), reach);
        if urf.last().reach == reach {
            rest.push((urf.last().month, urf.last().urf_val))
        } else {
            rest
        }
    }
}

/// The weights of `reach` by lag: those of its entries in ascending order of
/// month, the first for the month of usage itself.
pub open spec fn reach_weights(urf: Seq<UrfValue>, reach: i32) -> Seq<i32> {
    let sorted = sorted_by_month(reach_entries(urf, reach));
    Seq::new(sorted.len(), |i: int| sorted[i].1)
}

/// The place of the first entry of `date` in a series; its length where
/// there is none.
pub open spec fn position(series: Seq<(Date, i128)>, date: Date) -> int
    decreases series.len(),
{
    if series.len() == 0 {
        0
    } else {
        let before = position(series.drop_last(), date);
        if before < series.len() - 1 {
            before
        } else if series.last().0 == date {
            series.len() - 1
        } else {
            series.len() as int
        }
    }
}

/// The amount that a series holds for `date`; 0 where it has no entry.
pub open spec fn amount_on(series: Seq<(Date, i128)>, date: Date) -> int {
    let at = position(series, date);
    if at < series.len() {
        series[at].1 as int
    } else {
        0
    }
}

/// A series with `amount` added under `date`: to the entry of that date
/// where there is one, else as a new last entry.
pub open spec fn add_to_series(series: Seq<(Date, i128)>, date: Date, amount: int) -> Seq<
    (Date, i128),
> {
    let at = position(series, date);
    if at < series.len() {
        series.update(at, (date, (series[at].1 + amount) as i128))
    } else {
        series.push((date, amount as i128))
    }
}

/// A series with one month's usage added under the month itself and the
/// months after it, by the first `n` weights.
pub open spec fn lag_entry(
    series: Seq<(Date, i128)>,
    entry: (Date, i64),
    weights: Seq<i32>,
    n: int,
) -> Seq<(Date, i128)>
    decreases n,
{
    if n <= 0 {
        series
    } else {
        add_to_series(
            lag_entry(series, entry, weights, n - 1),
            month_shift_clamped(entry.0, n - 1).unwrap(),
            entry.1 * weights[n - 1],
        )
    }
}

/// The series that the first `m` months of usage give under `weights`.
pub open spec fn lag_usage(usage: Seq<(Date, i64)>, weights: Seq<i32>, m: int) -> Seq<
    (Date, i128),
>
    decreases m,
{
    if m <= 0 {
        Seq::empty()
    } else {
        lag_entry(lag_usage(usage, weights, m - 1), usage[m - 1], weights, weights.len() as int)
    }
}

/// The lagged series of `reach`: for each month of usage and each lag of the
/// reach's table, the usage times the weight under the month that lies that
/// many months later, amounts of one month added up.
pub open spec fn reach_series(usage: Seq<(Date, i64)>, urf: Seq<UrfValue>, reach: i32) -> Seq<
    (Date, i128),
> {
    lag_usage(usage, reach_weights(urf, reach), usage.len() as int)
}

/// Whether each month of usage has, for every lag of the table, a later
/// month within the calendar.
pub open spec fn lags_in_calendar(usage: Seq<(Date, i64)>, lags: int) -> bool {
    forall|k: int, j: int|
        0 <= k < usage.len() && 0 <= j < lags ==> (#[trigger] month_shift_clamped(
            usage[k].0,
            j,
        )).is_some()
}

/// Whether every amount of a series is at most `bound` in magnitude.
pub open spec fn within(series: Seq<(Date, i128)>, bound: int) -> bool {
    forall|i: int| 0 <= i < series.len() ==> -bound <= (#[trigger] series[i]).1 <= bound
}

/// Whether a series is short enough and its amounts small enough to be
/// combined with others.
pub open spec fn series_ok(series: Seq<(Date, i128)>) -> bool {
    series.len() <= MAX_SERIES_LEN && within(series, MAX_SERIES_AMOUNT as int)
}

/// A series with the first `n` entries of another added to it, each under
/// its date.
pub open spec fn merge_series(sums: Seq<(Date, i128)>, series: Seq<(Date, i128)>, n: int) -> Seq<
    (Date, i128),
>
    decreases n,
{
    if n <= 0 {
        sums
    } else {
        add_to_series(merge_series(sums, series, n - 1), series[n - 1].0, series[n - 1].1 as int)
    }
}

/// The amounts of the first `m` reaches added up by date.
pub open spec fn merged(values: Seq<(i32, Vec<(Date, i128)>)>, m: int) -> Seq<(Date, i128)>
    decreases m,
{
    if m <= 0 {
        Seq::empty()
    } else {
        merge_series(merged(values, m - 1), values[m - 1].1@, values[m - 1].1@.len() as int)
    }
}

/// The amounts of all reaches added up by date, in ascending order of date.
pub open spec fn combined(values: Seq<(i32, Vec<(Date, i128)>)>) -> Seq<(Date, i128)> {
    sorted_by_date(merged(values, values.len() as int))
}

/// The first place of a date in a series is the one before which the date
/// does not occur.
proof fn lemma_position(series: Seq<(Date, i128)>, date: Date, at: int)
    requires
        0 <= at <= series.len(),
        forall|i: int| 0 <= i < at ==> (#[trigger] series[i]).0 != date,
        at < series.len() ==> series[at].0 == date,
    ensures
        position(series, date) == at,
    decreases series.len(),
{
    if series.len() > 0 {
        let rest = series.drop_last();
        if at < series.len() - 1 {
            lemma_position(rest, date, at);
        } else {
            lemma_position(rest, date, series.len() - 1);
        }
    }
}

/// The first place of a date in a series holds the date, and no place
/// before it does.
pub proof fn lemma_position_is_first(series: Seq<(Date, i128)>, date: Date)
    ensures
        0 <= position(series, date) <= series.len(),
        position(series, date) < series.len() ==> series[position(series, date)].0 == date,
        forall|i: int| 0 <= i < position(series, date) ==> (#[trigger] series[i]).0 != date,
    decreases series.len(),
{
    if series.len() > 0 {
        let rest = series.drop_last();
        lemma_position_is_first(rest, date);
        assert forall|i: int| 0 <= i < position(series, date) implies (#[trigger] series[i]).0
            != date by {
            if i < rest.len() {
                assert(rest[i] == series[i]);
            }
        }
    }
}

/// Whether no two entries of a series have one date.
pub open spec fn distinct_dates(series: Seq<(Date, i128)>) -> bool {
    forall|i: int, j: int|
        0 <= i < j < series.len() ==> (#[trigger] series[i]).0 != (#[trigger] series[j]).0
}

/// Adding an amount under a date changes the amount of that date and of no
/// other, and gives no date a second entry.
pub proof fn lemma_add_to_series(
    series: Seq<(Date, i128)>,
    date: Date,
    amount: int,
    bound: int,
    step: int,
    other: Date,
)
    requires
        distinct_dates(series),
        within(series, bound),
        0 <= bound,
        -step <= amount <= step,
        bound + step <= i128::MAX,
    ensures
        distinct_dates(add_to_series(series, date, amount)),
        within(add_to_series(series, date, amount), bound + step),
        amount_on(add_to_series(series, date, amount), other) == amount_on(series, other) + (
        if other == date {
            amount
        } else {
            0
        }),
{
    let at = position(series, date);
    let at_other = position(series, other);
    let added = add_to_series(series, date, amount);
    lemma_position_is_first(series, date);
    lemma_position_is_first(series, other);
    if at < series.len() {
        assert forall|i: int| 0 <= i < added.len() implies (#[trigger] added[i]).0 == series[i].0 by {}
        assert forall|i: int| 0 <= i < at_other implies (#[trigger] added[i]).0 != other by {
            assert(series[i].0 != other);
        }
        lemma_position(added, other, at_other);
        assert(distinct_dates(added)) by {
            assert forall|i: int, j: int| 0 <= i < j < added.len() implies (#[trigger] added[i]).0
                != (#[trigger] added[j]).0 by {
                assert(series[i].0 != series[j].0);
            }
        }
        assert(within(added, bound + step)) by {
            assert forall|i: int| 0 <= i < added.len() implies -(bound + step) <= (
            #[trigger] added[i]).1 <= bound + step by {
                assert(-bound <= series[i].1 <= bound);
            }
        }
        if at_other < series.len() && at_other == at {
            assert(series[at].0 == other);
        }
    } else {
        assert forall|i: int| 0 <= i < series.len() implies (#[trigger] added[i]) == series[i] by {}
        if at_other < series.len() {
            assert forall|i: int| 0 <= i < at_other implies (#[trigger] added[i]).0 != other by {
                assert(series[i].0 != other);
            }
            lemma_position(added, other, at_other);
            assert(series[at_other].0 != date);
        } else if other == date {
            assert forall|i: int| 0 <= i < series.len() implies (#[trigger] added[i]).0
                != other by {
                assert(series[i].0 != other);
            }
            lemma_position(added, other, series.len() as int);
        } else {
            assert forall|i: int| 0 <= i < added.len() implies (#[trigger] added[i]).0
                != other by {
                if i < series.len() {
                    assert(series[i].0 != other);
                }
            }
            lemma_position(added, other, added.len() as int);
        }
        assert(distinct_dates(added)) by {
            assert forall|i: int, j: int| 0 <= i < j < added.len() implies (#[trigger] added[i]).0
                != (#[trigger] added[j]).0 by {
                if j < series.len() {
                    assert(series[i].0 != series[j].0);
                } else {
                    assert(series[i].0 != date);
                }
            }
        }
        assert(within(added, bound + step)) by {
            assert forall|i: int| 0 <= i < added.len() implies -(bound + step) <= (
            #[trigger] added[i]).1 <= bound + step by {
                if i < series.len() {
                    assert(-bound <= series[i].1 <= bound);
                }
            }
        }
    }
}

/// What one month's usage adds under `date` by the first `n` weights: the
/// usage times each weight whose lag leads from the month to `date`.
pub open spec fn lagged_by_entry(entry: (Date, i64), weights: Seq<i32>, date: Date, n: int) -> int
    decreases n,
{
    if n <= 0 {
        0
    } else {
        lagged_by_entry(entry, weights, date, n - 1) + (if month_shift_clamped(entry.0, n - 1)
            == Some(date) {
            entry.1 * weights[n - 1]
        } else {
            0
        })
    }
}

/// What the first `m` months of usage add under `date`.
pub open spec fn lagged_total(usage: Seq<(Date, i64)>, weights: Seq<i32>, date: Date, m: int) -> int
    decreases m,
{
    if m <= 0 {
        0
    } else {
        lagged_total(usage, weights, date, m - 1) + lagged_by_entry(
            usage[m - 1],
            weights,
            date,
            weights.len() as int,
        )
    }
}

/// Lagging one month's usage adds under each date the usage times the
/// weights whose lags lead to that date.
proof fn lemma_lag_entry(
    series: Seq<(Date, i128)>,
    entry: (Date, i64),
    weights: Seq<i32>,
    n: int,
    bound: int,
    date: Date,
)
    requires
        distinct_dates(series),
        within(series, bound),
        0 <= bound,
        0 <= n <= weights.len(),
        bound + n * MAX_LAGGED <= i128::MAX,
        -MAX_VOLUME <= entry.1 <= MAX_VOLUME,
        forall|k: int| 0 <= k < n ==> (#[trigger] month_shift_clamped(entry.0, k)).is_some(),
    ensures
        distinct_dates(lag_entry(series, entry, weights, n)),
        within(lag_entry(series, entry, weights, n), bound + n * MAX_LAGGED),
        amount_on(lag_entry(series, entry, weights, n), date) == amount_on(series, date)
            + lagged_by_entry(entry, weights, date, n),
    decreases n,
{
    if n > 0 {
        lemma_lag_entry(series, entry, weights, n - 1, bound, date);
        lemma_lagged_range(entry.1 as int, weights[n - 1] as int);
        assert(month_shift_clamped(entry.0, n - 1).is_some());
        lemma_add_to_series(
            lag_entry(series, entry, weights, n - 1),
            month_shift_clamped(entry.0, n - 1).unwrap(),
            entry.1 * weights[n - 1],
            bound + (n - 1) * MAX_LAGGED,
            MAX_LAGGED as int,
            date,
        );
    }
}

/// Lagging the first `m` months of usage gives each date one entry, with the
/// sum of what the months add under it.
proof fn lemma_lag_usage(usage: Seq<(Date, i64)>, weights: Seq<i32>, m: int, date: Date)
    requires
        usage_ok(usage),
        weights.len() <= MAX_URF,
        lags_in_calendar(usage, weights.len() as int),
        0 <= m <= usage.len(),
    ensures
        distinct_dates(lag_usage(usage, weights, m)),
        within(lag_usage(usage, weights, m), m * MAX_URF * MAX_LAGGED),
        amount_on(lag_usage(usage, weights, m), date) == lagged_total(usage, weights, date, m),
    decreases m,
{
    if m > 0 {
        lemma_lag_usage(usage, weights, m - 1, date);
        assert forall|k: int| 0 <= k < weights.len() implies (#[trigger] month_shift_clamped(
            usage[m - 1].0,
            k,
        )).is_some() by {}
        lemma_lag_entry(
            lag_usage(usage, weights, m - 1),
            usage[m - 1],
            weights,
            weights.len() as int,
            (m - 1) * MAX_URF * MAX_LAGGED,
            date,
        );
    }
}

/// What lagging means: the series of a reach has one entry for each date,
/// and the amount of a date is the sum, over the months of usage and the
/// lags of the reach's table, of the usage times the weight wherever the lag
/// leads from the month to that date.
pub proof fn lemma_reach_series_sums_lagged_usage(
    usage: Seq<(Date, i64)>,
    urf: Seq<UrfValue>,
    reach: i32,
    date: Date,
)
    requires
        usage_ok(usage),
        urf.len() <= MAX_URF,
        lags_in_calendar(usage, reach_entries(urf, reach).len() as int),
    ensures
        distinct_dates(reach_series(usage, urf, reach)),
        amount_on(reach_series(usage, urf, reach), date) == lagged_total(
            usage,
            reach_weights(urf, reach),
            date,
            usage.len() as int,
        ),
{
    lemma_sorted_by_month_len(reach_entries(urf, reach));
    lemma_reach_entries_len(urf, reach);
    lemma_lag_usage(usage, reach_weights(urf, reach), usage.len() as int, date);
}

/// A reach has no more entries than the table.
pub proof fn lemma_reach_entries_len(urf: Seq<UrfValue>, reach: i32)
    ensures
        reach_entries(urf, reach).len() <= urf.len(),
    decreases urf.len(),
{
    if urf.len() > 0 {
        lemma_reach_entries_len(urf.drop_last(), reach);
    }
}

/// The sum of the amounts that the first `n` entries of a series hold
/// under `date`.
pub open spec fn held_on(series: Seq<(Date, i128)>, date: Date, n: int) -> int
    decreases n,
{
    if n <= 0 {
        0
    } else {
        held_on(series, date, n - 1) + (if series[n - 1].0 == date {
            series[n - 1].1 as int
        } else {
            0
        })
    }
}

/// The sum of the amounts that the series of the first `m` reaches hold
/// under `date`.
pub open spec fn held_by_reaches(values: Seq<(i32, Vec<(Date, i128)>)>, date: Date, m: int) -> int
    decreases m,
{
    if m <= 0 {
        0
    } else {
        held_by_reaches(values, date, m - 1) + held_on(
            values[m - 1].1@,
            date,
            values[m - 1].1@.len() as int,
        )
    }
}

/// Merging the first `n` entries of a series into another adds under each
/// date what those entries hold under it.
proof fn lemma_merge_series(
    sums: Seq<(Date, i128)>,
    series: Seq<(Date, i128)>,
    n: int,
    bound: int,
    date: Date,
)
    requires
        distinct_dates(sums),
        within(sums, bound),
        0 <= bound,
        0 <= n <= series.len(),
        series_ok(series),
        bound + n * MAX_SERIES_AMOUNT <= i128::MAX,
    ensures
        distinct_dates(merge_series(sums, series, n)),
        within(merge_series(sums, series, n), bound + n * MAX_SERIES_AMOUNT),
        amount_on(merge_series(sums, series, n), date) == amount_on(sums, date) + held_on(
            series,
            date,
            n,
        ),
    decreases n,
{
    if n > 0 {
        lemma_merge_series(sums, series, n - 1, bound, date);
        lemma_add_to_series(
            merge_series(sums, series, n - 1),
            series[n - 1].0,
            series[n - 1].1 as int,
            bound + (n - 1) * MAX_SERIES_AMOUNT,
            MAX_SERIES_AMOUNT as int,
            date,
        );
    }
}

/// What combining means, before the dates are put in order: each date has
/// one entry, and its amount is the sum of what the reaches' series hold
/// under that date.
pub proof fn lemma_merged_sums_reaches(
    values: Seq<(i32, Vec<(Date, i128)>)>,
    m: int,
    date: Date,
)
    requires
        values.len() <= MAX_URF,
        forall|i: int| 0 <= i < values.len() ==> series_ok((#[trigger] values[i]).1@),
        0 <= m <= values.len(),
    ensures
        distinct_dates(merged(values, m)),
        within(merged(values, m), m * MAX_SERIES_LEN * MAX_SERIES_AMOUNT),
        amount_on(merged(values, m), date) == held_by_reaches(values, date, m),
    decreases m,
{
    if m > 0 {
        lemma_merged_sums_reaches(values, m - 1, date);
        let series = values[m - 1].1@;
        assert(series_ok(series));
        lemma_merge_series(
            merged(values, m - 1),
            series,
            series.len() as int,
            (m - 1) * MAX_SERIES_LEN * MAX_SERIES_AMOUNT,
            date,
        );
    }
}

/// Whether the dates of a series never go back from one entry to a later.
pub open spec fn ascending_dates(series: Seq<(Date, i128)>) -> bool {
    forall|i: int, j: int|
        0 <= i < j < series.len() ==> !(#[trigger] series[j]).0.is_before((#[trigger] series[i]).0)
}

/// Putting an entry into a series in ascending order keeps the order.
proof fn lemma_insert_by_date_ascending(s: Seq<(Date, i128)>, entry: (Date, i128))
    requires
        ascending_dates(s),
    ensures
        ascending_dates(insert_by_date(s, entry)),
        insert_by_date(s, entry).len() == s.len() + 1,
        forall|i: int|
            0 <= i < insert_by_date(s, entry).len() ==> (#[trigger] insert_by_date(s, entry)[i])
                == entry || exists|j: int| 0 <= j < s.len() && insert_by_date(s, entry)[i] == s[j],
    decreases s.len(),
{
    let placed = insert_by_date(s, entry);
    if s.len() == 0 {
    } else if !entry.0.is_before(s.last().0) {
        assert forall|i: int, j: int| 0 <= i < j < placed.len() implies !(#[trigger] placed[j]).0.is_before(
            (#[trigger] placed[i]).0,
        ) by {
            if j < s.len() {
                assert(!s[j].0.is_before(s[i].0));
            } else if i < s.len() - 1 {
                assert(!s[s.len() - 1].0.is_before(s[i].0));
            }
        }
        assert forall|i: int| 0 <= i < placed.len() implies (#[trigger] placed[i]) == entry
            || exists|j: int| 0 <= j < s.len() && placed[i] == s[j] by {
            if i < s.len() {
                assert(placed[i] == s[i]);
            }
        }
    } else {
        let rest = s.drop_last();
        assert(ascending_dates(rest)) by {
            assert forall|i: int, j: int| 0 <= i < j < rest.len() implies !(#[trigger] rest[j]).0.is_before(
                (#[trigger] rest[i]).0,
            ) by {
                assert(!s[j].0.is_before(s[i].0));
            }
        }
        lemma_insert_by_date_ascending(rest, entry);
        let inner = insert_by_date(rest, entry);
        assert forall|i: int, j: int| 0 <= i < j < placed.len() implies !(#[trigger] placed[j]).0.is_before(
            (#[trigger] placed[i]).0,
        ) by {
            if j < inner.len() {
                assert(!inner[j].0.is_before(inner[i].0));
            } else {
                assert(placed[i] == inner[i]);
                if inner[i] != entry {
                    let k = choose|k: int| 0 <= k < rest.len() && inner[i] == rest[k];
                    assert(rest[k] == s[k]);
                    assert(!s[s.len() - 1].0.is_before(s[k].0));
                }
            }
        }
        assert forall|i: int| 0 <= i < placed.len() implies (#[trigger] placed[i]) == entry
            || exists|j: int| 0 <= j < s.len() && placed[i] == s[j] by {
            if i < inner.len() {
                assert(placed[i] == inner[i]);
                if inner[i] != entry {
                    let k = choose|k: int| 0 <= k < rest.len() && inner[i] == rest[k];
                    assert(rest[k] == s[k]);
                }
            } else {
                assert(placed[i] == s[s.len() - 1]);
            }
        }
    }
}

/// A series put in order has as many entries as before, and their dates
/// never go back.
pub proof fn lemma_sorted_by_date_ascending(s: Seq<(Date, i128)>)
    ensures
        ascending_dates(sorted_by_date(s)),
        sorted_by_date(s).len() == s.len(),
    decreases s.len(),
{
    if s.len() > 0 {
        lemma_sorted_by_date_ascending(s.drop_last());
        lemma_insert_by_date_ascending(sorted_by_date(s.drop_last()), s.last());
    }
}

/// Where a date first stands in a series with one more entry.
proof fn lemma_position_push(series: Seq<(Date, i128)>, entry: (Date, i128), date: Date)
    ensures
        position(series.push(entry), date) == (if position(series, date) < series.len() {
            position(series, date)
        } else if entry.0 == date {
            series.len() as int
        } else {
            series.len() as int + 1
        }),
        0 <= position(series, date) <= series.len(),
{
    assert(series.push(entry).drop_last() =~= series);
    lemma_position_is_first(series, date);
}

/// Putting an entry with a new date into a series gives that date the
/// entry's amount and leaves the amounts of all other dates.
proof fn lemma_insert_by_date_amounts(s: Seq<(Date, i128)>, entry: (Date, i128), date: Date)
    requires
        distinct_dates(s),
        position(s, entry.0) == s.len(),
    ensures
        distinct_dates(insert_by_date(s, entry)),
        amount_on(insert_by_date(s, entry), date) == amount_on(s, date) + (if date == entry.0 {
            entry.1 as int
        } else {
            0
        }),
        (position(insert_by_date(s, entry), date) < insert_by_date(s, entry).len()) == (position(
            s,
            date,
        ) < s.len() || date == entry.0),
    decreases s.len(),
{
    let placed = insert_by_date(s, entry);
    lemma_position_is_first(s, entry.0);
    lemma_position_is_first(s, date);
    if s.len() == 0 {
        if date == entry.0 {
            lemma_position(placed, date, 0);
        } else {
            lemma_position(placed, date, 1);
        }
    } else if !entry.0.is_before(s.last().0) {
        lemma_position_push(s, entry, date);
        assert forall|i: int, j: int| 0 <= i < j < placed.len() implies (#[trigger] placed[i]).0 != (
        #[trigger] placed[j]).0 by {
            if j < s.len() {
                assert(s[i].0 != s[j].0);
            } else {
                assert(s[i].0 != entry.0);
            }
        }
    } else {
        let rest = s.drop_last();
        let last = s.last();
        assert(s =~= rest.push(last));
        assert forall|i: int, j: int| 0 <= i < j < rest.len() implies (#[trigger] rest[i]).0 != (
        #[trigger] rest[j]).0 by {
            assert(s[i].0 != s[j].0);
        }
        assert forall|i: int| 0 <= i < rest.len() implies (#[trigger] rest[i]).0 != entry.0 by {
            assert(s[i].0 != entry.0);
        }
        lemma_position(rest, entry.0, rest.len() as int);
        assert forall|i: int| 0 <= i < rest.len() implies (#[trigger] rest[i]).0 != last.0 by {
            assert(s[i].0 != s[s.len() - 1].0);
        }
        lemma_position(rest, last.0, rest.len() as int);
        lemma_insert_by_date_amounts(rest, entry, date);
        lemma_insert_by_date_amounts(rest, entry, last.0);
        let inner = insert_by_date(rest, entry);
        assert(s[s.len() - 1].0 != entry.0);
        lemma_position_is_first(inner, last.0);
        lemma_position_push(inner, last, date);
        lemma_position_push(rest, last, date);
        assert forall|i: int, j: int| 0 <= i < j < placed.len() implies (#[trigger] placed[i]).0 != (
        #[trigger] placed[j]).0 by {
            if j < inner.len() {
                assert(inner[i].0 != inner[j].0);
            } else {
                assert(inner[i].0 != last.0);
            }
        }
        if position(rest, date) < rest.len() {
            assert(rest[position(rest, date)].0 == date);
        }
    }
}

/// Putting a series with one entry for each date in order leaves each
/// date its one entry and its amount.
pub proof fn lemma_sorted_by_date_amounts(s: Seq<(Date, i128)>, date: Date)
    requires
        distinct_dates(s),
    ensures
        distinct_dates(sorted_by_date(s)),
        amount_on(sorted_by_date(s), date) == amount_on(s, date),
        (position(sorted_by_date(s), date) < sorted_by_date(s).len()) == (position(s, date)
            < s.len()),
    decreases s.len(),
{
    lemma_position_is_first(s, date);
    if s.len() > 0 {
        let rest = s.drop_last();
        let last = s.last();
        assert(s =~= rest.push(last));
        assert forall|i: int, j: int| 0 <= i < j < rest.len() implies (#[trigger] rest[i]).0 != (
        #[trigger] rest[j]).0 by {
            assert(s[i].0 != s[j].0);
        }
        assert forall|i: int| 0 <= i < rest.len() implies (#[trigger] rest[i]).0 != last.0 by {
            assert(s[i].0 != s[s.len() - 1].0);
        }
        lemma_position(rest, last.0, rest.len() as int);
        lemma_sorted_by_date_amounts(rest, date);
        lemma_sorted_by_date_amounts(rest, last.0);
        lemma_sorted_by_date_ascending(rest);
        lemma_position_is_first(sorted_by_date(rest), last.0);
        lemma_insert_by_date_amounts(sorted_by_date(rest), last, date);
        lemma_position_push(rest, last, date);
        if position(rest, date) < rest.len() {
            assert(rest[position(rest, date)].0 == date);
        }
    }
}

/// What combining means: the combined series has its dates in ascending
/// order, one entry for each date, and the amount of a date is the sum of
/// what the reaches' series hold under that date.
pub proof fn lemma_combined_sums_reaches(values: Seq<(i32, Vec<(Date, i128)>)>, date: Date)
    requires
        values.len() <= MAX_URF,
        forall|i: int| 0 <= i < values.len() ==> series_ok((#[trigger] values[i]).1@),
    ensures
        ascending_dates(combined(values)),
        distinct_dates(combined(values)),
        amount_on(combined(values), date) == held_by_reaches(values, date, values.len() as int),
{
    let sums = merged(values, values.len() as int);
    lemma_merged_sums_reaches(values, values.len() as int, date);
    lemma_sorted_by_date_ascending(sums);
    lemma_sorted_by_date_amounts(sums, date);
}

/// Adds `amount` under `date`: to the entry of that date where the series
/// has one, else as a new last entry.
fn accumulate(
    series: &mut Vec<(Date, i128)>,
    date: Date,
    amount: i128,
    Ghost(bound): Ghost<int>,
    Ghost(step): Ghost<int>,
)
    requires
        within(old(series)@, bound),
        0 <= bound,
        -step <= amount <= step,
        bound + step <= i128::MAX,
    ensures
        final(series)@ == add_to_series(old(series)@, date, amount as int),
        within(final(series)@, bound + step),
        old(series)@.len() <= final(series)@.len() <= old(series)@.len() + 1,
{
    let n: usize = series.len();
    let mut i: usize = 0;
    while i < n && !(series[i].0 == date)
        invariant
            0 <= i <= n,
            n == series@.len(),
            forall|j: int| 0 <= j < i ==> (#[trigger] series@[j]).0 != date,
        decreases n - i,
    {
        i += 1;
    }
    proof {
        lemma_position(series@, date, i as int);
    }
    if i < n {
        let held: i128 = series[i].1;
        series.set(i, (date, held + amount));
    } else {
        series.push((date, amount));
    }
}

/// The entries of the table that belong to `reach`, in the table's order.
fn entries_of_reach(urf: &Vec<UrfValue>, reach: i32) -> (r: Vec<(i32, i32)>)
    ensures
        r@ == reach_entries(urf@, reach),
        r@.len() <= urf@.len(),
{
    let mut entries: Vec<(i32, i32)> = Vec::new();
    let mut i: usize = 0;
    while i < urf.len()
        invariant
            0 <= i <= urf.len(),
            entries@ == reach_entries(urf@.take(i as int), reach),
            entries@.len() <= i,
        decreases urf.len() - i,
    {
        proof {
            assert(urf@.take(i + 1).drop_last() =~= urf@.take(i as int));
            assert(urf@.take(i + 1).last() == urf@[i as int]);
        }
        if urf[i].reach == reach {
            entries.push((urf[i].month, urf[i].urf_val));
        }
        i += 1;
    }
    assert(urf@.take(urf.len() as int) =~= urf@);
    entries
}

/// Putting an entry into a sequence makes it one longer.
proof fn lemma_insert_by_month_len(s: Seq<(i32, i32)>, entry: (i32, i32))
    ensures
        insert_by_month(s, entry).len() == s.len() + 1,
    decreases s.len(),
{
    if s.len() > 0 && s.last().0 > entry.0 {
        lemma_insert_by_month_len(s.drop_last(), entry);
    }
}

/// Ordering a sequence keeps its length.
pub proof fn lemma_sorted_by_month_len(s: Seq<(i32, i32)>)
    ensures
        sorted_by_month(s).len() == s.len(),
    decreases s.len(),
{
    if s.len() > 0 {
        lemma_sorted_by_month_len(s.drop_last());
        lemma_insert_by_month_len(sorted_by_month(s.drop_last()), s.last());
    }
}

/// The weights of `reach` by lag.
fn weights_of_reach(urf: &Vec<UrfValue>, reach: i32) -> (r: Vec<i32>)
    ensures
        r@ == reach_weights(urf@, reach),
        r@.len() == reach_entries(urf@, reach).len(),
        r@.len() <= urf@.len(),
{
    let entries: Vec<(i32, i32)> = entries_of_reach(urf, reach);
    proof {
        lemma_sorted_by_month_len(entries@);
    }
    let sorted: Vec<(i32, i32)> = sorted_by_key_month(entries);
    let mut weights: Vec<i32> = Vec::new();
    let mut i: usize = 0;
    while i < sorted.len()
        invariant
            0 <= i <= sorted.len(),
            weights@.len() == i,
            forall|j: int| 0 <= j < i ==> weights@[j] == sorted@[j].1,
        decreases sorted.len() - i,
    {
        weights.push(sorted[i].1);
        i += 1;
    }
    assert(weights@ =~= reach_weights(urf@, reach));
    weights
}

/// A usage volume times a weight is a small amount.
proof fn lemma_lagged_range(volume: int, weight: int)
    requires
        -MAX_VOLUME <= volume <= MAX_VOLUME,
        -0x8000_0000 <= weight < 0x8000_0000,
    ensures
        -MAX_LAGGED <= volume * weight <= MAX_LAGGED,
{
    assert(-(0x10_0000_0000 * 0x8000_0000) <= volume * weight <= 0x10_0000_0000 * 0x8000_0000)
        by (nonlinear_arith)
        requires
            -0x10_0000_0000 <= volume <= 0x10_0000_0000,
            -0x8000_0000 <= weight <= 0x8000_0000,
    ;
}

/// The series of one reach: each month's usage times each weight, under the
/// month that lies the weight's lag later.
fn lag_with_weights(usage: &Vec<(Date, i64)>, weights: &Vec<i32>) -> (r: Vec<(Date, i128)>)
    requires
        usage_ok(usage@),
        weights@.len() <= MAX_URF,
        lags_in_calendar(usage@, weights@.len() as int),
    ensures
        r@ == lag_usage(usage@, weights@, usage@.len() as int),
        series_ok(r@),
{
    let mut series: Vec<(Date, i128)> = Vec::new();
    let lags: usize = weights.len();
    let mut m: usize = 0;
    while m < usage.len()
        invariant
            0 <= m <= usage.len(),
            usage_ok(usage@),
            lags == weights@.len(),
            lags <= MAX_URF,
            lags_in_calendar(usage@, lags as int),
            series@ == lag_usage(usage@, weights@, m as int),
            within(series@, m * MAX_URF * MAX_LAGGED),
            series@.len() <= m * MAX_URF,
        decreases usage.len() - m,
    {
        let entry: (Date, i64) = usage[m];
        let mut k: usize = 0;
        while k < lags
            invariant
                0 <= k <= lags,
                m < usage.len(),
                usage_ok(usage@),
                entry == usage@[m as int],
                lags == weights@.len(),
                lags <= MAX_URF,
                lags_in_calendar(usage@, lags as int),
                series@ == lag_entry(
                    lag_usage(usage@, weights@, m as int),
                    entry,
                    weights@,
                    k as int,
                ),
                within(series@, (m * MAX_URF + k) * MAX_LAGGED),
                series@.len() <= m * MAX_URF + k,
            decreases lags - k,
        {
            proof {
                lemma_lagged_range(entry.1 as int, weights@[k as int] as int);
                assert(month_shift_clamped(usage@[m as int].0, k as int).is_some());
            }
            let target: Option<Date> = entry.0.checked_add_months(k as u32);
            let amount: i128 = (entry.1 as i128) * (weights[k] as i128);
            match target {
                Some(date) => {
                    accumulate(
                        &mut series,
                        date,
                        amount,
                        Ghost((m * MAX_URF + k) * MAX_LAGGED),
                        Ghost(MAX_LAGGED as int),
                    );
                },
                None => {},
            }
            k += 1;
        }
        m += 1;
    }
    series
}

/// Whether a series is one that can be combined with others: at most
/// `MAX_SERIES_LEN` entries, each of at most `MAX_SERIES_AMOUNT` in magnitude.
pub fn series_in_range(series: &Vec<(Date, i128)>) -> (r: bool)
    ensures
        r == series_ok(series@),
{
    if series.len() > MAX_SERIES_LEN {
        return false;
    }
    let mut i: usize = 0;
    while i < series.len()
        invariant
            0 <= i <= series.len(),
            series.len() <= MAX_SERIES_LEN,
            forall|j: int|
                0 <= j < i ==> -MAX_SERIES_AMOUNT <= (#[trigger] series@[j]).1 <= MAX_SERIES_AMOUNT,
        decreases series.len() - i,
    {
        let amount: i128 = series[i].1;
        if amount < -MAX_SERIES_AMOUNT || amount > MAX_SERIES_AMOUNT {
            assert(!(-MAX_SERIES_AMOUNT <= series@[i as int].1 <= MAX_SERIES_AMOUNT));
            return false;
        }
        i += 1;
    }
    true
}

/// A month that lies within the calendar after a later lag does so after
/// every earlier one.
proof fn lemma_earlier_lags_fit(date: Date, lag: int, earlier: int)
    requires
        date.is_valid(),
        0 <= earlier <= lag,
        month_shift_clamped(date, lag).is_some(),
    ensures
        month_shift_clamped(date, earlier).is_some(),
{
    let base = date.year * 12 + (date.month - 1);
    assert(date.year == base / 12);
    assert((base + earlier) / 12 <= (base + lag) / 12);
    assert((base + earlier) / 12 >= base / 12);
}

/// Whether each month of usage has a later month within the calendar for
/// every lag below `lags`.
pub fn lags_fit(usage: &Vec<(Date, i64)>, lags: u32) -> (r: bool)
    requires
        usage_ok(usage@),
    ensures
        r == lags_in_calendar(usage@, lags as int),
{
    if lags == 0 {
        return true;
    }
    let mut k: usize = 0;
    while k < usage.len()
        invariant
            0 <= k <= usage.len(),
            lags > 0,
            usage_ok(usage@),
            forall|i: int, j: int|
                0 <= i < k && 0 <= j < lags ==> (#[trigger] month_shift_clamped(
                    usage@[i].0,
                    j,
                )).is_some(),
        decreases usage.len() - k,
    {
        let date: Date = usage[k].0;
        let last: Option<Date> = date.checked_add_months(lags - 1);
        if last.is_none() {
            assert(month_shift_clamped(usage@[k as int].0, lags - 1).is_none());
            return false;
        }
        proof {
            assert forall|j: int| 0 <= j < lags implies (#[trigger] month_shift_clamped(
                usage@[k as int].0,
                j,
            )).is_some() by {
                lemma_earlier_lags_fit(date, lags - 1, j);
            }
        }
        k += 1;
    }
    true
}

/// A sequence has no more first occurrences than entries.
pub proof fn lemma_first_occurrences_len(s: Seq<i32>)
    ensures
        first_occurrences(s).len() <= s.len(),
    decreases s.len(),
{
    if s.len() > 0 {
        lemma_first_occurrences_len(s.drop_last());
    }
}

/// Lags the usage by the unit response table: for each reach of the table,
/// in the order in which the table first names them, the series of what
/// reaches it in each month, in billionths of a micro-acre-foot.
pub fn urf_lagging(usage: &Vec<(Date, i64)>, urf: Vec<UrfValue>) -> (r: Vec<
    (i32, Vec<(Date, i128)>),
>)
    requires
        usage_ok(usage@),
        urf@.len() <= MAX_URF,
        forall|reach: i32|
            lags_in_calendar(usage@, #[trigger] reach_entries(urf@, reach).len() as int),
    ensures
        r@.len() == first_occurrences(reaches_of(urf@)).len(),
        r@.len() <= urf@.len(),
        forall|i: int|
            0 <= i < r@.len() ==> (#[trigger] r@[i]).0 == first_occurrences(reaches_of(urf@))[i]
                && r@[i].1@ == reach_series(usage@, urf@, r@[i].0) && series_ok(r@[i].1@)
                && distinct_dates(r@[i].1@),
{
    let mut named: Vec<i32> = Vec::new();
    let mut i: usize = 0;
    while i < urf.len()
        invariant
            0 <= i <= urf.len(),
            named@.len() == i,
            forall|j: int| 0 <= j < i ==> named@[j] == urf@[j].reach,
        decreases urf.len() - i,
    {
        named.push(urf[i].reach);
        i += 1;
    }
    assert(named@ =~= reaches_of(urf@));
    proof {
        lemma_first_occurrences_len(named@);
    }
    let reaches: Vec<i32> = unique_in_order(named);
    let mut lagged: Vec<(i32, Vec<(Date, i128)>)> = Vec::new();
    let mut at: usize = 0;
    while at < reaches.len()
        invariant
            0 <= at <= reaches.len(),
            usage_ok(usage@),
            urf@.len() <= MAX_URF,
            forall|reach: i32|
                lags_in_calendar(usage@, #[trigger] reach_entries(urf@, reach).len() as int),
            reaches@ == first_occurrences(reaches_of(urf@)),
            lagged@.len() == at,
            forall|j: int|
                0 <= j < at ==> (#[trigger] lagged@[j]).0 == reaches@[j] && lagged@[j].1@
                    == reach_series(usage@, urf@, lagged@[j].0) && series_ok(lagged@[j].1@)
                    && distinct_dates(lagged@[j].1@),
        decreases reaches.len() - at,
    {
        let reach: i32 = reaches[at];
        let weights: Vec<i32> = weights_of_reach(&urf, reach);
        let series: Vec<(Date, i128)> = lag_with_weights(usage, &weights);
        proof {
            lemma_reach_series_sums_lagged_usage(
                usage@,
                urf@,
                reach,
                Date { year: 1, month: 1, day: 1 },
            );
        }
        lagged.push((reach, series));
        at += 1;
    }
    lagged
}

/// Combines the series of all reaches into one: the amounts of each date
/// added up over the reaches, in ascending order of date.
pub fn combined_urf_results(values: Vec<(i32, Vec<(Date, i128)>)>) -> (r: Vec<(Date, i128)>)
    requires
        values@.len() <= MAX_URF,
        forall|m: int| 0 <= m < values@.len() ==> series_ok((#[trigger] values@[m]).1@),
    ensures
        r@ == combined(values@),
        ascending_dates(r@),
{
    let mut sums: Vec<(Date, i128)> = Vec::new();
    let mut m: usize = 0;
    while m < values.len()
        invariant
            0 <= m <= values.len(),
            values@.len() <= MAX_URF,
            forall|i: int| 0 <= i < values@.len() ==> series_ok((#[trigger] values@[i]).1@),
            sums@ == merged(values@, m as int),
            within(sums@, m * MAX_SERIES_LEN * MAX_SERIES_AMOUNT),
        decreases values.len() - m,
    {
        let series: &Vec<(Date, i128)> = &values[m].1;
        assert(series_ok(values@[m as int].1@));
        let mut n: usize = 0;
        while n < series.len()
            invariant
                0 <= n <= series.len(),
                m < values.len(),
                values@.len() <= MAX_URF,
                series@ == values@[m as int].1@,
                series_ok(series@),
                sums@ == merge_series(merged(values@, m as int), series@, n as int),
                within(sums@, (m * MAX_SERIES_LEN + n) * MAX_SERIES_AMOUNT),
            decreases series.len() - n,
        {
            let entry: (Date, i128) = series[n];
            accumulate(
                &mut sums,
                entry.0,
                entry.1,
                Ghost((m * MAX_SERIES_LEN + n) * MAX_SERIES_AMOUNT),
                Ghost(MAX_SERIES_AMOUNT as int),
            );
            n += 1;
        }
        m += 1;
    }
    proof {
        lemma_sorted_by_date_ascending(sums@);
    }
    sort_by_key_date(&mut sums);
    sums
}

} // verus!
