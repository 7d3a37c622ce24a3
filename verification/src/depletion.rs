//! Superposition of daily pumping against a step response, the monthly
//! totals of the depletion that results, and the windowed monthly result.

use crate::calendar::add_months;
use crate::calendar::lemma_day_number_range;
use crate::calendar::month_shift;
use crate::calendar::Date;
use crate::daily::monthly_pumping_to_daily;
use crate::daily::daily_rate;
use crate::daily::daily_series;
use crate::daily::window_start;
use crate::daily::usage_ok;
use crate::daily::DailyRates;
use crate::daily::DailySeries;
use crate::daily::MAX_RATE;
use vstd::prelude::*;

verus! {

/// The response fraction 1, in billionths.
pub const FRACTION_ONE: u32 = 1_000_000_000;

/// What one micro-acre-foot of monthly depletion is in the engine's own
/// unit, a billionth of a micro-cubic-foot.
pub const RESULT_SCALE: i128 = 43_560_000_000_000;

/// Monthly depletion at or below this many micro-acre-feet is left out of
/// the result.
pub const NOISE_THRESHOLD: i128 = 1_000;

/// The largest magnitude of what one pumping day adds to one day.
pub const MAX_TERM: i128 = 0x0800_0000_0000_0000_0000_0000;

/// The largest magnitude of one day's depletion.
pub const MAX_DAILY: i128 = 0x0080_0000_0000_0000_0000_0000_0000_0000;

/// The growth of the step response from elapsed day `elapsed - 1` to
/// `elapsed`; on day 0 the response itself.
pub open spec fn response_step(response: Seq<u32>, elapsed: int) -> int {
    if elapsed <= 0 {
        response[0] as int
    } else {
        response[elapsed] - response[elapsed - 1]
    }
}

/// What pumping at `rate` adds to the depletion of the day that lies
/// `elapsed + 1` days later. Days without pumping add nothing.
pub open spec fn contribution(rate: int, response: Seq<u32>, elapsed: int) -> int {
    if rate > 0 && 0 <= elapsed < response.len() {
        rate * response_step(response, elapsed)
    } else {
        0
    }
}

/// What the first `n` days of the series add to the depletion of `day`.
pub open spec fn depletion_from(series: DailySeries, response: Seq<u32>, day: int, n: int) -> int
    decreases n,
{
    if n <= 0 {
        0
    } else {
        depletion_from(series, response, day, n - 1) + contribution(
            series.rates[n - 1],
            response,
            day - (series.first_day + n - 1) - 1,
        )
    }
}

/// The depletion of `day`: the sum of what each pumping day adds to it.
pub open spec fn depletion_on(series: DailySeries, response: Seq<u32>, day: int) -> int {
    depletion_from(series, response, day, series.rates.len() as int)
}

/// The depletion of the `days` days from day `start` on.
pub open spec fn depletion_over(
    series: DailySeries,
    response: Seq<u32>,
    start: int,
    days: int,
) -> int
    decreases days,
{
    if days <= 0 {
        0
    } else {
        depletion_over(series, response, start, days - 1) + depletion_on(
            series,
            response,
            start + days - 1,
        )
    }
}

/// The depletion that is booked under `date`: that of the whole month where
/// `date` is a month's first day, and none under any other day.
pub open spec fn monthly_depletion(series: DailySeries, response: Seq<u32>, date: Date) -> int {
    if date.day == 1 {
        depletion_over(series, response, date.month_start(), date.month_len())
    } else {
        0
    }
}

/// Whether the result ends at the month `m` months after `start`: the month
/// has no day with the start's day of the month, or its depletion is negative.
pub open spec fn halts_at(series: DailySeries, response: Seq<u32>, start: Date, m: int) -> bool {
    match month_shift(start, m) {
        None => true,
        Some(date) => monthly_depletion(series, response, date) < 0,
    }
}

/// Whether the result ends at one of the first `n` months.
pub open spec fn halted(series: DailySeries, response: Seq<u32>, start: Date, n: int) -> bool
    decreases n,
{
    n > 0 && (halted(series, response, start, n - 1) || halts_at(series, response, start, n - 1))
}

/// The result over the first `n` months from `start`: each month before the
/// one at which the result ends whose depletion, in whole micro-acre-feet, is
/// above the noise threshold.
pub open spec fn results_upto(
    series: DailySeries,
    response: Seq<u32>,
    start: Date,
    n: int,
) -> Seq<(Date, i128)>
    decreases n,
{
    if n <= 0 {
        Seq::empty()
    } else {
        let before = results_upto(series, response, start, n - 1);
        if halted(series, response, start, n) {
            before
        } else {
            let date = month_shift(start, n - 1).unwrap();
            let value = monthly_depletion(series, response, date) / (RESULT_SCALE as int);
            if value > NOISE_THRESHOLD {
                before.push((date, value as i128))
            } else {
                before
            }
        }
    }
}

/// The earliest date of a usage series.
pub open spec fn earliest(usage: Seq<(Date, i64)>) -> Date
    decreases usage.len(),
{
    if usage.len() <= 1 {
        usage[0].0
    } else {
        let rest = earliest(usage.drop_last());
        if usage.last().0.is_before(rest) {
            usage.last().0
        } else {
            rest
        }
    }
}

/// The monthly depletion that a usage series causes under a step response,
/// over `total_months` months from the series' earliest date.
pub open spec fn depletion_results(
    usage: Seq<(Date, i64)>,
    response: Seq<u32>,
    total_months: int,
) -> Seq<(Date, i128)> {
    results_upto(daily_series(usage), response, earliest(usage), total_months)
}

/// Millionths of a day in one day.
pub const MICRO_DAYS: u64 = 1_000_000;

/// The number of whole days that `total_months` months of
/// `days_per_month` millionths of a day each take: the product, rounded up.
pub open spec fn horizon_days(total_months: int, days_per_month: int) -> int {
    (total_months * days_per_month + (MICRO_DAYS - 1)) / (MICRO_DAYS as int)
}

/// The length of the step response for a horizon of `total_months` months:
/// one elapsed day for each day of the horizon, a started day counting as a
/// whole one. `days_per_month` is the average length of a month in
/// millionths of a day.
pub fn response_days(total_months: u32, days_per_month: u32) -> (r: u64)
    ensures
        r as int == horizon_days(total_months as int, days_per_month as int),
        (r - 1) * MICRO_DAYS < total_months * days_per_month <= r * MICRO_DAYS,
{
    assert(0 <= total_months * days_per_month <= 0xffff_ffff * 0xffff_ffff) by (nonlinear_arith)
        requires
            0 <= total_months <= 0xffff_ffff,
            0 <= days_per_month <= 0xffff_ffff,
    ;
    let product: u64 = (total_months as u64) * (days_per_month as u64);
    let days: u64 = (product + (MICRO_DAYS - 1)) / MICRO_DAYS;
    proof {
        vstd::arithmetic::div_mod::lemma_fundamental_div_mod(
            product + (MICRO_DAYS - 1),
            MICRO_DAYS as int,
        );
    }
    days
}

/// A product is as small as its factors.
proof fn lemma_term_range(rate: int, step: int)
    requires
        0 < rate < MAX_RATE,
        -0x1_0000_0000 < step < 0x1_0000_0000,
    ensures
        -MAX_TERM < rate * step < MAX_TERM,
{
    assert(rate * step < 0x0800_0000_0000_0000 * 0x1_0000_0000 && rate * step
        > -0x0800_0000_0000_0000 * 0x1_0000_0000) by (nonlinear_arith)
        requires
            0 < rate < 0x0800_0000_0000_0000,
            -0x1_0000_0000 < step < 0x1_0000_0000,
    ;
}

/// The depletion of day `day`, in billionths of a micro-cubic-foot: for each
/// day with pumping, the rate times the growth of the response on the day
/// that `day` is after it.
pub fn daily_depletion(rates: &DailyRates, response: &Vec<u32>, day: i32) -> (r: i128)
    requires
        rates.wf(),
    ensures
        r as int == depletion_on(rates@, response@, day as int),
        -MAX_DAILY <= r <= MAX_DAILY,
{
    let n: usize = rates.rates.len();
    let mut total: i128 = 0;
    let mut j: usize = 0;
    while j < n
        invariant
            0 <= j <= n,
            n == rates.rates@.len(),
            rates.wf(),
            total as int == depletion_from(rates@, response@, day as int, j as int),
            -(j * MAX_TERM) <= total <= j * MAX_TERM,
        decreases n - j,
    {
        let rate: i64 = rates.rates[j];
        let elapsed: i64 = day as i64 - (rates.first_day as i64 + j as i64) - 1;
        if rate > 0 && elapsed >= 0 && (elapsed as u64) < (response.len() as u64) {
            let at: usize = elapsed as usize;
            let step: i64 = if at == 0 {
                response[0] as i64
            } else {
                response[at] as i64 - response[at - 1] as i64
            };
            proof {
                lemma_term_range(rate as int, step as int);
            }
            total = total + (rate as i128) * (step as i128);
        }
        j += 1;
    }
    total
}

/// The depletion booked under `date`, in billionths of a micro-cubic-foot:
/// the sum over the days of its month where it is a month's first day.
pub fn monthly_total(rates: &DailyRates, response: &Vec<u32>, date: &Date) -> (r: i128)
    requires
        rates.wf(),
        date.is_valid(),
    ensures
        r as int == monthly_depletion(rates@, response@, *date),
        -(31 * MAX_DAILY) <= r <= 31 * MAX_DAILY,
{
    if date.day != 1 {
        return 0;
    }
    proof {
        lemma_day_number_range(*date);
    }
    let start: i32 = date.num_days_from_ce();
    let days: u8 = date.num_days_in_month();
    let mut total: i128 = 0;
    let mut t: u8 = 0;
    while t < days
        invariant
            0 <= t <= days <= 31,
            rates.wf(),
            -96_000_000 < start < 96_000_000,
            total as int == depletion_over(rates@, response@, start as int, t as int),
            -(t * MAX_DAILY) <= total <= t * MAX_DAILY,
        decreases days - t,
    {
        let amount: i128 = daily_depletion(rates, response, start + t as i32);
        total = total + amount;
        t += 1;
    }
    total
}

/// The earliest date of the series.
pub fn series_start(usage: &Vec<(Date, i64)>) -> (r: Date)
    requires
        usage.len() > 0,
    ensures
        r == earliest(usage@),
        exists|k: int| 0 <= k < usage.len() && r == usage@[k].0,
{
    let mut best: Date = usage[0].0;
    let mut k: usize = 1;
    assert(usage@.take(1).len() == 1);
    while k < usage.len()
        invariant
            1 <= k <= usage.len(),
            best == earliest(usage@.take(k as int)),
            exists|i: int| 0 <= i < k && best == usage@[i].0,
        decreases usage.len() - k,
    {
        proof {
            assert(usage@.take(k + 1).drop_last() =~= usage@.take(k as int));
            assert(usage@.take(k + 1).last() == usage@[k as int]);
        }
        if usage[k].0.precedes(&best) {
            best = usage[k].0;
        }
        k += 1;
    }
    assert(usage@.take(usage.len() as int) =~= usage@);
    best
}

/// Once the result has ended, further months add nothing to it.
pub proof fn lemma_nothing_after_halt(
    series: DailySeries,
    response: Seq<u32>,
    start: Date,
    m: int,
    n: int,
)
    requires
        0 <= m < n,
        halts_at(series, response, start, m),
    ensures
        halted(series, response, start, n),
        results_upto(series, response, start, n) == results_upto(series, response, start, m),
    decreases n,
{
    if n > m + 1 {
        lemma_nothing_after_halt(series, response, start, m, n - 1);
    }
}

/// What pumping at `rate` on one day has depleted by elapsed day `n - 1`:
/// the sum of what it adds to each of the `n` days after it.
pub open spec fn cumulative(rate: int, response: Seq<u32>, n: int) -> int
    decreases n,
{
    if n <= 0 {
        0
    } else {
        cumulative(rate, response, n - 1) + contribution(rate, response, n - 1)
    }
}

/// Superposition by first differences: what one day of pumping adds to the
/// days after it sums, up to any elapsed day, to the rate times the step
/// response of that elapsed day.
pub proof fn lemma_steps_add_up_to_response(rate: int, response: Seq<u32>, n: int)
    requires
        rate > 0,
        0 < n <= response.len(),
    ensures
        cumulative(rate, response, n) == rate * response[n - 1],
    decreases n,
{
    if n > 1 {
        lemma_steps_add_up_to_response(rate, response, n - 1);
        let now = response[n - 1] as int;
        let before = response[n - 2] as int;
        assert(rate * before + rate * (now - before) == rate * now) by (nonlinear_arith);
    } else {
        assert(cumulative(rate, response, 0) == 0);
    }
}

/// The depletion of a stretch of days is that of its first days plus that
/// of the days that follow them.
pub proof fn lemma_depletion_over_adds(
    series: DailySeries,
    response: Seq<u32>,
    start: int,
    first: int,
    rest: int,
)
    requires
        0 <= first,
        0 <= rest,
    ensures
        depletion_over(series, response, start, first + rest) == depletion_over(
            series,
            response,
            start,
            first,
        ) + depletion_over(series, response, start + first, rest),
    decreases rest,
{
    if rest > 0 {
        lemma_depletion_over_adds(series, response, start, first, rest - 1);
    }
}

/// Whether the step response never falls from one elapsed day to the next.
pub open spec fn non_decreasing(response: Seq<u32>) -> bool {
    forall|i: int| 0 < i < response.len() ==> response[i - 1] <= #[trigger] response[i]
}

/// Under a response that never falls, what the first `n` days of a series
/// add to a day is not negative.
proof fn lemma_rising_response_adds(series: DailySeries, response: Seq<u32>, day: int, n: int)
    requires
        non_decreasing(response),
        n <= series.rates.len(),
    ensures
        depletion_from(series, response, day, n) >= 0,
    decreases n,
{
    if n > 0 {
        lemma_rising_response_adds(series, response, day, n - 1);
        let rate = series.rates[n - 1];
        let elapsed = day - (series.first_day + n - 1) - 1;
        if rate > 0 && 0 <= elapsed < response.len() {
            let step = response_step(response, elapsed);
            assert(step >= 0);
            assert(rate * step >= 0) by (nonlinear_arith)
                requires
                    rate > 0,
                    step >= 0,
            ;
        }
    }
}

/// Under a response that never falls, no stretch of days has negative
/// depletion.
proof fn lemma_rising_response_depletes(
    series: DailySeries,
    response: Seq<u32>,
    start: int,
    days: int,
)
    requires
        non_decreasing(response),
    ensures
        depletion_over(series, response, start, days) >= 0,
    decreases days,
{
    if days > 0 {
        lemma_rising_response_depletes(series, response, start, days - 1);
        lemma_rising_response_adds(
            series,
            response,
            start + days - 1,
            series.rates.len() as int,
        );
    }
}

/// Under a step response that never falls, no month's depletion is
/// negative, so the result ends early only where a month lacks the start's
/// day of the month.
pub proof fn lemma_rising_response_never_negative(
    series: DailySeries,
    response: Seq<u32>,
    start: Date,
    m: int,
)
    requires
        non_decreasing(response),
    ensures
        halts_at(series, response, start, m) <==> month_shift(start, m).is_none(),
        forall|date: Date| monthly_depletion(series, response, date) >= 0,
{
    assert forall|date: Date| monthly_depletion(series, response, date) >= 0 by {
        lemma_rising_response_depletes(series, response, date.month_start(), date.month_len());
    }
}

/// A series without volume has no rate on any day.
proof fn lemma_no_volume_no_rate(usage: Seq<(Date, i64)>, day: int)
    requires
        forall|k: int| 0 <= k < usage.len() ==> (#[trigger] usage[k]).1 == 0,
    ensures
        daily_rate(usage, day) == 0,
    decreases usage.len(),
{
    if usage.len() > 0 {
        let rest = usage.drop_last();
        assert forall|k: int| 0 <= k < rest.len() implies (#[trigger] rest[k]).1 == 0 by {
            assert(rest[k] == usage[k]);
        }
        lemma_no_volume_no_rate(rest, day);
        let entry = usage[usage.len() - 1];
        vstd::arithmetic::div_mod::lemma_div_of0(entry.0.month_len());
    }
}

/// Days without pumping deplete no day.
proof fn lemma_idle_days_add_nothing(series: DailySeries, response: Seq<u32>, day: int, n: int)
    requires
        n <= series.rates.len(),
        forall|j: int| 0 <= j < series.rates.len() ==> #[trigger] series.rates[j] <= 0,
    ensures
        depletion_from(series, response, day, n) == 0,
    decreases n,
{
    if n > 0 {
        lemma_idle_days_add_nothing(series, response, day, n - 1);
    }
}

/// Days without pumping deplete no stretch of days.
proof fn lemma_idle_days_deplete_nothing(
    series: DailySeries,
    response: Seq<u32>,
    start: int,
    days: int,
)
    requires
        forall|j: int| 0 <= j < series.rates.len() ==> #[trigger] series.rates[j] <= 0,
    ensures
        depletion_over(series, response, start, days) == 0,
    decreases days,
{
    if days > 0 {
        lemma_idle_days_deplete_nothing(series, response, start, days - 1);
        lemma_idle_days_add_nothing(
            series,
            response,
            start + days - 1,
            series.rates.len() as int,
        );
    }
}

/// Days without pumping give an empty result.
proof fn lemma_idle_days_give_nothing(series: DailySeries, response: Seq<u32>, start: Date, n: int)
    requires
        forall|j: int| 0 <= j < series.rates.len() ==> #[trigger] series.rates[j] <= 0,
    ensures
        results_upto(series, response, start, n) == Seq::<(Date, i128)>::empty(),
    decreases n,
{
    if n > 0 {
        lemma_idle_days_give_nothing(series, response, start, n - 1);
        if !halted(series, response, start, n) {
            let date = month_shift(start, n - 1).unwrap();
            lemma_idle_days_deplete_nothing(series, response, date.month_start(), date.month_len());
            vstd::arithmetic::div_mod::lemma_div_of0(RESULT_SCALE as int);
        }
    }
}

/// Without pumping there is no depletion: a usage series whose volumes are
/// all zero gives an empty result, whatever the step response and horizon.
pub proof fn lemma_no_pumping_no_depletion(
    usage: Seq<(Date, i64)>,
    response: Seq<u32>,
    total_months: int,
)
    requires
        forall|k: int| 0 <= k < usage.len() ==> (#[trigger] usage[k]).1 == 0,
    ensures
        depletion_results(usage, response, total_months) == Seq::<(Date, i128)>::empty(),
{
    let series = daily_series(usage);
    assert forall|j: int| 0 <= j < series.rates.len() implies #[trigger] series.rates[j] <= 0 by {
        lemma_no_volume_no_rate(usage, window_start(usage) + j);
    }
    lemma_idle_days_give_nothing(series, response, earliest(usage), total_months);
}

/// A month's depletion in whole micro-acre-feet is no larger than in the
/// engine's own unit.
proof fn lemma_scaled_range(total: int)
    requires
        -(31 * MAX_DAILY) <= total <= 31 * MAX_DAILY,
    ensures
        -(31 * MAX_DAILY) <= total / (RESULT_SCALE as int) <= 31 * MAX_DAILY,
        total >= 0 ==> total / (RESULT_SCALE as int) >= 0,
{
    if total >= 0 {
        vstd::arithmetic::div_mod::lemma_div_pos_is_pos(total, RESULT_SCALE as int);
        vstd::arithmetic::div_mod::lemma_div_is_ordered_by_denominator(
            total,
            1,
            RESULT_SCALE as int,
        );
    } else {
        vstd::arithmetic::div_mod::lemma_fundamental_div_mod(total, RESULT_SCALE as int);
        let q = total / (RESULT_SCALE as int);
        assert(q >= total) by (nonlinear_arith)
            requires
                total == 43_560_000_000_000 * q + total % 43_560_000_000_000,
                0 <= total % 43_560_000_000_000 < 43_560_000_000_000,
                total < 0,
        ;
        assert(q <= 0) by (nonlinear_arith)
            requires
                total == 43_560_000_000_000 * q + total % 43_560_000_000_000,
                0 <= total % 43_560_000_000_000 < 43_560_000_000_000,
                total < 0,
        ;
    }
}

/// Walks `total_months` months from the earliest date of `usage`, one by one,
/// and lists each month's depletion in whole micro-acre-feet. The walk ends at
/// the first month whose depletion is negative, or which lacks the start's
/// day of the month; months at or below the noise threshold are left out.
pub fn create_results_vector(
    usage: &Vec<(Date, i64)>,
    total_months: usize,
    rates: &DailyRates,
    response: &Vec<u32>,
) -> (r: Vec<(Date, i128)>)
    requires
        usage.len() > 0,
        usage_ok(usage@),
        rates.wf(),
    ensures
        r@ == results_upto(rates@, response@, earliest(usage@), total_months as int),
        r@.len() <= total_months,
        forall|i: int| 0 <= i < r@.len() ==> (#[trigger] r@[i]).1 > NOISE_THRESHOLD,
{
    let start: Date = series_start(usage);
    let mut results: Vec<(Date, i128)> = Vec::new();
    let mut m: usize = 0;
    let mut done: bool = false;
    while m < total_months && !done
        invariant
            0 <= m <= total_months,
            start.is_valid(),
            rates.wf(),
            done ==> m < total_months && halts_at(rates@, response@, start, m as int),
            !halted(rates@, response@, start, m as int),
            results@ == results_upto(rates@, response@, start, m as int),
            results@.len() <= m,
            forall|i: int| 0 <= i < results@.len() ==> (#[trigger] results@[i]).1 > NOISE_THRESHOLD,
        decreases total_months - m + (if done { 0int } else { 1int }),
    {
        if m > 0x7fff_ffff {
            done = true;
        } else {
            match add_months(start, m as i32) {
                None => {
                    done = true;
                },
                Some(date) => {
                    let total: i128 = monthly_total(rates, response, &date);
                    if total < 0 {
                        done = true;
                    } else {
                        proof {
                            lemma_scaled_range(total as int);
                        }
                        let value: i128 = total / RESULT_SCALE;
                        if value > NOISE_THRESHOLD {
                            results.push((date, value));
                        }
                        m += 1;
                    }
                },
            }
        }
    }
    proof {
        if done {
            lemma_nothing_after_halt(rates@, response@, start, m as int, total_months as int);
        }
    }
    results
}

/// The monthly stream depletion that the pumping of `usage` causes under the
/// step response `response`, for `total_months` months from the earliest
/// date of `usage`. Volumes are micro-acre-feet, response fractions
/// billionths, one for each elapsed day.
pub fn calculate_streamflow_depletion(
    usage: &Vec<(Date, i64)>,
    response: &Vec<u32>,
    total_months: usize,
) -> (r: Vec<(Date, i128)>)
    requires
        usage.len() > 0,
        usage_ok(usage@),
    ensures
        r@ == depletion_results(usage@, response@, total_months as int),
        r@.len() <= total_months,
        forall|i: int| 0 <= i < r@.len() ==> (#[trigger] r@[i]).1 > NOISE_THRESHOLD,
{
    let rates: DailyRates = monthly_pumping_to_daily(usage);
    create_results_vector(usage, total_months, &rates, response)
}

} // verus!
