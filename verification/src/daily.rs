//! Daily expansion: a monthly pumping schedule spread over the days of its
//! months, as one dense series of daily rates.

use crate::calendar::lemma_day_number_range;
use crate::calendar::Date;
use vstd::prelude::*;

verus! {

/// Cubic feet in one acre-foot.
pub const CUBIC_FEET_PER_ACRE_FOOT: i64 = 43_560;

/// The largest magnitude of a monthly volume, in micro-acre-feet.
pub const MAX_VOLUME: i64 = 68_719_476_736;

/// The largest number of entries of a monthly usage series.
pub const MAX_MONTHS: usize = 4096;

/// The largest magnitude that a daily rate can reach.
pub const MAX_RATE: i64 = 0x0800_0000_0000_0000;

/// The largest magnitude that one entry adds to a daily rate.
pub const MAX_MONTH_RATE: i64 = 0x8000_0000_0000;

/// The largest number of days that a daily series can span.
pub const MAX_SPAN: i64 = 0x1000_0000;

/// A daily series as a mathematical value: the number of its first day and
/// the rate of each day from there on. Every other day has rate 0.
pub struct DailySeries {
    pub first_day: int,
    pub rates: Seq<int>,
}

impl DailySeries {
    /// The rate of day `day`.
    pub open spec fn rate_on(self, day: int) -> int {
        if self.first_day <= day < self.first_day + self.rates.len() {
            self.rates[day - self.first_day]
        } else {
            0
        }
    }

    /// The sum of the rates of the first `n` days.
    pub open spec fn total_upto(self, n: int) -> int
        decreases n,
    {
        if n <= 0 {
            0
        } else {
            self.total_upto(n - 1) + self.rates[n - 1]
        }
    }

    /// The sum of all rates.
    pub open spec fn total(self) -> int {
        self.total_upto(self.rates.len() as int)
    }
}

/// Daily pumping rates, in micro-cubic-feet per day, of the days from
/// `first_day` on.
pub struct DailyRates {
    pub first_day: i32,
    pub rates: Vec<i64>,
}

impl View for DailyRates {
    type V = DailySeries;

    open spec fn view(&self) -> DailySeries {
        DailySeries {
            first_day: self.first_day as int,
            rates: Seq::new(self.rates@.len(), |j: int| self.rates@[j] as int),
        }
    }
}

impl DailyRates {
    /// The series is short enough and its rates small enough for the sums
    /// that the engine forms of them.
    pub open spec fn wf(&self) -> bool {
        &&& self.rates@.len() <= MAX_SPAN
        &&& forall|j: int|
            0 <= j < self.rates@.len() ==> -MAX_RATE < #[trigger] self.rates@[j] < MAX_RATE
    }
}

/// Whether every entry is a day of the calendar with a volume in range.
pub open spec fn usage_ok(usage: Seq<(Date, i64)>) -> bool {
    &&& usage.len() <= MAX_MONTHS
    &&& forall|k: int|
        0 <= k < usage.len() ==> (#[trigger] usage[k]).0.is_valid() && -MAX_VOLUME
            <= usage[k].1 <= MAX_VOLUME
}

/// The rate at which an entry's volume is pumped on each day of its month:
/// the volume in cubic feet over the month's days, rounded towards zero.
pub open spec fn month_rate(entry: (Date, i64)) -> int {
    if entry.1 >= 0 {
        entry.1 * CUBIC_FEET_PER_ACRE_FOOT / entry.0.month_len()
    } else {
        -((-entry.1) * CUBIC_FEET_PER_ACRE_FOOT / entry.0.month_len())
    }
}

/// What an entry adds to the rate of day `day`.
pub open spec fn spread(entry: (Date, i64), day: int) -> int {
    if entry.0.month_start() <= day < entry.0.month_start() + entry.0.month_len() {
        month_rate(entry)
    } else {
        0
    }
}

/// The pumping rate of day `day`: the sum of what each entry adds to it.
pub open spec fn daily_rate(usage: Seq<(Date, i64)>, day: int) -> int
    decreases usage.len(),
{
    if usage.len() == 0 {
        0
    } else {
        daily_rate(usage.drop_last(), day) + spread(usage.last(), day)
    }
}

/// The first day of the earliest month of the series.
pub open spec fn window_start(usage: Seq<(Date, i64)>) -> int
    decreases usage.len(),
{
    if usage.len() == 0 {
        0
    } else if usage.len() == 1 {
        usage[0].0.month_start()
    } else {
        let rest = window_start(usage.drop_last());
        let own = usage.last().0.month_start();
        if own < rest {
            own
        } else {
            rest
        }
    }
}

/// The day after the last day of the latest month of the series.
pub open spec fn window_end(usage: Seq<(Date, i64)>) -> int
    decreases usage.len(),
{
    if usage.len() == 0 {
        0
    } else if usage.len() == 1 {
        usage[0].0.month_start() + usage[0].0.month_len()
    } else {
        let rest = window_end(usage.drop_last());
        let own = usage.last().0.month_start() + usage.last().0.month_len();
        if own > rest {
            own
        } else {
            rest
        }
    }
}

/// The daily rate series of a monthly usage series: the rate of every day
/// from the first day of its earliest month to the last day of its latest.
pub open spec fn daily_series(usage: Seq<(Date, i64)>) -> DailySeries {
    DailySeries {
        first_day: window_start(usage),
        rates: Seq::new(
            (window_end(usage) - window_start(usage)) as nat,
            |j: int| daily_rate(usage, window_start(usage) + j),
        ),
    }
}

/// Every month of the series lies between its window's start and end.
pub proof fn lemma_window_holds_months(usage: Seq<(Date, i64)>, k: int)
    requires
        0 <= k < usage.len(),
    ensures
        window_start(usage) <= usage[k].0.month_start(),
        usage[k].0.month_start() + usage[k].0.month_len() <= window_end(usage),
    decreases usage.len(),
{
    if usage.len() > 1 && k < usage.len() - 1 {
        lemma_window_holds_months(usage.drop_last(), k);
    }
}

/// No day outside the window has a rate.
proof fn lemma_no_rate_outside_window(usage: Seq<(Date, i64)>, n: int, day: int)
    requires
        0 <= n <= usage.len(),
        day < window_start(usage) || day >= window_end(usage),
    ensures
        daily_rate(usage.take(n), day) == 0,
    decreases n,
{
    if n > 0 {
        lemma_no_rate_outside_window(usage, n - 1, day);
        lemma_window_holds_months(usage, n - 1);
        assert(usage.take(n).drop_last() =~= usage.take(n - 1));
    }
}

/// The daily series holds the rate of every day: within its window the rate
/// that the usage gives the day, and beyond it the usage gives none.
pub proof fn lemma_daily_series_holds_every_rate(usage: Seq<(Date, i64)>, day: int)
    ensures
        daily_series(usage).rate_on(day) == daily_rate(usage, day),
{
    if day < window_start(usage) || day >= window_end(usage) {
        lemma_no_rate_outside_window(usage, usage.len() as int, day);
        assert(usage.take(usage.len() as int) =~= usage);
    }
}

/// The rate of one entry is small.
proof fn lemma_month_rate_range(entry: (Date, i64))
    requires
        entry.0.is_valid(),
        -MAX_VOLUME <= entry.1 <= MAX_VOLUME,
    ensures
        -MAX_MONTH_RATE < month_rate(entry) < MAX_MONTH_RATE,
        entry.1 == 0 ==> month_rate(entry) == 0,
{
    let days = entry.0.month_len();
    let magnitude: int = if entry.1 >= 0 {
        entry.1 as int
    } else {
        -entry.1
    };
    let cubic = magnitude * 43_560;
    vstd::arithmetic::div_mod::lemma_div_is_ordered_by_denominator(cubic, 28, days);
    vstd::arithmetic::div_mod::lemma_div_pos_is_pos(cubic, days);
}

/// The sum of the volumes of a usage series.
pub open spec fn total_volume(usage: Seq<(Date, i64)>) -> int
    decreases usage.len(),
{
    if usage.len() == 0 {
        0
    } else {
        total_volume(usage.drop_last()) + usage.last().1
    }
}

/// The sum of the rates of the `n` days from day `from` on.
pub open spec fn rate_sum(usage: Seq<(Date, i64)>, from: int, n: int) -> int
    decreases n,
{
    if n <= 0 {
        0
    } else {
        rate_sum(usage, from, n - 1) + daily_rate(usage, from + n - 1)
    }
}

/// What one entry adds to the rates of the `n` days from day `from` on.
pub open spec fn spread_sum(entry: (Date, i64), from: int, n: int) -> int
    decreases n,
{
    if n <= 0 {
        0
    } else {
        spread_sum(entry, from, n - 1) + spread(entry, from + n - 1)
    }
}

/// The rates of a stretch of days are those without the last entry plus
/// what the last entry adds.
proof fn lemma_rate_sum_splits(usage: Seq<(Date, i64)>, from: int, n: int)
    requires
        usage.len() > 0,
    ensures
        rate_sum(usage, from, n) == rate_sum(usage.drop_last(), from, n) + spread_sum(
            usage.last(),
            from,
            n,
        ),
    decreases n,
{
    if n > 0 {
        lemma_rate_sum_splits(usage, from, n - 1);
    }
}

/// Over a stretch of days that begins no later than its month, an entry adds
/// its rate once for each day of the month that the stretch holds.
proof fn lemma_spread_sum_counts(entry: (Date, i64), from: int, n: int)
    requires
        0 <= n,
        from <= entry.0.month_start(),
    ensures
        spread_sum(entry, from, n) == month_rate(entry) * (if from + n <= entry.0.month_start() {
            0
        } else if from + n >= entry.0.month_start() + entry.0.month_len() {
            entry.0.month_len()
        } else {
            from + n - entry.0.month_start()
        }),
    decreases n,
{
    if n > 0 {
        lemma_spread_sum_counts(entry, from, n - 1);
        let rate = month_rate(entry);
        let start = entry.0.month_start();
        let len = entry.0.month_len();
        let before: int = if from + n - 1 <= start {
            0
        } else if from + n - 1 >= start + len {
            len
        } else {
            from + n - 1 - start
        };
        assert(rate * (before + 1) == rate * before + rate) by (nonlinear_arith);
        assert(rate * 0 == 0);
    } else {
        assert(month_rate(entry) * 0 == 0);
    }
}

/// The volume in cubic feet that the daily rates of a series carry: for each
/// entry its rate times the days of its month.
pub open spec fn spread_volume(usage: Seq<(Date, i64)>) -> int
    decreases usage.len(),
{
    if usage.len() == 0 {
        0
    } else {
        spread_volume(usage.drop_last()) + month_rate(usage.last()) * usage.last().0.month_len()
    }
}

/// Over a stretch of days that holds every month of the series, the rates
/// add up to each entry's rate times the days of its month.
proof fn lemma_rate_sum_is_spread_volume(usage: Seq<(Date, i64)>, from: int, n: int)
    requires
        0 <= n,
        forall|k: int|
            0 <= k < usage.len() ==> from <= (#[trigger] usage[k]).0.month_start()
                && usage[k].0.month_start() + usage[k].0.month_len() <= from + n,
    ensures
        rate_sum(usage, from, n) == spread_volume(usage),
    decreases usage.len(),
{
    if usage.len() == 0 {
        lemma_no_rates_no_sum(usage, from, n);
    } else {
        let rest = usage.drop_last();
        assert forall|k: int| 0 <= k < rest.len() implies from <= (#[trigger] rest[k]).0.month_start()
            && rest[k].0.month_start() + rest[k].0.month_len() <= from + n by {
            assert(rest[k] == usage[k]);
        }
        lemma_rate_sum_is_spread_volume(rest, from, n);
        lemma_rate_sum_splits(usage, from, n);
        assert(usage.last() == usage[usage.len() - 1]);
        lemma_spread_sum_counts(usage.last(), from, n);
    }
}

/// An empty series has no rates.
proof fn lemma_no_rates_no_sum(usage: Seq<(Date, i64)>, from: int, n: int)
    requires
        usage.len() == 0,
    ensures
        rate_sum(usage, from, n) == 0,
    decreases n,
{
    if n > 0 {
        lemma_no_rates_no_sum(usage, from, n - 1);
    }
}

/// The first `n` rates of the daily series add up as the rates of its days.
proof fn lemma_series_total_is_rate_sum(usage: Seq<(Date, i64)>, n: int)
    requires
        0 <= n <= daily_series(usage).rates.len(),
    ensures
        daily_series(usage).total_upto(n) == rate_sum(usage, window_start(usage), n),
    decreases n,
{
    if n > 0 {
        lemma_series_total_is_rate_sum(usage, n - 1);
    }
}

/// Where each volume in cubic feet divides by the days of its month, the
/// rates carry exactly the volume.
proof fn lemma_exact_spread(usage: Seq<(Date, i64)>)
    requires
        forall|k: int|
            0 <= k < usage.len() ==> ((#[trigger] usage[k]).1 * CUBIC_FEET_PER_ACRE_FOOT)
                % usage[k].0.month_len() == 0,
    ensures
        spread_volume(usage) == total_volume(usage) * CUBIC_FEET_PER_ACRE_FOOT,
    decreases usage.len(),
{
    if usage.len() > 0 {
        let rest = usage.drop_last();
        assert forall|k: int| 0 <= k < rest.len() implies ((#[trigger] rest[k]).1
            * CUBIC_FEET_PER_ACRE_FOOT) % rest[k].0.month_len() == 0 by {
            assert(rest[k] == usage[k]);
        }
        lemma_exact_spread(rest);
        let entry = usage[usage.len() - 1];
        let len = entry.0.month_len();
        let cubic = entry.1 * CUBIC_FEET_PER_ACRE_FOOT;
        assert(cubic % len == 0);
        if entry.1 >= 0 {
            vstd::arithmetic::div_mod::lemma_fundamental_div_mod(cubic, len);
            assert(len * (cubic / len) == (cubic / len) * len) by (nonlinear_arith);
        } else {
            let flipped = (-entry.1) * CUBIC_FEET_PER_ACRE_FOOT;
            assert(flipped == -cubic);
            vstd::arithmetic::div_mod::lemma_fundamental_div_mod(cubic, len);
            vstd::arithmetic::div_mod::lemma_fundamental_div_mod(flipped, len);
            assert(flipped % len == 0) by {
                vstd::arithmetic::div_mod::lemma_fundamental_div_mod_converse(
                    flipped,
                    len,
                    -(cubic / len),
                    0,
                );
                assert(len * -(cubic / len) == -(len * (cubic / len))) by (nonlinear_arith);
            }
            assert((-(flipped / len)) * len == -(len * (flipped / len))) by (nonlinear_arith);
        }
    }
}

/// Rounding each rate towards zero loses less than one unit of rate on each
/// day of the month.
proof fn lemma_spread_loss(usage: Seq<(Date, i64)>)
    ensures
        -30 * usage.len() <= total_volume(usage) * CUBIC_FEET_PER_ACRE_FOOT - spread_volume(usage)
            <= 30 * usage.len(),
    decreases usage.len(),
{
    if usage.len() > 0 {
        lemma_spread_loss(usage.drop_last());
        let entry = usage[usage.len() - 1];
        let len = entry.0.month_len();
        let magnitude: int = if entry.1 >= 0 {
            entry.1 as int
        } else {
            -entry.1
        };
        let cubic = magnitude * CUBIC_FEET_PER_ACRE_FOOT;
        vstd::arithmetic::div_mod::lemma_fundamental_div_mod(cubic, len);
        assert(0 <= cubic % len < len);
        assert(len * (cubic / len) == (cubic / len) * len) by (nonlinear_arith);
        assert((-(cubic / len)) * len == -((cubic / len) * len)) by (nonlinear_arith);
    }
}

/// Spreading conserves volume up to rounding: for any usage series, the
/// daily rates add up to the sum of its monthly volumes in cubic feet, less
/// what rounding each rate towards zero loses, which is below one unit of
/// rate for each day.
pub proof fn lemma_expansion_nearly_conserves_volume(usage: Seq<(Date, i64)>)
    ensures
        -30 * usage.len() <= total_volume(usage) * CUBIC_FEET_PER_ACRE_FOOT - daily_series(
            usage,
        ).total() <= 30 * usage.len(),
{
    let from = window_start(usage);
    let n = daily_series(usage).rates.len() as int;
    lemma_series_total_is_rate_sum(usage, n);
    lemma_spread_loss(usage);
    if usage.len() == 0 {
        lemma_no_rates_no_sum(usage, from, n);
    } else {
        lemma_window_holds_months(usage, 0);
        assert forall|k: int| 0 <= k < usage.len() implies from <= (#[trigger] usage[k]).0.month_start()
            && usage[k].0.month_start() + usage[k].0.month_len() <= from + n by {
            lemma_window_holds_months(usage, k);
        }
        lemma_rate_sum_is_spread_volume(usage, from, n);
    }
}

/// Spreading conserves volume: where each month's volume in cubic feet
/// divides by the days of that month, the daily rates of a usage series add
/// up to the sum of its monthly volumes in cubic feet.
pub proof fn lemma_expansion_conserves_volume(usage: Seq<(Date, i64)>)
    requires
        forall|k: int|
            0 <= k < usage.len() ==> ((#[trigger] usage[k]).1 * CUBIC_FEET_PER_ACRE_FOOT)
                % usage[k].0.month_len() == 0,
    ensures
        daily_series(usage).total() == total_volume(usage) * CUBIC_FEET_PER_ACRE_FOOT,
{
    let from = window_start(usage);
    let n = daily_series(usage).rates.len() as int;
    lemma_series_total_is_rate_sum(usage, n);
    if usage.len() == 0 {
        lemma_no_rates_no_sum(usage, from, n);
    } else {
        lemma_window_holds_months(usage, 0);
        assert(n == window_end(usage) - window_start(usage));
        assert forall|k: int| 0 <= k < usage.len() implies from <= (#[trigger] usage[k]).0.month_start()
            && usage[k].0.month_start() + usage[k].0.month_len() <= from + n by {
            lemma_window_holds_months(usage, k);
        }
        lemma_rate_sum_is_spread_volume(usage, from, n);
        lemma_exact_spread(usage);
    }
}

/// Whether a usage series is one that the engine takes: at most
/// `MAX_MONTHS` entries, each a day of the calendar with a volume of at most
/// `MAX_VOLUME` in magnitude.
pub fn usage_in_range(usage: &Vec<(Date, i64)>) -> (r: bool)
    ensures
        r == usage_ok(usage@),
{
    if usage.len() > MAX_MONTHS {
        return false;
    }
    let mut k: usize = 0;
    while k < usage.len()
        invariant
            0 <= k <= usage.len(),
            usage.len() <= MAX_MONTHS,
            forall|i: int|
                0 <= i < k ==> (#[trigger] usage@[i]).0.is_valid() && -MAX_VOLUME <= usage@[i].1
                    <= MAX_VOLUME,
        decreases usage.len() - k,
    {
        let entry: (Date, i64) = usage[k];
        let on_calendar: bool = Date::from_ymd_opt(
            entry.0.year,
            entry.0.month,
            entry.0.day,
        ).is_some();
        if !on_calendar || entry.1 < -MAX_VOLUME || entry.1 > MAX_VOLUME {
            assert(!(usage@[k as int].0.is_valid() && -MAX_VOLUME <= usage@[k as int].1
                <= MAX_VOLUME));
            return false;
        }
        k += 1;
    }
    true
}

/// The number of the first day of the date's month, and the month's length.
fn month_span(date: &Date) -> (r: (i32, u8))
    requires
        date.is_valid(),
    ensures
        r.0 as int == date.month_start(),
        r.1 as int == date.month_len(),
{
    let first = Date { year: date.year, month: date.month, day: 1 };
    (first.num_days_from_ce(), date.num_days_in_month())
}

/// The daily rate of one entry.
fn entry_rate(entry: &(Date, i64), days: u8) -> (r: i64)
    requires
        entry.0.is_valid(),
        -MAX_VOLUME <= entry.1 <= MAX_VOLUME,
        days as int == entry.0.month_len(),
    ensures
        r as int == month_rate(*entry),
        -MAX_MONTH_RATE < r < MAX_MONTH_RATE,
{
    proof {
        lemma_month_rate_range(*entry);
    }
    let volume: i64 = entry.1;
    if volume >= 0 {
        (volume * CUBIC_FEET_PER_ACRE_FOOT) / (days as i64)
    } else {
        -(((-volume) * CUBIC_FEET_PER_ACRE_FOOT) / (days as i64))
    }
}

/// Spreads each month's volume evenly over the days of that month, as a rate
/// in cubic feet per day, and adds up what falls on one day.
pub fn monthly_pumping_to_daily(usage: &Vec<(Date, i64)>) -> (r: DailyRates)
    requires
        usage_ok(usage@),
    ensures
        r.wf(),
        r@ == daily_series(usage@),
{
    let n: usize = usage.len();
    let mut lo: i32 = 0;
    let mut hi: i32 = 0;
    let mut k: usize = 0;
    while k < n
        invariant
            0 <= k <= n,
            n == usage.len(),
            usage_ok(usage@),
            lo as int == window_start(usage@.take(k as int)),
            hi as int == window_end(usage@.take(k as int)),
            -96_000_000 < lo <= hi < 96_000_031,
        decreases n - k,
    {
        let (s, d) = month_span(&usage[k].0);
        proof {
            lemma_day_number_range(usage@[k as int].0);
            assert(usage@.take(k + 1).drop_last() =~= usage@.take(k as int));
            assert(usage@.take(k + 1).last() == usage@[k as int]);
        }
        let e: i32 = s + d as i32;
        if k == 0 || s < lo {
            lo = s;
        }
        if k == 0 || e > hi {
            hi = e;
        }
        k += 1;
    }
    assert(usage@.take(n as int) =~= usage@);
    let span: usize = (hi - lo) as usize;
    let mut rates: Vec<i64> = Vec::new();
    let mut j: usize = 0;
    while j < span
        invariant
            j <= span,
            rates@.len() == j,
            forall|i: int| 0 <= i < j ==> rates@[i] == 0,
        decreases span - j,
    {
        rates.push(0);
        j += 1;
    }
    k = 0;
    while k < n
        invariant
            0 <= k <= n,
            n == usage.len(),
            n <= MAX_MONTHS,
            usage_ok(usage@),
            lo as int == window_start(usage@),
            hi as int == window_end(usage@),
            span == hi - lo,
            -96_000_000 < lo <= hi < 96_000_031,
            rates@.len() == span,
            forall|i: int|
                0 <= i < span ==> rates@[i] as int == daily_rate(usage@.take(k as int), lo + i),
            forall|i: int|
                0 <= i < span ==> -(k * (MAX_MONTH_RATE - 1)) <= #[trigger] rates@[i] <= k * (
                MAX_MONTH_RATE - 1),
        decreases n - k,
    {
        let (s, d) = month_span(&usage[k].0);
        let rate: i64 = entry_rate(&usage[k], d);
        proof {
            lemma_day_number_range(usage@[k as int].0);
            lemma_window_holds_months(usage@, k as int);
            assert(usage@.take(k + 1).drop_last() =~= usage@.take(k as int));
            assert(usage@.take(k + 1).last() == usage@[k as int]);
        }
        let base: usize = (s - lo) as usize;
        let days: usize = d as usize;
        let ghost before = rates@;
        let mut t: usize = 0;
        while t < days
            invariant
                0 <= t <= days,
                base + days <= span,
                rates@.len() == span,
                before.len() == span,
                -MAX_MONTH_RATE < rate < MAX_MONTH_RATE,
                k < MAX_MONTHS,
                forall|i: int|
                    0 <= i < span ==> -(k * (MAX_MONTH_RATE - 1)) <= #[trigger] before[i] <= k * (
                    MAX_MONTH_RATE - 1),
                forall|i: int|
                    0 <= i < span ==> #[trigger] rates@[i] == before[i] + (if base <= i < base
                        + t {
                        rate
                    } else {
                        0
                    }),
            decreases days - t,
        {
            let now: i64 = rates[base + t];
            rates.set(base + t, now + rate);
            t += 1;
        }
        k += 1;
    }
    assert(usage@.take(n as int) =~= usage@);
    let r = DailyRates { first_day: lo, rates };
    assert(r@.rates =~= daily_series(usage@).rates);
    r
}

} // verus!
