use scirs2_special::erfc;
use stream_depletion::calculate_streamflow_depletion;
use stream_depletion::monthly_total;
use stream_depletion::create_results_vector;
use stream_depletion::daily_depletion;
use stream_depletion::monthly_pumping_to_daily;
use stream_depletion::response_days;
use stream_depletion::usage_in_range;
use stream_depletion::Date;

const MICRO_ACRE_FEET: f64 = 1_000_000.0;
const BILLIONTHS: f64 = 1_000_000_000.0;

fn date(year: i32, month: u32, day: u32) -> Date {
    Date::from_ymd_opt(year, month, day).unwrap()
}

fn volume(acre_feet: f64) -> i64 {
    (acre_feet * MICRO_ACRE_FEET).round() as i64
}

fn acre_feet(value: i128) -> f64 {
    value as f64 / MICRO_ACRE_FEET
}

fn fraction(value: f64) -> u32 {
    (value * BILLIONTHS).round() as u32
}

fn response_length(total_months: usize, days_per_month: f64) -> usize {
    response_days(total_months as u32, (days_per_month * 1_000_000.0).round() as u32) as usize
}

// Helper function to round a float to 5 decimal places
fn round_to_5_decimals(value: f64) -> f64 {
    (value * 100_000.0).round() / 100_000.0
}

#[test]
fn test_with_infinite_aquifer() {
    // Aquifer parameters (in feet-based units)
    let d: f64 = 4000.0; // Distance to stream (ft)
    let s: f64 = 0.2; // Storativity (dimensionless)
    let t: f64 = 261_800.0; // Transmissivity (GPD/ft)

    // Pumping rates in acre-feet/month for month 1
    let pumping_volumes = vec![(date(2025, 1, 1), volume(100.0))];
    let days_per_month = 30.42; // Average days per month
    let total_months = 120; // 10 years

    let converted_t = t / 7.481; // Convert GPD to ft2/day
    let response: Vec<u32> = (0..response_length(total_months, days_per_month))
        .map(|m| fraction(erfc(((s * d.powi(2)) / (4.0 * converted_t * m as f64)).sqrt())))
        .collect();
    let value = calculate_streamflow_depletion(&pumping_volumes, &response, total_months);

    assert!(value.len() <= total_months);

    let tolerance = 0.00001; // 10^-5 for 5 decimal places

    assert_eq!(value[0].0, date(2025, 1, 1));
    assert_eq!(value[5].0, date(2025, 6, 1));
    assert!((round_to_5_decimals(acre_feet(value[0].1)) - 8.16991).abs() < tolerance);
    assert!((round_to_5_decimals(acre_feet(value[1].1)) - 20.97926).abs() < tolerance);
    assert!((round_to_5_decimals(acre_feet(value[2].1)) - 13.51416).abs() < tolerance);
    assert!((round_to_5_decimals(acre_feet(value[3].1)) - 7.75856).abs() < tolerance);
    assert!((round_to_5_decimals(acre_feet(value[4].1)) - 5.43355).abs() < tolerance);
    assert!((round_to_5_decimals(acre_feet(value[5].1)) - 3.85735).abs() < tolerance);
}

#[test]
fn test_with_sdf() {
    // Aquifer parameters (in feet-based units)
    let sdf: u32 = 265; // SDF Value in days

    // Pumping rates in acre-feet/month for month 1
    let pumping_volumes = vec![(date(2025, 1, 1), volume(100.0))];
    let days_per_month = 30.42; // Average days per month
    let total_months = 120; // 10 years

    let response: Vec<u32> = (0..response_length(total_months, days_per_month))
        .map(|m| fraction(erfc((sdf as f64 / (4.0 * m as f64)).sqrt())))
        .collect();
    let value = calculate_streamflow_depletion(&pumping_volumes, &response, total_months);

    assert!(value.len() <= total_months);

    let tolerance = 0.00001; // 10^-5 for 5 decimal places

    assert!((round_to_5_decimals(acre_feet(value[0].1)) - 0.76803).abs() < tolerance);
    assert!((round_to_5_decimals(acre_feet(value[1].1)) - 6.84215).abs() < tolerance);
    assert!((round_to_5_decimals(acre_feet(value[2].1)) - 10.08459).abs() < tolerance);
    assert!((round_to_5_decimals(acre_feet(value[3].1)) - 7.89948).abs() < tolerance);
    assert!((round_to_5_decimals(acre_feet(value[4].1)) - 6.35489).abs() < tolerance);
    assert!((round_to_5_decimals(acre_feet(value[5].1)) - 4.88515).abs() < tolerance);
}

#[test]
fn a_month_is_spread_evenly_over_its_days() {
    let rates = monthly_pumping_to_daily(&vec![(date(2025, 1, 1), 31)]);
    assert_eq!(rates.first_day, 739_252);
    assert_eq!(rates.rates, vec![43_560i64; 31]);
}

#[test]
fn a_rate_is_rounded_towards_zero() {
    let up = monthly_pumping_to_daily(&vec![(date(2025, 2, 1), 100)]);
    assert_eq!(up.rates, vec![155_571i64; 28]);
    let down = monthly_pumping_to_daily(&vec![(date(2025, 2, 1), -100)]);
    assert_eq!(down.rates, vec![-155_571i64; 28]);
    let leap = monthly_pumping_to_daily(&vec![(date(2024, 2, 1), 100)]);
    assert_eq!(leap.rates, vec![150_206i64; 29]);
}

#[test]
fn months_without_usage_have_rate_zero() {
    let rates = monthly_pumping_to_daily(&vec![(date(2025, 3, 1), 62), (date(2025, 1, 1), 31)]);
    assert_eq!(rates.first_day, 739_252);
    assert_eq!(rates.rates.len(), 90);
    assert!(rates.rates[..31].iter().all(|r| *r == 43_560));
    assert!(rates.rates[31..59].iter().all(|r| *r == 0));
    assert!(rates.rates[59..].iter().all(|r| *r == 87_120));
}

#[test]
fn entries_of_one_month_add_up() {
    let rates = monthly_pumping_to_daily(&vec![
        (date(2025, 1, 1), 31),
        (date(2025, 1, 20), 62),
        (date(2025, 1, 1), -31),
    ]);
    assert_eq!(rates.rates, vec![87_120i64; 31]);
}

#[test]
fn an_empty_series_has_no_days() {
    let rates = monthly_pumping_to_daily(&Vec::new());
    assert_eq!(rates.first_day, 0);
    assert!(rates.rates.is_empty());
}

#[test]
fn spreading_conserves_the_volume() {
    let usage = vec![
        (date(2025, 1, 1), 31 * 7),
        (date(2025, 2, 1), 28 * 1_000),
        (date(2024, 2, 1), 29 * 5),
        (date(2025, 4, 1), 30 * 11),
        (date(2025, 2, 1), 28 * 3),
    ];
    let rates = monthly_pumping_to_daily(&usage);
    let spread: i64 = rates.rates.iter().sum();
    let pumped: i64 = usage.iter().map(|entry| entry.1).sum();
    assert_eq!(spread, pumped * 43_560);
}

#[test]
fn depletion_is_the_first_difference_of_the_response() {
    let rates = monthly_pumping_to_daily(&vec![(date(2025, 1, 1), 31)]);
    let response: Vec<u32> = vec![100, 300, 600];
    let first = 739_252;
    assert_eq!(daily_depletion(&rates, &response, first - 1), 0);
    assert_eq!(daily_depletion(&rates, &response, first), 0);
    assert_eq!(daily_depletion(&rates, &response, first + 1), 43_560 * 100);
    assert_eq!(daily_depletion(&rates, &response, first + 2), 43_560 * 300);
    assert_eq!(daily_depletion(&rates, &response, first + 3), 43_560 * 600);
    assert_eq!(daily_depletion(&rates, &response, first + 30), 43_560 * 600);
    assert_eq!(daily_depletion(&rates, &response, first + 31), 43_560 * 600);
    assert_eq!(daily_depletion(&rates, &response, first + 32), 43_560 * 500);
    assert_eq!(daily_depletion(&rates, &response, first + 33), 43_560 * 300);
    assert_eq!(daily_depletion(&rates, &response, first + 34), 0);
}

#[test]
fn days_without_positive_pumping_deplete_nothing() {
    let rates = monthly_pumping_to_daily(&vec![(date(2025, 1, 1), -31), (date(2025, 2, 1), 0)]);
    let response: Vec<u32> = vec![100, 300, 600];
    for day in 739_250..739_320 {
        assert_eq!(daily_depletion(&rates, &response, day), 0);
    }
}

#[test]
fn a_months_depletion_is_booked_under_its_first_day() {
    let rates = monthly_pumping_to_daily(&vec![(date(2025, 1, 1), 31)]);
    let response: Vec<u32> = vec![100, 300, 600];
    assert_eq!(monthly_total(&rates, &response, &date(2025, 1, 1)), 43_560 * 17_200);
    assert_eq!(monthly_total(&rates, &response, &date(2025, 2, 1)), 43_560 * 1_400);
    assert_eq!(monthly_total(&rates, &response, &date(2025, 3, 1)), 0);
    assert_eq!(monthly_total(&rates, &response, &date(2024, 12, 1)), 0);
    assert_eq!(monthly_total(&rates, &response, &date(2025, 1, 2)), 0);
}

#[test]
fn the_result_lists_the_months_above_the_noise() {
    let usage = vec![(date(2025, 1, 1), 31_000_000_000)];
    let response: Vec<u32> = vec![100, 300, 600];
    let result = calculate_streamflow_depletion(&usage, &response, 12);
    assert_eq!(result, vec![(date(2025, 1, 1), 17_200), (date(2025, 2, 1), 1_400)]);
    let short = calculate_streamflow_depletion(&usage, &response, 1);
    assert_eq!(short, vec![(date(2025, 1, 1), 17_200)]);
    let none = calculate_streamflow_depletion(&usage, &response, 0);
    assert!(none.is_empty());
}

#[test]
fn the_result_is_built_from_given_rates() {
    let usage = vec![(date(2025, 1, 1), 31_000_000_000)];
    let rates = monthly_pumping_to_daily(&usage);
    let response: Vec<u32> = vec![100, 300, 600];
    let result = create_results_vector(&usage, 12, &rates, &response);
    assert_eq!(result, vec![(date(2025, 1, 1), 17_200), (date(2025, 2, 1), 1_400)]);
}

#[test]
fn a_month_at_the_noise_threshold_is_left_out() {
    let usage = vec![(date(2025, 1, 1), 31_000_000_000)];
    let at_threshold = calculate_streamflow_depletion(&usage, &vec![1_000], 12);
    assert_eq!(at_threshold, vec![(date(2025, 1, 1), 30_000)]);
    let above = calculate_streamflow_depletion(&usage, &vec![1_001], 12);
    assert_eq!(above, vec![(date(2025, 1, 1), 30_030), (date(2025, 2, 1), 1_001)]);
    let sparse = calculate_streamflow_depletion(&usage, &vec![10, 30, 60], 12);
    assert_eq!(sparse, vec![(date(2025, 1, 1), 1_720)]);
    for entry in above.iter().chain(sparse.iter()) {
        assert!(entry.1 > 1_000);
    }
}

#[test]
fn a_negative_month_ends_the_result() {
    let response: Vec<u32> = vec![600, 300, 100];
    let once = vec![(date(2025, 1, 1), 31_000_000_000)];
    let rates = monthly_pumping_to_daily(&once);
    assert_eq!(
        monthly_total(&rates, &response, &date(2025, 2, 1)),
        -600 * 43_560_000_000_000
    );
    assert_eq!(
        calculate_streamflow_depletion(&once, &response, 12),
        vec![(date(2025, 1, 1), 3_700)]
    );
    let twice = vec![(date(2025, 1, 1), 31_000_000_000), (date(2025, 4, 1), 30_000_000_000)];
    let later = monthly_pumping_to_daily(&twice);
    assert!(monthly_total(&later, &response, &date(2025, 4, 1)) > 1_000 * 43_560_000_000_000);
    assert_eq!(
        calculate_streamflow_depletion(&twice, &response, 12),
        vec![(date(2025, 1, 1), 3_700)]
    );
}

#[test]
fn the_result_starts_at_the_earliest_date() {
    let usage = vec![(date(2025, 3, 1), 31_000_000_000), (date(2025, 1, 1), 31_000_000_000)];
    let result = calculate_streamflow_depletion(&usage, &vec![1_001], 2);
    assert_eq!(result, vec![(date(2025, 1, 1), 30_030), (date(2025, 2, 1), 1_001)]);
}

#[test]
fn a_start_within_a_month_finds_no_monthly_totals() {
    let usage = vec![(date(2025, 1, 15), 31_000_000_000)];
    let result = calculate_streamflow_depletion(&usage, &vec![100, 300, 600], 12);
    assert!(result.is_empty());
    let at_months_end = vec![(date(2025, 1, 31), 31_000_000_000)];
    assert!(calculate_streamflow_depletion(&at_months_end, &vec![100, 300, 600], 12).is_empty());
}

#[test]
fn no_pumping_gives_an_empty_result() {
    let usage = vec![(date(2025, 1, 1), 0), (date(2025, 2, 1), 0), (date(2025, 7, 1), 0)];
    assert!(calculate_streamflow_depletion(&usage, &vec![100, 300, 600], 120).is_empty());
    assert!(calculate_streamflow_depletion(&usage, &vec![u32::MAX, 0, u32::MAX], 120).is_empty());
    assert!(calculate_streamflow_depletion(&usage, &Vec::new(), 120).is_empty());
}

#[test]
fn an_empty_response_gives_an_empty_result() {
    let usage = vec![(date(2025, 1, 1), 31_000_000_000)];
    assert!(calculate_streamflow_depletion(&usage, &Vec::new(), 12).is_empty());
}

#[test]
fn the_response_has_a_day_for_each_started_day_of_the_horizon() {
    assert_eq!(response_days(120, 30_420_000), 3_651);
    assert_eq!(response_days(12, 30_000_000), 360);
    assert_eq!(response_days(1, 1_000_000), 1);
    assert_eq!(response_days(1, 1_000_001), 2);
    assert_eq!(response_days(1, 999_999), 1);
    assert_eq!(response_days(0, 30_420_000), 0);
    assert_eq!(response_days(7, 0), 0);
    assert_eq!(response_days(u32::MAX, u32::MAX), 18_446_744_065_120);
}

#[test]
fn a_usage_series_is_in_range_with_days_of_the_calendar_and_bounded_volumes() {
    assert!(usage_in_range(&Vec::new()));
    assert!(usage_in_range(&vec![(date(2025, 1, 1), 68_719_476_736), (date(2024, 2, 29), 0)]));
    assert!(usage_in_range(&vec![(date(2025, 1, 1), -68_719_476_736)]));
    assert!(!usage_in_range(&vec![(date(2025, 1, 1), 68_719_476_737)]));
    assert!(!usage_in_range(&vec![(date(2025, 1, 1), 1), (date(2025, 1, 1), -68_719_476_737)]));
    assert!(!usage_in_range(&vec![(Date { year: 2025, month: 2, day: 29 }, 1)]));
    assert!(!usage_in_range(&vec![(Date { year: 2025, month: 13, day: 1 }, 1)]));
    assert!(usage_in_range(&vec![(date(2025, 1, 1), 1); 4096]));
    assert!(!usage_in_range(&vec![(date(2025, 1, 1), 1); 4097]));
}
