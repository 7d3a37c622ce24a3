use std::collections::HashMap;
use stream_depletion::combined_urf_results;
use stream_depletion::lags_fit;
use stream_depletion::series_in_range;
use stream_depletion::urf_lagging;
use stream_depletion::Date;
use stream_depletion::UrfValue;

fn date(year: i32, month: u32, day: u32) -> Date {
    Date::from_ymd_opt(year, month, day).unwrap()
}

fn volume(acre_feet: f64) -> i64 {
    (acre_feet * 1_000_000.0).round() as i64
}

fn share(fraction: f64) -> i32 {
    (fraction * 1_000_000_000.0).round() as i32
}

fn acre_feet(amount: i128) -> f64 {
    amount as f64 / 1_000_000_000_000_000.0
}

fn as_maps(lagged: &Vec<(i32, Vec<(Date, i128)>)>) -> HashMap<i32, HashMap<Date, f64>> {
    let mut maps = HashMap::new();
    for (reach, series) in lagged {
        let mut by_date = HashMap::new();
        for (date, amount) in series {
            assert!(by_date.insert(*date, acre_feet(*amount)).is_none());
        }
        assert!(maps.insert(*reach, by_date).is_none());
    }
    maps
}

#[test]
fn test_urf_lagging() {
    let urf = vec![
        UrfValue { month: 1, reach: 1, urf_val: share(0.6) },
        UrfValue { month: 1, reach: 2, urf_val: share(0.1) },
        UrfValue { month: 2, reach: 1, urf_val: share(0.3) },
    ];
    let usage = vec![(date(2024, 7, 1), volume(100.0)), (date(2024, 8, 1), volume(100.0))];

    let mut expected_lagged = HashMap::new();
    let mut reach1 = HashMap::new();
    reach1.insert(date(2024, 7, 1), 60.0);
    reach1.insert(date(2024, 8, 1), 90.0);
    reach1.insert(date(2024, 9, 1), 30.0);

    let mut reach2 = HashMap::new();
    reach2.insert(date(2024, 7, 1), 10.0);
    reach2.insert(date(2024, 8, 1), 10.0);
    expected_lagged.insert(1, reach1);
    expected_lagged.insert(2, reach2);

    let result = urf_lagging(&usage, urf);
    assert_eq!(as_maps(&result), expected_lagged);
}

#[test]
fn test_urf_lagging_skip_usage_month() {
    let urf = vec![
        UrfValue { month: 1, reach: 1, urf_val: share(0.4) },
        UrfValue { month: 1, reach: 2, urf_val: share(0.2) },
        UrfValue { month: 2, reach: 1, urf_val: share(0.2) },
        UrfValue { month: 2, reach: 2, urf_val: share(0.1) },
        UrfValue { month: 3, reach: 1, urf_val: share(0.1) },
    ];
    let usage = vec![
        (date(2024, 5, 1), volume(100.0)),
        (date(2024, 7, 1), volume(100.0)),
        (date(2024, 8, 1), volume(100.0)),
    ];

    let mut expected_lagged = HashMap::new();
    let mut reach1 = HashMap::new();
    reach1.insert(date(2024, 5, 1), 40.0);
    reach1.insert(date(2024, 6, 1), 20.0);
    reach1.insert(date(2024, 7, 1), 50.0);
    reach1.insert(date(2024, 8, 1), 60.0);
    reach1.insert(date(2024, 9, 1), 30.0);
    reach1.insert(date(2024, 10, 1), 10.0);
    let mut reach2 = HashMap::new();
    reach2.insert(date(2024, 5, 1), 20.0);
    reach2.insert(date(2024, 6, 1), 10.0);
    reach2.insert(date(2024, 7, 1), 20.0);
    reach2.insert(date(2024, 8, 1), 30.0);
    reach2.insert(date(2024, 9, 1), 10.0);
    expected_lagged.insert(1, reach1);
    expected_lagged.insert(2, reach2);

    let result = urf_lagging(&usage, urf);
    assert_eq!(as_maps(&result), expected_lagged);
}

#[test]
fn urf_weights_lag_by_month_and_reaches_combine_by_date() {
    let urf = vec![
        UrfValue::new(0, 1, share(0.6)),
        UrfValue::new(1, 1, share(0.3)),
        UrfValue::new(0, 2, share(0.1)),
    ];
    let usage = vec![(date(2024, 7, 1), volume(100.0)), (date(2024, 8, 1), volume(100.0))];
    let lagged = urf_lagging(&usage, urf);
    let unit: i128 = 1_000_000_000_000_000;
    assert_eq!(
        lagged,
        vec![
            (
                1,
                vec![
                    (date(2024, 7, 1), 60 * unit),
                    (date(2024, 8, 1), 90 * unit),
                    (date(2024, 9, 1), 30 * unit)
                ]
            ),
            (2, vec![(date(2024, 7, 1), 10 * unit), (date(2024, 8, 1), 10 * unit)]),
        ]
    );
    let combined = combined_urf_results(lagged);
    assert_eq!(
        combined,
        vec![
            (date(2024, 7, 1), 70 * unit),
            (date(2024, 8, 1), 100 * unit),
            (date(2024, 9, 1), 30 * unit)
        ]
    );
}

#[test]
fn reaches_come_in_the_order_of_their_first_entry() {
    let urf = vec![
        UrfValue::new(0, 7, 1),
        UrfValue::new(0, 3, 2),
        UrfValue::new(1, 7, 3),
        UrfValue::new(0, 5, 4),
        UrfValue::new(1, 3, 5),
    ];
    let usage = vec![(date(2024, 1, 1), 10)];
    let lagged = urf_lagging(&usage, urf);
    let reaches: Vec<i32> = lagged.iter().map(|entry| entry.0).collect();
    assert_eq!(reaches, vec![7, 3, 5]);
    assert_eq!(lagged[0].1, vec![(date(2024, 1, 1), 10), (date(2024, 2, 1), 30)]);
    assert_eq!(lagged[1].1, vec![(date(2024, 1, 1), 20), (date(2024, 2, 1), 50)]);
    assert_eq!(lagged[2].1, vec![(date(2024, 1, 1), 40)]);
}

#[test]
fn weights_are_ordered_by_month_whatever_the_tables_order() {
    let urf = vec![
        UrfValue::new(5, 1, 300),
        UrfValue::new(2, 1, 100),
        UrfValue::new(5, 1, 400),
        UrfValue::new(3, 1, 200),
    ];
    let usage = vec![(date(2024, 11, 1), 2)];
    let lagged = urf_lagging(&usage, urf);
    assert_eq!(
        lagged,
        vec![(
            1,
            vec![
                (date(2024, 11, 1), 200),
                (date(2024, 12, 1), 400),
                (date(2025, 1, 1), 600),
                (date(2025, 2, 1), 800)
            ]
        )]
    );
}

#[test]
fn a_lag_lands_on_the_months_last_day_where_the_day_is_missing() {
    let urf = vec![UrfValue::new(0, 1, 1), UrfValue::new(1, 1, 10), UrfValue::new(2, 1, 100)];
    let usage = vec![(date(2024, 1, 31), 3), (date(2024, 2, 29), 5)];
    let lagged = urf_lagging(&usage, urf);
    assert_eq!(
        lagged,
        vec![(
            1,
            vec![
                (date(2024, 1, 31), 3),
                (date(2024, 2, 29), 35),
                (date(2024, 3, 31), 300),
                (date(2024, 3, 29), 50),
                (date(2024, 4, 29), 500)
            ]
        )]
    );
}

#[test]
fn an_empty_table_or_usage_gives_no_amounts() {
    let usage = vec![(date(2024, 1, 1), 3)];
    assert!(urf_lagging(&usage, Vec::new()).is_empty());
    let lagged = urf_lagging(&Vec::new(), vec![UrfValue::new(0, 4, 1)]);
    assert_eq!(lagged, vec![(4, Vec::new())]);
    assert!(combined_urf_results(lagged).is_empty());
    assert!(combined_urf_results(Vec::new()).is_empty());
}

#[test]
fn zero_usage_keeps_its_months_with_amount_zero() {
    let urf = vec![UrfValue::new(0, 1, share(0.5)), UrfValue::new(1, 1, share(0.5))];
    let usage = vec![(date(2024, 1, 1), 0)];
    let lagged = urf_lagging(&usage, urf);
    assert_eq!(lagged, vec![(1, vec![(date(2024, 1, 1), 0), (date(2024, 2, 1), 0)])]);
}

#[test]
fn combined_results_come_in_ascending_order_of_date() {
    let values = vec![
        (2, vec![(date(2025, 3, 1), 5), (date(2024, 12, 1), 7), (date(2025, 1, 15), 1)]),
        (9, vec![(date(2023, 6, 1), -4), (date(2025, 3, 1), -5), (date(2025, 1, 1), 2)]),
        (4, vec![(date(2024, 12, 1), 1)]),
    ];
    let combined = combined_urf_results(values);
    assert_eq!(
        combined,
        vec![
            (date(2023, 6, 1), -4),
            (date(2024, 12, 1), 8),
            (date(2025, 1, 1), 2),
            (date(2025, 1, 15), 1),
            (date(2025, 3, 1), 0)
        ]
    );
}

#[test]
fn lags_fit_while_the_months_stay_within_the_calendar() {
    let usage = vec![(date(2024, 1, 1), 1), (date(262142, 10, 31), 1)];
    assert!(lags_fit(&usage, 0));
    assert!(lags_fit(&usage, 1));
    assert!(lags_fit(&usage, 3));
    assert!(!lags_fit(&usage, 4));
    assert!(!lags_fit(&usage, u32::MAX));
    assert!(lags_fit(&Vec::new(), u32::MAX));
    assert!(lags_fit(&vec![(date(2024, 1, 1), 1)], 2048));
}

#[test]
fn a_series_is_in_range_with_bounded_amounts() {
    let limit: i128 = 1 << 90;
    assert!(series_in_range(&Vec::new()));
    assert!(series_in_range(&vec![(date(2024, 1, 1), limit), (date(2024, 1, 1), -limit)]));
    assert!(!series_in_range(&vec![(date(2024, 1, 1), limit + 1)]));
    assert!(!series_in_range(&vec![(date(2024, 1, 1), 0), (date(2024, 2, 1), -limit - 1)]));
    assert!(series_in_range(&vec![(date(2024, 1, 1), 0); 8_388_608]));
    assert!(!series_in_range(&vec![(date(2024, 1, 1), 0); 8_388_609]));
}
