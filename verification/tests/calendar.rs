use geoint_playback::calendar::{can_read_day, estimate_temporal_baseline, parse_date_to_days};

#[test]
fn counts_years_of_365_and_months_of_30_days() {
    assert_eq!(parse_date_to_days("2024-01-15"), 2024 * 365 + 30 + 15);
    assert_eq!(parse_date_to_days("0000-00-00"), 0);
    assert_eq!(parse_date_to_days("2020-12-31"), 737_691);
}

#[test]
fn fewer_than_three_fields_are_day_zero() {
    assert_eq!(parse_date_to_days(""), 0);
    assert_eq!(parse_date_to_days("2024"), 0);
    assert_eq!(parse_date_to_days("2024-01"), 0);
}

#[test]
fn fields_that_are_no_numbers_are_substituted() {
    assert_eq!(parse_date_to_days("x-02-03"), 2020 * 365 + 60 + 3);
    assert_eq!(parse_date_to_days("2024-x-03"), 2024 * 365 + 30 + 3);
    assert_eq!(parse_date_to_days("2024-02-x"), 2024 * 365 + 60 + 1);
    assert_eq!(parse_date_to_days("--"), 2020 * 365 + 30 + 1);
    assert_eq!(parse_date_to_days("-5-02-03"), 2020 * 365 + 150 + 2);
}

#[test]
fn further_fields_are_ignored() {
    assert_eq!(parse_date_to_days("2024-01-15-99"), 2024 * 365 + 30 + 15);
}

#[test]
fn baseline_counts_days() {
    assert_eq!(estimate_temporal_baseline("2024-01-15T00:00:00Z", "2024-02-08T00:00:00Z"), 23);
    assert_eq!(estimate_temporal_baseline("2024-01-01", "2024-01-13"), 12);
    assert_eq!(estimate_temporal_baseline("2023-12-31", "2024-01-01"), 5);
}

#[test]
fn baseline_is_the_same_in_both_directions() {
    let a = "2024-01-15T00:00:00Z";
    let b = "2019-11-02T10:00:00Z";
    assert_eq!(estimate_temporal_baseline(a, b), estimate_temporal_baseline(b, a));
    assert_eq!(estimate_temporal_baseline(a, a), 0);
}

#[test]
fn time_of_day_does_not_count() {
    assert_eq!(estimate_temporal_baseline("2024-01-15T00:00:00Z", "2024-01-15T23:59:59Z"), 0);
}

#[test]
fn a_stop_on_the_way_is_no_shortcut() {
    let (a, b, c) = ("2024-01-15", "2024-03-01", "2024-02-01");
    assert!(
        estimate_temporal_baseline(a, c)
            <= estimate_temporal_baseline(a, b) + estimate_temporal_baseline(b, c)
    );
}

#[test]
fn later_texts_have_no_earlier_days() {
    let dates = [
        "2019-01-31", "2019-02-01", "2019-02-28", "2019-12-31", "2020-01-01", "2020-10-09", "2020-10-10",
    ];
    for pair in dates.windows(2) {
        assert!(pair[0] < pair[1]);
        assert!(parse_date_to_days(pair[0]) <= parse_date_to_days(pair[1]));
    }
}

#[test]
fn day_must_end_between_characters() {
    assert!(can_read_day("2024-01-15"));
    assert!(can_read_day("short"));
    assert!(can_read_day("ééééé and more"));
    assert!(!can_read_day("2024-01-1é"));
}
