use geoint_playback::datetime::{can_normalize_datetime, normalize_datetime};

#[test]
fn day_range_becomes_inclusive() {
    assert_eq!(
        normalize_datetime("2020-01-01/2020-12-31"),
        "2020-01-01T00:00:00Z/2020-12-31T23:59:59Z"
    );
}

#[test]
fn single_day_starts_at_midnight() {
    assert_eq!(normalize_datetime("2020-01-01"), "2020-01-01T00:00:00Z");
}

#[test]
fn instants_stay() {
    assert_eq!(
        normalize_datetime("2020-01-01T12:00:00Z/2020-12-31T06:30:00Z"),
        "2020-01-01T12:00:00Z/2020-12-31T06:30:00Z"
    );
    assert_eq!(normalize_datetime("2020-01-01T12:00:00Z"), "2020-01-01T12:00:00Z");
}

#[test]
fn end_at_midnight_becomes_inclusive() {
    assert_eq!(
        normalize_datetime("2020-01-01/2020-12-31T00:00:00Z"),
        "2020-01-01T00:00:00Z/2020-12-31T23:59:59Z"
    );
}

#[test]
fn open_ranges_stay_open() {
    assert_eq!(normalize_datetime("2020-01-01/.."), "2020-01-01T00:00:00Z/..");
    assert_eq!(normalize_datetime("../2020-12-31"), "../2020-12-31T23:59:59Z");
    assert_eq!(normalize_datetime("/"), "/");
    assert_eq!(normalize_datetime(""), "");
}

#[test]
fn other_numbers_of_parts_are_one_text() {
    assert_eq!(normalize_datetime("a/b/c"), "a/b/c");
    assert_eq!(normalize_datetime("a/b/c/d/ef"), "a/b/c/d/efT00:00:00Z");
}

#[test]
fn length_is_counted_in_bytes() {
    assert_eq!(normalize_datetime("ééééé"), "éééééT00:00:00Z");
    assert_eq!(normalize_datetime("éééééééééé"), "éééééééééé");
    assert_eq!(normalize_datetime("x/ééééé"), "x/éééééT23:59:59Z");
}

#[test]
fn end_is_cut_behind_ten_bytes() {
    assert_eq!(normalize_datetime("x/abT00:00:00Z"), "x/abT00:00:0T23:59:59Z");
    assert!(can_normalize_datetime("x/abT00:00:00Z"));
}

#[test]
fn broken_characters_are_not_cut() {
    assert!(!can_normalize_datetime("x/aaaaaaaaaéT00:00:00Z"));
    assert!(can_normalize_datetime("x/aaaaaaaaaéT00:00:01Z"));
    assert!(can_normalize_datetime("2020-01-01/2020-12-31"));
}

#[test]
fn normalizing_twice_changes_nothing() {
    for text in [
        "2020-01-01/2020-12-31",
        "2020-01-01",
        "2020-01-01/..",
        "a/b/c/d/ef",
        "2020-01-01T00:00:00Z/2020-12-31T00:00:00Z",
        "",
    ] {
        let once = normalize_datetime(text);
        assert_eq!(normalize_datetime(&once), once);
    }
}
