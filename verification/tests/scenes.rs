use geoint_playback::calendar::estimate_temporal_baseline;
use geoint_playback::scenes::{
    consecutive_pairs, dated_scenes, sort_by_date, FeatureProperties, Scene, StacFeature,
};

fn feature(id: &str, datetime: Option<&str>) -> StacFeature {
    StacFeature {
        id: id.to_string(),
        properties: FeatureProperties {
            datetime: datetime.map(|d| d.to_string()),
            instrument_mode: None,
        },
    }
}

fn ids(scenes: &[Scene]) -> Vec<&str> {
    scenes.iter().map(|s| s.id.as_str()).collect()
}

#[test]
fn undated_features_are_left_out() {
    let features = vec![
        feature("a", Some("2024-03-01")),
        feature("b", None),
        feature("c", Some("2024-01-01")),
    ];
    let scenes = dated_scenes(&features);
    assert_eq!(ids(&scenes), vec!["a", "c"]);
    assert_eq!(scenes[0].date, "2024-03-01");
    assert_eq!(scenes[1].date, "2024-01-01");
}

#[test]
fn scenes_are_sorted_by_date() {
    let features = vec![
        feature("c", Some("2024-03-01T10:00:00Z")),
        feature("a", Some("2024-01-01T10:00:00Z")),
        feature("b", Some("2024-01-01T11:00:00Z")),
    ];
    let sorted = sort_by_date(&dated_scenes(&features));
    assert_eq!(ids(&sorted), vec!["a", "b", "c"]);
    for pair in sorted.windows(2) {
        assert!(pair[0].date <= pair[1].date);
    }
}

#[test]
fn scenes_of_one_date_keep_their_order() {
    let features = vec![
        feature("x", Some("2024-02-01")),
        feature("1", Some("2024-01-01")),
        feature("2", Some("2024-01-01")),
        feature("y", Some("2024-02-01")),
        feature("3", Some("2024-01-01")),
    ];
    let sorted = sort_by_date(&dated_scenes(&features));
    assert_eq!(ids(&sorted), vec!["1", "2", "3", "x", "y"]);
}

#[test]
fn listing_order_does_not_matter() {
    let dates = ["2024-01-01", "2024-01-13", "2024-01-25"];
    let orders = [[0, 1, 2], [0, 2, 1], [1, 0, 2], [1, 2, 0], [2, 0, 1], [2, 1, 0]];
    for order in orders {
        let features: Vec<StacFeature> =
            order.iter().map(|&i| feature(dates[i], Some(dates[i]))).collect();
        assert_eq!(ids(&sort_by_date(&dated_scenes(&features))), dates.to_vec());
    }
}

#[test]
fn neighbours_form_pairs() {
    let features = vec![
        feature("a", Some("2024-01-01")),
        feature("b", Some("2024-01-13")),
        feature("c", Some("2024-01-25")),
    ];
    let scenes = dated_scenes(&features);
    let pairs = consecutive_pairs(&scenes);
    assert_eq!(pairs.len(), 2);
    assert_eq!((pairs[0].first.id.as_str(), pairs[0].second.id.as_str()), ("a", "b"));
    assert_eq!((pairs[1].first.id.as_str(), pairs[1].second.id.as_str()), ("b", "c"));
    assert!(consecutive_pairs(&Vec::new()).is_empty());
    assert!(consecutive_pairs(&dated_scenes(&[feature("a", Some("2024-01-01"))])).is_empty());
}

#[test]
fn pairs_span_the_stack() {
    let features = vec![
        feature("a", Some("2023-11-20T05:00:00Z")),
        feature("b", Some("2023-12-31T05:00:00Z")),
        feature("c", Some("2024-01-01T05:00:00Z")),
        feature("d", Some("2024-02-29T05:00:00Z")),
    ];
    let scenes = sort_by_date(&dated_scenes(&features));
    let summed: i64 = consecutive_pairs(&scenes)
        .iter()
        .map(|p| estimate_temporal_baseline(&p.first.date, &p.second.date))
        .sum();
    assert_eq!(summed, estimate_temporal_baseline(&scenes[0].date, &scenes[3].date));
}
