use geoint_playback::calendar::parse_date_to_days;
use geoint_playback::datetime::normalize_datetime;
use geoint_playback::sites::known_sites;

#[test]
fn three_sites_are_known() {
    let sites = known_sites();
    assert_eq!(sites.len(), 3);
    assert_eq!(sites[0].name, "LA Metro Purple Line Extension");
    assert_eq!(sites[0].bbox_centidegrees, [-11838, 3405, -11826, 3407]);
    assert_eq!(sites[0].date_range, "2019-01-01/2022-12-31");
    assert_eq!(sites[0].expected_subsidence_mm, 15);
    assert_eq!(sites[1].name, "London Crossrail - East London");
    assert_eq!(sites[1].bbox_centidegrees, [-2, 5148, 12, 5153]);
    assert_eq!(sites[1].date_range, "2015-01-01/2019-12-31");
    assert_eq!(sites[1].expected_subsidence_mm, 20);
    assert_eq!(sites[2].name, "Dangjin Tunneling, South Korea");
    assert_eq!(sites[2].bbox_centidegrees, [12655, 3695, 12672, 3702]);
    assert_eq!(sites[2].date_range, "2018-01-01/2021-12-31");
    assert_eq!(sites[2].expected_subsidence_mm, 200);
}

#[test]
fn descriptions_tell_the_measurement() {
    let sites = known_sites();
    assert!(sites[0].description.ends_with("up to 15mm subsidence along Wilshire Blvd corridor."));
    assert!(sites[1].description.contains("drift-filled hollow"));
    assert!(sites[2].description.ends_with("cumulative subsidence of ~200mm."));
}

#[test]
fn hundredths_of_a_degree_are_the_written_degrees() {
    let degrees: Vec<[f64; 4]> = known_sites()
        .iter()
        .map(|s| s.bbox_centidegrees.map(|c| c as f64 / 100.0))
        .collect();
    assert_eq!(degrees[0], [-118.38, 34.05, -118.26, 34.07]);
    assert_eq!(degrees[1], [-0.02, 51.48, 0.12, 51.53]);
    assert_eq!(degrees[2], [126.55, 36.95, 126.72, 37.02]);
}

#[test]
fn sites_are_well_formed() {
    for site in known_sites() {
        let [west, south, east, north] = site.bbox_centidegrees;
        assert!(west < east && south < north);
        let (start, end) = site.date_range.split_once('/').unwrap();
        assert!(parse_date_to_days(start) < parse_date_to_days(end));
        assert_eq!(
            normalize_datetime(site.date_range),
            format!("{start}T00:00:00Z/{end}T23:59:59Z")
        );
    }
}
