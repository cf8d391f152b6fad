use s2e::calendar::{day_number, ShiftError};
use s2e::detect::{
    dispatch, filter_tiles, has_area, manifest_refused, manifest_used, needed_window, DetectorMode,
    Pass,
};
use s2e::discover::{
    batches, failure, header, padded_window, request, split_window, sub_windows, Campaign,
};
use s2e::envelope::Envelope;
use s2e::json::parse;
use s2e::number::Real;
use s2e::stac::Item;

fn item(id: &str, tile: &str) -> Item {
    let found = vec![parse(&format!(
        "{{\"id\":\"{id}\",\"properties\":{{\"s2:mgrs_tile\":\"{tile}\"}}}}"
    ))
    .unwrap()];
    s2e::stac::discover(&found, "aws", &vec![0], &Vec::new()).remove(0)
}

fn ids(items: &[Item]) -> Vec<String> {
    items.iter().map(|it| it.id.clone()).collect()
}

#[test]
fn scenes_that_two_batches_share_are_kept_once() {
    let mut c = Campaign::new();
    assert_eq!(c.len(), 0);
    c.merge(vec![item("a", "x"), item("b", "x"), item("a", "y")]);
    c.merge(vec![item("b", "y"), item("c", "x")]);
    assert_eq!(ids(c.scenes()), ["a", "b", "c"]);
    assert_eq!(c.scenes()[0].mgrs, "x");
    c.merge(vec![item("c", "x"), item("a", "x")]);
    assert_eq!(c.len(), 3);
}

#[test]
fn a_campaign_covers_a_whole_area_file() {
    assert_eq!(
        request(false, true, 0).unwrap_err(),
        "discover: --aoi is what there is to discover; --bbox and --region search as they run"
    );
    assert_eq!(
        request(true, true, 0).unwrap_err(),
        "discover: a manifest covers the whole AOI and every member reads the same one — drop --shard"
    );
    assert_eq!(request(true, false, 0).unwrap_err(), "discover: --batch must be at least 1");
    assert!(request(true, false, 1).is_ok());
}

fn area(n: usize) -> Vec<Envelope> {
    (0..n)
        .map(|i| {
            let x = Real { bits: (i as f64).to_bits() };
            Envelope { west: x, south: x, east: x, north: x }
        })
        .collect()
}

#[test]
fn batches_take_in_every_area_in_order() {
    assert_eq!(batches(&area(0), 5).unwrap_err(), "discover: the AOI has no features");
    for (n, batch, count) in [(1, 100, 1), (100, 100, 1), (101, 100, 2), (7, 2, 4), (6, 2, 3)] {
        let parts = batches(&area(n), batch).unwrap();
        assert_eq!(parts.len(), count);
        assert!(parts.iter().all(|p| !p.is_empty() && p.len() <= batch));
        assert_eq!(parts.concat(), area(n));
    }
    assert_eq!(batches(&area(3), usize::MAX).unwrap().len(), 1);
}

#[test]
fn a_campaign_reaches_past_its_window() {
    let w = match padded_window("2026-01-01", "2026-12-31", 30) {
        Ok(w) => w,
        Err(_) => panic!("not padded"),
    };
    assert_eq!(w, ("2025-12-02".to_string(), "2027-01-30".to_string()));
    assert!(matches!(
        padded_window("2026-01-01", "tomorrow", 30),
        Err(ShiftError::Unread(m)) if m == "date tomorrow: input contains invalid characters"
    ));
    assert!(matches!(
        padded_window("2026-01-01", "2026-12-31", i64::MAX),
        Err(ShiftError::OutOfRange)
    ));
}

#[test]
fn a_window_splits_into_parts_without_gaps() {
    assert_eq!(sub_windows(10, 19, 3), [(10, 12), (13, 15), (16, 19)]);
    assert_eq!(sub_windows(10, 19, 0), [(10, 19)]);
    assert_eq!(sub_windows(10, 11, 5), [(10, 10), (11, 11)]);
    assert_eq!(sub_windows(10, 9, 5), [(10, 9)]);
    assert_eq!(sub_windows(-5, -5, 9), [(-5, -5)]);
    let parts = match split_window("2018-01-01", "2026-12-31", 7) {
        Ok(p) => p,
        Err(_) => panic!("not split"),
    };
    assert_eq!(parts.len(), 7);
    assert_eq!(parts[0].0, "2018-01-01");
    assert_eq!(parts[6].1, "2026-12-31");
    for k in 1..7 {
        assert_eq!(day_number(&parts[k].0).unwrap(), day_number(&parts[k - 1].1).unwrap() + 1);
    }
    match split_window("then", "now", 1) {
        Ok(p) => assert_eq!(p, [("then".to_string(), "now".to_string())]),
        Err(_) => panic!("read"),
    }
    assert!(matches!(split_window("then", "now", 2), Err(ShiftError::Unread(_))));
}

#[test]
fn a_manifest_says_how_it_was_built() {
    let mut c = Campaign::new();
    c.merge(vec![item("a", "x")]);
    let h = header("cdse-l1c", "s", "e", "lng.geojson", "abc", "0.3.1", "now", &c, 7);
    assert_eq!((h.manifest, h.scenes, h.requests), (1, 1, 7));
    assert_eq!((h.source.as_str(), h.aoi.as_str(), h.aoi_sha256.as_str()), ("cdse-l1c", "lng.geojson", "abc"));
    assert_eq!((h.start.as_str(), h.end.as_str()), ("s", "e"));
    assert_eq!((h.s2e.as_str(), h.created.as_str()), ("0.3.1", "now"));
    assert_eq!(
        manifest_used(&h, 1, "scenes.gz"),
        "scenes: 1 from scenes.gz · s -> e · built now in 7 requests"
    );
    assert_eq!(
        failure(2, 9, "stac http: status 500", 100),
        "discover: batch 2/9 failed: stac http: status 500\nnothing written — the manifest would have been short by every scene for 100 of the AOI's features"
    );
    assert_eq!(manifest_refused("x"), "detect --scenes: x");
}

#[test]
fn a_run_makes_the_pass_that_its_source_allows() {
    let (both, flares, plumes) = (DetectorMode::Both, DetectorMode::Flares, DetectorMode::Plumes);
    assert_eq!(dispatch(true, flares, "aws"), Ok(Pass::Flares));
    assert_eq!(
        dispatch(true, both, "aws-l1c").unwrap_err(),
        "detect --mode both/plumes needs point or AOI targets; use --mode flares for a whole-tile --region scan"
    );
    assert_eq!(dispatch(false, plumes, "cdse-l1c"), Ok(Pass::Targeted));
    assert_eq!(dispatch(false, flares, "cdse-l1c"), Ok(Pass::Targeted));
    assert_eq!(dispatch(false, flares, "cdse"), Ok(Pass::Flares));
    assert_eq!(
        dispatch(false, both, "cdse").unwrap_err(),
        "methane plume detection requires an L1C --source"
    );
    assert!(has_area(false, false, true).is_ok() && has_area(true, false, false).is_ok());
    assert_eq!(
        has_area(false, false, false).unwrap_err(),
        "detect: provide --bbox, --aoi, or --region"
    );
}

#[test]
fn plumes_need_a_wider_window_than_flares() {
    let window = |mode| match needed_window(mode, "2026-01-01", "2026-01-31", 10) {
        Ok(w) => w,
        Err(_) => panic!("no window"),
    };
    assert_eq!(
        window(DetectorMode::Flares),
        ("2026-01-01".to_string(), "2026-01-31".to_string())
    );
    assert_eq!(
        window(DetectorMode::Both),
        ("2025-12-22".to_string(), "2026-02-10".to_string())
    );
    assert_eq!(window(DetectorMode::Plumes), window(DetectorMode::Both));
}

#[test]
fn scenes_are_restricted_to_the_tiles_asked_for() {
    let items = || vec![item("a", "39RWN"), item("b", "39RXN"), item("c", "39RWN")];
    assert_eq!(filter_tiles(&Vec::new(), items()).len(), 3);
    assert_eq!(ids(&filter_tiles(&vec!["39RWN".to_string()], items())), ["a", "c"]);
    assert!(filter_tiles(&vec!["x".to_string()], items()).is_empty());
}
