use s2e::envelope::Envelope;
use s2e::number::{Pair, Real};
use s2e::review::{
    candidate, component_box, component_points, following, line_segments, near_lines, nearest,
    on_line, orbit, plumes_sql, position, ranked_list, read_plumes, report, report_header, tally, Following,
    PlumeReadings, Position, Segment, Shown,
};
use s2e::triage::Verdict;

fn num(x: f64) -> Real {
    Real { bits: x.to_bits() }
}

fn pair(x: f64, y: f64) -> Pair {
    Pair { x: num(x), y: num(y) }
}

#[test]
fn orbit_from_scene_id() {
    assert_eq!(
        orbit("S2B_MSIL1C_20260423T112109_N0512_R037_T30UWD"),
        "R037"
    );
    assert_eq!(orbit("weird"), "");
}

#[test]
fn segments_from_any_geometry() {
    let text = r#"{"type":"FeatureCollection","features":[
            {"type":"Feature","geometry":{"type":"LineString","coordinates":[[0,0],[1,0],[1,1]]}},
            {"type":"Feature","geometry":{"type":"MultiLineString","coordinates":[[[2,2],[3,3]]]}},
            {"type":"Feature","geometry":{"type":"Polygon","coordinates":[[[5,5],[6,5],[6,6],[5,5]]]}}]}"#;
    let segs = line_segments("lines.geojson", text).unwrap();
    assert_eq!(segs.len(), 2 + 1 + 3);
    assert_eq!(segs[1], Segment { from: pair(1.0, 0.0), to: pair(1.0, 1.0) });
    assert_eq!(segs[5], Segment { from: pair(6.0, 6.0), to: pair(5.0, 5.0) });
}

#[test]
fn lines_that_are_no_document_are_refused() {
    assert_eq!(
        line_segments("lines.geojson", "[").unwrap_err(),
        "parse lines.geojson: EOF while parsing a list at line 1 column 1"
    );
    assert!(line_segments("x", "{}").unwrap().is_empty());
    assert!(line_segments("x", "{\"features\":[{\"geometry\":null}]}").unwrap().is_empty());
    // one position makes no piece, and a stray value sends the walk deeper
    let text = "{\"features\":[{\"geometry\":{\"coordinates\":[[1,2]]}},{\"geometry\":{\"coordinates\":[[[1,2],[3,4]],7]}}]}";
    assert_eq!(line_segments("x", text).unwrap().len(), 1);
}

#[test]
fn orbits_are_an_r_and_three_digits() {
    assert_eq!(orbit("A_R03_R03x_R1234_R999"), "R999");
    assert_eq!(orbit("R012_R034"), "R012");
    assert_eq!(orbit("_RÄ1_"), "");
}

fn readings() -> PlumeReadings {
    PlumeReadings {
        lon: Some(num(1.0)),
        lat: Some(num(2.0)),
        target_lon: Some(num(0.0)),
        target_lat: Some(num(9.0)),
        gw: Some(num(1.5)),
        gs: Some(num(1.5)),
        ge: Some(num(0.5)),
        gn: Some(num(2.5)),
        wu: Some(num(3.0)),
        wv: None,
        max_probability: Some(num(0.9)),
        rate_kg_h: None,
        clear_percent: None,
        sun_elevation: Some(num(30.0)),
    }
}

#[test]
fn a_plume_sets_on_at_the_mask_nearest_its_facility() {
    match position(&readings()) {
        Position::At(p) => {
            assert_eq!(p.centre, pair(1.0, 2.0));
            assert_eq!(p.target, pair(0.0, 9.0));
            assert_eq!(p.mask.west, num(0.5));
            assert_eq!(p.mask.east, num(1.5));
            assert_eq!(p.origin, pair(0.5, 2.5));
        }
        _ => panic!("not placed"),
    }
    let mut inside = readings();
    inside.target_lon = Some(num(1.25));
    inside.target_lat = None;
    match position(&inside) {
        Position::At(p) => assert_eq!(p.origin, pair(1.25, 2.0)),
        _ => panic!("not placed"),
    }
}

#[test]
fn a_plume_without_a_place_is_passed_over() {
    let mut n = readings();
    n.lat = None;
    assert!(matches!(position(&n), Position::Absent));
    let mut n = readings();
    n.gw = Some(num(f64::NAN));
    n.ge = Some(num(f64::NAN));
    assert!(matches!(position(&n), Position::Unbounded));
}

const TABLE: &str = "site_id,date,plume_id,scene,lon,lat,background_scene,probability_asset\n\
barrow,2026-03-14,plume-1,S2B_R037_x,1.0,2.0,S2B_R080_y,assets/p.tif\n\
\n\
b,d,p,S2B_R037_x,1.0\n";

#[test]
fn a_row_becomes_a_candidate() {
    let rows = read_plumes(TABLE);
    assert_eq!(rows.len(), 2);
    assert_eq!(rows[0].probability_asset, "assets/p.tif");
    assert_eq!(rows[0].lon, "1.0");
    assert_eq!(rows[0].wu, "");
    assert_eq!(rows[1].lat, "");
    let n = readings();
    let at = match position(&n) {
        Position::At(p) => p,
        _ => panic!("not placed"),
    };
    let c = candidate(&rows[0], &n, &at, num(12.0), Some(num(0.1)));
    assert_eq!(c.key, "barrow:2026-03-14:plume-1");
    assert_eq!((c.target.as_str(), c.date.as_str()), ("barrow", "2026-03-14"));
    assert_eq!(c.wind, pair(3.0, 0.0));
    assert_eq!((c.max_p, c.flux_kg_h), (num(0.9), num(0.0)));
    assert_eq!(c.clear_percent, num(100.0));
    assert_eq!(c.anchor_m, num(12.0));
    assert!(c.cross_orbit_bg && !c.swath_edge);
    assert!(!candidate(&rows[1], &n, &at, num(12.0), None).cross_orbit_bg);
}

#[test]
fn the_statement_asks_for_published_plumes() {
    let sql = plumes_sql("P; ", "s3://b", "/tmp/r.csv");
    assert!(sql.starts_with("P; COPY (SELECT d.site_id, d.date, str_split(d.id,':')[-1] AS plume_id, d.scene, d.lon, d.lat, o.lon AS target_lon"));
    assert!(sql.contains("FROM read_parquet('s3://b/data-desk/detections/**/data.parquet') d LEFT JOIN read_parquet('s3://b/data-desk/observations/**/data.parquet') o ON"));
    assert!(sql.ends_with("d.status='ok') TO '/tmp/r.csv' (FORMAT CSV, HEADER)"));
}

fn verdict(rejects: Vec<&'static str>, flags: Vec<&'static str>) -> Verdict {
    Verdict { idx: 0, key: "a:d:p".to_string(), score: num(0.5), rejects, flags }
}

#[test]
fn the_ranked_list_is_a_table() {
    let n = Shown {
        score: "0.65".to_string(),
        max_p: "0.97".to_string(),
        flux_kg_h: "4700".to_string(),
        anchor_m: "40".to_string(),
        collinearity: Some("0.05".to_string()),
    };
    assert_eq!(
        report_header(),
        "key,verdict,score,rejects,flags,orbit,max_p,flux_kg_h,anchor_m,collinearity\n"
    );
    assert_eq!(
        report(&verdict(vec![], vec!["low-sun", "swath-edge"]), "R037", &n),
        "a:d:p,review,0.65,,low-sun;swath-edge,R037,0.97,4700,40,0.05\n"
    );
    let bare = Shown { collinearity: None, ..n };
    assert_eq!(
        report(&verdict(vec!["p-floor"], vec![]), "", &bare),
        "a:d:p,reject,0.65,p-floor,,,0.97,4700,40,\n"
    );
    let mut second = verdict(vec!["p-floor"], vec![]);
    second.idx = 1;
    let list = ranked_list(
        &vec![second, verdict(vec![], vec![])],
        &vec!["R037".to_string(), "R080".to_string()],
        &vec![Shown { score: "1.00".to_string(), collinearity: None, max_p: "0.97".to_string(), flux_kg_h: "4700".to_string(), anchor_m: "40".to_string() }, bare],
    );
    assert_eq!(
        list,
        report_header() + "a:d:p,reject,0.65,p-floor,,R080,0.97,4700,40,\na:d:p,review,1.00,,,R037,0.97,4700,40,\n"
    );
    let all = vec![verdict(vec![], vec![]), verdict(vec!["p-floor"], vec![])];
    assert_eq!(tally(&all), "review: 2 candidates → 1 survivors");
}

#[test]
fn lines_near_a_mask_are_measured() {
    let w = component_box(pair(10.0, 20.0), pair(0.0, 40.0));
    assert_eq!(
        w,
        Envelope { west: num(-1.0), south: num(19.0), east: num(11.0), north: num(41.0) }
    );
    let points = vec![pair(-1.0, 19.0), pair(5.0, 30.0), pair(11.5, 30.0)];
    assert_eq!(component_points(&points, &w), [pair(-1.0, 19.0), pair(5.0, 30.0)]);
    let at = |x: f64| Segment { from: pair(x, 30.0), to: pair(x + 10.0, 30.0) };
    let kept = near_lines(&vec![at(211.0), at(212.0), at(-211.0), at(-212.0)], &w);
    assert_eq!(kept, [at(211.0), at(-211.0)]);
    assert_eq!(following(2, 5), Following::Unknown);
    assert_eq!(following(3, 0), Following::Nothing);
    assert_eq!(following(3, 1), Following::Measured);
    let d = vec![vec![num(16.0), num(15.0)], vec![num(15.1)], vec![]];
    assert_eq!(on_line(&d), 1);
    assert_eq!(nearest(&vec![num(3.0), num(1.0), num(1.0)]), Some(1));
    assert_eq!(nearest(&vec![num(0.0), num(-0.0)]), Some(1));
    assert_eq!(nearest(&Vec::new()), None);
}
