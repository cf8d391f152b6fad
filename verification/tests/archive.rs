use s2e::archive::{
    aws, aws_copy, aws_sync, copy_entry, coverage, merge, overlay_path, publish, Entry, Transfer,
};
use s2e::json::{parse, Json};
use s2e::paths::{child, extension, has_extension, is_remote, join, same_path};

#[test]
fn paths_work_for_local_and_object_storage() {
    assert_eq!(join("out/", "/observations"), "out/observations");
    assert_eq!(join("s3://bucket", "assets"), "s3://bucket/assets");
}

fn value(j: &Json) -> serde_json::Value {
    match j {
        Json::Null => serde_json::Value::Null,
        Json::Bool(b) => serde_json::Value::Bool(*b),
        Json::Number(n) => match (n.unsigned, n.signed, n.real) {
            (Some(u), _, _) => serde_json::Value::from(u),
            (None, Some(i), _) => serde_json::Value::from(i),
            (None, None, Some(x)) => serde_json::Value::from(f64::from_bits(x.bits)),
            (None, None, None) => serde_json::Value::Null,
        },
        Json::Text(s) => serde_json::Value::String(s.clone()),
        Json::Array(v) => serde_json::Value::Array(v.iter().map(value).collect()),
        Json::Object(v) => {
            serde_json::Value::Object(v.iter().map(|(k, x)| (k.clone(), value(x))).collect())
        }
    }
}

fn feature(id: &str, lon: f64, name: &str) -> (String, Json) {
    let text = format!(
        "{{\"geometry\":{{\"type\":\"Point\",\"coordinates\":[{lon:?},0.0]}},\"properties\":{{\"name\":\"{name}\"}}}}"
    );
    (id.to_string(), parse(&text).unwrap())
}

fn published(body: &str) -> Vec<serde_json::Value> {
    let all: serde_json::Value = serde_json::from_str(body).unwrap();
    all["features"].as_array().unwrap().clone()
}

#[test]
fn coverage_merges_by_id_and_only_grows() {
    let first = vec![feature("alpha", 1.0, "Alpha"), feature("beta", 2.0, "Beta")];
    let c = coverage(&None, &first, "2025-01-01", "2025-12-31", "2026-01-02");
    assert_eq!((c.merged, c.total), (2, 2));
    let body = value(&c.overlay.unwrap()).to_string();

    // one of the two rescanned over a later window, plus one new area
    let again = vec![feature("beta", 9.0, "Beta"), feature("gamma", 3.0, "Gamma")];
    let c = coverage(&Some(body), &again, "2026-01-01", "2026-06-30", "2026-07-01");
    assert_eq!((c.merged, c.total), (2, 3));
    let body = value(&c.overlay.unwrap()).to_string();

    let features = published(&body);
    assert_eq!(features.len(), 3, "alpha survived a run that did not touch it");
    let by_id = |id: &str| {
        features
            .iter()
            .find(|f| f["properties"]["id"] == id)
            .unwrap()
            .clone()
    };
    assert_eq!(by_id("alpha")["properties"]["end"], "2025-12-31");
    assert_eq!(by_id("beta")["properties"]["end"], "2026-06-30");
    assert_eq!(by_id("beta")["geometry"]["coordinates"][0], 9.0);
    assert_eq!(by_id("gamma")["properties"]["name"], "Gamma");

    // nothing scannable leaves the published overlay untouched
    let c = coverage(&Some(body.clone()), &Vec::new(), "2026-01-01", "2026-06-30", "2026-07-02");
    assert_eq!((c.merged, c.total), (0, 3));
    assert!(c.overlay.is_none());
    assert_eq!(published(&body).len(), 3);
}

#[test]
fn a_new_area_comes_after_the_others_and_a_rescan_keeps_its_place() {
    let now = parse(
        "{\"features\":[{\"properties\":{\"id\":\"a\"}},{\"properties\":{\"note\":\"kept\"}},{\"properties\":{\"id\":\"b\"}}]}",
    )
    .unwrap();
    let scan = vec![feature("c", 1.0, "C"), feature("a", 2.0, "A"), feature("c", 3.0, "C2")];
    let c = merge(&now, &scan, "s", "e", "d");
    assert_eq!((c.merged, c.total), (3, 4));
    let out = value(&c.overlay.unwrap());
    let ids: Vec<Option<&str>> = out["features"]
        .as_array()
        .unwrap()
        .iter()
        .map(|f| f["properties"]["id"].as_str())
        .collect();
    assert_eq!(ids, [Some("a"), None, Some("b"), Some("c")]);
    assert_eq!(out["features"][3]["properties"]["name"], "C2");
    assert_eq!(out["features"][0]["properties"]["scanned"], "d");
    // what goes by no name, and what was not scanned again, stays as it was
    assert_eq!(out["features"][1]["properties"]["note"], "kept");
    assert!(out["features"][1].get("geometry").is_none());
    assert!(out["features"][2].get("geometry").is_none());
    assert_eq!(out["type"], "FeatureCollection");
    let none = merge(&now, &Vec::new(), "s", "e", "d");
    assert_eq!((none.merged, none.total), (0, 3));
}

#[test]
fn an_area_without_a_geometry_is_passed_over() {
    let bare = vec![
        ("x".to_string(), parse("{\"geometry\":null,\"properties\":{}}").unwrap()),
        ("y".to_string(), parse("{\"properties\":{}}").unwrap()),
    ];
    let c = coverage(&None, &bare, "s", "e", "d");
    assert_eq!((c.merged, c.total), (0, 0));
    assert!(c.overlay.is_none());
}

#[test]
fn an_overlay_that_is_no_document_starts_afresh() {
    let c = coverage(&Some("not json".to_string()), &vec![feature("a", 1.0, "A")], "s", "e", "d");
    assert_eq!((c.merged, c.total), (1, 1));
}

#[test]
fn an_overlay_is_read_back_as_it_was_written() {
    let scan = vec![feature("a", 1.0, "A"), feature("b", 2.0, "B")];
    let first = coverage(&None, &scan, "s", "e", "d").overlay.unwrap();
    let body = value(&first).to_string();
    let second = merge(&parse(&body).unwrap(), &vec![feature("b", 2.0, "B")], "s", "e", "d");
    assert_eq!(value(&second.overlay.unwrap()), value(&first));
}

#[test]
fn the_overlay_stands_under_its_root() {
    assert_eq!(overlay_path("s3://bucket/"), "s3://bucket/web/coverage.geojson");
    assert!(is_remote("s3://bucket"));
    assert!(!is_remote("out"));
}

#[test]
fn leavings_are_not_copied() {
    assert_eq!(copy_entry("flares-abc.geojson", false), Entry::Copy);
    assert_eq!(copy_entry("flares-abc.err", false), Entry::Skip);
    assert_eq!(copy_entry("plumes.tif.part", false), Entry::Skip);
    assert_eq!(copy_entry(".err", false), Entry::Copy);
    assert_eq!(copy_entry("dir.err", true), Entry::Enter);
    assert_eq!(copy_entry("part", false), Entry::Copy);
}

#[test]
fn records_go_before_assets() {
    let plan = publish("out", "s3://bucket/");
    assert_eq!(plan.len(), 2);
    match (&plan[0], &plan[1]) {
        (Transfer::Sync { from: a, to: b }, Transfer::Sync { from: c, to: d }) => {
            assert_eq!(a, "out/observations");
            assert_eq!(b, "s3://bucket/observations");
            assert_eq!(c, "out/assets");
            assert_eq!(d, "s3://bucket/assets");
        }
        _ => panic!("not a sync"),
    }
    match &publish("out/", "/srv/archive")[0] {
        Transfer::Copy { from, to } => {
            assert_eq!(from, "out/observations");
            assert_eq!(to, "/srv/archive/observations");
        }
        _ => panic!("not a copy"),
    }
}

#[test]
fn nothing_is_published_onto_itself() {
    assert!(publish("out", "out").is_empty());
    assert!(publish("out", "out/").is_empty());
    assert!(publish("out//x", "out/./x").is_empty());
    assert_eq!(publish("out", "./out").len(), 2);
    assert_eq!(publish("/out", "out").len(), 2);
    assert!(same_path("a/b/", "a//b"));
    assert!(!same_path("a/b", "a/c"));
}

#[test]
fn the_store_is_reached_as_the_environment_says() {
    let none = aws(&None, &None, &None, &None);
    assert!(none.args.is_empty() && none.env.is_empty());
    let some = aws(
        &Some("s3.example.org".to_string()),
        &Some("key".to_string()),
        &None,
        &Some("waw3-2".to_string()),
    );
    assert_eq!(some.args, ["--endpoint-url", "https://s3.example.org"]);
    assert_eq!(
        some.env,
        [
            ("AWS_ACCESS_KEY_ID".to_string(), "key".to_string()),
            ("AWS_DEFAULT_REGION".to_string(), "waw3-2".to_string())
        ]
    );
    let plain = aws(&Some("http://localhost".to_string()), &None, &None, &None);
    assert_eq!(plain.args[1], "http://localhost");
}

#[test]
fn the_store_is_told_what_to_leave_out() {
    assert_eq!(
        aws_sync("out/observations", "s3://b/observations").join(" "),
        "s3 sync out/observations s3://b/observations --exclude *.err --exclude *.part --only-show-errors"
    );
    assert_eq!(aws_copy("s3://b/x", "/tmp/x").join(" "), "s3 cp s3://b/x /tmp/x --only-show-errors");
}

#[test]
fn names_have_extensions() {
    assert_eq!(extension("a.tar.gz").as_deref(), Some("gz"));
    assert_eq!(extension("a."), Some(String::new()));
    assert_eq!(extension(".hidden"), None);
    assert_eq!(extension("plain"), None);
    assert_eq!(extension(".."), None);
    assert!(has_extension("x.geojson", "geojson"));
    assert!(!has_extension("geojson", "geojson"));
    assert_eq!(child("", "x"), "x");
    assert_eq!(child("a/", "x"), "a/x");
    assert_eq!(child("a", "x"), "a/x");
}
