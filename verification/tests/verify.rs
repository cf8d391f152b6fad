use s2e::json::parse;
use s2e::verify::{named_target, run, target_id, Found};

fn scene(name: &str, target: &str) -> Found {
    Found {
        path: format!("observations/{target}/S2_X/{name}"),
        name: name.to_string(),
        target: target_id(&Some(format!(
            "{{\"analysis\":{{\"target\":{{\"id\":\"{target}\"}}}},\"features\":[]}}"
        ))),
    }
}

#[test]
fn every_requested_feature_must_have_a_record() {
    let files = vec![scene("flares-abc.geojson", "alpha")];
    let want = vec!["alpha".to_string(), "beta".to_string()];
    let report = run(&files, &Some(want.clone()));
    assert!(!report.complete, "beta was never scanned");
    assert_eq!(
        report.lines,
        [
            "  1/2 features scanned, 1 unscanned, 0 errored scenes",
            "    unscanned: beta"
        ]
    );
    assert!(run(&files, &Some(want[..1].to_vec())).complete);
}

#[test]
fn a_retryable_error_fails_even_when_nothing_was_asked_for() {
    let mut files = vec![scene("flares-abc.geojson", "alpha")];
    assert!(run(&files, &None).complete);
    files.push(Found {
        path: "observations/alpha/S2_X/flares-abc.err".to_string(),
        name: "flares-abc.err".to_string(),
        target: None,
    });
    let report = run(&files, &None);
    assert!(!report.complete);
    assert_eq!(
        report.lines,
        [
            "  no --aoi (bbox/region run) — 1 errored scenes",
            "    errored: observations/alpha/S2_X/flares-abc.err"
        ]
    );
}

#[test]
fn an_empty_or_missing_tree_is_only_clean_when_nothing_was_asked_for() {
    let files = Vec::new();
    assert!(run(&files, &None).complete);
    assert!(!run(&files, &Some(vec!["alpha".to_string()])).complete);
}

#[test]
fn only_a_record_counts() {
    let want = Some(vec!["alpha".to_string()]);
    let mut other = scene("flares-abc.json", "alpha");
    assert!(!run(&vec![other], &want).complete);
    other = scene("flares-abc.geojson", "alpha");
    other.target = target_id(&None);
    assert!(!run(&vec![other], &want).complete);
    other = scene("flares-abc.geojson", "alpha");
    other.target = target_id(&Some("{\"analysis\":{\"target\":{\"id\":7}}}".to_string()));
    assert!(!run(&vec![other], &want).complete);
    assert!(run(&vec![scene("x.geojson", "beta"), scene("y.geojson", "alpha")], &want).complete);
}

#[test]
fn a_record_names_its_target() {
    let named = Some("{\"analysis\":{\"target\":{\"id\":\"alpha\"}}}".to_string());
    assert_eq!(target_id(&named).as_deref(), Some("alpha"));
    assert_eq!(target_id(&Some("{".to_string())), None);
    assert_eq!(target_id(&None), None);
    let record = parse("{\"analysis\":{\"target\":{\"id\":\"beta\"}}}").unwrap();
    assert_eq!(named_target(&record).as_deref(), Some("beta"));
}
