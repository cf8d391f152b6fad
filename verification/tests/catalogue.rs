use s2e::catalogue::{
    answered, page_limit, payload, post_page, requests, retryable, Pacer, Paging, Reply, Step, PACE,
    STAC_ATTEMPTS,
};
use s2e::envelope::{disjoint, Envelope};
use s2e::json::{parse, Json};
use s2e::number::Real;

fn num(x: f64) -> Real {
    Real { bits: x.to_bits() }
}

fn env(b: [f64; 4]) -> Envelope {
    Envelope { west: num(b[0]), south: num(b[1]), east: num(b[2]), north: num(b[3]) }
}

fn envs(list: &[[f64; 4]]) -> Vec<Envelope> {
    list.iter().map(|b| env(*b)).collect()
}

fn array(j: Option<&Json>) -> Option<&Vec<Json>> {
    match j {
        Some(Json::Array(v)) => Some(v),
        _ => None,
    }
}

#[test]
fn overlapping_envelopes_are_merged_before_they_are_queried() {
    // two sites a few km apart, envelopes overlapping
    let merged = disjoint(&envs(&[[51.5, 25.8, 51.6, 25.9], [51.55, 25.85, 51.65, 25.95]]));
    assert_eq!(merged.len(), 1);
    assert_eq!(merged[0], env([51.5, 25.8, 51.65, 25.95]));
    // a chain merges transitively, however the pairs are ordered
    let chain = disjoint(&envs(&[
        [0.0, 0.0, 1.0, 1.0],
        [4.0, 4.0, 5.0, 5.0],
        [0.5, 0.5, 4.5, 4.5],
    ]));
    assert_eq!(chain.len(), 1);
    assert_eq!(chain[0], env([0.0, 0.0, 5.0, 5.0]));
    // genuinely separate sites stay separate, so the batch keeps its precision
    let apart = disjoint(&envs(&[[0.0, 0.0, 1.0, 1.0], [10.0, 10.0, 11.0, 11.0]]));
    assert_eq!(apart.len(), 2);
    // and a merged batch that collapses to one envelope goes back to a bbox query
    let one = payload(
        &envs(&[[51.5, 25.8, 51.6, 25.9], [51.55, 25.85, 51.65, 25.95]]),
        "2026-01-01",
        "2026-01-31",
        "cdse-l1c",
    );
    assert!(array(one.field("bbox")).is_some());
    assert!(one.field("intersects").is_none());
}

#[test]
fn page_size_respects_each_collection() {
    assert_eq!(page_limit("cdse-l1c"), 1000);
    assert_eq!(page_limit("aws-l1c"), 1000);
    assert_eq!(page_limit("cdse"), 200);
}

#[test]
fn one_envelope_is_a_bbox_and_many_are_a_multipolygon() {
    let one = payload(&envs(&[[-1.0, 51.0, -0.9, 51.1]]), "2026-01-01", "2026-01-31", "cdse-l1c");
    assert!(array(one.field("bbox")).is_some());
    assert!(one.field("intersects").is_none());
    assert_eq!(one.field("limit").unwrap().as_signed(), Some(1000));

    let many = payload(
        &envs(&[[-1.0, 51.0, -0.9, 51.1], [2.0, 48.0, 2.1, 48.1]]),
        "2026-01-01",
        "2026-01-31",
        "cdse-l1c",
    );
    assert!(many.field("bbox").is_none());
    let shape = many.field("intersects").unwrap();
    assert_eq!(shape.text_field("type").unwrap(), "MultiPolygon");
    let coordinates = array(shape.field("coordinates")).unwrap();
    assert_eq!(coordinates.len(), 2);
    // a closed ring per envelope
    let ring = array(array(coordinates.get(0)).unwrap().get(0)).unwrap();
    assert_eq!(ring.len(), 5);
}

#[test]
fn a_request_says_what_is_asked_for() {
    let body = payload(&envs(&[[-1.0, 51.0, -0.9, 51.1]]), "2026-01-01", "2026-01-31", "aws");
    assert_eq!(body.text_field("datetime").unwrap(), "2026-01-01T00:00:00Z/2026-01-31T23:59:59Z");
    let collections = array(body.field("collections")).unwrap();
    assert_eq!(collections[0].as_text().unwrap(), "sentinel-2-l2a");
    let limit = body.field("limit").unwrap();
    assert_eq!(limit.as_real(), Some(num(200.0)));
    let corners: Vec<Real> = array(body.field("bbox"))
        .unwrap()
        .iter()
        .map(|x| x.as_real().unwrap())
        .collect();
    assert_eq!(corners, [num(-1.0), num(51.0), num(-0.9), num(51.1)]);
}

#[test]
fn rings_run_round_the_envelope_and_close() {
    let many = payload(
        &envs(&[[0.0, 1.0, 2.0, 3.0], [10.0, 11.0, 12.0, 13.0]]),
        "a",
        "b",
        "aws-l1c",
    );
    let coordinates = array(many.field("intersects").unwrap().field("coordinates")).unwrap();
    let ring = array(array(coordinates.get(0)).unwrap().get(0)).unwrap();
    let points: Vec<(f64, f64)> = ring
        .iter()
        .map(|p| {
            let v = array(Some(p)).unwrap();
            let at = |i: usize| f64::from_bits(v[i].as_real().unwrap().bits);
            (at(0), at(1))
        })
        .collect();
    assert_eq!(points, [(0.0, 1.0), (2.0, 1.0), (2.0, 3.0), (0.0, 3.0), (0.0, 1.0)]);
}

#[test]
fn an_envelope_without_an_extent_has_no_numbers_to_ask_for() {
    let far = payload(
        &envs(&[[f64::INFINITY, f64::INFINITY, f64::NEG_INFINITY, f64::NEG_INFINITY]]),
        "a",
        "b",
        "aws",
    );
    let bbox = array(far.field("bbox")).unwrap();
    assert_eq!(bbox.len(), 4);
    assert!(bbox.iter().all(|x| matches!(x, Json::Null)));
}

#[test]
fn a_search_follows_its_pages_to_the_end() {
    let mut p = Paging::query(&envs(&[[0.0, 0.0, 1.0, 1.0]]), "a", "b", "cdse-l1c");
    assert_eq!(p.next.as_ref().unwrap().0, "https://stac.dataspace.copernicus.eu/v1/search");
    let page = parse(
        "{\"features\":[1,2],\"links\":[{\"rel\":\"self\"},{\"rel\":\"next\",\"href\":\"https://x/2\",\"body\":{\"token\":7}},{\"rel\":\"next\",\"href\":\"https://x/9\",\"body\":{}}]}",
    )
    .unwrap();
    p.turn(&page);
    assert_eq!(p.features.len(), 2);
    let (url, body) = p.next.as_ref().unwrap();
    assert_eq!(url, "https://x/2");
    assert_eq!(body.field("token").unwrap().as_signed(), Some(7));
    p.turn(&parse("{\"features\":[3],\"links\":[{\"rel\":\"next\",\"href\":\"https://x/3\"}]}").unwrap());
    assert_eq!(p.features.len(), 3);
    assert_eq!(p.features[2].as_signed(), Some(3));
    assert!(p.next.is_none());
    let mut q = Paging::query(&envs(&[[0.0, 0.0, 1.0, 1.0]]), "a", "b", "aws");
    assert_eq!(q.next.as_ref().unwrap().0, "https://earth-search.aws.element84.com/v1/search");
    q.turn(&parse("{}").unwrap());
    assert!(q.features.is_empty() && q.next.is_none());
}

fn wait_of(step: Step) -> u64 {
    match step {
        Step::Retry { seconds, .. } => seconds,
        _ => panic!("not tried again"),
    }
}

fn status(code: u16, retry_after: Option<&str>) -> Reply {
    Reply::Status {
        code,
        retry_after: retry_after.map(String::from),
        message: format!("https://x/: status code {code}"),
    }
}

#[test]
fn what_may_pass_is_tried_again() {
    let waits: Vec<u64> = (1..STAC_ATTEMPTS)
        .map(|n| wait_of(post_page(n, Reply::Transport("Dns Failed".to_string()))))
        .collect();
    assert_eq!(waits, [1, 2, 4, 8, 16, 16]);
    assert_eq!(wait_of(post_page(1, status(429, Some(" 2 ")))), 2);
    assert_eq!(wait_of(post_page(3, status(503, Some("Wed, 21 Oct")))), 4);
    assert!(retryable(408) && retryable(429) && retryable(500) && retryable(504));
    assert!(!retryable(400) && !retryable(404) && !retryable(499));
    match post_page(1, status(429, Some("2"))) {
        Step::Retry { notice, .. } => assert_eq!(
            notice,
            "  stac transient failure; retry 2/7 in 2s: stac http: status 429"
        ),
        _ => panic!("not tried again"),
    }
}

#[test]
fn attempts_end() {
    match post_page(STAC_ATTEMPTS, status(500, None)) {
        Step::Fail(m) => assert_eq!(m, "stac http: status 500 after 7 attempts"),
        _ => panic!("tried again"),
    }
    match post_page(STAC_ATTEMPTS, Reply::Transport("Dns Failed".to_string())) {
        Step::Fail(m) => assert_eq!(m, "stac http: Dns Failed after 7 attempts"),
        _ => panic!("tried again"),
    }
}

#[test]
fn what_will_not_pass_is_final() {
    match post_page(1, status(400, Some("2"))) {
        Step::Fail(m) => assert_eq!(m, "stac http: https://x/: status code 400"),
        _ => panic!("tried again"),
    }
    match post_page(1, Reply::Body("<html>".to_string())) {
        Step::Fail(m) => assert_eq!(
            m,
            "stac: response was not json (Failed to read JSON: expected value at line 1 column 1) — the endpoint rejected the request rather than answering it, so the query itself has to change"
        ),
        _ => panic!("tried again"),
    }
    match answered(Err("no brace".to_string())) {
        Step::Fail(m) => assert!(m.starts_with("stac: response was not json (Failed to read JSON: no brace) — ")),
        _ => panic!("tried again"),
    }
    match post_page(1, Reply::Unread("timed out".to_string())) {
        Step::Fail(m) => assert!(m.starts_with("stac: response was not json (timed out) — ")),
        _ => panic!("tried again"),
    }
    match post_page(1, Reply::Body("{\"features\":[]}".to_string())) {
        Step::Done(page) => assert!(array(page.field("features")).unwrap().is_empty()),
        _ => panic!("not done"),
    }
}

#[test]
fn requests_are_paced_and_counted() {
    let mut p = Pacer::new();
    assert_eq!(p.pace(5), 0);
    p.note(1000);
    assert_eq!(p.pace(1000), PACE);
    assert_eq!(p.pace(1000 + PACE / 2), PACE - PACE / 2);
    assert_eq!(p.pace(1000 + PACE), 0);
    assert_eq!(p.pace(0), PACE);
    p.note(1000 + PACE);
    assert_eq!(requests(&p), 2);
}
