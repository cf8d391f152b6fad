use s2e::envelope::{widen, Envelope};
use s2e::json::{parse, Json};
use s2e::number::Real;
use s2e::stac::{
    api, count_unrated, discover, epsg_of, filter_cloud, grid_code, l2a_twin, level, meets, search,
    searches, survivors, Bands, Item,
};

fn num(x: f64) -> Real {
    Real { bits: x.to_bits() }
}

fn env(b: [f64; 4]) -> Envelope {
    Envelope { west: num(b[0]), south: num(b[1]), east: num(b[2]), north: num(b[3]) }
}

fn at(bbox: [f64; 4], cloud: f64) -> Item {
    Item {
        id: "S2A_MSIL1C_x".into(),
        date: "2026-06-01".into(),
        datetime: "2026-06-01T10:00:00Z".into(),
        cloud_cover: Some(num(cloud)),
        mgrs: "30UXB".into(),
        epsg: 32630,
        bbox: env(bbox),
        sun_elevation: None,
        sun_azimuth: None,
        bands: Bands {
            b01: None, b02: None, b03: None, b04: None, b05: None, b06: None,
            b07: None, b08: None, b12: None, b11: None, b8a: None, b09: None,
            b10: None, scl: None, product_metadata: None, granule_metadata: None,
        },
        level: "l1c".into(),
    }
}

#[test]
fn selection_matches_what_discovery_keeps() {
    let feature = env([-1.0, 51.0, -0.9, 51.1]);
    assert!(meets(&at([-1.5, 50.5, -0.5, 51.5], 0.0), feature)); // covers it
    assert!(meets(&at([-1.0, 51.0, -0.9, 51.1], 0.0), feature)); // exactly it
    assert!(!meets(&at([2.0, 51.0, 3.0, 51.5], 0.0), feature)); // elsewhere
    assert!(!meets(&at([-179.6, 50.0, 180.0, 52.0], 0.0), feature)); // world-wide junk
}

#[test]
fn a_point_feature_still_meets_its_scene() {
    let point = env([-1.0, 51.0, -1.0, 51.0]);
    assert!(meets(&at([-1.5, 50.5, -0.5, 51.5], 0.0), point));
}

#[test]
fn cloud_filter_is_a_pure_function_of_the_scene_list() {
    let scenes = vec![at([-1.0, 51.0, -0.9, 51.1], 10.0), at([-1.0, 51.0, -0.9, 51.1], 80.0)];
    assert_eq!(filter_cloud(scenes.clone(), num(100.0)).len(), 2);
    assert_eq!(filter_cloud(scenes.clone(), num(50.0)).len(), 1);
    assert_eq!(filter_cloud(scenes, num(5.0)).len(), 0);
}

#[test]
fn a_scene_without_a_cover_counts_as_covered() {
    let mut bare = at([-1.0, 51.0, -0.9, 51.1], 0.0);
    bare.cloud_cover = None;
    assert_eq!(filter_cloud(vec![bare.clone()], num(99.9)).len(), 0);
    assert_eq!(filter_cloud(vec![bare], num(100.0)).len(), 1);
}

#[test]
fn thresholds_compose_downwards() {
    let scenes: Vec<Item> = [5.0, 40.0, 60.0, 90.0]
        .iter()
        .map(|c| at([-1.0, 51.0, -0.9, 51.1], *c))
        .collect();
    let once = filter_cloud(scenes.clone(), num(50.0));
    let twice = filter_cloud(filter_cloud(scenes, num(70.0)), num(50.0));
    assert_eq!(once.len(), 2);
    assert_eq!(twice.len(), 2);
}

#[test]
fn a_point_is_widened_to_an_extent() {
    let q = widen(env([-1.0, 51.0, -1.0, 52.0]));
    assert_eq!(q, env([-1.0 - 1e-6, 51.0, -1.0 + 1e-6, 52.0]));
    assert_eq!(widen(env([0.0, 0.0, 1.0, 1.0])), env([0.0, 0.0, 1.0, 1.0]));
}

fn scene(id: &str, day: &str, tile: &str, cloud: f64, bbox: &str) -> Json {
    parse(&format!(
        "{{\"id\":\"{id}\",\"bbox\":{bbox},\"properties\":{{\"datetime\":\"{day}T10:00:00Z\",\"grid:code\":\"MGRS-{tile}\",\"eo:cloud_cover\":{cloud},\"view:sun_elevation\":41.5}},\"assets\":{{\"B11\":{{\"href\":\"s3://eodata/{id}_B11.jp2\"}},\"SCL_20m\":{{\"href\":\"s3://eodata/{id}_SCL.jp2\"}}}}}}"
    ))
    .unwrap()
}

const HERE: &str = "[-1.5,50.5,-0.5,51.5]";

#[test]
fn the_clearest_scene_of_a_tile_and_day_is_kept() {
    let features = vec![
        scene("A", "2026-06-01", "30UXB", 40.0, HERE),
        scene("B", "2026-06-01", "30UXB", 10.0, HERE),
        scene("C", "2026-06-01", "30UXB", 10.0, HERE),
        scene("D", "2026-06-02", "30UXB", 90.0, HERE),
        scene("E", "2026-06-01", "31UXB", 90.0, "[-179.6,50.0,180.0,52.0]"),
        scene("F", "2026-06-01", "32UXB", 90.0, "[2.0,51.0,3.0,51.5]"),
    ];
    let area = vec![env([-1.0, 51.0, -0.9, 51.1])];
    let kept = survivors(features, &area, false);
    let ids: Vec<&str> = kept.iter().map(|f| f.text_field("id").unwrap().as_str()).collect();
    assert_eq!(ids, ["B", "D"]);
}

#[test]
fn a_manifest_and_a_search_give_the_same_scenes() {
    // two scenes of one tile and day, of which only the clearer one meets the second area
    let features = || {
        vec![
            scene("far", "2026-06-01", "30UXB", 40.0, "[-1.5,50.5,-0.95,51.5]"),
            scene("near", "2026-06-01", "30UXB", 10.0, HERE),
            scene("other", "2026-06-02", "30UXB", 90.0, HERE),
            scene("else", "2026-06-02", "31UXB", 90.0, "[-1.5,50.5,-0.95,51.5]"),
        ]
    };
    let one = env([-0.9, 51.0, -0.8, 51.1]);
    let batch = vec![env([-1.2, 51.0, -1.1, 51.1]), one];
    let ids = |kept: Vec<Json>| -> Vec<String> {
        kept.iter().map(|f| f.text_field("id").unwrap().clone()).collect()
    };
    let listed = survivors(features(), &batch, false);
    assert_eq!(ids(listed.iter().map(Json::copy).collect()), ["near", "other", "else"]);
    let codes = vec![0; listed.len()];
    let selected: Vec<String> = discover(&listed, "cdse", &codes, &Vec::new())
        .into_iter()
        .filter(|it| meets(it, one))
        .map(|it| it.id)
        .collect();
    assert_eq!(selected, ids(survivors(features(), &vec![one], false)));
    // in whatever order the scenes come, as no two of a tile and day are equally cloudy
    let mut backwards = features();
    backwards.reverse();
    let mut found = ids(survivors(backwards, &vec![one], false));
    assert_eq!(found, ["other", "near"]);
    found.sort();
    let mut wanted = selected;
    wanted.sort();
    assert_eq!(found, wanted);
}

#[test]
fn orbits_can_be_kept_apart() {
    let features = || {
        vec![
            scene("S2A_R037_x", "2026-06-01", "30UXB", 40.0, HERE),
            scene("S2B_R080_x", "2026-06-01", "30UXB", 10.0, HERE),
        ]
    };
    let area = vec![env([-1.0, 51.0, -0.9, 51.1])];
    assert_eq!(survivors(features(), &area, false).len(), 1);
    assert_eq!(survivors(features(), &area, true).len(), 2);
}

#[test]
fn an_item_holds_what_the_catalogue_says() {
    let found = vec![scene("A", "2026-06-01", "30UXB", 40.0, HERE)];
    let items = discover(&found, "cdse-l1c", &vec![32630], &Vec::new());
    let it = &items[0];
    assert_eq!(it.id, "A");
    assert_eq!(it.date, "2026-06-01");
    assert_eq!(it.datetime, "2026-06-01T10:00:00Z");
    assert_eq!(it.cloud_cover, Some(num(40.0)));
    assert_eq!(it.mgrs, "30UXB");
    assert_eq!(it.epsg, 32630);
    assert_eq!(it.bbox, env([-1.5, 50.5, -0.5, 51.5]));
    assert_eq!(it.sun_elevation, Some(num(41.5)));
    assert_eq!(it.sun_azimuth, None);
    assert_eq!(it.level, "l1c");
    assert_eq!(it.bands.b11.as_deref(), Some("s3://eodata/A_B11.jp2"));
    // the cirrus band is derived from the one beside it
    assert_eq!(it.bands.b10.as_deref(), Some("s3://eodata/A_B10.jp2"));
    assert_eq!(it.bands.scl, None);
    assert_eq!(count_unrated(&items), 1);
}

#[test]
fn a_scene_borrows_the_mask_of_its_twin() {
    let twins = discover(
        &vec![scene("T", "2026-06-01", "30UXB", 40.0, HERE)],
        "cdse",
        &vec![32630],
        &Vec::new(),
    );
    assert_eq!(twins[0].bands.scl.as_deref(), Some("s3://eodata/T_SCL.jp2"));
    let found = vec![
        scene("A", "2026-06-01", "30UXB", 40.0, HERE),
        scene("B", "2026-06-02", "30UXB", 40.0, HERE),
    ];
    let items = discover(&found, "cdse-l1c", &vec![32630, 32630], &twins);
    assert_eq!(items[0].bands.scl.as_deref(), Some("s3://eodata/T_SCL.jp2"));
    assert_eq!(items[1].bands.scl, None);
    assert_eq!(count_unrated(&items), 1);
    let clear = search(&found, "cdse-l1c", &vec![32630, 32630], &twins, num(30.0));
    assert!(clear.is_empty());
}

#[test]
fn sources_have_catalogues_levels_and_twins() {
    assert_eq!(api("cdse-l1c"), "https://stac.dataspace.copernicus.eu/v1");
    assert_eq!(api("aws"), "https://earth-search.aws.element84.com/v1");
    assert_eq!((level("aws-l1c"), level("cdse")), ("l1c", "l2a"));
    assert_eq!((l2a_twin("cdse-l1c"), l2a_twin("aws-l1c")), ("cdse", "aws"));
    let area = vec![env([0.0, 0.0, 1.0, 1.0])];
    assert_eq!(searches(&area, "cdse-l1c"), ["cdse-l1c", "cdse"]);
    assert_eq!(searches(&area, "aws"), ["aws"]);
    assert!(searches(&Vec::new(), "aws").is_empty());
}

#[test]
fn requester_pays_assets_are_read_over_https() {
    let it = parse(
        "{\"assets\":{\"swir22\":{\"href\":\"s3://sentinel-s2-l1c/tiles/30/B12.jp2\"},\"granule_metadata\":{\"href\":\"https://x/metadata.xml\"}},\"properties\":{\"proj:epsg\":32630}}",
    )
    .unwrap();
    let items = discover(&vec![it.copy()], "aws-l1c", &vec![epsg_of(&it, "aws-l1c", 7)], &Vec::new());
    assert_eq!(
        items[0].bands.b12.as_deref(),
        Some("https://sentinel-s2-l1c.s3.eu-central-1.amazonaws.com/tiles/30/B12.jp2")
    );
    assert_eq!(items[0].bands.product_metadata.as_deref(), Some("https://x/metadata.xml"));
    assert_eq!(items[0].epsg, 32630);
    assert_eq!(epsg_of(&it, "cdse", 7), 7);
    assert_eq!(grid_code(&it), "");
    assert_eq!(items[0].date, "");
    assert_eq!(items[0].bbox, env([0.0, 0.0, 0.0, 0.0]));
}
