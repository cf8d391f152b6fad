use s2e::aoi::{
    aoi_features, aoi_fits_chip, bbox_texts, corners, det_bbox, feature_id, feature_ids, geom_bbox,
    load_aois, parse_bbox, parse_shard, read_aoi, Chip,
};
use s2e::envelope::Envelope;
use s2e::json::{parse, Json};
use s2e::number::{Pair, Real};
use s2e::stac::{discover, Item};

fn num(x: f64) -> Real {
    Real { bits: x.to_bits() }
}

fn env(b: [f64; 4]) -> Envelope {
    Envelope { west: num(b[0]), south: num(b[1]), east: num(b[2]), north: num(b[3]) }
}

#[test]
fn a_shard_is_a_member_of_a_fleet() {
    assert_eq!(parse_shard("0/4"), Ok((0, 4)));
    assert_eq!(parse_shard(" 3 / 4 "), Ok((3, 4)));
    assert_eq!(parse_shard("+1/2"), Ok((1, 2)));
    assert_eq!(parse_shard("4"), Err("expected I/N".to_string()));
    assert_eq!(parse_shard("4/4"), Err("expected 0 <= I < N".to_string()));
    assert_eq!(parse_shard("/4"), Err("cannot parse integer from empty string".to_string()));
    assert_eq!(parse_shard("1/2/3"), Err("invalid digit found in string".to_string()));
    assert_eq!(parse_shard("-1/2"), Err("invalid digit found in string".to_string()));
    assert_eq!(
        parse_shard("0/99999999999999999999"),
        Err("number too large to fit in target type".to_string())
    );
}

fn read_box(s: &str) -> Result<Envelope, String> {
    let v = bbox_texts(s)
        .iter()
        .map(|t| match t.parse::<f64>() {
            Ok(x) => Ok(num(x)),
            Err(e) => Err(e.to_string()),
        })
        .collect();
    parse_bbox(&v)
}

#[test]
fn a_box_is_four_numbers() {
    assert_eq!(read_box("53.79, 39.35,53.81,39.37"), Ok(env([53.79, 39.35, 53.81, 39.37])));
    assert_eq!(read_box("1,2,3"), Err("expected W,S,E,N".to_string()));
    assert_eq!(read_box("1,2,3,4,5"), Err("expected W,S,E,N".to_string()));
    assert_eq!(read_box("1,x,3"), Err("not a number: invalid float literal".to_string()));
}

fn collection(n: usize) -> Json {
    let features: Vec<String> = (0..n).map(|i| format!("{{\"properties\":{{\"n\":{i}}}}}")).collect();
    parse(&format!("{{\"features\":[{}]}}", features.join(","))).unwrap()
}

#[test]
fn shards_share_the_features_out_without_shifting_names() {
    let all = collection(10);
    let mut seen: Vec<usize> = Vec::new();
    for i in 0..4 {
        let part = aoi_features(&all, Some((i, 4)));
        assert!(part.len() == 2 || part.len() == 3);
        for (idx, f) in &part {
            assert_eq!(idx % 4, i);
            let n = f.field("properties").unwrap().field("n").unwrap().as_signed().unwrap();
            assert_eq!(n as usize, *idx);
            seen.push(*idx);
        }
    }
    seen.sort();
    assert_eq!(seen, (0..10).collect::<Vec<usize>>());
    assert_eq!(aoi_features(&all, None).len(), 10);
    assert_eq!(aoi_features(&all, Some((7, 100))).len(), 1);
    assert!(aoi_features(&all, Some((17, 100))).is_empty());
    assert!(aoi_features(&all, Some((0, usize::MAX))).len() == 1);
    assert!(aoi_features(&parse("{}").unwrap(), None).is_empty());
}

#[test]
fn a_feature_goes_by_its_own_name_first() {
    let f = |p: &str| parse(&format!("{{\"properties\":{p}}}")).unwrap();
    assert_eq!(feature_id(3, &f("{\"id\":\"a\",\"ProjectID\":\"b\"}")), "a");
    assert_eq!(feature_id(3, &f("{\"id\":7,\"ProjectID\":\"b\"}")), "b");
    assert_eq!(feature_id(3, &f("{}")), "3");
    assert_eq!(feature_id(12, &f("null")), "12");
    assert_eq!(feature_ids(&aoi_features(&collection(5), Some((1, 2)))), ["1", "3"]);
}

#[test]
fn an_envelope_holds_every_position() {
    let g = parse("{\"coordinates\":[[[1,5],[-2.5,3]],[[4,-1,100]]]}").unwrap();
    assert_eq!(geom_bbox(&g), Some(env([-2.5, -1.0, 4.0, 5.0])));
    let point = parse("{\"coordinates\":[3,4]}").unwrap();
    assert_eq!(geom_bbox(&point), Some(env([3.0, 4.0, 3.0, 4.0])));
    let none = parse("{}").unwrap();
    let inf = f64::INFINITY;
    assert_eq!(geom_bbox(&none), Some(env([inf, inf, -inf, -inf])));
    let odd = parse("{\"coordinates\":[[1,\"x\"]]}").unwrap();
    assert_eq!(geom_bbox(&odd), None);
}

#[test]
fn a_file_that_is_no_document_is_refused() {
    assert!(read_aoi("nope").unwrap_err().starts_with("parse aoi: expected ident"));
    assert!(read_aoi("{\"features\":[]}").is_ok());
}

#[test]
fn a_region_goes_before_a_box_and_a_box_before_features() {
    let text = "{\"features\":[{\"geometry\":{\"coordinates\":[3,4]},\"properties\":{\"TerminalName\":\"T\"}},{\"geometry\":{\"coordinates\":[5,6]},\"properties\":{\"id\":\"b\",\"name\":\"N\",\"TerminalName\":\"T\"}}]}";
    let features = aoi_features(&parse(text).unwrap(), None);
    let b = env([0.0, 0.0, 1.0, 1.0]);
    let drawn = parse("{\"type\":\"Polygon\"}").unwrap();
    let keys = |v: &[&str]| -> Vec<String> { v.iter().map(|k| k.to_string()).collect() };
    // the envelopes of the features, with a halo around the second
    let boxes: Vec<Envelope> = vec![
        geom_bbox(features[0].1.field("geometry").unwrap()).unwrap(),
        env([4.9, 5.9, 5.1, 6.1]),
    ];
    let region = load_aois(Some(b), Some(b), &drawn, &features, &boxes, &keys(&["r"]));
    assert_eq!(region.len(), 1);
    assert_eq!((region[0].id.as_str(), region[0].full_tile), ("region", true));
    assert_eq!(region[0].geometry.text_field("type").unwrap(), "Polygon");
    assert_eq!(region[0].key, "r");
    let boxed = load_aois(None, Some(b), &drawn, &features, &boxes, &keys(&["x"]));
    assert_eq!((boxed[0].id.as_str(), boxed[0].full_tile), ("aoi", false));
    assert_eq!(boxed[0].bbox, b);
    let each = load_aois(None, None, &drawn, &features, &boxes, &keys(&["k0", "k1"]));
    assert_eq!(each.len(), 2);
    assert_eq!((each[0].id.as_str(), each[0].name.as_str()), ("0", "T"));
    assert_eq!((each[1].id.as_str(), each[1].name.as_str()), ("b", "N"));
    assert_eq!(each[0].bbox, env([3.0, 4.0, 3.0, 4.0]));
    assert_eq!(each[1].bbox, env([4.9, 5.9, 5.1, 6.1]));
    assert_eq!((each[0].key.as_str(), each[1].key.as_str()), ("k0", "k1"));
    assert_eq!(each[1].properties.text_field("id").unwrap(), "b");
    assert!(each[1].geometry.field("coordinates").is_some());
    let item: Item = discover(
        &vec![parse("{\"bbox\":[7,8,9,10]}").unwrap()],
        "cdse",
        &vec![0],
        &Vec::new(),
    )
    .remove(0);
    assert_eq!(det_bbox(&region[0], &item), env([7.0, 8.0, 9.0, 10.0]));
    assert_eq!(det_bbox(&boxed[0], &item), b);
}

#[test]
fn an_area_fits_a_chip_with_all_its_corners() {
    let b = env([0.0, 1.0, 2.0, 3.0]);
    let c = corners(&b);
    let pair = |x: f64, y: f64| Pair { x: num(x), y: num(y) };
    assert_eq!(c, [pair(0.0, 1.0), pair(0.0, 3.0), pair(2.0, 1.0), pair(2.0, 3.0)]);
    let chip = Chip { min_x: num(500.0), max_y: num(9000.0), width: 200, height: 100 };
    let inside = vec![pair(500.0, 9000.0), pair(2500.0, 8000.0)];
    assert!(aoi_fits_chip(false, &inside, &chip));
    assert!(!aoi_fits_chip(true, &inside, &chip));
    assert!(!aoi_fits_chip(false, &vec![pair(2500.5, 8500.0)], &chip));
    assert!(!aoi_fits_chip(false, &vec![pair(600.0, 7999.0)], &chip));
    assert!(!aoi_fits_chip(false, &vec![pair(499.0, 8500.0)], &chip));
    assert!(!aoi_fits_chip(false, &vec![pair(600.0, 9000.5)], &chip));
}
