use s2e::lines::{header_line, item_line, recognise_header, recognise_item, Numerals};
use s2e::manifest::{
    aoi_sha256, check, frame, lines, listing, read, tmp_name, to_hex, Header, Listing, VERSION,
};
use s2e::envelope::Envelope;
use s2e::number::Real;
use s2e::stac::{Bands, Item};

fn num(x: f64) -> Real {
    Real { bits: x.to_bits() }
}

fn bands() -> Bands {
    Bands {
        b01: None, b02: None, b03: None, b04: Some("s3://eodata/x_B04.jp2".into()),
        b05: None, b06: None, b07: None, b08: None, b12: None, b11: None,
        b8a: None, b09: None, b10: None, scl: Some("s3://eodata/x_SCL.jp2".into()),
        product_metadata: None, granule_metadata: None,
    }
}

fn item(id: &str, date: &str, cloud: f64, bbox: [f64; 4]) -> Item {
    Item {
        id: id.into(),
        date: date.into(),
        datetime: format!("{date}T10:00:00Z"),
        cloud_cover: Some(num(cloud)),
        mgrs: "30UXB".into(),
        epsg: 32630,
        bbox: Envelope {
            west: num(bbox[0]),
            south: num(bbox[1]),
            east: num(bbox[2]),
            north: num(bbox[3]),
        },
        sun_elevation: Some(num(40.0)),
        sun_azimuth: Some(num(160.0)),
        bands: bands(),
        level: "l1c".into(),
    }
}

fn header(start: &str, end: &str, scenes: usize) -> Header {
    Header {
        manifest: VERSION,
        source: "cdse-l1c".into(),
        start: start.into(),
        end: end.into(),
        aoi: "lng.geojson".into(),
        aoi_sha256: "abc123".into(),
        s2e: "0.3.1".into(),
        created: "2026-08-21T00:00:00Z".into(),
        scenes,
        requests: 7,
    }
}

fn shown(x: Option<Real>) -> String {
    x.map_or("null".to_string(), |x| format!("{:?}", f64::from_bits(x.bits)))
}

fn numerals(it: &Item) -> Numerals {
    Numerals {
        cloud_cover: shown(it.cloud_cover),
        west: shown(Some(it.bbox.west)),
        south: shown(Some(it.bbox.south)),
        east: shown(Some(it.bbox.east)),
        north: shown(Some(it.bbox.north)),
        sun_elevation: shown(it.sun_elevation),
        sun_azimuth: shown(it.sun_azimuth),
    }
}

fn item_text(it: &Item) -> String {
    item_line(it, &numerals(it))
}

fn header_back(line: &str) -> Result<Header, String> {
    recognise_header(line).ok_or("no header".to_string())
}

fn back(listing: &Listing) -> Result<(Header, Vec<Item>), String> {
    // the numbers of both scenes of the round trip, but for the cloud
    let n = |cloud: &str| Numerals {
        cloud_cover: cloud.into(),
        west: "-1.0".into(),
        south: "51.0".into(),
        east: "-0.5".into(),
        north: "51.5".into(),
        sun_elevation: "40.0".into(),
        sun_azimuth: "160.0".into(),
    };
    let scenes = listing
        .scenes
        .iter()
        .map(|(i, line)| {
            let n = n(if *i == 1 { "10.0" } else { "80.0" });
            recognise_item(line, &n).ok_or("no scene".to_string())
        })
        .collect();
    read(listing, header_back(&listing.header), scenes)
}

#[test]
fn round_trips_header_and_every_scene() {
    // the manifest is the only record of what a campaign was asked to look at, so
    // what comes back has to be what went in — band hrefs and all.
    let items = vec![
        item("A", "2026-06-01", 10.0, [-1.0, 51.0, -0.5, 51.5]),
        item("B", "2026-06-06", 80.0, [-1.0, 51.0, -0.5, 51.5]),
    ];
    let h = header("2026-01-01", "2026-12-31", items.len());
    let texts: Vec<String> = items.iter().map(item_text).collect();
    let file = s2e::manifest::write(&header_line(&h), &texts).unwrap();
    // what is written is compressed, and names nothing in the clear
    assert_ne!(&file[..2], b"{\"");
    assert_eq!(&file[..2], &[0x1f, 0x8b]);
    let (h, back) = back(&lines(&file).unwrap()).unwrap();
    assert_eq!(h.scenes, 2);
    assert_eq!(h.source, "cdse-l1c");
    assert_eq!(back.len(), 2);
    assert_eq!(back[0].id, "A");
    assert_eq!(back[1].bands.scl.as_deref(), Some("s3://eodata/x_SCL.jp2"));
    assert_eq!(back[0].level, "l1c");
    assert_eq!(back[1].cloud_cover, Some(num(80.0)));
    // every field of every scene, and of the header
    for (was, is) in items.iter().zip(&back) {
        assert_eq!(format!("{was:?}"), format!("{is:?}"));
    }
    assert_eq!(format!("{h:?}"), format!("{:?}", header("2026-01-01", "2026-12-31", 2)));
    // and nothing partial is left behind under a name a run could pick up
    assert_eq!(tmp_name("scenes.ndjson.gz"), "scenes.ndjson.gz.partial");
}

#[test]
fn a_manifest_that_does_not_fit_the_run_is_refused() {
    // the failure this replaces was a cache that answered whatever it was asked.
    // every one of these has to be an error rather than a quiet wrong answer.
    let h = header("2026-01-01", "2026-12-31", 0);
    assert!(check(&h, "cdse-l1c", "2026-03-01", "2026-09-01", "abc123").is_ok());
    // exactly the covered window still fits
    assert!(check(&h, "cdse-l1c", "2026-01-01", "2026-12-31", "abc123").is_ok());
    // a run reaching past either end does not
    assert!(check(&h, "cdse-l1c", "2025-12-31", "2026-09-01", "abc123").is_err());
    assert!(check(&h, "cdse-l1c", "2026-03-01", "2027-01-01", "abc123").is_err());
    // a different catalogue is a different scene list
    assert!(check(&h, "aws-l1c", "2026-03-01", "2026-09-01", "abc123").is_err());
    // an edited AOI is a different run
    assert!(check(&h, "cdse-l1c", "2026-03-01", "2026-09-01", "def456").is_err());
}

#[test]
fn a_misfit_says_what_does_not_fit() {
    let h = header("2026-01-01", "2026-12-31", 0);
    assert_eq!(
        check(&h, "aws-l1c", "2020-01-01", "2026-09-01", "def456").unwrap_err(),
        "manifest holds cdse-l1c scenes and this run asks for aws-l1c — discover again"
    );
    assert_eq!(
        check(&h, "cdse-l1c", "2020-01-01", "2026-09-01", "def456").unwrap_err(),
        "manifest was built for a different lng.geojson — the AOI file has changed since, so discover again"
    );
    assert_eq!(
        check(&h, "cdse-l1c", "2020-01-01", "2026-09-01", "abc123").unwrap_err(),
        "manifest covers 2026-01-01 to 2026-12-31 and this run needs 2020-01-01 to 2026-09-01 — discover again over the wider window"
    );
}

#[test]
fn the_hash_is_that_of_the_bytes() {
    assert_eq!(
        aoi_sha256(&b"abc".to_vec()),
        "ba7816bf8f01cfea414140de5dae2223b00361a396177a9cb410ff61f20015ad"
    );
    assert_eq!(
        aoi_sha256(&Vec::new()),
        "e3b0c44298fc1c149afbf4c8996fb92427ae41e4649b934ca495991b7852b855"
    );
}

#[test]
fn blank_lines_count_but_hold_no_scene() {
    let file = s2e::manifest::write("h", &vec!["a".into(), "  ".into(), "b\r".into(), "ü".into()]).unwrap();
    let l = lines(&file).unwrap();
    assert_eq!(l.header, "h");
    assert_eq!(
        l.scenes,
        [(1, "a".to_string()), (3, "b".to_string()), (4, "ü".to_string())]
    );
    assert!(l.fault.is_none());
}

#[test]
fn a_file_cut_short_is_found_out() {
    let texts: Vec<String> = (0..2000).map(|n| format!("scene {n}")).collect();
    let mut file = s2e::manifest::write("h", &texts).unwrap();
    file.truncate(file.len() - 4);
    let l = lines(&file).unwrap();
    assert_eq!(l.header, "h");
    assert!(l.fault.as_ref().unwrap().starts_with("manifest read: "));
    let none: Vec<Result<Item, String>> = l
        .scenes
        .iter()
        .map(|_| Ok(item("A", "d", 1.0, [0.0, 0.0, 0.0, 0.0])))
        .collect();
    assert!(read(&l, Ok(header("a", "b", 0)), none).unwrap_err().starts_with("manifest read: "));
}

#[test]
fn what_is_no_manifest_is_refused() {
    assert!(lines(&Vec::new()).unwrap_err().starts_with("manifest read: "));
    assert!(lines(&b"plain text, not compressed".to_vec()).unwrap_err().starts_with("manifest read: "));
    let one = s2e::manifest::write("", &Vec::new()).unwrap();
    assert_eq!(lines(&one).unwrap().header, "");
}

#[test]
fn what_is_wrong_first_is_said() {
    let l = Listing {
        header: "h".into(),
        scenes: vec![(1, "a".into()), (3, "b".into())],
        fault: Some("manifest read: cut".into()),
    };
    let good = || item("A", "d", 1.0, [0.0, 0.0, 0.0, 0.0]);
    let e = read(&l, Err("no brace".into()), vec![Ok(good()), Ok(good())]).unwrap_err();
    assert_eq!(e, "manifest header: no brace");
    let mut old = header("a", "b", 0);
    old.manifest = 2;
    let e = read(&l, Ok(old), vec![Err("x".into()), Ok(good())]).unwrap_err();
    assert_eq!(e, "manifest is version 2 and this s2e reads version 1");
    let e = read(&l, Ok(header("a", "b", 0)), vec![Ok(good()), Err("x".into())]).unwrap_err();
    assert_eq!(e, "manifest scene 3: x");
    let e = read(&l, Ok(header("a", "b", 0)), vec![Ok(good()), Ok(good())]).unwrap_err();
    assert_eq!(e, "manifest read: cut");
}

#[test]
fn lines_end_in_line_feeds() {
    assert_eq!(frame("h", &vec!["a".into(), "b".into()]), "h\na\nb\n");
    let l = listing(&b"h\n\n x\r\nlast\r".to_vec(), None).unwrap();
    assert_eq!(l.scenes, [(2, " x".to_string()), (3, "last\r".to_string())]);
    let l = listing(&b"h\na\npart".to_vec(), Some("cut".into())).unwrap();
    assert_eq!(l.scenes, [(1, "a".to_string())]);
    assert_eq!(l.fault.as_deref(), Some("manifest read: cut"));
    assert_eq!(listing(&Vec::new(), None).unwrap_err(), "manifest is empty");
    assert_eq!(to_hex(&vec![0x00, 0x9a, 0xff]), "009aff");
}

#[test]
fn a_header_is_written_member_by_member() {
    let mut h = header("2026-01-01", "2026-12-31", 2);
    assert_eq!(
        header_line(&h),
        "{\"manifest\":1,\"source\":\"cdse-l1c\",\"start\":\"2026-01-01\",\"end\":\"2026-12-31\",\"aoi\":\"lng.geojson\",\"aoi_sha256\":\"abc123\",\"s2e\":\"0.3.1\",\"created\":\"2026-08-21T00:00:00Z\",\"scenes\":2,\"requests\":7}"
    );
    // what cannot stand between quotes is escaped, and comes back
    h.aoi = "a\"b\\c\u{8}\t\n\u{c}\r\u{1f}\u{0}\u{7f}é/\u{1f525}".into();
    let line = header_line(&h);
    assert!(line.contains("\"aoi\":\"a\\\"b\\\\c\\b\\t\\n\\f\\r\\u001f\\u0000\u{7f}é/\u{1f525}\","));
    assert_eq!(format!("{:?}", recognise_header(&line).unwrap()), format!("{h:?}"));
    h.scenes = usize::MAX;
    h.manifest = u32::MAX;
    assert_eq!(format!("{:?}", recognise_header(&header_line(&h)).unwrap()), format!("{h:?}"));
}

#[test]
fn a_header_is_written_as_serde_writes_it() {
    let mut h = header("2026-01-01", "2026-12-31", 2);
    h.aoi = (0u8..=255).map(|b| b as char).collect();
    let text = |s: &String| serde_json::to_string(s).unwrap();
    assert_eq!(
        header_line(&h),
        format!(
            "{{\"manifest\":{},\"source\":{},\"start\":{},\"end\":{},\"aoi\":{},\"aoi_sha256\":{},\"s2e\":{},\"created\":{},\"scenes\":{},\"requests\":{}}}",
            h.manifest, text(&h.source), text(&h.start), text(&h.end), text(&h.aoi),
            text(&h.aoi_sha256), text(&h.s2e), text(&h.created), h.scenes, h.requests
        )
    );
}

#[test]
fn a_header_laid_out_otherwise_is_not_recognised() {
    let good = header_line(&header("a", "b", 3));
    assert_eq!(recognise_header(&good).unwrap().scenes, 3);
    for (from, to) in [
        ("\"manifest\":1", "\"manifest\": 1"),
        ("\"scenes\":3", "\"scenes\":-3"),
        ("\"scenes\":3", "\"scenes\":3.0"),
        ("\"scenes\":3", "\"scenes\":3,\"scenes\":3"),
        ("\"manifest\":1", "\"manifest\":4294967296"),
        ("\"start\":\"a\",\"end\":\"b\"", "\"end\":\"b\",\"start\":\"a\""),
        ("\"start\":\"a\",", ""),
        ("\"start\":\"a\"", "\"start\":\"\\u0061\""),
    ] {
        assert!(good.contains(from));
        assert!(recognise_header(&good.replace(from, to)).is_none(), "{to}");
    }
    assert!(recognise_header("[1,\"s\",\"a\",\"b\",\"c\",\"d\",\"e\",\"f\",3,7]").is_none());
    assert!(recognise_header("{").is_none() && recognise_header("").is_none());
}

#[test]
fn a_scene_is_written_member_by_member() {
    let mut it = item("A", "2026-06-01", 10.0, [-1.0, 51.0, -0.5, 51.5]);
    assert_eq!(
        item_text(&it),
        "{\"id\":\"A\",\"date\":\"2026-06-01\",\"datetime\":\"2026-06-01T10:00:00Z\",\"cloud_cover\":10.0,\"mgrs\":\"30UXB\",\"epsg\":32630,\"bbox\":[-1.0,51.0,-0.5,51.5],\"sun_elevation\":40.0,\"sun_azimuth\":160.0,\"bands\":{\"b01\":null,\"b02\":null,\"b03\":null,\"b04\":\"s3://eodata/x_B04.jp2\",\"b05\":null,\"b06\":null,\"b07\":null,\"b08\":null,\"b12\":null,\"b11\":null,\"b8a\":null,\"b09\":null,\"b10\":null,\"scl\":\"s3://eodata/x_SCL.jp2\",\"product_metadata\":null,\"granule_metadata\":null},\"level\":\"l1c\"}"
    );
    it.epsg = -7;
    it.cloud_cover = None;
    let line = item_text(&it);
    assert!(line.contains("\"cloud_cover\":null,") && line.contains("\"epsg\":-7,"));
    let back = recognise_item(&line, &numerals(&it)).unwrap();
    assert_eq!(format!("{back:?}"), format!("{it:?}"));
}

#[test]
fn a_scene_laid_out_otherwise_is_not_recognised() {
    let it = item("A", "2026-06-01", 10.0, [-1.0, 51.0, -0.5, 51.5]);
    let n = numerals(&it);
    let good = item_text(&it);
    assert_eq!(format!("{:?}", recognise_item(&good, &n).unwrap()), format!("{it:?}"));
    for (from, to) in [
        ("\"id\":\"A\",", ""),
        ("\"id\":\"A\"", "\"id\":7"),
        ("\"id\":\"A\"", "\"id\":\"A\",\"id\":\"A\""),
        ("\"epsg\":32630", "\"epsg\":32630.5"),
        ("\"epsg\":32630", "\"epsg\":4294967296"),
        ("51.5]", "51.5,1.0]"),
        ("51.5]", "51.50]"),
        ("51.5]", "null]"),
        ("\"b01\":null", "\"b01\":1"),
        ("\"b01\":null,", ""),
        ("\"cloud_cover\":10.0", "\"cloud_cover\":\"10\""),
    ] {
        assert!(good.contains(from));
        assert!(recognise_item(&good.replace(from, to), &n).is_none(), "{to}");
    }
    // other numerals for the same numbers make another line
    let mut other = numerals(&it);
    other.west = "-1".into();
    assert!(recognise_item(&good, &other).is_none());
    assert!(recognise_item(&item_line(&it, &other), &other).is_some());
    // and what is no number is no numeral
    other.west = "null".into();
    assert!(recognise_item(&item_line(&it, &other), &other).is_none());
    assert!(recognise_item("7", &n).is_none() && recognise_item("[]", &n).is_none());
}

#[test]
fn an_empty_stream_is_an_empty_manifest() {
    let mut encoder = flate2::write::GzEncoder::new(Vec::new(), flate2::Compression::default());
    std::io::Write::flush(&mut encoder).unwrap();
    let file = encoder.finish().unwrap();
    assert_eq!(lines(&file).unwrap_err(), "manifest is empty");
}

#[test]
fn a_line_that_is_no_text_is_a_fault() {
    let mut encoder = flate2::write::GzEncoder::new(Vec::new(), flate2::Compression::default());
    std::io::Write::write_all(&mut encoder, b"h\r\na\n\xff\xfe\nb\n").unwrap();
    let l = lines(&encoder.finish().unwrap()).unwrap();
    assert_eq!(l.header, "h");
    assert_eq!(l.scenes, [(1, "a".to_string())]);
    assert_eq!(
        l.fault.as_deref(),
        Some("manifest read: stream did not contain valid UTF-8")
    );
}
