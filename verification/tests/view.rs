use s2e::number::Real;
use s2e::table::{columns, Table};
use s2e::view::{
    cells_csv, clouds_sql, cluster_row, cluster_schema, detection, detections_sql, fmt, fo, look,
    member_schema, members_csv, opt_number, read_clouds, read_detections, s3_prelude, sites_csv,
    types, Measure, Readings, Site, Store,
};

fn num(x: f64) -> Real {
    Real { bits: x.to_bits() }
}

fn shown(x: f64) -> Measure {
    Measure { value: num(x), shown: format!("{x}") }
}

fn text(s: &str) -> Option<String> {
    Some(s.to_string())
}

fn no_store() -> Store {
    Store {
        endpoint: None,
        region: None,
        access_key: None,
        secret_key: None,
        imagery_access_key: None,
        imagery_secret_key: None,
    }
}

#[test]
fn the_store_is_set_up_where_it_has_an_endpoint() {
    assert_eq!(s3_prelude(&no_store()), "INSTALL httpfs; LOAD httpfs; ");
    let s = Store {
        endpoint: text("s3.example.org"),
        region: None,
        access_key: text(""),
        secret_key: text("SECRET"),
        imagery_access_key: text("AK"),
        imagery_secret_key: text("other"),
    };
    assert_eq!(
        s3_prelude(&s),
        "INSTALL httpfs; LOAD httpfs; SET s3_endpoint='s3.example.org'; SET s3_region=''; SET s3_url_style='path'; SET s3_use_ssl=true; SET s3_access_key_id='AK'; SET s3_secret_access_key='SECRET'; "
    );
}

#[test]
fn detections_are_read_by_the_names_of_their_columns() {
    let rows = read_detections(
        "date,id,lat,lon,max_b12,glint_score,max_b11\r\n2026-01-01,d1,51.5,-1,0.9,inf,\n\n2026-01-02,d2\n",
    );
    assert_eq!(rows.len(), 2);
    assert_eq!((rows[0].id.as_str(), rows[0].lon.as_str()), ("d1", "-1"));
    assert_eq!(rows[0].radiance, "");
    assert_eq!(rows[1].lat, "");
    let n = Readings {
        lon: Some(num(-1.0)),
        lat: Some(num(51.5)),
        max_b12: Some(num(0.9)),
        max_b11: None,
        b12_b11_ratio: Some(num(2.0)),
        radiance: None,
        sun_elevation: None,
        glint_score: None,
    };
    let d = detection(&rows[0], &n);
    assert_eq!((d.id.as_str(), d.date.as_str()), ("d1", "2026-01-01"));
    assert_eq!((d.lon, d.lat), (num(-1.0), num(51.5)));
    assert_eq!(d.radiance, num(0.0));
    assert_eq!(d.peak_b11, None);
    assert_eq!(d.b12_b11_ratio, None);
    assert_eq!(d.glint_score, Some(num(f64::INFINITY)));
}

#[test]
fn absent_numbers_and_infinities_have_texts_of_their_own() {
    let seven = Some(num(7.0));
    assert_eq!(opt_number("  ", seven), None);
    assert_eq!(opt_number(" 7 ", seven), seven);
    assert_eq!(opt_number("seven", None), None);
    assert_eq!(opt_number("Infinity", None), Some(num(f64::INFINITY)));
    assert_eq!(opt_number("-inf", None), Some(num(f64::NEG_INFINITY)));
    assert_eq!(opt_number("-Infinity", None), Some(num(f64::NEG_INFINITY)));
    assert_eq!(fmt(&shown(f64::INFINITY)), "Infinity");
    assert_eq!(fmt(&shown(f64::NEG_INFINITY)), "-Infinity");
    assert_eq!(fmt(&shown(0.5)), "0.5");
    assert_eq!(fo(&None), "");
    assert_eq!(fo(&Some(shown(2.0))), "2");
    for x in [f64::INFINITY, f64::NEG_INFINITY] {
        assert_eq!(opt_number(&fmt(&shown(x)), None), Some(num(x)));
    }
}

#[test]
fn statements_ask_for_a_window() {
    assert_eq!(
        detections_sql("P; ", "d.parquet", "a", "b", "o.csv"),
        "P; COPY (SELECT id, lon, lat, date, max_b12, max_b11, b12_b11_ratio, radiance, sun_elevation, glint_score FROM read_parquet('d.parquet') WHERE date >= 'a' AND date <= 'b') TO 'o.csv' (FORMAT CSV, HEADER)"
    );
    assert_eq!(
        clouds_sql("P; ", "m.parquet", "c.csv", "1000", "a", "b"),
        "P; SELECT DISTINCT lon, lat, date, cloud FROM read_parquet('m.parquet') JOIN read_csv('c.csv', header=true, columns={'i':'BIGINT','j':'BIGINT'}) ON CAST(round(lon*1000) AS BIGINT)=i AND CAST(round(lat*1000) AS BIGINT)=j WHERE date >= 'a' AND date <= 'b'"
    );
}

#[test]
fn cells_are_asked_for_in_a_table() {
    assert_eq!(cells_csv(&vec![(-1, 51), (i64::MIN, 0)]), "i,j\n-1,51\n-9223372036854775808,0");
    assert_eq!(cells_csv(&Vec::new()), "i,j");
}

#[test]
fn an_unreadable_look_is_not_a_clear_one() {
    assert!(read_clouds("1,2,3").is_none());
    let row = read_clouds("1.5,51,2026-01-01,x,more").unwrap();
    assert_eq!((row.lon.as_str(), row.date.as_str(), row.cloud.as_str()), ("1.5", "2026-01-01", "x"));
    let l = look(&row, Some(num(1.5)), None, None);
    assert_eq!((l.lon, l.lat, l.cloud), (num(1.5), num(0.0), num(1.0)));
    assert_eq!(l.date, "2026-01-01");
    assert_eq!(look(&row, None, None, Some(num(0.2))).cloud, num(0.2));
}

fn site() -> Site {
    Site {
        id: "s1".to_string(),
        lon: shown(-1.5),
        lat: shown(51.0),
        total_score: shown(0.75),
        flags: vec!["glint".to_string(), "edge".to_string()],
        max_b12: shown(1.0),
        avg_b12: shown(0.5),
        radiance: shown(12.0),
        median_b12_b11_ratio: None,
        min_sun_elevation: Some(shown(20.0)),
        ratio_score: shown(0.1),
        persistence_score: shown(0.2),
        glint_penalty: shown(0.0),
        max_ratio: Some(shown(f64::INFINITY)),
        min_glint: None,
        members: vec!["d1".to_string(), "d2".to_string()],
    }
}

#[test]
fn sites_and_members_are_written_as_tables() {
    assert_eq!(cluster_row(&site()).len(), cluster_schema().len());
    assert_eq!(
        sites_csv(&vec![site()]),
        "id,lon,lat,score,flags,cluster_max_b12,cluster_avg_b12,cluster_radiance,median_b12_b11_ratio,min_sun_elevation,ratio_score,persistence_score,glint_penalty,max_ratio,min_glint\n\
         s1,-1.5,51,0.75,glint;edge,1,0.5,12,,20,0.1,0.2,0,Infinity,\n"
    );
    let mut other = site();
    other.id = "s2".to_string();
    other.members = vec!["d3".to_string()];
    assert_eq!(members_csv(&vec![site(), other]), "id,site_id\nd1,s1\nd2,s1\nd3,s2\n");
    assert_eq!(members_csv(&Vec::new()), "id,site_id\n");
    assert_eq!(types(&member_schema()), "{'id':'VARCHAR','site_id':'VARCHAR'}");
}

#[test]
fn the_tables_are_written_out_with_their_types() {
    let sql = s2e::view::write("P; ", "c.csv", "m.csv", "c.parquet", "m.parquet");
    assert!(sql.starts_with("P; COPY (SELECT * REPLACE ([f FOR f IN str_split(coalesce(flags, ''), ';') IF f <> ''] AS flags) FROM read_csv('c.csv', header=true, nullstr='', columns={'id':'VARCHAR','lon':'DOUBLE',"));
    assert!(sql.ends_with(")) TO 'c.parquet' (FORMAT PARQUET, COMPRESSION ZSTD);\nCOPY (SELECT * FROM read_csv('m.csv', header=true, columns={'id':'VARCHAR','site_id':'VARCHAR'})) TO 'm.parquet' (FORMAT PARQUET, COMPRESSION ZSTD);"));
}

#[test]
fn a_table_is_addressed_by_name() {
    let t = Table::read("a,b,a \nx,y,z\n1\n");
    assert_eq!(t.columns, ["a", "b", "a"]);
    assert_eq!(t.cell(0, "b"), "y");
    assert_eq!(t.cell(0, "a"), "z");
    assert_eq!(t.cell(1, "b"), "");
    assert_eq!(t.cell(0, "c"), "");
    assert!(Table::read("").rows.is_empty());
    assert_eq!(columns("a,b \r"), ["a", "b"]);
}
