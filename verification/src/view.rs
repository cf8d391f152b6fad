//! What the clustering step exchanges with the query engine: the statements that it runs, and the
//! flat tables that it hands over and takes back.
use crate::number::{a_ratio_is_encoded, Real, INFINITY, SIGN};
use crate::table::{
    a_table_is_read_back, a_written_value_is_found_by_its_column, are_cells, are_marked, is_cell,
    mark, table_of, table_written, Table, TableView,
};
use crate::text::{
    is_space, join, joined, joined_parts_are_the_text, joined_texts_are_taken_apart, opt, or_empty,
    padded, parts, same, split, to_padded, trim, trimmed, views,
};
use vstd::arithmetic::power2::{lemma2_to64, lemma2_to64_rest, lemma_pow2_strictly_increases, pow2};
use vstd::prelude::*;

verus! {

/// How the archive's store is reached. The credentials of the archive are kept apart from those
/// that the imagery is read with, which stand in where the former are not given.
#[derive(Debug)]
pub struct Store {
    pub endpoint: Option<String>,
    pub region: Option<String>,
    pub access_key: Option<String>,
    pub secret_key: Option<String>,
    pub imagery_access_key: Option<String>,
    pub imagery_secret_key: Option<String>,
}

/// The first of two settings that is given and not empty.
pub open spec fn preferred(first: Option<Seq<char>>, second: Option<Seq<char>>) -> Seq<char> {
    if or_empty(first).len() == 0 {
        or_empty(second)
    } else {
        or_empty(first)
    }
}

/// The settings of an endpoint and its credentials, in the words of the query engine.
pub open spec fn store_settings(
    endpoint: Seq<char>,
    region: Seq<char>,
    access: Seq<char>,
    secret: Seq<char>,
) -> Seq<char> {
    "SET s3_endpoint='"@ + endpoint + "'; SET s3_region='"@ + region
        + "'; SET s3_url_style='path'; SET s3_use_ssl=true; SET s3_access_key_id='"@ + access
        + "'; SET s3_secret_access_key='"@ + secret + "'; "@
}

/// What comes before every statement that touches the store.
pub open spec fn prelude_of(s: Store) -> Seq<char> {
    "INSTALL httpfs; LOAD httpfs; "@ + match opt(s.endpoint) {
        Some(endpoint) => store_settings(
            endpoint,
            or_empty(opt(s.region)),
            preferred(opt(s.access_key), opt(s.imagery_access_key)),
            preferred(opt(s.secret_key), opt(s.imagery_secret_key)),
        ),
        None => Seq::empty(),
    }
}

fn given(s: &Option<String>) -> (r: String)
    ensures
        r@ == or_empty(opt(*s)),
{
    match s {
        Some(t) => t.clone(),
        None => String::new(),
    }
}

fn choice(first: &Option<String>, second: &Option<String>) -> (r: String)
    ensures
        r@ == preferred(opt(*first), opt(*second)),
{
    let a = given(first);
    if a.as_str().is_empty() {
        given(second)
    } else {
        a
    }
}

/// What comes before every statement that touches the store. With no endpoint the engine falls back
/// on its own chain of credentials.
pub fn s3_prelude(s: &Store) -> (r: String)
    ensures
        r@ == prelude_of(*s),
{
    let mut p = "INSTALL httpfs; LOAD httpfs; ".to_owned();
    match &s.endpoint {
        Some(endpoint) => {
            let mut t = "SET s3_endpoint='".to_owned();
            t.append(endpoint.as_str());
            t.append("'; SET s3_region='");
            t.append(given(&s.region).as_str());
            t.append("'; SET s3_url_style='path'; SET s3_use_ssl=true; SET s3_access_key_id='");
            t.append(choice(&s.access_key, &s.imagery_access_key).as_str());
            t.append("'; SET s3_secret_access_key='");
            t.append(choice(&s.secret_key, &s.imagery_secret_key).as_str());
            t.append("'; ");
            p.append(t.as_str());
        },
        None => {
            proof {
                assert(p@ + Seq::<char>::empty() =~= p@);
            }
        },
    }
    p
}

/// The statement that hands over the detections of a window.
pub fn detections_sql(prelude: &str, path: &str, start: &str, end: &str, out: &str) -> (r: String)
    ensures
        r@ == prelude@
            + "COPY (SELECT id, lon, lat, date, max_b12, max_b11, b12_b11_ratio, radiance, sun_elevation, glint_score FROM read_parquet('"@
            + path@ + "') WHERE date >= '"@ + start@ + "' AND date <= '"@ + end@ + "') TO '"@ + out@
            + "' (FORMAT CSV, HEADER)"@,
{
    let mut s = prelude.to_owned();
    s.append(
        "COPY (SELECT id, lon, lat, date, max_b12, max_b11, b12_b11_ratio, radiance, sun_elevation, glint_score FROM read_parquet('",
    );
    s.append(path);
    s.append("') WHERE date >= '");
    s.append(start);
    s.append("' AND date <= '");
    s.append(end);
    s.append("') TO '");
    s.append(out);
    s.append("' (FORMAT CSV, HEADER)");
    s
}

/// A detection as the engine writes it.
#[derive(Debug)]
pub struct DetectionRow {
    pub id: String,
    pub lon: String,
    pub lat: String,
    pub date: String,
    pub max_b12: String,
    pub max_b11: String,
    pub b12_b11_ratio: String,
    pub radiance: String,
    pub sun_elevation: String,
    pub glint_score: String,
}

/// Whether a row of a table is written down under the names of its columns.
pub open spec fn is_row(d: DetectionRow, t: TableView, i: int) -> bool {
    &&& d.id@ == t.cell(i, "id"@)
    &&& d.lon@ == t.cell(i, "lon"@)
    &&& d.lat@ == t.cell(i, "lat"@)
    &&& d.date@ == t.cell(i, "date"@)
    &&& d.max_b12@ == t.cell(i, "max_b12"@)
    &&& d.max_b11@ == t.cell(i, "max_b11"@)
    &&& d.b12_b11_ratio@ == t.cell(i, "b12_b11_ratio"@)
    &&& d.radiance@ == t.cell(i, "radiance"@)
    &&& d.sun_elevation@ == t.cell(i, "sun_elevation"@)
    &&& d.glint_score@ == t.cell(i, "glint_score"@)
}

/// The detections of the engine's table, row by row.
pub fn read_detections(text: &str) -> (r: Vec<DetectionRow>)
    ensures
        r@.len() == table_of(text@).rows.len(),
        forall|i: int| 0 <= i < r@.len() ==> is_row(#[trigger] r@[i], table_of(text@), i),
{
    let t = Table::read(text);
    let mut out: Vec<DetectionRow> = Vec::new();
    for i in 0..t.rows.len()
        invariant
            t@ == table_of(text@),
            out@.len() == i,
            forall|k: int| 0 <= k < i ==> is_row(#[trigger] out@[k], t@, k),
    {
        let d = DetectionRow {
            id: t.cell(i, "id"),
            lon: t.cell(i, "lon"),
            lat: t.cell(i, "lat"),
            date: t.cell(i, "date"),
            max_b12: t.cell(i, "max_b12"),
            max_b11: t.cell(i, "max_b11"),
            b12_b11_ratio: t.cell(i, "b12_b11_ratio"),
            radiance: t.cell(i, "radiance"),
            sun_elevation: t.cell(i, "sun_elevation"),
            glint_score: t.cell(i, "glint_score"),
        };
        out.push(d);
    }
    out
}

/// What the numbers of a row read as, each where its text is a number.
#[derive(Clone, Copy, Debug)]
pub struct Readings {
    pub lon: Option<Real>,
    pub lat: Option<Real>,
    pub max_b12: Option<Real>,
    pub max_b11: Option<Real>,
    pub b12_b11_ratio: Option<Real>,
    pub radiance: Option<Real>,
    pub sun_elevation: Option<Real>,
    pub glint_score: Option<Real>,
}

/// A flare detection to cluster.
#[derive(Debug)]
pub struct Detection {
    pub id: String,
    pub lon: Real,
    pub lat: Real,
    pub date: String,
    pub max_b12: Real,
    pub peak_b11: Option<Real>,
    pub b12_b11_ratio: Option<Real>,
    pub radiance: Real,
    pub sun_elevation: Option<Real>,
    pub glint_score: Option<Real>,
}

/// A number, else zero.
pub open spec fn or_zero(x: Option<Real>) -> Real {
    match x {
        Some(v) => v,
        None => Real { bits: 0 },
    }
}

/// A value that may be absent: nothing of an empty text, the infinities by their names, and of any
/// other text what it reads as.
pub open spec fn optional(text: Seq<char>, reading: Option<Real>) -> Option<Real> {
    let t = trimmed(text);
    if t.len() == 0 {
        None
    } else if t == "Infinity"@ || t == "inf"@ {
        Some(Real { bits: INFINITY })
    } else if t == "-Infinity"@ || t == "-inf"@ {
        Some(Real { bits: (INFINITY + SIGN) as u64 })
    } else {
        reading
    }
}

fn zero_default(x: Option<Real>) -> (r: Real)
    ensures
        r == or_zero(x),
{
    match x {
        Some(v) => v,
        None => Real { bits: 0 },
    }
}

/// A value that may be absent, from its text and what the text reads as.
pub fn opt_number(text: &str, reading: Option<Real>) -> (r: Option<Real>)
    ensures
        r == optional(text@, reading),
{
    let t = trim(text);
    let s = t.as_str();
    if s.is_empty() {
        None
    } else if same(s, "Infinity") || same(s, "inf") {
        Some(Real { bits: INFINITY })
    } else if same(s, "-Infinity") || same(s, "-inf") {
        Some(Real { bits: INFINITY + SIGN })
    } else {
        reading
    }
}

/// Whether a detection is that of a row, from what its numbers read as.
pub open spec fn is_detection(r: Detection, row: DetectionRow, n: Readings) -> bool {
    &&& r.id@ == row.id@
    &&& r.date@ == row.date@
    &&& r.lon == or_zero(n.lon)
    &&& r.lat == or_zero(n.lat)
    &&& r.max_b12 == or_zero(n.max_b12)
    &&& r.radiance == or_zero(n.radiance)
    &&& r.peak_b11 == optional(row.max_b11@, n.max_b11)
    &&& r.b12_b11_ratio == optional(row.b12_b11_ratio@, n.b12_b11_ratio)
    &&& r.sun_elevation == optional(row.sun_elevation@, n.sun_elevation)
    &&& r.glint_score == optional(row.glint_score@, n.glint_score)
}

/// The detection of a row. A number that does not read as one is zero, or absent where it may be.
pub fn detection(row: &DetectionRow, n: &Readings) -> (r: Detection)
    ensures
        is_detection(r, *row, *n),
        r.id@ == row.id@,
        r.date@ == row.date@,
        r.lon == or_zero(n.lon),
        r.lat == or_zero(n.lat),
        r.max_b12 == or_zero(n.max_b12),
        r.radiance == or_zero(n.radiance),
        r.peak_b11 == optional(row.max_b11@, n.max_b11),
        r.b12_b11_ratio == optional(row.b12_b11_ratio@, n.b12_b11_ratio),
        r.sun_elevation == optional(row.sun_elevation@, n.sun_elevation),
        r.glint_score == optional(row.glint_score@, n.glint_score),
{
    Detection {
        id: row.id.clone(),
        lon: zero_default(n.lon),
        lat: zero_default(n.lat),
        date: row.date.clone(),
        max_b12: zero_default(n.max_b12),
        peak_b11: opt_number(row.max_b11.as_str(), n.max_b11),
        b12_b11_ratio: opt_number(row.b12_b11_ratio.as_str(), n.b12_b11_ratio),
        radiance: zero_default(n.radiance),
        sun_elevation: opt_number(row.sun_elevation.as_str(), n.sun_elevation),
        glint_score: opt_number(row.glint_score.as_str(), n.glint_score),
    }
}

/// The grid cells that the cloud mask is asked for, as a table.
pub open spec fn cells_table(cells: Seq<(i64, i64)>) -> Seq<char> {
    joined(
        seq!["i,j"@] + cells.map_values(
            |c: (i64, i64)| padded(c.0 as int, 0) + ","@ + padded(c.1 as int, 0),
        ),
        "\n"@,
    )
}

/// The grid cells that the cloud mask is asked for, as a table that the engine joins the mask with.
/// Without the join it would hold the whole mask in memory.
pub fn cells_csv(cells: &Vec<(i64, i64)>) -> (r: String)
    ensures
        r@ == cells_table(cells@),
{
    let line = Ghost(|c: (i64, i64)| padded(c.0 as int, 0) + ","@ + padded(c.1 as int, 0));
    let mut rows: Vec<String> = Vec::new();
    rows.push("i,j".to_owned());
    for i in 0..cells.len()
        invariant
            line@ == |c: (i64, i64)| padded(c.0 as int, 0) + ","@ + padded(c.1 as int, 0),
            views(rows@) =~= seq!["i,j"@] + cells@.take(i as int).map_values(line@),
    {
        let ghost before = views(rows@);
        let mut s = to_padded(cells[i].0, 0);
        s.append(",");
        s.append(to_padded(cells[i].1, 0).as_str());
        rows.push(s);
        proof {
            assert(views(rows@) =~= before.push(line@(cells@[i as int])));
        }
    }
    proof {
        assert(cells@.take(cells@.len() as int) =~= cells@);
    }
    join(&rows, "\n")
}

/// The statement that reads the cloud mask of a window over some grid cells; `scale` is the number
/// of cells to a degree.
pub fn clouds_sql(
    prelude: &str,
    path: &str,
    cells: &str,
    scale: &str,
    start: &str,
    end: &str,
) -> (r: String)
    ensures
        r@ == prelude@ + "SELECT DISTINCT lon, lat, date, cloud FROM read_parquet('"@ + path@
            + "') JOIN read_csv('"@ + cells@
            + "', header=true, columns={'i':'BIGINT','j':'BIGINT'}) ON CAST(round(lon*"@ + scale@
            + ") AS BIGINT)=i AND CAST(round(lat*"@ + scale@ + ") AS BIGINT)=j WHERE date >= '"@
            + start@ + "' AND date <= '"@ + end@ + "'"@,
{
    let mut s = prelude.to_owned();
    s.append("SELECT DISTINCT lon, lat, date, cloud FROM read_parquet('");
    s.append(path);
    s.append("') JOIN read_csv('");
    s.append(cells);
    s.append("', header=true, columns={'i':'BIGINT','j':'BIGINT'}) ON CAST(round(lon*");
    s.append(scale);
    s.append(") AS BIGINT)=i AND CAST(round(lat*");
    s.append(scale);
    s.append(") AS BIGINT)=j WHERE date >= '");
    s.append(start);
    s.append("' AND date <= '");
    s.append(end);
    s.append("'");
    s
}

/// One look of the cloud mask, as the engine writes it.
#[derive(Debug)]
pub struct CloudRow {
    pub lon: String,
    pub lat: String,
    pub date: String,
    pub cloud: String,
}

/// One look of the cloud mask.
#[derive(Debug)]
pub struct Look {
    pub lon: Real,
    pub lat: Real,
    pub date: String,
    pub cloud: Real,
}

/// Whether a row is that of a line of the cloud mask.
pub open spec fn is_cloud_row(c: CloudRow, line: Seq<char>) -> bool {
    &&& parts(line, ',').len() >= 4
    &&& c.lon@ == parts(line, ',')[0]
    &&& c.lat@ == parts(line, ',')[1]
    &&& c.date@ == parts(line, ',')[2]
    &&& c.cloud@ == parts(line, ',')[3]
}

/// A line of the cloud mask; nothing of a line with fewer than four values.
pub fn read_clouds(line: &str) -> (r: Option<CloudRow>)
    ensures
        is_reading(r, line@),
        r matches Some(c) ==> is_cloud_row(c, line@),
        r is Some <==> parts(line@, ',').len() >= 4,
        r matches Some(c) ==> {
            &&& c.lon@ == parts(line@, ',')[0]
            &&& c.lat@ == parts(line@, ',')[1]
            &&& c.date@ == parts(line@, ',')[2]
            &&& c.cloud@ == parts(line@, ',')[3]
        },
{
    let f = split(line, ',');
    proof {
        assert(views(f@) == parts(line@, ','));
    }
    if f.len() < 4 {
        return None;
    }
    Some(
        CloudRow { lon: f[0].clone(), lat: f[1].clone(), date: f[2].clone(), cloud: f[3].clone() },
    )
}

/// Whether a look is that of a row, from what its numbers read as.
pub open spec fn is_look(
    r: Look,
    row: CloudRow,
    lon: Option<Real>,
    lat: Option<Real>,
    cloud: Option<Real>,
) -> bool {
    &&& r.lon == or_zero(lon)
    &&& r.lat == or_zero(lat)
    &&& r.date@ == row.date@
    &&& r.cloud == match cloud {
        Some(c) => c,
        None => Real { bits: OVERCAST },
    }
}

/// The look of a line, from what its numbers read as. A look whose cloud cannot be read is not a
/// clear look: it counts as cloudy, so that an unreadable mask shrinks the number of clear looks
/// rather than inflating the persistence of every site.
pub fn look(row: &CloudRow, lon: Option<Real>, lat: Option<Real>, cloud: Option<Real>) -> (r: Look)
    ensures
        is_look(r, *row, lon, lat, cloud),
        r.lon == or_zero(lon),
        r.lat == or_zero(lat),
        r.date@ == row.date@,
        r.cloud == match cloud {
            Some(c) => c,
            None => Real { bits: OVERCAST },
        },
{
    Look {
        lon: zero_default(lon),
        lat: zero_default(lat),
        date: row.date.clone(),
        cloud: match cloud {
            Some(c) => c,
            None => Real { bits: OVERCAST },
        },
    }
}

/// A cloud fraction of one.
pub const OVERCAST: u64 = 0x3ff0_0000_0000_0000;

/// A number, and the shortest decimal that reads as it.
#[derive(Debug)]
pub struct Measure {
    pub value: Real,
    pub shown: String,
}

/// A number as the engine reads it: the infinities have names of their own.
pub open spec fn written(m: Measure) -> Seq<char> {
    if m.value.is_infinite() {
        if m.value.is_negative() {
            "-Infinity"@
        } else {
            "Infinity"@
        }
    } else {
        m.shown@
    }
}

/// A number that may be absent.
pub open spec fn written_opt(m: Option<Measure>) -> Seq<char> {
    match m {
        Some(v) => written(v),
        None => Seq::empty(),
    }
}

/// A number as the engine reads it.
pub fn fmt(m: &Measure) -> (r: String)
    ensures
        r@ == written(*m),
{
    if m.value.bits == INFINITY {
        "Infinity".to_owned()
    } else if m.value.bits == INFINITY + SIGN {
        "-Infinity".to_owned()
    } else {
        m.shown.clone()
    }
}

/// A number that may be absent.
pub fn fo(m: &Option<Measure>) -> (r: String)
    ensures
        r@ == written_opt(*m),
{
    match m {
        Some(v) => fmt(v),
        None => String::new(),
    }
}

/// A persistent flare site, and the detections that joined it.
#[derive(Debug)]
pub struct Site {
    pub id: String,
    pub lon: Measure,
    pub lat: Measure,
    pub total_score: Measure,
    pub flags: Vec<String>,
    pub max_b12: Measure,
    pub avg_b12: Measure,
    pub radiance: Measure,
    pub median_b12_b11_ratio: Option<Measure>,
    pub min_sun_elevation: Option<Measure>,
    pub ratio_score: Measure,
    pub persistence_score: Measure,
    pub glint_penalty: Measure,
    pub max_ratio: Option<Measure>,
    pub min_glint: Option<Measure>,
    pub members: Vec<String>,
}

/// The name and the type of a column.
pub open spec fn column_views(v: Seq<(&'static str, &'static str)>) -> Seq<(Seq<char>, Seq<char>)> {
    v.map_values(|c: (&'static str, &'static str)| (c.0@, c.1@))
}

/// The columns of the table of sites.
pub open spec fn site_columns() -> Seq<(Seq<char>, Seq<char>)> {
    seq![
        ("id"@, "VARCHAR"@),
        ("lon"@, "DOUBLE"@),
        ("lat"@, "DOUBLE"@),
        ("score"@, "DOUBLE"@),
        ("flags"@, "VARCHAR"@),
        ("cluster_max_b12"@, "DOUBLE"@),
        ("cluster_avg_b12"@, "DOUBLE"@),
        ("cluster_radiance"@, "DOUBLE"@),
        ("median_b12_b11_ratio"@, "DOUBLE"@),
        ("min_sun_elevation"@, "DOUBLE"@),
        ("ratio_score"@, "DOUBLE"@),
        ("persistence_score"@, "DOUBLE"@),
        ("glint_penalty"@, "DOUBLE"@),
        ("max_ratio"@, "DOUBLE"@),
        ("min_glint"@, "DOUBLE"@),
    ]
}

/// The columns of the table of detections that joined a site.
pub open spec fn member_columns() -> Seq<(Seq<char>, Seq<char>)> {
    seq![("id"@, "VARCHAR"@), ("site_id"@, "VARCHAR"@)]
}

/// The columns of the table of sites, named and typed once: the header of the table and the types
/// that the engine is told are both built from them, so the two cannot drift apart.
pub fn cluster_schema() -> (r: Vec<(&'static str, &'static str)>)
    ensures
        column_views(r@) == site_columns(),
{
    let r = vec![
        ("id", "VARCHAR"),
        ("lon", "DOUBLE"),
        ("lat", "DOUBLE"),
        ("score", "DOUBLE"),
        ("flags", "VARCHAR"),
        ("cluster_max_b12", "DOUBLE"),
        ("cluster_avg_b12", "DOUBLE"),
        ("cluster_radiance", "DOUBLE"),
        ("median_b12_b11_ratio", "DOUBLE"),
        ("min_sun_elevation", "DOUBLE"),
        ("ratio_score", "DOUBLE"),
        ("persistence_score", "DOUBLE"),
        ("glint_penalty", "DOUBLE"),
        ("max_ratio", "DOUBLE"),
        ("min_glint", "DOUBLE"),
    ];
    proof {
        assert(column_views(r@) =~= site_columns());
    }
    r
}

/// The columns of the table of detections that joined a site.
pub fn member_schema() -> (r: Vec<(&'static str, &'static str)>)
    ensures
        column_views(r@) == member_columns(),
{
    let r = vec![("id", "VARCHAR"), ("site_id", "VARCHAR")];
    proof {
        assert(column_views(r@) =~= member_columns());
    }
    r
}

/// The values of a site, one for each column of the table of sites.
pub open spec fn site_row(c: Site) -> Seq<Seq<char>> {
    seq![
        c.id@,
        written(c.lon),
        written(c.lat),
        written(c.total_score),
        joined(views(c.flags@), ";"@),
        written(c.max_b12),
        written(c.avg_b12),
        written(c.radiance),
        written_opt(c.median_b12_b11_ratio),
        written_opt(c.min_sun_elevation),
        written(c.ratio_score),
        written(c.persistence_score),
        written(c.glint_penalty),
        written_opt(c.max_ratio),
        written_opt(c.min_glint),
    ]
}

/// The values of a site, one for each column of the table of sites.
pub fn cluster_row(c: &Site) -> (r: Vec<String>)
    ensures
        views(r@) == site_row(*c),
        r@.len() == site_columns().len(),
{
    let r = vec![
        c.id.clone(),
        fmt(&c.lon),
        fmt(&c.lat),
        fmt(&c.total_score),
        join(&c.flags, ";"),
        fmt(&c.max_b12),
        fmt(&c.avg_b12),
        fmt(&c.radiance),
        fo(&c.median_b12_b11_ratio),
        fo(&c.min_sun_elevation),
        fmt(&c.ratio_score),
        fmt(&c.persistence_score),
        fmt(&c.glint_penalty),
        fo(&c.max_ratio),
        fo(&c.min_glint),
    ];
    proof {
        assert(views(r@) =~= site_row(*c));
    }
    r
}

/// A table in writing: the names of its columns, then its rows, each on a line.
pub open spec fn table_text(columns: Seq<(Seq<char>, Seq<char>)>, rows: Seq<Seq<char>>) -> Seq<char> {
    joined(
        seq![joined(columns.map_values(|c: (Seq<char>, Seq<char>)| c.0), ","@)] + rows,
        "\n"@,
    ) + "\n"@
}

/// A table in writing.
pub fn csv(columns: &Vec<(&'static str, &'static str)>, rows: &Vec<String>) -> (r: String)
    ensures
        r@ == table_text(column_views(columns@), views(rows@)),
{
    let ghost all = column_views(columns@);
    let ghost names_of = |c: (Seq<char>, Seq<char>)| c.0;
    let mut names: Vec<String> = Vec::new();
    for i in 0..columns.len()
        invariant
            all == column_views(columns@),
            names_of == |c: (Seq<char>, Seq<char>)| c.0,
            views(names@) =~= all.take(i as int).map_values(names_of),
    {
        let ghost before = views(names@);
        names.push(columns[i].0.to_owned());
        proof {
            assert(all[i as int].0 == columns@[i as int].0@);
            assert(views(names@) =~= before.push(columns@[i as int].0@));
        }
    }
    proof {
        assert(all.take(columns@.len() as int) =~= all);
    }
    let mut lines: Vec<String> = Vec::new();
    lines.push(join(&names, ","));
    let ghost header = lines@[0]@;
    for i in 0..rows.len()
        invariant
            views(lines@) =~= seq![header] + views(rows@).take(i as int),
    {
        let ghost before = views(lines@);
        lines.push(rows[i].clone());
        proof {
            assert(views(lines@) =~= before.push(rows@[i as int]@));
        }
    }
    proof {
        assert(views(rows@).take(rows@.len() as int) =~= views(rows@));
    }
    let mut s = join(&lines, "\n");
    s.append("\n");
    s
}

/// The types of some columns, in the words of the query engine.
pub open spec fn types_text(columns: Seq<(Seq<char>, Seq<char>)>) -> Seq<char> {
    "{"@ + joined(
        columns.map_values(|c: (Seq<char>, Seq<char>)| "'"@ + c.0 + "':'"@ + c.1 + "'"@),
        ","@,
    ) + "}"@
}

/// The types of some columns. They keep the schema as it is where the values of a run happen to be
/// whole, or a column comes out with none.
pub fn types(columns: &Vec<(&'static str, &'static str)>) -> (r: String)
    ensures
        r@ == types_text(column_views(columns@)),
{
    let ghost all = column_views(columns@);
    let ghost pair = |c: (Seq<char>, Seq<char>)| "'"@ + c.0 + "':'"@ + c.1 + "'"@;
    let mut body: Vec<String> = Vec::new();
    for i in 0..columns.len()
        invariant
            all == column_views(columns@),
            pair == |c: (Seq<char>, Seq<char>)| "'"@ + c.0 + "':'"@ + c.1 + "'"@,
            views(body@) =~= all.take(i as int).map_values(pair),
    {
        let ghost before = views(body@);
        let mut s = "'".to_owned();
        s.append(columns[i].0);
        s.append("':'");
        s.append(columns[i].1);
        s.append("'");
        body.push(s);
        proof {
            assert(all[i as int] == (columns@[i as int].0@, columns@[i as int].1@));
            assert(views(body@) =~= before.push(pair(all[i as int])));
        }
    }
    proof {
        assert(all.take(columns@.len() as int) =~= all);
    }
    let mut s = "{".to_owned();
    s.append(join(&body, ",").as_str());
    s.append("}");
    s
}

/// The rows of the table of sites.
pub open spec fn site_lines(sites: Seq<Site>) -> Seq<Seq<char>> {
    sites.map_values(|c: Site| joined(site_row(c), ","@))
}

/// The rows of the table of members: each detection that joined a site, with that site.
pub open spec fn member_lines(sites: Seq<Site>) -> Seq<Seq<char>> {
    sites.map_values(|c: Site| views(c.members@).map_values(|m: Seq<char>| m + ","@ + c.id@)).flatten()
}

fn member_rows(sites: &Vec<Site>) -> (r: Vec<String>)
    ensures
        views(r@) == member_lines(sites@),
{
    let ghost of = |c: Site| views(c.members@).map_values(|m: Seq<char>| m + ","@ + c.id@);
    let mut rows: Vec<String> = Vec::new();
    proof {
        assert(views(rows@) =~= Seq::empty());
        assert(sites@.take(0).map_values(of) =~= Seq::empty());
    }
    for i in 0..sites.len()
        invariant
            of == |c: Site| views(c.members@).map_values(|m: Seq<char>| m + ","@ + c.id@),
            views(rows@) == sites@.take(i as int).map_values(of).flatten(),
    {
        let ghost before = views(rows@);
        let ghost here = of(sites@[i as int]);
        let n: usize = sites[i].members.len();
        for j in 0..n
            invariant
                i < sites@.len(),
                n == sites@[i as int].members@.len(),
                of == |c: Site| views(c.members@).map_values(|m: Seq<char>| m + ","@ + c.id@),
                here == of(sites@[i as int]),
                views(rows@) =~= before + here.take(j as int),
        {
            let ghost held = views(rows@);
            let mut s = sites[i].members[j].clone();
            s.append(",");
            s.append(sites[i].id.as_str());
            rows.push(s);
            proof {
                assert(views(rows@) =~= held.push(here[j as int]));
            }
        }
        proof {
            assert(here.take(here.len() as int) =~= here);
            let done = sites@.take(i as int).map_values(of);
            assert(sites@.take(i + 1).map_values(of) =~= done.push(here));
            done.lemma_flatten_push(here);
        }
    }
    proof {
        assert(sites@.take(sites@.len() as int) =~= sites@);
    }
    rows
}

/// The table of sites in writing.
pub fn sites_csv(sites: &Vec<Site>) -> (r: String)
    ensures
        r@ == table_text(site_columns(), site_lines(sites@)),
{
    let ghost line = |c: Site| joined(site_row(c), ","@);
    let mut rows: Vec<String> = Vec::new();
    for i in 0..sites.len()
        invariant
            line == |c: Site| joined(site_row(c), ","@),
            views(rows@) =~= sites@.take(i as int).map_values(line),
    {
        let ghost before = views(rows@);
        let row = cluster_row(&sites[i]);
        rows.push(join(&row, ","));
        proof {
            assert(views(rows@) =~= before.push(line(sites@[i as int])));
        }
    }
    proof {
        assert(sites@.take(sites@.len() as int) =~= sites@);
    }
    csv(&cluster_schema(), &rows)
}

/// The table of members in writing.
pub fn members_csv(sites: &Vec<Site>) -> (r: String)
    ensures
        r@ == table_text(member_columns(), member_lines(sites@)),
{
    csv(&member_schema(), &member_rows(sites))
}

/// The statement that writes the two tables out. The flags travel as one value with semicolons
/// between them and land as a list: an empty one, never nothing, for a site that carries none.
pub fn write(
    prelude: &str,
    sites: &str,
    members: &str,
    sites_out: &str,
    members_out: &str,
) -> (r: String)
    ensures
        r@ == prelude@
            + "COPY (SELECT * REPLACE ([f FOR f IN str_split(coalesce(flags, ''), ';') IF f <> ''] AS flags) FROM read_csv('"@
            + sites@ + "', header=true, nullstr='', columns="@ + types_text(site_columns())
            + ")) TO '"@ + sites_out@
            + "' (FORMAT PARQUET, COMPRESSION ZSTD);\nCOPY (SELECT * FROM read_csv('"@ + members@
            + "', header=true, columns="@ + types_text(member_columns()) + ")) TO '"@ + members_out@
            + "' (FORMAT PARQUET, COMPRESSION ZSTD);"@,
{
    let mut s = prelude.to_owned();
    s.append(
        "COPY (SELECT * REPLACE ([f FOR f IN str_split(coalesce(flags, ''), ';') IF f <> ''] AS flags) FROM read_csv('",
    );
    s.append(sites);
    s.append("', header=true, nullstr='', columns=");
    s.append(types(&cluster_schema()).as_str());
    s.append(")) TO '");
    s.append(sites_out);
    s.append("' (FORMAT PARQUET, COMPRESSION ZSTD);\nCOPY (SELECT * FROM read_csv('");
    s.append(members);
    s.append("', header=true, columns=");
    s.append(types(&member_schema()).as_str());
    s.append(")) TO '");
    s.append(members_out);
    s.append("' (FORMAT PARQUET, COMPRESSION ZSTD);");
    s
}

/// An infinite number is read back from what is written of it, whatever its text would read as.
pub proof fn infinities_read_back(m: Measure, reading: Option<Real>)
    requires
        m.value.is_infinite(),
    ensures
        optional(written(m), reading) == Some(m.value),
{
    reveal_strlit("Infinity");
    reveal_strlit("-Infinity");
    reveal_strlit("inf");
    let t = written(m);
    assert(!is_space(t[0]) && !is_space(t[t.len() - 1]));
    assert(trimmed(t) == t);
    assert("Infinity"@[0] != "-Infinity"@[0]);
    assert("inf"@.len() != "-Infinity"@.len());
}

/// The columns that the statement for the detections selects, in its order.
pub open spec fn detections_asked_for() -> Seq<Seq<char>> {
    seq![
        "id"@,
        "lon"@,
        "lat"@,
        "date"@,
        "max_b12"@,
        "max_b11"@,
        "b12_b11_ratio"@,
        "radiance"@,
        "sun_elevation"@,
        "glint_score"@,
    ]
}

proof fn lemma_detections_asked_for()
    ensures
        are_marked(detections_asked_for()),
        are_cells(detections_asked_for()),
        detections_asked_for().last().len() > 0,
        !is_space(detections_asked_for().last().last()),
{
    reveal_strlit("id");
    reveal_strlit("lon");
    reveal_strlit("lat");
    reveal_strlit("date");
    reveal_strlit("max_b12");
    reveal_strlit("max_b11");
    reveal_strlit("b12_b11_ratio");
    reveal_strlit("radiance");
    reveal_strlit("sun_elevation");
    reveal_strlit("glint_score");
    let v = detections_asked_for();
    assert forall|i: int, j: int| 0 <= i < j < v.len() implies mark(#[trigger] v[i]) != mark(
        #[trigger] v[j],
    ) by {}
    assert forall|i: int| 0 <= i < v.len() implies is_cell(#[trigger] v[i]) by {}
}

/// Detections are read in the order in which they are asked for: of a table whose header is the
/// columns of the statement and whose rows hold a value for each of them, every field of a row is
/// the value that stands at the place of its own column.
pub proof fn detections_are_read_as_they_are_asked_for(
    values: Seq<Seq<Seq<char>>>,
    rows: Seq<DetectionRow>,
    i: int,
)
    requires
        forall|k: int|
            0 <= k < values.len() ==> are_cells(#[trigger] values[k]) && values[k].len() == 10,
        rows.len() == table_of(table_written(detections_asked_for(), values)).rows.len(),
        forall|k: int|
            0 <= k < rows.len() ==> is_row(
                #[trigger] rows[k],
                table_of(table_written(detections_asked_for(), values)),
                k,
            ),
        0 <= i < rows.len(),
    ensures
        rows.len() == values.len(),
        rows[i].id@ == values[i][0],
        rows[i].lon@ == values[i][1],
        rows[i].lat@ == values[i][2],
        rows[i].date@ == values[i][3],
        rows[i].max_b12@ == values[i][4],
        rows[i].max_b11@ == values[i][5],
        rows[i].b12_b11_ratio@ == values[i][6],
        rows[i].radiance@ == values[i][7],
        rows[i].sun_elevation@ == values[i][8],
        rows[i].glint_score@ == values[i][9],
{
    let names = detections_asked_for();
    lemma_detections_asked_for();
    a_table_is_read_back(names, values);
    a_written_value_is_found_by_its_column(names, values, i);
    assert(is_row(rows[i], table_of(table_written(names, values)), i));
    assert(names[0] == "id"@);
    assert(names[1] == "lon"@);
    assert(names[2] == "lat"@);
    assert(names[3] == "date"@);
    assert(names[4] == "max_b12"@);
    assert(names[5] == "max_b11"@);
    assert(names[6] == "b12_b11_ratio"@);
    assert(names[7] == "radiance"@);
    assert(names[8] == "sun_elevation"@);
    assert(names[9] == "glint_score"@);
}

/// A detection holds what its row reads as, each value in its own place: a number that reads as
/// none is zero, and one that may be absent is absent where its text is blank.
pub proof fn a_detection_holds_what_its_row_reads_as(r: Detection, row: DetectionRow, n: Readings)
    requires
        is_detection(r, row, n),
    ensures
        r.id@ == row.id@ && r.date@ == row.date@,
        n.lon matches Some(x) ==> r.lon == x,
        n.lat matches Some(x) ==> r.lat == x,
        n.max_b12 matches Some(x) ==> r.max_b12 == x,
        n.radiance matches Some(x) ==> r.radiance == x,
        n.lon is None ==> r.lon == Real::of_count(0),
        n.lat is None ==> r.lat == Real::of_count(0),
        n.max_b12 is None ==> r.max_b12 == Real::of_count(0),
        n.radiance is None ==> r.radiance == Real::of_count(0),
        is_blank(row.max_b11@) ==> r.peak_b11 is None,
        is_blank(row.b12_b11_ratio@) ==> r.b12_b11_ratio is None,
        is_blank(row.sun_elevation@) ==> r.sun_elevation is None,
        is_blank(row.glint_score@) ==> r.glint_score is None,
        !is_blank(row.max_b11@) && !is_infinity(row.max_b11@) ==> r.peak_b11 == n.max_b11,
        !is_blank(row.b12_b11_ratio@) && !is_infinity(row.b12_b11_ratio@) ==> r.b12_b11_ratio
            == n.b12_b11_ratio,
        !is_blank(row.sun_elevation@) && !is_infinity(row.sun_elevation@) ==> r.sun_elevation
            == n.sun_elevation,
        !is_blank(row.glint_score@) && !is_infinity(row.glint_score@) ==> r.glint_score
            == n.glint_score,
        is_infinity(row.max_b11@) ==> (r.peak_b11 matches Some(x) && x.is_infinite()),
        is_infinity(row.b12_b11_ratio@) ==> (r.b12_b11_ratio matches Some(x) && x.is_infinite()),
        is_infinity(row.sun_elevation@) ==> (r.sun_elevation matches Some(x) && x.is_infinite()),
        is_infinity(row.glint_score@) ==> (r.glint_score matches Some(x) && x.is_infinite()),
{
    assert(0 * pow2(1074) == 0);
    reveal_strlit("Infinity");
    reveal_strlit("inf");
    reveal_strlit("-Infinity");
    reveal_strlit("-inf");
}

/// Whether a text holds nothing but spaces.
pub open spec fn is_blank(s: Seq<char>) -> bool {
    trimmed(s).len() == 0
}

/// Whether a text is the name of an infinity.
pub open spec fn is_infinity(s: Seq<char>) -> bool {
    let t = trimmed(s);
    t == "Infinity"@ || t == "inf"@ || t == "-Infinity"@ || t == "-inf"@
}

/// A line of the cloud mask begins with the longitude, the latitude, the day and the cloud of its
/// row, in this order.
pub proof fn a_line_of_the_mask_begins_with_its_row(c: CloudRow, line: Seq<char>)
    requires
        is_cloud_row(c, line),
    ensures
        parts(line, ',').take(4) == seq![c.lon@, c.lat@, c.date@, c.cloud@],
        joined(
            seq![c.lon@, c.lat@, c.date@, c.cloud@] + parts(line, ',').skip(4),
            seq![','],
        ) == line,
{
    let p = parts(line, ',');
    joined_parts_are_the_text(line, ',');
    assert(p.take(4) =~= seq![c.lon@, c.lat@, c.date@, c.cloud@]);
    assert(p =~= p.take(4) + p.skip(4));
}

/// A look whose cloud cannot be read is overcast and never clear, and one whose cloud can be read
/// has just that cloud; it is of the day of its row.
pub proof fn an_unreadable_look_is_overcast(
    r: Look,
    row: CloudRow,
    lon: Option<Real>,
    lat: Option<Real>,
    cloud: Option<Real>,
)
    requires
        is_look(r, row, lon, lat, cloud),
    ensures
        cloud is None ==> r.cloud == Real::of_count(1),
        cloud matches Some(x) ==> r.cloud == x,
        lon matches Some(x) ==> r.lon == x,
        lat matches Some(x) ==> r.lat == x,
        r.date@ == row.date@,
{
    lemma2_to64_rest();
    lemma_pow2_strictly_increases(1, 1022);
    lemma2_to64();
    a_ratio_is_encoded(1, 1, Real { bits: OVERCAST }, 1022, 52);
}

/// A text with another one inside it.
pub open spec fn around(before: Seq<char>, text: Seq<char>, after: Seq<char>) -> Seq<char> {
    before + text + after
}

/// Whether a statement gives a setting a value.
pub open spec fn sets(statement: Seq<char>, name: Seq<char>, value: Seq<char>) -> bool {
    exists|a: Seq<char>, b: Seq<char>|
        statement == #[trigger] around(a, "SET "@ + name + "='"@ + value + "'; "@, b)
}

/// The store is reached as it is set up: with an endpoint, the statement gives the engine that
/// endpoint, the region, and the credentials of the archive, each of them those of the imagery
/// where it is not given or empty; without one, it gives the engine no setting.
pub proof fn a_store_is_reached_as_it_is_set_up(s: Store)
    ensures
        s.endpoint is None ==> prelude_of(s) == "INSTALL httpfs; LOAD httpfs; "@,
        s.endpoint matches Some(e) ==> {
            let text = prelude_of(s);
            &&& sets(text, "s3_endpoint"@, e@)
            &&& sets(
                text,
                "s3_region"@,
                match s.region {
                    Some(r) => r@,
                    None => Seq::empty(),
                },
            )
            &&& s.access_key matches Some(k) ==> (k@.len() > 0 ==> sets(
                text,
                "s3_access_key_id"@,
                k@,
            ))
            &&& s.secret_key matches Some(k) ==> (k@.len() > 0 ==> sets(
                text,
                "s3_secret_access_key"@,
                k@,
            ))
            &&& (s.access_key is None || s.access_key->0@.len() == 0) ==> (
            s.imagery_access_key matches Some(k) ==> sets(text, "s3_access_key_id"@, k@))
            &&& (s.secret_key is None || s.secret_key->0@.len() == 0) ==> (
            s.imagery_secret_key matches Some(k) ==> sets(text, "s3_secret_access_key"@, k@))
            &&& s.access_key is None && s.imagery_access_key is None ==> sets(
                text,
                "s3_access_key_id"@,
                Seq::empty(),
            )
            &&& s.secret_key is None && s.imagery_secret_key is None ==> sets(
                text,
                "s3_secret_access_key"@,
                Seq::empty(),
            )
        },
{
    match s.endpoint {
        None => {
            assert(prelude_of(s) =~= "INSTALL httpfs; LOAD httpfs; "@);
        },
        Some(e) => {
            let region = or_empty(opt(s.region));
            let access = preferred(opt(s.access_key), opt(s.imagery_access_key));
            let secret = preferred(opt(s.secret_key), opt(s.imagery_secret_key));
            lemma_settings(e@, region, access, secret);
        },
    }
}

proof fn lemma_settings(
    endpoint: Seq<char>,
    region: Seq<char>,
    access: Seq<char>,
    secret: Seq<char>,
)
    ensures
        ({
            let text = "INSTALL httpfs; LOAD httpfs; "@ + store_settings(
                endpoint,
                region,
                access,
                secret,
            );
            &&& sets(text, "s3_endpoint"@, endpoint)
            &&& sets(text, "s3_region"@, region)
            &&& sets(text, "s3_access_key_id"@, access)
            &&& sets(text, "s3_secret_access_key"@, secret)
        }),
{
    reveal_strlit("SET ");
    reveal_strlit("='");
    reveal_strlit("'; ");
    reveal_strlit("s3_endpoint");
    reveal_strlit("s3_region");
    reveal_strlit("s3_access_key_id");
    reveal_strlit("s3_secret_access_key");
    reveal_strlit("SET s3_endpoint='");
    reveal_strlit("'; SET s3_region='");
    reveal_strlit("'; SET s3_url_style='path'; SET s3_use_ssl=true; SET s3_access_key_id='");
    reveal_strlit("'; SET s3_secret_access_key='");
    reveal_strlit("SET s3_url_style='path'; SET s3_use_ssl=true; ");
    let install = "INSTALL httpfs; LOAD httpfs; "@;
    let style = "SET s3_url_style='path'; SET s3_use_ssl=true; "@;
    let text = install + store_settings(endpoint, region, access, secret);
    let a = "SET "@ + "s3_endpoint"@ + "='"@ + endpoint + "'; "@;
    let b = "SET "@ + "s3_region"@ + "='"@ + region + "'; "@;
    let c = "SET "@ + "s3_access_key_id"@ + "='"@ + access + "'; "@;
    let d = "SET "@ + "s3_secret_access_key"@ + "='"@ + secret + "'; "@;
    assert("SET s3_endpoint='"@ =~= "SET "@ + "s3_endpoint"@ + "='"@);
    assert("'; SET s3_region='"@ =~= "'; "@ + ("SET "@ + "s3_region"@ + "='"@));
    assert("'; SET s3_url_style='path'; SET s3_use_ssl=true; SET s3_access_key_id='"@ =~= "'; "@
        + style + ("SET "@ + "s3_access_key_id"@ + "='"@));
    assert("'; SET s3_secret_access_key='"@ =~= "'; "@ + ("SET "@ + "s3_secret_access_key"@ + "='"@));
    assert(text =~= install + a + b + style + c + d);
    assert(text =~= around(install, a, b + style + c + d));
    assert(text =~= around(install + a, b, style + c + d));
    assert(text =~= around(install + a + b + style, c, d));
    assert(text =~= around(install + a + b + style + c, d, Seq::empty()));
}

proof fn lemma_site_names()
    ensures
        ({
            let names = site_columns().map_values(|c: (Seq<char>, Seq<char>)| c.0);
            &&& names == site_names()
            &&& are_marked(names)
            &&& are_cells(names)
            &&& names.last().len() > 0
            &&& !is_space(names.last().last())
        }),
{
    reveal_strlit("id");
    reveal_strlit("lon");
    reveal_strlit("lat");
    reveal_strlit("score");
    reveal_strlit("flags");
    reveal_strlit("cluster_max_b12");
    reveal_strlit("cluster_avg_b12");
    reveal_strlit("cluster_radiance");
    reveal_strlit("median_b12_b11_ratio");
    reveal_strlit("min_sun_elevation");
    reveal_strlit("ratio_score");
    reveal_strlit("persistence_score");
    reveal_strlit("glint_penalty");
    reveal_strlit("max_ratio");
    reveal_strlit("min_glint");
    let v = site_names();
    assert(site_columns().map_values(|c: (Seq<char>, Seq<char>)| c.0) =~= v);
    assert forall|i: int, j: int| 0 <= i < j < v.len() implies mark(#[trigger] v[i]) != mark(
        #[trigger] v[j],
    ) by {}
    assert forall|i: int| 0 <= i < v.len() implies is_cell(#[trigger] v[i]) by {}
}

/// The names of the columns of the table of sites.
pub open spec fn site_names() -> Seq<Seq<char>> {
    seq![
        "id"@,
        "lon"@,
        "lat"@,
        "score"@,
        "flags"@,
        "cluster_max_b12"@,
        "cluster_avg_b12"@,
        "cluster_radiance"@,
        "median_b12_b11_ratio"@,
        "min_sun_elevation"@,
        "ratio_score"@,
        "persistence_score"@,
        "glint_penalty"@,
        "max_ratio"@,
        "min_glint"@,
    ]
}

/// What is written of a site is read back under the names of the columns, each value under its own.
pub proof fn sites_are_read_back_by_their_columns(sites: Seq<Site>, i: int)
    requires
        forall|k: int| 0 <= k < sites.len() ==> are_cells(site_row(#[trigger] sites[k])),
        0 <= i < sites.len(),
    ensures
        ({
            let t = table_of(table_text(site_columns(), site_lines(sites)));
            let c = sites[i];
            &&& t.rows.len() == sites.len()
            &&& t.cell(i, "id"@) == c.id@
            &&& t.cell(i, "lon"@) == written(c.lon)
            &&& t.cell(i, "lat"@) == written(c.lat)
            &&& t.cell(i, "score"@) == written(c.total_score)
            &&& t.cell(i, "flags"@) == joined(views(c.flags@), ";"@)
            &&& t.cell(i, "cluster_max_b12"@) == written(c.max_b12)
            &&& t.cell(i, "cluster_avg_b12"@) == written(c.avg_b12)
            &&& t.cell(i, "cluster_radiance"@) == written(c.radiance)
            &&& t.cell(i, "median_b12_b11_ratio"@) == written_opt(c.median_b12_b11_ratio)
            &&& t.cell(i, "min_sun_elevation"@) == written_opt(c.min_sun_elevation)
            &&& t.cell(i, "ratio_score"@) == written(c.ratio_score)
            &&& t.cell(i, "persistence_score"@) == written(c.persistence_score)
            &&& t.cell(i, "glint_penalty"@) == written(c.glint_penalty)
            &&& t.cell(i, "max_ratio"@) == written_opt(c.max_ratio)
            &&& t.cell(i, "min_glint"@) == written_opt(c.min_glint)
        }),
{
    let names = site_names();
    let rows = sites.map_values(|c: Site| site_row(c));
    lemma_site_names();
    reveal_strlit(",");
    reveal_strlit("\n");
    assert(","@ =~= seq![',']);
    assert("\n"@ =~= seq!['\n']);
    assert(site_lines(sites) =~= rows.map_values(|r: Seq<Seq<char>>| joined(r, seq![','])));
    assert(table_text(site_columns(), site_lines(sites)) == table_written(names, rows));
    assert forall|k: int| 0 <= k < rows.len() implies are_cells(#[trigger] rows[k])
        && rows[k].len() == names.len() by {
        assert(are_cells(site_row(sites[k])));
    }
    a_table_is_read_back(names, rows);
    a_written_value_is_found_by_its_column(names, rows, i);
    assert(names[0] == "id"@);
    assert(names[1] == "lon"@);
    assert(names[2] == "lat"@);
    assert(names[3] == "score"@);
    assert(names[4] == "flags"@);
    assert(names[5] == "cluster_max_b12"@);
    assert(names[6] == "cluster_avg_b12"@);
    assert(names[7] == "cluster_radiance"@);
    assert(names[8] == "median_b12_b11_ratio"@);
    assert(names[9] == "min_sun_elevation"@);
    assert(names[10] == "ratio_score"@);
    assert(names[11] == "persistence_score"@);
    assert(names[12] == "glint_penalty"@);
    assert(names[13] == "max_ratio"@);
    assert(names[14] == "min_glint"@);
}

/// The name and the flags of a site are texts, and every other column of it is a number, so that
/// the schema stays as it is whatever the values of a run are.
pub proof fn every_measure_of_a_site_is_a_number(i: int)
    requires
        0 <= i < site_columns().len(),
    ensures
        site_columns().len() == 15,
        site_columns()[i].1 == if site_columns()[i].0 == "id"@ || site_columns()[i].0 == "flags"@ {
            "VARCHAR"@
        } else {
            "DOUBLE"@
        },
{
    lemma_site_names();
    let names = site_columns().map_values(|c: (Seq<char>, Seq<char>)| c.0);
    assert(names[0] == "id"@ && names[4] == "flags"@);
    assert(names[i] == site_columns()[i].0);
    if i != 0 {
        assert(mark(names[0]) != mark(names[i]));
    }
    if i != 4 {
        if i < 4 {
            assert(mark(names[i]) != mark(names[4]));
        } else {
            assert(mark(names[4]) != mark(names[i]));
        }
    }
}

/// Whether a line of the cloud mask is read: into its row where it has four values, and not
/// otherwise.
pub open spec fn is_reading(r: Option<CloudRow>, line: Seq<char>) -> bool {
    &&& r is Some <==> parts(line, ',').len() >= 4
    &&& r matches Some(c) ==> is_cloud_row(c, line)
}

/// A line of four values is read as they stand, with or without further values behind them, and a
/// line of fewer is passed over.
pub proof fn a_look_is_read_from_four_values(r: Option<CloudRow>, list: Seq<Seq<char>>)
    requires
        list.len() > 0,
        forall|i: int| 0 <= i < list.len() ==> !(#[trigger] list[i]).contains(','),
        is_reading(r, joined(list, seq![','])),
    ensures
        list.len() < 4 ==> r is None,
        list.len() >= 4 ==> r is Some,
        r matches Some(c) ==> c.lon@ == list[0] && c.lat@ == list[1] && c.date@ == list[2] && c.cloud@
            == list[3],
{
    joined_texts_are_taken_apart(list, ',');
}

/// Each detection that joined a site has a row of its own with that site, detection first, and the
/// rows of a site stand behind those of the sites before it.
pub proof fn each_member_goes_with_its_site(sites: Seq<Site>, c: Site, k: int)
    requires
        0 <= k < c.members@.len(),
        !c.id@.contains(','),
        !c.members@[k]@.contains(','),
    ensures
        ({
            let (before, all) = (member_lines(sites), member_lines(sites.push(c)));
            &&& member_lines(Seq::empty()).len() == 0
            &&& all.len() == before.len() + c.members@.len()
            &&& before.is_prefix_of(all)
            &&& parts(all[before.len() + k], ',') == seq![c.members@[k]@, c.id@]
        }),
{
    let of = |c: Site| views(c.members@).map_values(|m: Seq<char>| m + ","@ + c.id@);
    let done = sites.map_values(of);
    let here = of(c);
    assert(sites.push(c).map_values(of) =~= done.push(here));
    done.lemma_flatten_push(here);
    assert(Seq::<Site>::empty().map_values(of) =~= Seq::empty());
    let (before, all) = (member_lines(sites), member_lines(sites.push(c)));
    assert(all == before + here);
    assert(all.subrange(0, before.len() as int) =~= before);
    reveal_strlit(",");
    assert(","@ =~= seq![',']);
    let pair = seq![c.members@[k]@, c.id@];
    assert(views(c.members@)[k] == c.members@[k]@);
    assert(all[before.len() + k] == here[k]);
    assert(pair.drop_last() =~= seq![c.members@[k]@]);
    reveal_with_fuel(joined, 2);
    assert(joined(pair, seq![',']) =~= here[k]);
    joined_texts_are_taken_apart(pair, ',');
}

/// The engine is told the type of each column by its name, in the order of the columns.
pub proof fn each_column_is_told_its_type(columns: Seq<(Seq<char>, Seq<char>)>, k: int)
    requires
        0 <= k < columns.len(),
        forall|i: int|
            0 <= i < columns.len() ==> !(#[trigger] columns[i]).0.contains(',')
                && !columns[i].1.contains(','),
    ensures
        ({
            let t = types_text(columns);
            let told = parts(t.subrange(1, t.len() - 1), ',');
            &&& told.len() == columns.len()
            &&& told[k] == "'"@ + columns[k].0 + "':'"@ + columns[k].1 + "'"@
        }),
{
    let pair = |c: (Seq<char>, Seq<char>)| "'"@ + c.0 + "':'"@ + c.1 + "'"@;
    let list = columns.map_values(pair);
    reveal_strlit(",");
    reveal_strlit("{");
    reveal_strlit("}");
    reveal_strlit("'");
    reveal_strlit("':'");
    assert(","@ =~= seq![',']);
    assert forall|i: int| 0 <= i < list.len() implies !(#[trigger] list[i]).contains(',') by {
        let c = columns[i];
        assert(!c.0.contains(',') && !c.1.contains(','));
        let s = list[i];
        assert forall|j: int| 0 <= j < s.len() implies s[j] != ',' by {
            let n = c.0.len() as int;
            if 1 <= j < n + 1 {
                assert(c.0.contains(c.0[j - 1]));
            } else if n + 4 <= j < n + 4 + c.1.len() {
                assert(c.1.contains(c.1[j - n - 4]));
            }
        }
    }
    joined_texts_are_taken_apart(list, ',');
    let t = types_text(columns);
    assert(t.subrange(1, t.len() - 1) =~= joined(list, seq![',']));
}

} // verus!
