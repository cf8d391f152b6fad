//! The review of published plumes: from the flat rows of the tables to a ranked list of candidates.
use crate::envelope::{holds, Envelope};
use crate::json::{document, parse, trees, Json, Tree};
use crate::number::{a_ratio_is_encoded, sum_keeps_direction, Pair, Real};
use crate::stac::a_filter_keeps_what_passes;
use crate::table::{
    a_table_is_read_back, a_written_value_is_found_by_its_column, are_cells, are_marked, is_cell,
    mark, table_of, table_written, Table, TableView,
};
use crate::text::{
    chars, decimal, first_where, is_digit, is_space, join, joined, joined_texts_are_taken_apart,
    opt, or_empty, parts, same, split, the_first_comes_before_the_others, to_decimal, views,
};
use crate::triage::{word_views, PlumeCandidate, Verdict, VerdictView};
use crate::view::{around, or_zero};
use vstd::arithmetic::power2::{lemma2_to64, lemma2_to64_rest, lemma_pow2_strictly_increases, pow2};
use vstd::prelude::*;

verus! {

/// Whether a part of a scene's name is a relative orbit: an R and three digits.
pub open spec fn is_orbit(t: Seq<char>) -> bool {
    t.len() == 4 && t[0] == 'R' && is_digit(t[1]) && is_digit(t[2]) && is_digit(t[3])
}

/// The relative orbit that a scene's name gives, where it gives one.
pub open spec fn orbit_of(scene: Seq<char>) -> Seq<char> {
    or_empty(first_where(parts(scene, '_'), |t: Seq<char>| is_orbit(t)))
}

fn is_orbit_part(t: &str) -> (r: bool)
    ensures
        r == is_orbit(t@),
{
    let v = chars(t);
    v.len() == 4 && v[0] == 'R' && '0' <= v[1] && v[1] <= '9' && '0' <= v[2] && v[2] <= '9' && '0'
        <= v[3] && v[3] <= '9'
}

/// The relative orbit that a scene's name gives; empty where it gives none.
pub fn orbit(scene: &str) -> (r: String)
    ensures
        r@ == orbit_of(scene@),
{
    let list = split(scene, '_');
    let ghost p = |t: Seq<char>| is_orbit(t);
    let ghost all = parts(scene@, '_');
    proof {
        assert(all.skip(0) =~= all);
    }
    for i in 0..list.len()
        invariant
            all == views(list@),
            all == parts(scene@, '_'),
            p == (|t: Seq<char>| is_orbit(t)),
            first_where(all, p) == first_where(all.skip(i as int), p),
    {
        proof {
            assert(all.skip(i as int)[0] == list@[i as int]@);
            assert(all.skip(i as int).drop_first() =~= all.skip(i + 1));
        }
        if is_orbit_part(list[i].as_str()) {
            return list[i].clone();
        }
    }
    proof {
        assert(all.skip(list@.len() as int) =~= Seq::empty());
    }
    String::new()
}

/// The statement for the published plumes.
pub open spec fn plumes_statement(
    prelude: Seq<char>,
    base: Seq<char>,
    out: Seq<char>,
) -> Seq<char> {
    prelude
        + "COPY (SELECT d.site_id, d.date, str_split(d.id,':')[-1] AS plume_id, d.scene, d.lon, d.lat, o.lon AS target_lon, o.lat AS target_lat, d.wind[1] AS wu, d.wind[2] AS wv, d.sun_elevation, (1 - o.cloud) * 100 AS clear_percent, d.rate_kg_h, d.max_probability, json_extract(d.geometry,'$.coordinates[0][0][0]')::DOUBLE AS gw, json_extract(d.geometry,'$.coordinates[0][0][1]')::DOUBLE AS gs, json_extract(d.geometry,'$.coordinates[0][2][0]')::DOUBLE AS ge, json_extract(d.geometry,'$.coordinates[0][2][1]')::DOUBLE AS gn, d.probability_asset, d.background_scene FROM read_parquet('"@
        + base + "/data-desk/detections/**/data.parquet') d LEFT JOIN read_parquet('"@ + base
        + "/data-desk/observations/**/data.parquet') o ON o.provider=d.provider AND o.kind=d.kind AND o.site_id=d.site_id AND o.date=d.date WHERE d.kind='plume' AND d.provider='data-desk' AND d.status='ok') TO '"@
        + out + "' (FORMAT CSV, HEADER)"@
}

/// The statement that hands over the published plumes under a root, a row for each, with the place
/// of the facility and the clear part of the scene from the look that found it.
pub fn plumes_sql(prelude: &str, base: &str, out: &str) -> (r: String)
    ensures
        r@ == plumes_statement(prelude@, base@, out@),
        r@ == prelude@
            + "COPY (SELECT d.site_id, d.date, str_split(d.id,':')[-1] AS plume_id, d.scene, d.lon, d.lat, o.lon AS target_lon, o.lat AS target_lat, d.wind[1] AS wu, d.wind[2] AS wv, d.sun_elevation, (1 - o.cloud) * 100 AS clear_percent, d.rate_kg_h, d.max_probability, json_extract(d.geometry,'$.coordinates[0][0][0]')::DOUBLE AS gw, json_extract(d.geometry,'$.coordinates[0][0][1]')::DOUBLE AS gs, json_extract(d.geometry,'$.coordinates[0][2][0]')::DOUBLE AS ge, json_extract(d.geometry,'$.coordinates[0][2][1]')::DOUBLE AS gn, d.probability_asset, d.background_scene FROM read_parquet('"@
            + base@ + "/data-desk/detections/**/data.parquet') d LEFT JOIN read_parquet('"@ + base@
            + "/data-desk/observations/**/data.parquet') o ON o.provider=d.provider AND o.kind=d.kind AND o.site_id=d.site_id AND o.date=d.date WHERE d.kind='plume' AND d.provider='data-desk' AND d.status='ok') TO '"@
            + out@ + "' (FORMAT CSV, HEADER)"@,
{
    let mut s = prelude.to_owned();
    s.append(
        "COPY (SELECT d.site_id, d.date, str_split(d.id,':')[-1] AS plume_id, d.scene, d.lon, d.lat, o.lon AS target_lon, o.lat AS target_lat, d.wind[1] AS wu, d.wind[2] AS wv, d.sun_elevation, (1 - o.cloud) * 100 AS clear_percent, d.rate_kg_h, d.max_probability, json_extract(d.geometry,'$.coordinates[0][0][0]')::DOUBLE AS gw, json_extract(d.geometry,'$.coordinates[0][0][1]')::DOUBLE AS gs, json_extract(d.geometry,'$.coordinates[0][2][0]')::DOUBLE AS ge, json_extract(d.geometry,'$.coordinates[0][2][1]')::DOUBLE AS gn, d.probability_asset, d.background_scene FROM read_parquet('",
    );
    s.append(base);
    s.append("/data-desk/detections/**/data.parquet') d LEFT JOIN read_parquet('");
    s.append(base);
    s.append(
        "/data-desk/observations/**/data.parquet') o ON o.provider=d.provider AND o.kind=d.kind AND o.site_id=d.site_id AND o.date=d.date WHERE d.kind='plume' AND d.provider='data-desk' AND d.status='ok') TO '",
    );
    s.append(out);
    s.append("' (FORMAT CSV, HEADER)");
    s
}

/// A plume as the engine writes it.
#[derive(Debug)]
pub struct PlumeRow {
    pub site_id: String,
    pub date: String,
    pub plume_id: String,
    pub scene: String,
    pub background_scene: String,
    pub probability_asset: String,
    pub lon: String,
    pub lat: String,
    pub target_lon: String,
    pub target_lat: String,
    pub gw: String,
    pub gs: String,
    pub ge: String,
    pub gn: String,
    pub wu: String,
    pub wv: String,
    pub max_probability: String,
    pub rate_kg_h: String,
    pub clear_percent: String,
    pub sun_elevation: String,
}

/// Whether a row of a table is written down under the names of its columns.
pub open spec fn is_plume_row(d: PlumeRow, t: TableView, i: int) -> bool {
    &&& d.site_id@ == t.cell(i, "site_id"@)
    &&& d.date@ == t.cell(i, "date"@)
    &&& d.plume_id@ == t.cell(i, "plume_id"@)
    &&& d.scene@ == t.cell(i, "scene"@)
    &&& d.background_scene@ == t.cell(i, "background_scene"@)
    &&& d.probability_asset@ == t.cell(i, "probability_asset"@)
    &&& d.lon@ == t.cell(i, "lon"@)
    &&& d.lat@ == t.cell(i, "lat"@)
    &&& d.target_lon@ == t.cell(i, "target_lon"@)
    &&& d.target_lat@ == t.cell(i, "target_lat"@)
    &&& d.gw@ == t.cell(i, "gw"@)
    &&& d.gs@ == t.cell(i, "gs"@)
    &&& d.ge@ == t.cell(i, "ge"@)
    &&& d.gn@ == t.cell(i, "gn"@)
    &&& d.wu@ == t.cell(i, "wu"@)
    &&& d.wv@ == t.cell(i, "wv"@)
    &&& d.max_probability@ == t.cell(i, "max_probability"@)
    &&& d.rate_kg_h@ == t.cell(i, "rate_kg_h"@)
    &&& d.clear_percent@ == t.cell(i, "clear_percent"@)
    &&& d.sun_elevation@ == t.cell(i, "sun_elevation"@)
}

/// The plumes of the engine's table, row by row.
pub fn read_plumes(text: &str) -> (r: Vec<PlumeRow>)
    ensures
        r@.len() == table_of(text@).rows.len(),
        forall|i: int| 0 <= i < r@.len() ==> is_plume_row(#[trigger] r@[i], table_of(text@), i),
{
    let t = Table::read(text);
    let mut out: Vec<PlumeRow> = Vec::new();
    for i in 0..t.rows.len()
        invariant
            t@ == table_of(text@),
            out@.len() == i,
            forall|k: int| 0 <= k < i ==> is_plume_row(#[trigger] out@[k], t@, k),
    {
        let d = PlumeRow {
            site_id: t.cell(i, "site_id"),
            date: t.cell(i, "date"),
            plume_id: t.cell(i, "plume_id"),
            scene: t.cell(i, "scene"),
            background_scene: t.cell(i, "background_scene"),
            probability_asset: t.cell(i, "probability_asset"),
            lon: t.cell(i, "lon"),
            lat: t.cell(i, "lat"),
            target_lon: t.cell(i, "target_lon"),
            target_lat: t.cell(i, "target_lat"),
            gw: t.cell(i, "gw"),
            gs: t.cell(i, "gs"),
            ge: t.cell(i, "ge"),
            gn: t.cell(i, "gn"),
            wu: t.cell(i, "wu"),
            wv: t.cell(i, "wv"),
            max_probability: t.cell(i, "max_probability"),
            rate_kg_h: t.cell(i, "rate_kg_h"),
            clear_percent: t.cell(i, "clear_percent"),
            sun_elevation: t.cell(i, "sun_elevation"),
        };
        out.push(d);
    }
    out
}

/// What the numbers of a row read as, each where its text is a number.
#[derive(Clone, Copy, Debug)]
pub struct PlumeReadings {
    pub lon: Option<Real>,
    pub lat: Option<Real>,
    pub target_lon: Option<Real>,
    pub target_lat: Option<Real>,
    pub gw: Option<Real>,
    pub gs: Option<Real>,
    pub ge: Option<Real>,
    pub gn: Option<Real>,
    pub wu: Option<Real>,
    pub wv: Option<Real>,
    pub max_probability: Option<Real>,
    pub rate_kg_h: Option<Real>,
    pub clear_percent: Option<Real>,
    pub sun_elevation: Option<Real>,
}

/// A number, else another one.
pub open spec fn or(x: Option<Real>, other: Real) -> Real {
    match x {
        Some(v) => v,
        None => other,
    }
}

fn number_or(x: Option<Real>, other: Real) -> (r: Real)
    ensures
        r == or(x, other),
{
    match x {
        Some(v) => v,
        None => other,
    }
}

/// Where a plume is: its centre, its facility, the envelope of its mask, and its onset.
#[derive(Clone, Copy, Debug)]
pub struct Placed {
    pub centre: Pair,
    pub target: Pair,
    pub mask: Envelope,
    pub origin: Pair,
}

/// The envelope of a mask from two opposite corners; a corner that is not known is the centre.
pub open spec fn mask_of(n: PlumeReadings, centre: Pair) -> Envelope {
    Envelope {
        west: or(n.gw, centre.x).smaller(or(n.ge, centre.x)),
        south: or(n.gs, centre.y).smaller(or(n.gn, centre.y)),
        east: or(n.gw, centre.x).larger(or(n.ge, centre.x)),
        north: or(n.gs, centre.y).larger(or(n.gn, centre.y)),
    }
}

/// Where a plume is: its facility is its centre where it is not known, and its onset is the point
/// of the mask's envelope that is nearest to the facility.
pub open spec fn placed_of(n: PlumeReadings, centre: Pair) -> Placed {
    let target = Pair { x: or(n.target_lon, centre.x), y: or(n.target_lat, centre.y) };
    let mask = mask_of(n, centre);
    Placed {
        centre,
        target,
        mask,
        origin: Pair {
            x: target.x.clamped(mask.west, mask.east),
            y: target.y.clamped(mask.south, mask.north),
        },
    }
}

/// Where a plume is. A row without a centre is no plume.
pub enum Position {
    /// The row has no centre.
    Absent,
    /// The mask has no extent: a corner is not a number.
    Unbounded,
    At(Placed),
}

/// Whether a position is that of a row.
pub open spec fn is_position(r: Position, n: PlumeReadings) -> bool {
    if n.lon is None || n.lat is None {
        r is Absent
    } else {
        let centre = Pair { x: n.lon->0, y: n.lat->0 };
        let mask = mask_of(n, centre);
        if mask.west.is_nan() || mask.south.is_nan() {
            r is Unbounded
        } else {
            r == Position::At(placed_of(n, centre))
        }
    }
}

/// Where the plume of a row is.
pub fn position(n: &PlumeReadings) -> (r: Position)
    ensures
        is_position(r, *n),
        n.lon is None || n.lat is None ==> r is Absent,
        n.lon is Some && n.lat is Some ==> {
            let centre = Pair { x: n.lon->0, y: n.lat->0 };
            let mask = mask_of(*n, centre);
            if mask.west.is_nan() || mask.south.is_nan() {
                r is Unbounded
            } else {
                r == Position::At(placed_of(*n, centre))
            }
        },
{
    let (x, y) = match (n.lon, n.lat) {
        (Some(x), Some(y)) => (x, y),
        _ => return Position::Absent,
    };
    let centre = Pair { x, y };
    let target = Pair { x: number_or(n.target_lon, x), y: number_or(n.target_lat, y) };
    let (gw, gs) = (number_or(n.gw, x), number_or(n.gs, y));
    let (ge, gn) = (number_or(n.ge, x), number_or(n.gn, y));
    let mask = Envelope {
        west: gw.min(ge),
        south: gs.min(gn),
        east: gw.max(ge),
        north: gs.max(gn),
    };
    if !mask.west.is_number() || !mask.south.is_number() {
        return Position::Unbounded;
    }
    let origin = Pair {
        x: target.x.clamp(mask.west, mask.east),
        y: target.y.clamp(mask.south, mask.north),
    };
    Position::At(Placed { centre, target, mask, origin })
}

/// A clear part of a hundred.
pub const ALL_CLEAR: u64 = 0x4059_0000_0000_0000;

/// Whether two scenes are of different relative orbits, as far as their names tell.
pub open spec fn cross_orbit(scene: Seq<char>, background: Seq<char>) -> bool {
    orbit_of(scene).len() > 0 && orbit_of(background).len() > 0 && orbit_of(scene) != orbit_of(
        background,
    )
}

/// Whether a candidate is that of a row, from where it is and what was measured of it.
pub open spec fn is_candidate(
    r: PlumeCandidate,
    row: PlumeRow,
    n: PlumeReadings,
    at: Placed,
    anchor_m: Real,
    collinearity: Option<Real>,
) -> bool {
    &&& r.key@ == row.site_id@ + ":"@ + row.date@ + ":"@ + row.plume_id@
    &&& r.target@ == row.site_id@
    &&& r.date@ == row.date@
    &&& r.centre == at.centre
    &&& r.origin == at.origin
    &&& r.anchor_m == anchor_m
    &&& r.wind == (Pair { x: or_zero(n.wu), y: or_zero(n.wv) })
    &&& r.max_p == or_zero(n.max_probability)
    &&& r.flux_kg_h == or_zero(n.rate_kg_h)
    &&& r.clear_percent == or(n.clear_percent, Real { bits: ALL_CLEAR })
    &&& r.sun_elevation == n.sun_elevation
    &&& r.swath_edge == false
    &&& r.cross_orbit_bg == cross_orbit(row.scene@, row.background_scene@)
    &&& r.collinearity == collinearity
}

/// The candidate of a row, from where it is and what was measured of it. A scene whose clear part
/// is not known counts as clear.
pub fn candidate(
    row: &PlumeRow,
    n: &PlumeReadings,
    at: &Placed,
    anchor_m: Real,
    collinearity: Option<Real>,
) -> (r: PlumeCandidate)
    ensures
        is_candidate(r, *row, *n, *at, anchor_m, collinearity),
        r.key@ == row.site_id@ + ":"@ + row.date@ + ":"@ + row.plume_id@,
        r.target@ == row.site_id@,
        r.date@ == row.date@,
        r.centre == at.centre,
        r.origin == at.origin,
        r.anchor_m == anchor_m,
        r.wind == (Pair { x: or_zero(n.wu), y: or_zero(n.wv) }),
        r.max_p == or_zero(n.max_probability),
        r.flux_kg_h == or_zero(n.rate_kg_h),
        r.clear_percent == or(n.clear_percent, Real { bits: ALL_CLEAR }),
        r.sun_elevation == n.sun_elevation,
        r.swath_edge == false,
        r.cross_orbit_bg == cross_orbit(row.scene@, row.background_scene@),
        r.collinearity == collinearity,
{
    let zero = Real { bits: 0 };
    let mut key = row.site_id.clone();
    key.append(":");
    key.append(row.date.as_str());
    key.append(":");
    key.append(row.plume_id.as_str());
    let a = orbit(row.scene.as_str());
    let b = orbit(row.background_scene.as_str());
    let cross = !a.as_str().is_empty() && !b.as_str().is_empty() && !same(a.as_str(), b.as_str());
    PlumeCandidate {
        key,
        target: row.site_id.clone(),
        date: row.date.clone(),
        centre: at.centre,
        origin: at.origin,
        anchor_m,
        wind: Pair { x: number_or(n.wu, zero), y: number_or(n.wv, zero) },
        max_p: number_or(n.max_probability, zero),
        flux_kg_h: number_or(n.rate_kg_h, zero),
        clear_percent: number_or(n.clear_percent, Real { bits: ALL_CLEAR }),
        sun_elevation: n.sun_elevation,
        swath_edge: false,
        cross_orbit_bg: cross,
        collinearity,
    }
}

/// The onset of a plume is a point of the mask's envelope, and the facility itself where that is
/// one.
pub proof fn the_onset_is_in_the_mask(n: PlumeReadings, centre: Pair)
    requires
        !mask_of(n, centre).west.is_nan(),
        !mask_of(n, centre).south.is_nan(),
        !placed_of(n, centre).target.x.is_nan(),
        !placed_of(n, centre).target.y.is_nan(),
    ensures
        ({
            let p = placed_of(n, centre);
            &&& p.mask.west.is_le(p.origin.x) && p.origin.x.is_le(p.mask.east)
            &&& p.mask.south.is_le(p.origin.y) && p.origin.y.is_le(p.mask.north)
            &&& p.mask.west.is_le(p.target.x) && p.target.x.is_le(p.mask.east)
                && p.mask.south.is_le(p.target.y) && p.target.y.is_le(p.mask.north) ==> p.origin
                == p.target
        }),
{
}

/// The header of the ranked list.
pub fn report_header() -> (r: String)
    ensures
        r@
            == "key,verdict,score,rejects,flags,orbit,max_p,flux_kg_h,anchor_m,collinearity\n"@,
{
    "key,verdict,score,rejects,flags,orbit,max_p,flux_kg_h,anchor_m,collinearity\n".to_owned()
}

/// The numbers of a candidate in writing: the score, the probability and the share along a linear
/// feature to two decimals, the rate and the distance to none.
#[derive(Debug)]
pub struct Shown {
    pub score: String,
    pub max_p: String,
    pub flux_kg_h: String,
    pub anchor_m: String,
    pub collinearity: Option<String>,
}

/// A line of the ranked list.
pub open spec fn report_line(v: VerdictView, orbit: Seq<char>, n: Shown) -> Seq<char> {
    v.key + ","@ + (if v.rejects.len() == 0 {
        "review"@
    } else {
        "reject"@
    }) + ","@ + n.score@ + ","@ + joined(v.rejects, ";"@) + ","@ + joined(v.flags, ";"@) + ","@
        + orbit + ","@ + n.max_p@ + ","@ + n.flux_kg_h@ + ","@ + n.anchor_m@ + ","@ + or_empty(
        opt(n.collinearity),
    ) + "\n"@
}

fn words(v: &Vec<&'static str>) -> (r: String)
    ensures
        r@ == joined(word_views(v@), ";"@),
{
    let mut list: Vec<String> = Vec::new();
    for i in 0..v.len()
        invariant
            views(list@) =~= word_views(v@).take(i as int),
    {
        let ghost before = views(list@);
        list.push(v[i].to_owned());
        proof {
            assert(views(list@) =~= before.push(v@[i as int]@));
        }
    }
    proof {
        assert(word_views(v@).take(v@.len() as int) =~= word_views(v@));
    }
    join(&list, ";")
}

/// A line of the ranked list.
pub fn report(v: &Verdict, orbit: &str, n: &Shown) -> (r: String)
    ensures
        r@ == report_line(v@, orbit@, *n),
{
    let mut s = v.key.clone();
    s.append(",");
    s.append(
        if v.rejects.len() == 0 {
            "review"
        } else {
            "reject"
        },
    );
    s.append(",");
    s.append(n.score.as_str());
    s.append(",");
    s.append(words(&v.rejects).as_str());
    s.append(",");
    s.append(words(&v.flags).as_str());
    s.append(",");
    s.append(orbit);
    s.append(",");
    s.append(n.max_p.as_str());
    s.append(",");
    s.append(n.flux_kg_h.as_str());
    s.append(",");
    s.append(n.anchor_m.as_str());
    s.append(",");
    match &n.collinearity {
        Some(c) => {
            s.append(c.as_str());
        },
        None => {
            proof {
                assert(s@ + Seq::<char>::empty() =~= s@);
            }
        },
    }
    s.append("\n");
    s
}

/// The lines of the first verdicts of a ranking, each with the orbit and the numbers of its
/// candidate.
pub open spec fn report_lines(
    verdicts: Seq<Verdict>,
    orbits: Seq<String>,
    shown: Seq<Shown>,
) -> Seq<char>
    decreases verdicts.len(),
{
    if verdicts.len() == 0 {
        Seq::empty()
    } else {
        let v = verdicts.last();
        report_lines(verdicts.drop_last(), orbits, shown) + report_line(
            v@,
            orbits[v.idx as int]@,
            shown[v.idx as int],
        )
    }
}

/// The ranked list, from the orbits and the numbers of the candidates.
pub fn ranked_list(verdicts: &Vec<Verdict>, orbits: &Vec<String>, shown: &Vec<Shown>) -> (r: String)
    requires
        orbits@.len() == shown@.len(),
        forall|k: int| 0 <= k < verdicts@.len() ==> (#[trigger] verdicts@[k]).idx < shown@.len(),
    ensures
        r@
            == "key,verdict,score,rejects,flags,orbit,max_p,flux_kg_h,anchor_m,collinearity\n"@
            + report_lines(verdicts@, orbits@, shown@),
{
    let mut body = report_header();
    let ghost head = body@;
    proof {
        assert(verdicts@.take(0) =~= Seq::empty());
        assert(head + Seq::<char>::empty() =~= head);
    }
    for i in 0..verdicts.len()
        invariant
            orbits@.len() == shown@.len(),
            forall|k: int|
                0 <= k < verdicts@.len() ==> (#[trigger] verdicts@[k]).idx < shown@.len(),
            body@ == head + report_lines(verdicts@.take(i as int), orbits@, shown@),
    {
        let at: usize = verdicts[i].idx;
        proof {
            assert(verdicts@.take(i + 1).drop_last() =~= verdicts@.take(i as int));
            assert(verdicts@.take(i + 1).last() == verdicts@[i as int]);
        }
        body.append(report(&verdicts[i], orbits[at].as_str(), &shown[at]).as_str());
        proof {
            assert(body@ =~= head + report_lines(verdicts@.take(i + 1), orbits@, shown@));
        }
    }
    proof {
        assert(verdicts@.take(verdicts@.len() as int) =~= verdicts@);
    }
    body
}

/// How many verdicts there are, and how many of them are on survivors.
pub fn tally(verdicts: &Vec<Verdict>) -> (r: String)
    ensures
        r@ == tally_text(verdicts@),
        r@ == "review: "@ + decimal(verdicts@.len()) + " candidates → "@ + decimal(
            verdicts@.filter(|v: Verdict| v.rejects@.len() == 0).len(),
        ) + " survivors"@,
{
    let ghost p = |v: Verdict| v.rejects@.len() == 0;
    let mut n: usize = 0;
    proof {
        reveal(Seq::filter);
        assert(verdicts@.take(0).filter(p) =~= Seq::empty());
    }
    for i in 0..verdicts.len()
        invariant
            p == (|v: Verdict| v.rejects@.len() == 0),
            n == verdicts@.take(i as int).filter(p).len(),
            n <= i,
    {
        proof {
            reveal(Seq::filter);
            assert(verdicts@.take(i + 1).drop_last() =~= verdicts@.take(i as int));
        }
        if verdicts[i].rejects.len() == 0 {
            n += 1;
        }
    }
    proof {
        assert(verdicts@.take(verdicts@.len() as int) =~= verdicts@);
    }
    let mut s = "review: ".to_owned();
    s.append(to_decimal(verdicts.len() as u64).as_str());
    s.append(" candidates → ");
    s.append(to_decimal(n as u64).as_str());
    s.append(" survivors");
    s
}

/// A straight piece of a line.
#[derive(Clone, Copy, Debug, PartialEq, Eq, Structural)]
pub struct Segment {
    pub from: Pair,
    pub to: Pair,
}

/// A position: an array that begins with two numbers.
pub open spec fn place_in(t: Tree) -> Option<Pair> {
    let a = t.elements();
    if a.len() >= 2 && a[0].as_real() is Some && a[1].as_real() is Some {
        Some(Pair { x: a[0].as_real()->0, y: a[1].as_real()->0 })
    } else {
        None
    }
}

/// Whether an array is a line: it holds a position, and nothing but positions.
pub open spec fn is_line(a: Seq<Tree>) -> bool {
    a.len() > 0 && forall|k: int| 0 <= k < a.len() ==> place_in(#[trigger] a[k]) is Some
}

/// The pieces of a line.
pub open spec fn pieces(a: Seq<Tree>) -> Seq<Segment> {
    Seq::new(
        (a.len() - 1) as nat,
        |i: int| Segment { from: place_in(a[i])->0, to: place_in(a[i + 1])->0 },
    )
}

/// The pieces of every line in some coordinates, however deep they are nested.
pub open spec fn segments_of(t: Tree) -> Seq<Segment>
    decreases t, 0nat,
{
    match t {
        Tree::Array(a) => if is_line(a) {
            pieces(a)
        } else {
            segments_among(a, a.len())
        },
        _ => Seq::empty(),
    }
}

/// The pieces of every line in the first `n` of some coordinates.
pub open spec fn segments_among(a: Seq<Tree>, n: nat) -> Seq<Segment>
    decreases a, n,
{
    if n == 0 || n > a.len() {
        Seq::empty()
    } else {
        segments_among(a, (n - 1) as nat) + segments_of(a[n - 1])
    }
}

/// The pieces of every line in the first features of a collection.
pub open spec fn segments_in(features: Seq<Tree>) -> Seq<Segment>
    decreases features.len(),
{
    if features.len() == 0 {
        Seq::empty()
    } else {
        segments_in(features.drop_last()) + segments_of(
            features.last().field("geometry"@).field("coordinates"@),
        )
    }
}

fn place_of(j: &Json) -> (r: Option<Pair>)
    ensures
        r == place_in(j@),
{
    match j {
        Json::Array(a) => {
            proof {
                assert(j@.elements() =~= trees(a@));
            }
            if a.len() < 2 {
                return None;
            }
            match (a[0].as_real(), a[1].as_real()) {
                (Some(x), Some(y)) => Some(Pair { x, y }),
                _ => None,
            }
        },
        _ => {
            proof {
                assert(j@.elements() =~= Seq::empty());
            }
            None
        },
    }
}

fn walk(j: &Json, out: &mut Vec<Segment>)
    ensures
        final(out)@ == old(out)@ + segments_of(j@),
    decreases j,
{
    let ghost before = out@;
    match j {
        Json::Array(v) => {
            let ghost a = j@.elements();
            proof {
                assert(a =~= trees(v@));
                assert(j@ == Tree::Array(a));
            }
            let mut places: Vec<Pair> = Vec::new();
            let mut line = v.len() > 0;
            for i in 0..v.len()
                invariant
                    a == trees(v@),
                    line ==> v@.len() > 0 && places@.len() == i && forall|k: int|
                        0 <= k < i ==> place_in(#[trigger] a[k]) == Some(places@[k]),
                    !line ==> !is_line(a),
            {
                match place_of(&v[i]) {
                    Some(p) => {
                        places.push(p);
                    },
                    None => {
                        proof {
                            assert(place_in(a[i as int]) is None);
                        }
                        line = false;
                    },
                }
            }
            if line {
                proof {
                    assert(is_line(a));
                    assert(pieces(a).take(0) =~= Seq::empty());
                    assert(before + Seq::<Segment>::empty() =~= before);
                }
                for i in 1..places.len()
                    invariant
                        1 <= i <= places@.len(),
                        places@.len() == a.len(),
                        forall|k: int|
                            0 <= k < a.len() ==> place_in(#[trigger] a[k]) == Some(places@[k]),
                        out@ =~= before + pieces(a).take(i - 1),
                {
                    proof {
                        assert(place_in(a[i - 1]) == Some(places@[i - 1]));
                        assert(place_in(a[i as int]) == Some(places@[i as int]));
                        assert(pieces(a)[i - 1] == (Segment {
                            from: places@[i - 1],
                            to: places@[i as int],
                        }));
                    }
                    out.push(Segment { from: places[i - 1], to: places[i] });
                }
                proof {
                    assert(pieces(a).take(pieces(a).len() as int) =~= pieces(a));
                }
            } else {
                proof {
                    assert(before + Seq::<Segment>::empty() =~= before);
                }
                for i in 0..v.len()
                    invariant
                        *j == Json::Array(*v),
                        a == trees(v@),
                        out@ == before + segments_among(a, i as nat),
                {
                    assert(decreases_to!(*j => j->Array_0));
                    assert(decreases_to!(*v => v[i as int]));
                    walk(&v[i], out);
                    proof {
                        assert(a[i as int] == v@[i as int]@);
                        assert(out@ =~= before + segments_among(a, (i + 1) as nat));
                    }
                }
            }
        },
        _ => {
            proof {
                assert(segments_of(j@) =~= Seq::empty());
                assert(before + segments_of(j@) =~= before);
            }
        },
    }
}

/// Every line and ring of a collection of features, in straight pieces.
pub fn segments(collection: &Json) -> (r: Vec<Segment>)
    ensures
        r@ == segments_in(collection@.field("features"@).elements()),
{
    let mut out: Vec<Segment> = Vec::new();
    let ghost features = collection@.field("features"@).elements();
    match collection.field("features") {
        Some(Json::Array(v)) => {
            proof {
                assert(features =~= trees(v@));
                assert(features.take(0) =~= Seq::empty());
            }
            for i in 0..v.len()
                invariant
                    features == trees(v@),
                    out@ == segments_in(features.take(i as int)),
            {
                let ghost held = out@;
                proof {
                    assert(features.take(i + 1).drop_last() =~= features.take(i as int));
                    assert(features.take(i + 1).last() == v@[i as int]@);
                    assert(held + Seq::<Segment>::empty() =~= held);
                }
                match v[i].field("geometry") {
                    Some(g) => match g.field("coordinates") {
                        Some(c) => {
                            walk(c, &mut out);
                        },
                        None => {},
                    },
                    None => {},
                }
            }
            proof {
                assert(features.take(v@.len() as int) =~= features);
            }
        },
        _ => {
            proof {
                assert(features =~= Seq::empty());
            }
        },
    }
    out
}

/// Every line and ring of a file of linear features, in straight pieces.
pub fn line_segments(path: &str, text: &str) -> (r: Result<Vec<Segment>, String>)
    ensures
        match document(text@) {
            Ok(t) => r is Ok && r->Ok_0@ == segments_in(t.field("features"@).elements()),
            Err(e) => r is Err && r->Err_0@ == "parse "@ + path@ + ": "@ + e,
        },
{
    match parse(text) {
        Ok(j) => Ok(segments(&j)),
        Err(e) => {
            let mut m = "parse ".to_owned();
            m.append(path);
            m.append(": ");
            m.append(e.as_str());
            Err(m)
        },
    }
}

/// How near a mask's pixel is to a line that it lies on: 15 m, about one pixel and a half.
pub const LINE_BUFFER_M: u64 = 0x402e_0000_0000_0000;

/// How far from a mask its lines may be: 200 m.
pub const LINE_REACH_M: u64 = 0x4069_0000_0000_0000;

/// A metre.
pub const METRE: u64 = 0x3ff0_0000_0000_0000;

/// The box of two opposite corners, a metre wider on every side.
pub open spec fn box_around(a: Pair, b: Pair) -> Envelope {
    let metre = Real { bits: METRE };
    Envelope {
        west: a.x.smaller(b.x).sum(metre.negated()),
        south: a.y.smaller(b.y).sum(metre.negated()),
        east: a.x.larger(b.x).sum(metre),
        north: a.y.larger(b.y).sum(metre),
    }
}

/// The box of two opposite corners, a metre wider on every side.
pub fn component_box(a: Pair, b: Pair) -> (r: Envelope)
    ensures
        r == box_around(a, b),
{
    let metre = Real { bits: METRE };
    Envelope {
        west: a.x.min(b.x).minus(metre),
        south: a.y.min(b.y).minus(metre),
        east: a.x.max(b.x).plus(metre),
        north: a.y.max(b.y).plus(metre),
    }
}

/// Whether a point is in a box.
pub open spec fn point_inside(p: Pair, w: Envelope) -> bool {
    w.west.is_le(p.x) && p.x.is_le(w.east) && w.south.is_le(p.y) && p.y.is_le(w.north)
}

/// The points of a mask that are in a component's box.
pub fn component_points(points: &Vec<Pair>, w: &Envelope) -> (r: Vec<Pair>)
    ensures
        r@ == points_in(points@, *w),
        r@ == points@.filter(|p: Pair| point_inside(p, *w)),
{
    let ghost keep = |p: Pair| point_inside(p, *w);
    let mut out: Vec<Pair> = Vec::new();
    proof {
        reveal(Seq::filter);
        assert(points@.take(0).filter(keep) =~= Seq::empty());
    }
    for i in 0..points.len()
        invariant
            keep == (|p: Pair| point_inside(p, *w)),
            out@ == points@.take(i as int).filter(keep),
    {
        proof {
            reveal(Seq::filter);
            assert(points@.take(i + 1).drop_last() =~= points@.take(i as int));
        }
        let p = points[i];
        if w.west.le(p.x) && p.x.le(w.east) && w.south.le(p.y) && p.y.le(w.north) {
            out.push(p);
        }
    }
    proof {
        assert(points@.take(points@.len() as int) =~= points@);
    }
    out
}

/// Whether a piece of a line comes near a box.
pub open spec fn comes_near(s: Segment, w: Envelope) -> bool {
    let reach = Real { bits: LINE_REACH_M };
    &&& w.west.sum(reach.negated()).is_le(s.from.x.larger(s.to.x))
    &&& s.from.x.smaller(s.to.x).is_le(w.east.sum(reach))
    &&& w.south.sum(reach.negated()).is_le(s.from.y.larger(s.to.y))
    &&& s.from.y.smaller(s.to.y).is_le(w.north.sum(reach))
}

/// The pieces of lines that come near a component's box.
pub fn near_lines(lines: &Vec<Segment>, w: &Envelope) -> (r: Vec<Segment>)
    ensures
        r@ == lines_near(lines@, *w),
        r@ == lines@.filter(|s: Segment| comes_near(s, *w)),
{
    let ghost keep = |s: Segment| comes_near(s, *w);
    let reach = Real { bits: LINE_REACH_M };
    let mut out: Vec<Segment> = Vec::new();
    proof {
        reveal(Seq::filter);
        assert(lines@.take(0).filter(keep) =~= Seq::empty());
    }
    for i in 0..lines.len()
        invariant
            reach == (Real { bits: LINE_REACH_M }),
            keep == (|s: Segment| comes_near(s, *w)),
            out@ == lines@.take(i as int).filter(keep),
    {
        proof {
            reveal(Seq::filter);
            assert(lines@.take(i + 1).drop_last() =~= lines@.take(i as int));
        }
        let s = lines[i];
        if w.west.minus(reach).le(s.from.x.max(s.to.x)) && s.from.x.min(s.to.x).le(
            w.east.plus(reach),
        ) && w.south.minus(reach).le(s.from.y.max(s.to.y)) && s.from.y.min(s.to.y).le(
            w.north.plus(reach),
        ) {
            out.push(s);
        }
    }
    proof {
        assert(lines@.take(lines@.len() as int) =~= lines@);
    }
    out
}

/// What can be said of a mask and the lines near it.
#[derive(Clone, Copy, Debug, PartialEq, Eq, Structural)]
pub enum Following {
    /// Too few points to tell.
    Unknown,
    /// There is no line to follow.
    Nothing,
    /// It is to be measured.
    Measured,
}

/// What can be said of a mask of so many points and so many lines near it.
pub fn following(points: usize, lines: usize) -> (r: Following)
    ensures
        r == following_of(points as int, lines as int),
        r == if points < 3 {
            Following::Unknown
        } else if lines == 0 {
            Following::Nothing
        } else {
            Following::Measured
        },
{
    if points < 3 {
        Following::Unknown
    } else if lines == 0 {
        Following::Nothing
    } else {
        Following::Measured
    }
}

/// Whether a point lies on a line, from its distances to them.
pub open spec fn lies_on(distances: Seq<Real>) -> bool {
    exists|k: int| 0 <= k < distances.len() && (#[trigger] distances[k]).is_le(
        Real { bits: LINE_BUFFER_M },
    )
}

fn is_on(distances: &Vec<Real>) -> (r: bool)
    ensures
        r == lies_on(distances@),
{
    for k in 0..distances.len()
        invariant
            forall|m: int|
                0 <= m < k ==> !(#[trigger] distances@[m]).is_le(Real { bits: LINE_BUFFER_M }),
    {
        if distances[k].le(Real { bits: LINE_BUFFER_M }) {
            return true;
        }
    }
    false
}

/// How many points lie on a line, from the distances of each to the lines.
pub fn on_line(distances: &Vec<Vec<Real>>) -> (r: usize)
    ensures
        r == count_on_lines(distances@),
        r == distances@.filter(|d: Vec<Real>| lies_on(d@)).len(),
{
    let ghost keep = |d: Vec<Real>| lies_on(d@);
    let mut n: usize = 0;
    proof {
        reveal(Seq::filter);
        assert(distances@.take(0).filter(keep) =~= Seq::empty());
    }
    for i in 0..distances.len()
        invariant
            keep == (|d: Vec<Real>| lies_on(d@)),
            n == distances@.take(i as int).filter(keep).len(),
            n <= i,
    {
        proof {
            reveal(Seq::filter);
            assert(distances@.take(i + 1).drop_last() =~= distances@.take(i as int));
        }
        if is_on(&distances[i]) {
            n += 1;
        }
    }
    proof {
        assert(distances@.take(distances@.len() as int) =~= distances@);
    }
    n
}

/// The place of the least of some distances, the first of those that are equally small.
pub fn nearest(distances: &Vec<Real>) -> (r: Option<usize>)
    ensures
        is_nearest(r, distances@),
        r is None <==> distances@.len() == 0,
        r matches Some(i) ==> {
            &&& i < distances@.len()
            &&& forall|k: int|
                0 <= k < distances@.len() ==> distances@[i as int].place() <= (
                #[trigger] distances@[k]).place()
            &&& forall|k: int|
                0 <= k < i ==> distances@[i as int].place() < (#[trigger] distances@[k]).place()
        },
{
    if distances.len() == 0 {
        return None;
    }
    let mut best: usize = 0;
    for i in 1..distances.len()
        invariant
            best < i <= distances@.len(),
            forall|k: int|
                0 <= k < i ==> distances@[best as int].place() <= (
                #[trigger] distances@[k]).place(),
            forall|k: int|
                0 <= k < best ==> distances@[best as int].place() < (
                #[trigger] distances@[k]).place(),
    {
        if distances[i].comes_before(distances[best]) {
            best = i;
        }
    }
    Some(best)
}

/// The columns that the statement for the plumes selects, in its order.
pub open spec fn plumes_asked_for() -> Seq<Seq<char>> {
    seq![
        "site_id"@,
        "date"@,
        "plume_id"@,
        "scene"@,
        "lon"@,
        "lat"@,
        "target_lon"@,
        "target_lat"@,
        "wu"@,
        "wv"@,
        "sun_elevation"@,
        "clear_percent"@,
        "rate_kg_h"@,
        "max_probability"@,
        "gw"@,
        "gs"@,
        "ge"@,
        "gn"@,
        "probability_asset"@,
        "background_scene"@,
    ]
}

proof fn lemma_plumes_asked_for()
    ensures
        are_marked(plumes_asked_for()),
        are_cells(plumes_asked_for()),
        plumes_asked_for().last().len() > 0,
        !is_space(plumes_asked_for().last().last()),
{
    reveal_strlit("site_id");
    reveal_strlit("date");
    reveal_strlit("plume_id");
    reveal_strlit("scene");
    reveal_strlit("lon");
    reveal_strlit("lat");
    reveal_strlit("target_lon");
    reveal_strlit("target_lat");
    reveal_strlit("wu");
    reveal_strlit("wv");
    reveal_strlit("sun_elevation");
    reveal_strlit("clear_percent");
    reveal_strlit("rate_kg_h");
    reveal_strlit("max_probability");
    reveal_strlit("gw");
    reveal_strlit("gs");
    reveal_strlit("ge");
    reveal_strlit("gn");
    reveal_strlit("probability_asset");
    reveal_strlit("background_scene");
    let v = plumes_asked_for();
    assert forall|i: int, j: int| 0 <= i < j < v.len() implies mark(#[trigger] v[i]) != mark(
        #[trigger] v[j],
    ) by {}
    assert forall|i: int| 0 <= i < v.len() implies is_cell(#[trigger] v[i]) by {}
}

/// Plumes are read in the order in which they are asked for: of a table whose header is the columns
/// of the statement and whose rows hold a value for each of them, every field of a row is the value
/// that stands at the place of its own column.
pub proof fn plumes_are_read_as_they_are_asked_for(
    values: Seq<Seq<Seq<char>>>,
    rows: Seq<PlumeRow>,
    i: int,
)
    requires
        forall|k: int|
            0 <= k < values.len() ==> are_cells(#[trigger] values[k]) && values[k].len() == 20,
        rows.len() == table_of(table_written(plumes_asked_for(), values)).rows.len(),
        forall|k: int|
            0 <= k < rows.len() ==> is_plume_row(
                #[trigger] rows[k],
                table_of(table_written(plumes_asked_for(), values)),
                k,
            ),
        0 <= i < rows.len(),
    ensures
        rows.len() == values.len(),
        rows[i].site_id@ == values[i][0],
        rows[i].date@ == values[i][1],
        rows[i].plume_id@ == values[i][2],
        rows[i].scene@ == values[i][3],
        rows[i].lon@ == values[i][4],
        rows[i].lat@ == values[i][5],
        rows[i].target_lon@ == values[i][6],
        rows[i].target_lat@ == values[i][7],
        rows[i].wu@ == values[i][8],
        rows[i].wv@ == values[i][9],
        rows[i].sun_elevation@ == values[i][10],
        rows[i].clear_percent@ == values[i][11],
        rows[i].rate_kg_h@ == values[i][12],
        rows[i].max_probability@ == values[i][13],
        rows[i].gw@ == values[i][14],
        rows[i].gs@ == values[i][15],
        rows[i].ge@ == values[i][16],
        rows[i].gn@ == values[i][17],
        rows[i].probability_asset@ == values[i][18],
        rows[i].background_scene@ == values[i][19],
{
    let names = plumes_asked_for();
    lemma_plumes_asked_for();
    a_table_is_read_back(names, values);
    a_written_value_is_found_by_its_column(names, values, i);
    assert(is_plume_row(rows[i], table_of(table_written(names, values)), i));
    assert(names[0] == "site_id"@);
    assert(names[1] == "date"@);
    assert(names[2] == "plume_id"@);
    assert(names[3] == "scene"@);
    assert(names[4] == "lon"@);
    assert(names[5] == "lat"@);
    assert(names[6] == "target_lon"@);
    assert(names[7] == "target_lat"@);
    assert(names[8] == "wu"@);
    assert(names[9] == "wv"@);
    assert(names[10] == "sun_elevation"@);
    assert(names[11] == "clear_percent"@);
    assert(names[12] == "rate_kg_h"@);
    assert(names[13] == "max_probability"@);
    assert(names[14] == "gw"@);
    assert(names[15] == "gs"@);
    assert(names[16] == "ge"@);
    assert(names[17] == "gn"@);
    assert(names[18] == "probability_asset"@);
    assert(names[19] == "background_scene"@);
}

/// Two scenes of the same relative orbit never count as of different ones, nor do two of which one
/// carries no orbit in its name; two whose names carry different orbits always do, whichever of
/// them is the background.
pub proof fn an_orbit_is_crossed_where_the_orbits_differ(scene: Seq<char>, background: Seq<char>)
    ensures
        orbit_of(scene) == orbit_of(background) ==> !cross_orbit(scene, background),
        orbit_of(scene).len() == 0 || orbit_of(background).len() == 0 ==> !cross_orbit(
            scene,
            background,
        ),
        orbit_of(scene).len() > 0 && orbit_of(background).len() > 0 && orbit_of(scene) != orbit_of(
            background,
        ) ==> cross_orbit(scene, background),
        cross_orbit(scene, background) == cross_orbit(background, scene),
{
}

/// Whether a text stands in a statement.
pub open spec fn says(statement: Seq<char>, text: Seq<char>) -> bool {
    exists|a: Seq<char>, b: Seq<char>| statement == #[trigger] around(a, text, b)
}

proof fn lemma_says(before: Seq<char>, text: Seq<char>, after: Seq<char>, piece: Seq<char>, k: int)
    requires
        0 <= k <= k + piece.len() <= text.len(),
        text.subrange(k, k + piece.len()) =~= piece,
    ensures
        says(before + text + after, piece),
{
    let (a, b) = (before + text.take(k), text.skip(k + piece.len()) + after);
    assert(text =~= text.take(k) + piece + text.skip(k + piece.len()));
    assert(before + text + after =~= around(a, piece, b));
}

/// The statement for the plumes asks for each value under its own name: the facility and the clear
/// part come from the look of the same day over the same site, and the rest from the plume itself,
/// the first and the third corner of its mask among it. Only plumes that were published are asked
/// for.
#[verifier::spinoff_prover]
#[verifier::rlimit(80)]
pub proof fn each_value_of_a_plume_is_asked_for_by_its_name(
    prelude: Seq<char>,
    base: Seq<char>,
    out: Seq<char>,
)
    ensures
        ({
            let s = plumes_statement(prelude, base, out);
            &&& says(s, "d.site_id, "@)
            &&& says(s, "d.date, "@)
            &&& says(s, "str_split(d.id,':')[-1] AS plume_id, "@)
            &&& says(s, "d.scene, "@)
            &&& says(s, "d.lon, "@)
            &&& says(s, "d.lat, "@)
            &&& says(s, "o.lon AS target_lon, "@)
            &&& says(s, "o.lat AS target_lat, "@)
            &&& says(s, "d.wind[1] AS wu, "@)
            &&& says(s, "d.wind[2] AS wv, "@)
            &&& says(s, "d.sun_elevation, "@)
            &&& says(s, "(1 - o.cloud) * 100 AS clear_percent, "@)
            &&& says(s, "d.rate_kg_h, "@)
            &&& says(s, "d.max_probability, "@)
            &&& says(s, "json_extract(d.geometry,'$.coordinates[0][0][0]')::DOUBLE AS gw, "@)
            &&& says(s, "json_extract(d.geometry,'$.coordinates[0][0][1]')::DOUBLE AS gs, "@)
            &&& says(s, "json_extract(d.geometry,'$.coordinates[0][2][0]')::DOUBLE AS ge, "@)
            &&& says(s, "json_extract(d.geometry,'$.coordinates[0][2][1]')::DOUBLE AS gn, "@)
            &&& says(s, "d.probability_asset, "@)
            &&& says(s, "d.background_scene FROM read_parquet('"@)
            &&& says(s, "/data-desk/observations/**/data.parquet') o ON "@)
            &&& says(s, "o.provider=d.provider AND "@)
            &&& says(s, "o.kind=d.kind AND "@)
            &&& says(s, "o.site_id=d.site_id AND "@)
            &&& says(s, "o.date=d.date WHERE "@)
            &&& says(s, "d.kind='plume' AND "@)
            &&& says(s, "d.provider='data-desk' AND "@)
            &&& says(s, "d.status='ok') TO '"@)
        }),
{
    lemma_columns_asked_for(prelude, base, out);
    lemma_looks_asked_for(prelude, base, out);
}

#[verifier::spinoff_prover]
#[verifier::rlimit(80)]
proof fn lemma_columns_asked_for(prelude: Seq<char>, base: Seq<char>, out: Seq<char>)
    ensures
        ({
            let s = plumes_statement(prelude, base, out);
            &&& says(s, "d.site_id, "@)
            &&& says(s, "d.date, "@)
            &&& says(s, "str_split(d.id,':')[-1] AS plume_id, "@)
            &&& says(s, "d.scene, "@)
            &&& says(s, "d.lon, "@)
            &&& says(s, "d.lat, "@)
            &&& says(s, "o.lon AS target_lon, "@)
            &&& says(s, "o.lat AS target_lat, "@)
            &&& says(s, "d.wind[1] AS wu, "@)
            &&& says(s, "d.wind[2] AS wv, "@)
            &&& says(s, "d.sun_elevation, "@)
            &&& says(s, "(1 - o.cloud) * 100 AS clear_percent, "@)
            &&& says(s, "d.rate_kg_h, "@)
            &&& says(s, "d.max_probability, "@)
            &&& says(s, "json_extract(d.geometry,'$.coordinates[0][0][0]')::DOUBLE AS gw, "@)
            &&& says(s, "json_extract(d.geometry,'$.coordinates[0][0][1]')::DOUBLE AS gs, "@)
            &&& says(s, "json_extract(d.geometry,'$.coordinates[0][2][0]')::DOUBLE AS ge, "@)
            &&& says(s, "json_extract(d.geometry,'$.coordinates[0][2][1]')::DOUBLE AS gn, "@)
            &&& says(s, "d.probability_asset, "@)
            &&& says(s, "d.background_scene FROM read_parquet('"@)
        }),
{
    let text = "COPY (SELECT d.site_id, d.date, str_split(d.id,':')[-1] AS plume_id, d.scene, d.lon, d.lat, o.lon AS target_lon, o.lat AS target_lat, d.wind[1] AS wu, d.wind[2] AS wv, d.sun_elevation, (1 - o.cloud) * 100 AS clear_percent, d.rate_kg_h, d.max_probability, json_extract(d.geometry,'$.coordinates[0][0][0]')::DOUBLE AS gw, json_extract(d.geometry,'$.coordinates[0][0][1]')::DOUBLE AS gs, json_extract(d.geometry,'$.coordinates[0][2][0]')::DOUBLE AS ge, json_extract(d.geometry,'$.coordinates[0][2][1]')::DOUBLE AS gn, d.probability_asset, d.background_scene FROM read_parquet('"@;
    let rest = base + "/data-desk/detections/**/data.parquet') d LEFT JOIN read_parquet('"@ + base
        + "/data-desk/observations/**/data.parquet') o ON o.provider=d.provider AND o.kind=d.kind AND o.site_id=d.site_id AND o.date=d.date WHERE d.kind='plume' AND d.provider='data-desk' AND d.status='ok') TO '"@
        + out + "' (FORMAT CSV, HEADER)"@;
    assert(plumes_statement(prelude, base, out) =~= prelude + text + rest);
    reveal_strlit("COPY (SELECT d.site_id, d.date, str_split(d.id,':')[-1] AS plume_id, d.scene, d.lon, d.lat, o.lon AS target_lon, o.lat AS target_lat, d.wind[1] AS wu, d.wind[2] AS wv, d.sun_elevation, (1 - o.cloud) * 100 AS clear_percent, d.rate_kg_h, d.max_probability, json_extract(d.geometry,'$.coordinates[0][0][0]')::DOUBLE AS gw, json_extract(d.geometry,'$.coordinates[0][0][1]')::DOUBLE AS gs, json_extract(d.geometry,'$.coordinates[0][2][0]')::DOUBLE AS ge, json_extract(d.geometry,'$.coordinates[0][2][1]')::DOUBLE AS gn, d.probability_asset, d.background_scene FROM read_parquet('");
    reveal_strlit("d.site_id, ");
    lemma_says(prelude, text, rest, "d.site_id, "@, 13);
    reveal_strlit("d.date, ");
    lemma_says(prelude, text, rest, "d.date, "@, 24);
    reveal_strlit("str_split(d.id,':')[-1] AS plume_id, ");
    lemma_says(prelude, text, rest, "str_split(d.id,':')[-1] AS plume_id, "@, 32);
    reveal_strlit("d.scene, ");
    lemma_says(prelude, text, rest, "d.scene, "@, 69);
    reveal_strlit("d.lon, ");
    lemma_says(prelude, text, rest, "d.lon, "@, 78);
    reveal_strlit("d.lat, ");
    lemma_says(prelude, text, rest, "d.lat, "@, 85);
    reveal_strlit("o.lon AS target_lon, ");
    lemma_says(prelude, text, rest, "o.lon AS target_lon, "@, 92);
    reveal_strlit("o.lat AS target_lat, ");
    lemma_says(prelude, text, rest, "o.lat AS target_lat, "@, 113);
    reveal_strlit("d.wind[1] AS wu, ");
    lemma_says(prelude, text, rest, "d.wind[1] AS wu, "@, 134);
    reveal_strlit("d.wind[2] AS wv, ");
    lemma_says(prelude, text, rest, "d.wind[2] AS wv, "@, 151);
    reveal_strlit("d.sun_elevation, ");
    lemma_says(prelude, text, rest, "d.sun_elevation, "@, 168);
    reveal_strlit("(1 - o.cloud) * 100 AS clear_percent, ");
    lemma_says(prelude, text, rest, "(1 - o.cloud) * 100 AS clear_percent, "@, 185);
    reveal_strlit("d.rate_kg_h, ");
    lemma_says(prelude, text, rest, "d.rate_kg_h, "@, 223);
    reveal_strlit("d.max_probability, ");
    lemma_says(prelude, text, rest, "d.max_probability, "@, 236);
    reveal_strlit("json_extract(d.geometry,'$.coordinates[0][0][0]')::DOUBLE AS gw, ");
    lemma_says(prelude, text, rest, "json_extract(d.geometry,'$.coordinates[0][0][0]')::DOUBLE AS gw, "@, 255);
    reveal_strlit("json_extract(d.geometry,'$.coordinates[0][0][1]')::DOUBLE AS gs, ");
    lemma_says(prelude, text, rest, "json_extract(d.geometry,'$.coordinates[0][0][1]')::DOUBLE AS gs, "@, 320);
    reveal_strlit("json_extract(d.geometry,'$.coordinates[0][2][0]')::DOUBLE AS ge, ");
    lemma_says(prelude, text, rest, "json_extract(d.geometry,'$.coordinates[0][2][0]')::DOUBLE AS ge, "@, 385);
    reveal_strlit("json_extract(d.geometry,'$.coordinates[0][2][1]')::DOUBLE AS gn, ");
    lemma_says(prelude, text, rest, "json_extract(d.geometry,'$.coordinates[0][2][1]')::DOUBLE AS gn, "@, 450);
    reveal_strlit("d.probability_asset, ");
    lemma_says(prelude, text, rest, "d.probability_asset, "@, 515);
    reveal_strlit("d.background_scene FROM read_parquet('");
    lemma_says(prelude, text, rest, "d.background_scene FROM read_parquet('"@, 536);
}

#[verifier::spinoff_prover]
#[verifier::rlimit(80)]
proof fn lemma_looks_asked_for(prelude: Seq<char>, base: Seq<char>, out: Seq<char>)
    ensures
        ({
            let s = plumes_statement(prelude, base, out);
            &&& says(s, "/data-desk/observations/**/data.parquet') o ON "@)
            &&& says(s, "o.provider=d.provider AND "@)
            &&& says(s, "o.kind=d.kind AND "@)
            &&& says(s, "o.site_id=d.site_id AND "@)
            &&& says(s, "o.date=d.date WHERE "@)
            &&& says(s, "d.kind='plume' AND "@)
            &&& says(s, "d.provider='data-desk' AND "@)
            &&& says(s, "d.status='ok') TO '"@)
        }),
{
    let text = "/data-desk/observations/**/data.parquet') o ON o.provider=d.provider AND o.kind=d.kind AND o.site_id=d.site_id AND o.date=d.date WHERE d.kind='plume' AND d.provider='data-desk' AND d.status='ok') TO '"@;
    let front = prelude
        + "COPY (SELECT d.site_id, d.date, str_split(d.id,':')[-1] AS plume_id, d.scene, d.lon, d.lat, o.lon AS target_lon, o.lat AS target_lat, d.wind[1] AS wu, d.wind[2] AS wv, d.sun_elevation, (1 - o.cloud) * 100 AS clear_percent, d.rate_kg_h, d.max_probability, json_extract(d.geometry,'$.coordinates[0][0][0]')::DOUBLE AS gw, json_extract(d.geometry,'$.coordinates[0][0][1]')::DOUBLE AS gs, json_extract(d.geometry,'$.coordinates[0][2][0]')::DOUBLE AS ge, json_extract(d.geometry,'$.coordinates[0][2][1]')::DOUBLE AS gn, d.probability_asset, d.background_scene FROM read_parquet('"@
        + base + "/data-desk/detections/**/data.parquet') d LEFT JOIN read_parquet('"@ + base;
    let rest = out + "' (FORMAT CSV, HEADER)"@;
    assert(plumes_statement(prelude, base, out) =~= front + text + rest);
    reveal_strlit("/data-desk/observations/**/data.parquet') o ON o.provider=d.provider AND o.kind=d.kind AND o.site_id=d.site_id AND o.date=d.date WHERE d.kind='plume' AND d.provider='data-desk' AND d.status='ok') TO '");
    reveal_strlit("/data-desk/observations/**/data.parquet') o ON ");
    lemma_says(front, text, rest, "/data-desk/observations/**/data.parquet') o ON "@, 0);
    reveal_strlit("o.provider=d.provider AND ");
    lemma_says(front, text, rest, "o.provider=d.provider AND "@, 47);
    reveal_strlit("o.kind=d.kind AND ");
    lemma_says(front, text, rest, "o.kind=d.kind AND "@, 73);
    reveal_strlit("o.site_id=d.site_id AND ");
    lemma_says(front, text, rest, "o.site_id=d.site_id AND "@, 91);
    reveal_strlit("o.date=d.date WHERE ");
    lemma_says(front, text, rest, "o.date=d.date WHERE "@, 115);
    reveal_strlit("d.kind='plume' AND ");
    lemma_says(front, text, rest, "d.kind='plume' AND "@, 135);
    reveal_strlit("d.provider='data-desk' AND ");
    lemma_says(front, text, rest, "d.provider='data-desk' AND "@, 154);
    reveal_strlit("d.status='ok') TO '");
    lemma_says(front, text, rest, "d.status='ok') TO '"@, 181);
}

/// A candidate says what its row says: its key is the site, the day and the plume, and each measure
/// is the reading of its own column, zero where there is none. A scene whose clear part is not
/// known counts as clear, and its background is of another orbit just where both names carry an
/// orbit and the orbits differ.
pub proof fn a_candidate_says_what_its_row_says(
    r: PlumeCandidate,
    row: PlumeRow,
    n: PlumeReadings,
    at: Placed,
    anchor_m: Real,
    collinearity: Option<Real>,
)
    requires
        is_candidate(r, row, n, at, anchor_m, collinearity),
    ensures
        !row.site_id@.contains(':') && !row.date@.contains(':') && !row.plume_id@.contains(':')
            ==> parts(r.key@, ':') == seq![row.site_id@, row.date@, row.plume_id@],
        r.target@ == row.site_id@ && r.date@ == row.date@,
        r.centre == at.centre && r.origin == at.origin,
        r.anchor_m == anchor_m && r.collinearity == collinearity,
        n.wu matches Some(x) ==> r.wind.x == x,
        n.wv matches Some(x) ==> r.wind.y == x,
        n.max_probability matches Some(x) ==> r.max_p == x,
        n.rate_kg_h matches Some(x) ==> r.flux_kg_h == x,
        n.clear_percent matches Some(x) ==> r.clear_percent == x,
        n.wu is None ==> r.wind.x == Real::of_count(0),
        n.wv is None ==> r.wind.y == Real::of_count(0),
        n.max_probability is None ==> r.max_p == Real::of_count(0),
        n.rate_kg_h is None ==> r.flux_kg_h == Real::of_count(0),
        n.clear_percent is None ==> r.clear_percent == Real::of_count(100),
        r.sun_elevation == n.sun_elevation,
        !r.swath_edge,
        r.cross_orbit_bg <==> {
            &&& orbit_of(row.scene@).len() > 0
            &&& orbit_of(row.background_scene@).len() > 0
            &&& orbit_of(row.scene@) != orbit_of(row.background_scene@)
        },
{
    assert(0 * pow2(1074) == 0);
    lemma2_to64();
    lemma2_to64_rest();
    lemma_pow2_strictly_increases(6, 1028);
    a_ratio_is_encoded(100, 1, Real { bits: ALL_CLEAR }, 1028, 46);
    let list = seq![row.site_id@, row.date@, row.plume_id@];
    if !row.site_id@.contains(':') && !row.date@.contains(':') && !row.plume_id@.contains(':') {
        reveal_strlit(":");
        assert(":"@ =~= seq![':']);
        reveal_with_fuel(joined, 3);
        assert(list.drop_last().drop_last() =~= seq![row.site_id@]);
        assert(joined(list, seq![':']) =~= r.key@);
        joined_texts_are_taken_apart(list, ':');
    }
}

/// The orbit that a scene's name gives is the first of its parts that is an R and three digits; a
/// name without such a part gives none.
pub proof fn an_orbit_is_the_first_part_like_one(scene: Seq<char>)
    ensures
        ({
            let p = parts(scene, '_');
            let o = orbit_of(scene);
            let like = |t: Seq<char>|
                t.len() == 4 && t[0] == 'R' && '0' <= t[1] <= '9' && '0' <= t[2] <= '9' && '0'
                    <= t[3] <= '9';
            &&& o.len() == 0 <==> forall|i: int| 0 <= i < p.len() ==> !like(#[trigger] p[i])
            &&& o.len() > 0 ==> like(o) && exists|i: int|
                0 <= i < p.len() && #[trigger] p[i] == o && forall|j: int|
                    0 <= j < i ==> !like(#[trigger] p[j])
        }),
{
    let p = parts(scene, '_');
    let test = |t: Seq<char>| is_orbit(t);
    the_first_comes_before_the_others(p, test);
    assert forall|i: int| 0 <= i < p.len() implies (test(#[trigger] p[i]) <==> is_orbit(p[i])) by {}
}

/// A plume is placed by its row: its centre is the two numbers of it, and a row that lacks one of
/// them is no plume. Its facility is stated or is its centre, its mask spans the two corners in
/// whichever order they are stated, and its onset is the nearest point of the mask to the facility.
pub proof fn a_plume_is_placed_by_its_row(r: Position, n: PlumeReadings)
    requires
        is_position(r, n),
        n.gw matches Some(x) ==> !x.is_nan(),
        n.gs matches Some(x) ==> !x.is_nan(),
        n.ge matches Some(x) ==> !x.is_nan(),
        n.gn matches Some(x) ==> !x.is_nan(),
        n.lon matches Some(x) ==> !x.is_nan(),
        n.lat matches Some(x) ==> !x.is_nan(),
    ensures
        r is Absent <==> n.lon is None || n.lat is None,
        !(r is Unbounded),
        r matches Position::At(p) ==> {
            &&& n.lon == Some(p.centre.x) && n.lat == Some(p.centre.y)
            &&& p.target.x == match n.target_lon {
                Some(x) => x,
                None => p.centre.x,
            }
            &&& p.target.y == match n.target_lat {
                Some(x) => x,
                None => p.centre.y,
            }
            &&& n.gw matches Some(x) ==> p.mask.west.is_le(x) && x.is_le(p.mask.east)
            &&& n.ge matches Some(x) ==> p.mask.west.is_le(x) && x.is_le(p.mask.east)
            &&& n.gs matches Some(x) ==> p.mask.south.is_le(x) && x.is_le(p.mask.north)
            &&& n.gn matches Some(x) ==> p.mask.south.is_le(x) && x.is_le(p.mask.north)
            &&& p.mask.west == p.centre.x || n.gw == Some(p.mask.west) || n.ge == Some(p.mask.west)
            &&& p.mask.east == p.centre.x || n.gw == Some(p.mask.east) || n.ge == Some(p.mask.east)
            &&& p.mask.south == p.centre.y || n.gs == Some(p.mask.south) || n.gn == Some(p.mask.south)
            &&& p.mask.north == p.centre.y || n.gs == Some(p.mask.north) || n.gn == Some(p.mask.north)
            &&& n.gw is Some && n.ge is Some ==> n.gw == Some(p.mask.west) || n.ge == Some(p.mask.west)
            &&& n.gw is Some && n.ge is Some ==> n.gw == Some(p.mask.east) || n.ge == Some(p.mask.east)
            &&& n.gs is Some && n.gn is Some ==> n.gs == Some(p.mask.south) || n.gn == Some(
                p.mask.south,
            )
            &&& n.gs is Some && n.gn is Some ==> n.gs == Some(p.mask.north) || n.gn == Some(
                p.mask.north,
            )
            &&& p.target.x.is_lt(p.mask.west) ==> p.origin.x == p.mask.west
            &&& p.mask.east.is_lt(p.target.x) ==> p.origin.x == p.mask.east
            &&& p.target.y.is_lt(p.mask.south) ==> p.origin.y == p.mask.south
            &&& p.mask.north.is_lt(p.target.y) ==> p.origin.y == p.mask.north
            &&& p.mask.west.is_le(p.target.x) && p.target.x.is_le(p.mask.east) ==> p.origin.x
                == p.target.x
            &&& p.mask.south.is_le(p.target.y) && p.target.y.is_le(p.mask.north) ==> p.origin.y
                == p.target.y
        },
{
}

/// The box of a component holds both of its corners and reaches a metre past them, whichever of
/// them comes first, and a point is in a box just where it is within its four bounds.
pub proof fn a_component_reaches_a_metre_past_its_corners(a: Pair, b: Pair, p: Pair)
    requires
        a.x.is_finite() && a.y.is_finite(),
        b.x.is_finite() && b.y.is_finite(),
    ensures
        ({
            let w = box_around(a, b);
            let metre = Real::of_count(1);
            &&& w == box_around(b, a) || a.x.rank() == b.x.rank() || a.y.rank() == b.y.rank()
            &&& point_inside(a, w) && point_inside(b, w)
            &&& a.x.is_le(b.x) ==> w.west == a.x.sum(metre.negated())
            &&& b.x.is_lt(a.x) ==> w.west == b.x.sum(metre.negated()) && w.east == a.x.sum(metre)
            &&& a.x.is_lt(b.x) ==> w.east == b.x.sum(metre)
            &&& a.y.is_le(b.y) ==> w.south == a.y.sum(metre.negated())
            &&& b.y.is_lt(a.y) ==> w.south == b.y.sum(metre.negated()) && w.north == a.y.sum(metre)
            &&& a.y.is_lt(b.y) ==> w.north == b.y.sum(metre)
            &&& point_inside(p, w) <==> holds(w, p.x, p.y)
        }),
{
    lemma2_to64();
    lemma2_to64_rest();
    lemma_pow2_strictly_increases(6, 1022);
    let metre = Real { bits: METRE };
    a_ratio_is_encoded(1, 1, metre, 1022, 52);
    let w = box_around(a, b);
    let (west, east) = (a.x.smaller(b.x), a.x.larger(b.x));
    let (south, north) = (a.y.smaller(b.y), a.y.larger(b.y));
    sum_keeps_direction(west, metre.negated());
    sum_keeps_direction(south, metre.negated());
    sum_keeps_direction(east, metre);
    sum_keeps_direction(north, metre);
}

/// A piece of a line is passed over just where both of its ends are more than two hundred metres
/// beyond the same side of a box.
pub proof fn a_line_is_near_within_two_hundred_metres(s: Segment, w: Envelope)
    requires
        w.west.is_finite() && w.south.is_finite() && w.east.is_finite() && w.north.is_finite(),
        !s.from.x.is_nan() && !s.from.y.is_nan() && !s.to.x.is_nan() && !s.to.y.is_nan(),
    ensures
        ({
            let reach = Real::of_count(200);
            let west = w.west.sum(reach.negated());
            let south = w.south.sum(reach.negated());
            let east = w.east.sum(reach);
            let north = w.north.sum(reach);
            !comes_near(s, w) <==> {
                ||| s.from.x.is_lt(west) && s.to.x.is_lt(west)
                ||| east.is_lt(s.from.x) && east.is_lt(s.to.x)
                ||| s.from.y.is_lt(south) && s.to.y.is_lt(south)
                ||| north.is_lt(s.from.y) && north.is_lt(s.to.y)
            }
        }),
{
    lemma2_to64();
    lemma2_to64_rest();
    lemma_pow2_strictly_increases(6, 1029);
    let reach = Real { bits: LINE_REACH_M };
    a_ratio_is_encoded(200, 1, reach, 1029, 45);
    sum_keeps_direction(w.west, reach.negated());
    sum_keeps_direction(w.south, reach.negated());
    sum_keeps_direction(w.east, reach);
    sum_keeps_direction(w.north, reach);
}

/// A point lies on a line just where one of its distances is at most fifteen metres.
pub proof fn a_point_lies_on_a_line_within_fifteen_metres(distances: Seq<Real>)
    ensures
        lies_on(distances) <==> exists|k: int|
            0 <= k < distances.len() && (#[trigger] distances[k]).is_le(Real::of_count(15)),
{
    lemma2_to64();
    lemma2_to64_rest();
    lemma_pow2_strictly_increases(6, 1025);
    a_ratio_is_encoded(15, 1, Real { bits: LINE_BUFFER_M }, 1025, 49);
}

/// A line of some positions is in as many pieces as it has steps, each of them from one position to
/// the next, longitude before latitude.
pub proof fn a_line_is_in_pieces(a: Seq<Tree>, k: int)
    requires
        forall|i: int|
            #![trigger a[i]]
            0 <= i < a.len() ==> a[i].elements().len() >= 2 && a[i].elements()[0].as_real() is Some
                && a[i].elements()[1].as_real() is Some,
        0 <= k < a.len() - 1,
    ensures
        ({
            let s = segments_of(Tree::Array(a));
            &&& s.len() == a.len() - 1
            &&& a[k].elements()[0].as_real() == Some(s[k].from.x)
            &&& a[k].elements()[1].as_real() == Some(s[k].from.y)
            &&& a[k + 1].elements()[0].as_real() == Some(s[k].to.x)
            &&& a[k + 1].elements()[1].as_real() == Some(s[k].to.y)
        }),
{
    assert forall|i: int| 0 <= i < a.len() implies place_in(#[trigger] a[i]) is Some by {}
    assert(is_line(a));
    assert(place_in(a[k]) is Some && place_in(a[k + 1]) is Some);
}

/// The pieces of some coordinates that are no line are those of their elements, one after the
/// other.
pub proof fn pieces_are_those_of_the_parts(a: Seq<Tree>, k: int)
    requires
        !is_line(a),
        0 <= k < a.len(),
    ensures
        forall|s: Segment| #[trigger]
            segments_of(a[k]).contains(s) ==> segments_of(Tree::Array(a)).contains(s),
        segments_of(Tree::Array(a)).len() >= segments_of(a[k]).len(),
{
    lemma_segments_among(a, a.len(), k);
}

proof fn lemma_segments_among(a: Seq<Tree>, n: nat, k: int)
    requires
        0 <= k < n <= a.len(),
    ensures
        forall|s: Segment| #[trigger]
            segments_of(a[k]).contains(s) ==> segments_among(a, n).contains(s),
        segments_among(a, n).len() >= segments_of(a[k]).len(),
    decreases n,
{
    let before = segments_among(a, (n - 1) as nat);
    let here = segments_of(a[n - 1]);
    let all = before + here;
    assert(segments_among(a, n) == all);
    if k < n - 1 {
        lemma_segments_among(a, (n - 1) as nat, k);
        assert forall|s: Segment| #[trigger] segments_of(a[k]).contains(s) implies all.contains(s) by {
            assert(before.contains(s));
            let i = choose|i: int| 0 <= i < before.len() && before[i] == s;
            assert(all[i] == s);
        }
    } else {
        assert forall|s: Segment| #[trigger] segments_of(a[k]).contains(s) implies all.contains(s) by {
            let i = choose|i: int| 0 <= i < here.len() && here[i] == s;
            assert(all[before.len() + i] == s);
        }
    }
}

/// How many of some verdicts are on survivors.
pub open spec fn survivors_of(verdicts: Seq<Verdict>) -> nat {
    verdicts.filter(|v: Verdict| v.rejects@.len() == 0).len()
}

/// What is said of some verdicts: how many there are, and how many of them are on survivors.
pub open spec fn tally_text(verdicts: Seq<Verdict>) -> Seq<char> {
    "review: "@ + decimal(verdicts.len()) + " candidates → "@ + decimal(survivors_of(verdicts))
        + " survivors"@
}

/// A verdict without grounds to reject counts as a survivor, once, and no other does; what is said
/// gives the number of the verdicts before that of the survivors.
pub proof fn a_tally_counts_the_survivors(verdicts: Seq<Verdict>, v: Verdict, n: nat)
    requires
        survivors_of(verdicts) == n,
    ensures
        survivors_of(Seq::empty()) == 0,
        v.rejects@.len() == 0 ==> survivors_of(verdicts.push(v)) == n + 1,
        v.rejects@.len() > 0 ==> survivors_of(verdicts.push(v)) == n,
        tally_text(verdicts) == "review: "@ + decimal(verdicts.len()) + " candidates → "@ + decimal(n)
            + " survivors"@,
{
    reveal(Seq::filter);
    assert(verdicts.push(v).drop_last() =~= verdicts);
}

/// The columns of the ranked list.
pub open spec fn report_columns() -> Seq<Seq<char>> {
    seq![
        "key"@,
        "verdict"@,
        "score"@,
        "rejects"@,
        "flags"@,
        "orbit"@,
        "max_p"@,
        "flux_kg_h"@,
        "anchor_m"@,
        "collinearity"@,
    ]
}

/// The values of a line of the ranked list.
pub open spec fn report_row(v: VerdictView, orbit: Seq<char>, n: Shown) -> Seq<Seq<char>> {
    seq![
        v.key,
        if v.rejects.len() == 0 {
            "review"@
        } else {
            "reject"@
        },
        n.score@,
        joined(v.rejects, ";"@),
        joined(v.flags, ";"@),
        orbit,
        n.max_p@,
        n.flux_kg_h@,
        n.anchor_m@,
        or_empty(opt(n.collinearity)),
    ]
}

/// A line of the ranked list holds a value for each column of the header, in the order of the
/// columns: what stands under the name of a column is the value of that name.
pub proof fn a_line_of_the_list_has_its_columns(v: VerdictView, orbit: Seq<char>, n: Shown)
    requires
        are_cells(report_row(v, orbit, n)),
    ensures
        ({
            let t = table_of(
                "key,verdict,score,rejects,flags,orbit,max_p,flux_kg_h,anchor_m,collinearity\n"@
                    + report_line(v, orbit, n),
            );
            &&& t.rows.len() == 1
            &&& t.cell(0, "key"@) == v.key
            &&& t.cell(0, "verdict"@) == if v.rejects.len() == 0 {
                "review"@
            } else {
                "reject"@
            }
            &&& t.cell(0, "score"@) == n.score@
            &&& t.cell(0, "rejects"@) == joined(v.rejects, ";"@)
            &&& t.cell(0, "flags"@) == joined(v.flags, ";"@)
            &&& t.cell(0, "orbit"@) == orbit
            &&& t.cell(0, "max_p"@) == n.max_p@
            &&& t.cell(0, "flux_kg_h"@) == n.flux_kg_h@
            &&& t.cell(0, "anchor_m"@) == n.anchor_m@
            &&& t.cell(0, "collinearity"@) == or_empty(opt(n.collinearity))
        }),
{
    let names = report_columns();
    let row = report_row(v, orbit, n);
    let header = "key,verdict,score,rejects,flags,orbit,max_p,flux_kg_h,anchor_m,collinearity\n"@;
    lemma_report_columns();
    lemma_ten(row);
    reveal_strlit(",");
    reveal_strlit("\n");
    assert(","@ =~= seq![',']);
    assert("\n"@ =~= seq!['\n']);
    assert(report_line(v, orbit, n) =~= joined(row, seq![',']) + seq!['\n']);
    let rows = seq![row];
    let lines = seq![joined(names, seq![',']), joined(row, seq![','])];
    assert(seq![joined(names, seq![','])] + rows.map_values(
        |r: Seq<Seq<char>>| joined(r, seq![',']),
    ) =~= lines);
    assert(lines.drop_last() =~= seq![joined(names, seq![','])]);
    reveal_with_fuel(joined, 2);
    assert(joined(lines, seq!['\n']) == joined(names, seq![',']) + seq!['\n'] + joined(
        row,
        seq![','],
    ));
    assert(table_written(names, rows) =~= header + report_line(v, orbit, n));
    a_table_is_read_back(names, rows);
    a_written_value_is_found_by_its_column(names, rows, 0);
    assert(names[0] == "key"@);
    assert(names[1] == "verdict"@);
    assert(names[2] == "score"@);
    assert(names[3] == "rejects"@);
    assert(names[4] == "flags"@);
    assert(names[5] == "orbit"@);
    assert(names[6] == "max_p"@);
    assert(names[7] == "flux_kg_h"@);
    assert(names[8] == "anchor_m"@);
    assert(names[9] == "collinearity"@);
}

proof fn lemma_ten(v: Seq<Seq<char>>)
    requires
        v.len() == 10,
    ensures
        joined(v, seq![',']) == v[0] + seq![','] + v[1] + seq![','] + v[2] + seq![','] + v[3]
            + seq![','] + v[4] + seq![','] + v[5] + seq![','] + v[6] + seq![','] + v[7] + seq![',']
            + v[8] + seq![','] + v[9],
{
    let c = seq![','];
    assert(joined(v.take(1), c) == v[0]);
    assert(v.take(2).drop_last() =~= v.take(1));
    assert(joined(v.take(2), c) == joined(v.take(1), c) + c + v[1]);
    assert(v.take(3).drop_last() =~= v.take(2));
    assert(joined(v.take(3), c) == joined(v.take(2), c) + c + v[2]);
    assert(v.take(4).drop_last() =~= v.take(3));
    assert(joined(v.take(4), c) == joined(v.take(3), c) + c + v[3]);
    assert(v.take(5).drop_last() =~= v.take(4));
    assert(joined(v.take(5), c) == joined(v.take(4), c) + c + v[4]);
    assert(v.take(6).drop_last() =~= v.take(5));
    assert(joined(v.take(6), c) == joined(v.take(5), c) + c + v[5]);
    assert(v.take(7).drop_last() =~= v.take(6));
    assert(joined(v.take(7), c) == joined(v.take(6), c) + c + v[6]);
    assert(v.take(8).drop_last() =~= v.take(7));
    assert(joined(v.take(8), c) == joined(v.take(7), c) + c + v[7]);
    assert(v.take(9).drop_last() =~= v.take(8));
    assert(joined(v.take(9), c) == joined(v.take(8), c) + c + v[8]);
    assert(v.take(10).drop_last() =~= v.take(9));
    assert(joined(v.take(10), c) == joined(v.take(9), c) + c + v[9]);
    assert(v.take(10) =~= v);
}

#[verifier::spinoff_prover]
#[verifier::rlimit(60)]
proof fn lemma_report_columns()
    ensures
        are_marked(report_columns()),
        are_cells(report_columns()),
        report_columns().last().len() > 0,
        !is_space(report_columns().last().last()),
        joined(report_columns(), seq![',']) + seq!['\n']
            == "key,verdict,score,rejects,flags,orbit,max_p,flux_kg_h,anchor_m,collinearity\n"@,
{
    reveal_strlit("key");
    reveal_strlit("verdict");
    reveal_strlit("score");
    reveal_strlit("rejects");
    reveal_strlit("flags");
    reveal_strlit("orbit");
    reveal_strlit("max_p");
    reveal_strlit("flux_kg_h");
    reveal_strlit("anchor_m");
    reveal_strlit("collinearity");
    reveal_strlit("key,verdict,score,rejects,flags,orbit,max_p,flux_kg_h,anchor_m,collinearity\n");
    let v = report_columns();
    assert forall|i: int, j: int| 0 <= i < j < v.len() implies mark(#[trigger] v[i]) != mark(
        #[trigger] v[j],
    ) by {}
    assert forall|i: int| 0 <= i < v.len() implies is_cell(#[trigger] v[i]) by {}
    lemma_ten(v);
    assert(joined(v, seq![',']) + seq!['\n']
        =~= "key,verdict,score,rejects,flags,orbit,max_p,flux_kg_h,anchor_m,collinearity\n"@);
}

/// What can be said of a mask of so many points and so many lines near it.
pub open spec fn following_of(points: int, lines: int) -> Following {
    if points < 3 {
        Following::Unknown
    } else if lines == 0 {
        Following::Nothing
    } else {
        Following::Measured
    }
}

/// Nothing can be said of a mask of fewer than three points, whatever lines are near it; one of
/// three points or more follows nothing where no line is near, and is measured where one is.
pub proof fn three_points_make_a_mask(points: int, lines: int)
    requires
        0 <= points,
        0 <= lines,
    ensures
        following_of(points, lines) == Following::Unknown <==> points <= 2,
        following_of(points, lines) == Following::Nothing <==> points >= 3 && lines == 0,
        following_of(points, lines) == Following::Measured <==> points >= 3 && lines >= 1,
{
}

/// The points of a mask that are in a box.
pub open spec fn points_in(points: Seq<Pair>, w: Envelope) -> Seq<Pair> {
    points.filter(|p: Pair| point_inside(p, w))
}

/// The pieces of lines that come near a box.
pub open spec fn lines_near(lines: Seq<Segment>, w: Envelope) -> Seq<Segment> {
    lines.filter(|s: Segment| comes_near(s, w))
}

/// How many points lie on a line, from the distances of each.
pub open spec fn count_on_lines(distances: Seq<Vec<Real>>) -> nat {
    distances.filter(|d: Vec<Real>| lies_on(d@)).len()
}

/// A component keeps just the points of the mask that its box holds.
pub proof fn a_component_keeps_the_points_of_its_box(points: Seq<Pair>, w: Envelope, p: Pair)
    ensures
        points_in(points, w).contains(p) <==> points.contains(p) && holds(w, p.x, p.y),
{
    a_filter_keeps_what_passes(points, |p: Pair| point_inside(p, w), p);
}

/// A component is held against just the pieces of lines that come near its box.
pub proof fn a_component_keeps_the_lines_near_its_box(lines: Seq<Segment>, w: Envelope, s: Segment)
    ensures
        lines_near(lines, w).contains(s) <==> lines.contains(s) && comes_near(s, w),
{
    a_filter_keeps_what_passes(lines, |s: Segment| comes_near(s, w), s);
}

/// A point counts as on a line once, where one of its distances is at most fifteen metres.
pub proof fn a_point_counts_where_a_line_is_close(distances: Seq<Vec<Real>>, d: Vec<Real>)
    ensures
        count_on_lines(Seq::empty()) == 0,
        count_on_lines(distances.push(d)) == count_on_lines(distances) + if exists|k: int|
            0 <= k < d@.len() && (#[trigger] d@[k]).is_le(Real::of_count(15)) {
            1nat
        } else {
            0nat
        },
{
    reveal(Seq::filter);
    assert(distances.push(d).drop_last() =~= distances);
    a_point_lies_on_a_line_within_fifteen_metres(d@);
}

/// Whether a place is that of the least of some distances.
pub open spec fn is_nearest(r: Option<usize>, distances: Seq<Real>) -> bool {
    &&& r is None <==> distances.len() == 0
    &&& r matches Some(i) ==> {
        &&& i < distances.len()
        &&& forall|k: int|
            0 <= k < distances.len() ==> distances[i as int].place() <= (
            #[trigger] distances[k]).place()
        &&& forall|k: int|
            0 <= k < i ==> distances[i as int].place() < (#[trigger] distances[k]).place()
    }
}

/// Nothing is nearer than the nearest of some distances, and of two that are the same the first is
/// taken.
pub proof fn nothing_is_nearer_than_the_nearest(r: Option<usize>, distances: Seq<Real>, k: int)
    requires
        is_nearest(r, distances),
        0 <= k < distances.len(),
    ensures
        r is Some,
        r matches Some(i) ==> i < distances.len() && !distances[k].is_lt(distances[i as int]) && (k < i
            ==> distances[k] != distances[i as int]),
{
}

} // verus!
