//! Scenes: what a catalogue says of an acquisition, which acquisitions a run keeps, and where the
//! bands of each one are.
use crate::envelope::{
    a_tile_spans_less_than_five_degrees, boxes_overlap_where_they_share_a_point, holds, is_box,
    is_narrow, narrow, overlap, overlaps, widen, widen_all, widened, widened_all, Envelope,
};
use crate::json::{trees, Json, Tree};
use crate::number::{a_ratio_is_encoded, Real};
use crate::text::{
    a_pair_is_told_by_its_separator, an_ending_is_replaced, byte_len, copy_opt, ends_with,
    first_bytes, first_where, joined_parts_are_the_text,
    nothing_is_replaced_where_a_character_is_missing, opt, or_empty, parts, prefix, replace,
    replaced, split, starts_with, strip_prefix, takes_bytes, the_first_bytes_are_a_beginning,
    the_first_comes_before_the_others, views,
};
use vstd::arithmetic::power2::{lemma2_to64, lemma2_to64_rest, lemma_pow2_strictly_increases};
use vstd::hash_map::StringHashMap;
use vstd::prelude::*;
use vstd::seq_lib::lemma_seq_contains_after_push;

verus! {

/// Where the bands of a scene, its scene classification and its metadata are to be read.
#[derive(Clone, Debug)]
pub struct Bands {
    pub b01: Option<String>,
    pub b02: Option<String>,
    pub b03: Option<String>,
    pub b04: Option<String>,
    pub b05: Option<String>,
    pub b06: Option<String>,
    pub b07: Option<String>,
    pub b08: Option<String>,
    pub b12: Option<String>,
    pub b11: Option<String>,
    pub b8a: Option<String>,
    pub b09: Option<String>,
    pub b10: Option<String>,
    pub scl: Option<String>,
    pub product_metadata: Option<String>,
    pub granule_metadata: Option<String>,
}

/// One scene of the catalogue.
#[derive(Clone, Debug)]
pub struct Item {
    pub id: String,
    pub date: String,
    pub datetime: String,
    pub cloud_cover: Option<Real>,
    pub mgrs: String,
    pub epsg: i32,
    pub bbox: Envelope,
    pub sun_elevation: Option<Real>,
    pub sun_azimuth: Option<Real>,
    pub bands: Bands,
    /// The radiometry of the product: "l1c" (top of atmosphere) or "l2a" (surface reflectance).
    pub level: String,
}

/// [`Bands`], as mathematics.
pub ghost struct BandsView {
    pub b01: Option<Seq<char>>,
    pub b02: Option<Seq<char>>,
    pub b03: Option<Seq<char>>,
    pub b04: Option<Seq<char>>,
    pub b05: Option<Seq<char>>,
    pub b06: Option<Seq<char>>,
    pub b07: Option<Seq<char>>,
    pub b08: Option<Seq<char>>,
    pub b12: Option<Seq<char>>,
    pub b11: Option<Seq<char>>,
    pub b8a: Option<Seq<char>>,
    pub b09: Option<Seq<char>>,
    pub b10: Option<Seq<char>>,
    pub scl: Option<Seq<char>>,
    pub product_metadata: Option<Seq<char>>,
    pub granule_metadata: Option<Seq<char>>,
}

/// [`Item`], as mathematics.
pub ghost struct ItemView {
    pub id: Seq<char>,
    pub date: Seq<char>,
    pub datetime: Seq<char>,
    pub cloud_cover: Option<Real>,
    pub mgrs: Seq<char>,
    pub epsg: i32,
    pub bbox: Envelope,
    pub sun_elevation: Option<Real>,
    pub sun_azimuth: Option<Real>,
    pub bands: BandsView,
    pub level: Seq<char>,
}

impl View for Bands {
    type V = BandsView;

    open spec fn view(&self) -> BandsView {
        BandsView {
            b01: opt(self.b01),
            b02: opt(self.b02),
            b03: opt(self.b03),
            b04: opt(self.b04),
            b05: opt(self.b05),
            b06: opt(self.b06),
            b07: opt(self.b07),
            b08: opt(self.b08),
            b12: opt(self.b12),
            b11: opt(self.b11),
            b8a: opt(self.b8a),
            b09: opt(self.b09),
            b10: opt(self.b10),
            scl: opt(self.scl),
            product_metadata: opt(self.product_metadata),
            granule_metadata: opt(self.granule_metadata),
        }
    }
}

impl View for Item {
    type V = ItemView;

    open spec fn view(&self) -> ItemView {
        ItemView {
            id: self.id@,
            date: self.date@,
            datetime: self.datetime@,
            cloud_cover: self.cloud_cover,
            mgrs: self.mgrs@,
            epsg: self.epsg,
            bbox: self.bbox,
            sun_elevation: self.sun_elevation,
            sun_azimuth: self.sun_azimuth,
            bands: self.bands@,
            level: self.level@,
        }
    }
}

/// The views of a list of scenes.
pub open spec fn item_views(v: Seq<Item>) -> Seq<ItemView> {
    v.map_values(|it: Item| it@)
}

/// Whether a source is one of the Copernicus catalogue.
pub open spec fn is_cdse(source: Seq<char>) -> bool {
    "cdse"@.is_prefix_of(source)
}

/// Whether a source is one of top-of-atmosphere products.
pub open spec fn is_l1c(source: Seq<char>) -> bool {
    "l1c"@.is_suffix_of(source)
}

pub open spec fn level_of(source: Seq<char>) -> Seq<char> {
    if is_l1c(source) {
        "l1c"@
    } else {
        "l2a"@
    }
}

pub open spec fn api_of(source: Seq<char>) -> Seq<char> {
    if is_cdse(source) {
        "https://stac.dataspace.copernicus.eu/v1"@
    } else {
        "https://earth-search.aws.element84.com/v1"@
    }
}

/// The address of the catalogue that serves a source.
pub fn api(source: &str) -> (r: &'static str)
    ensures
        r@ == api_of(source@),
{
    if starts_with(source, "cdse") {
        "https://stac.dataspace.copernicus.eu/v1"
    } else {
        "https://earth-search.aws.element84.com/v1"
    }
}

/// The radiometry that a source serves.
pub fn level(source: &str) -> (r: &'static str)
    ensures
        r@ == level_of(source@),
{
    if ends_with(source, "l1c") {
        "l1c"
    } else {
        "l2a"
    }
}

pub open spec fn twin_of(source: Seq<char>) -> Seq<char> {
    if is_cdse(source) {
        "cdse"@
    } else {
        "aws"@
    }
}

/// The surface-reflectance source of the same catalogue, for borrowing a cloud mask.
pub fn l2a_twin(source: &str) -> (r: &'static str)
    ensures
        r@ == twin_of(source@),
{
    if starts_with(source, "cdse") {
        "cdse"
    } else {
        "aws"
    }
}

/// Where the catalogue says an asset is.
pub open spec fn asset(it: Tree, key: Seq<char>) -> Option<Seq<char>> {
    it.field("assets"@).field(key).field("href"@).as_text()
}

pub open spec fn asset_over_https(it: Tree, key: Seq<char>) -> Option<Seq<char>> {
    match asset(it, key) {
        Some(url) => if "s3://sentinel-s2-l1c/"@.is_prefix_of(url) {
            Some(
                "https://sentinel-s2-l1c.s3.eu-central-1.amazonaws.com/"@ + url.skip(
                    "s3://sentinel-s2-l1c/"@.len() as int,
                ),
            )
        } else {
            Some(url)
        },
        None => None,
    }
}

pub open spec fn cirrus_asset(it: Tree) -> Option<Seq<char>> {
    match asset(it, "B10"@) {
        Some(url) => Some(url),
        None => match asset(it, "B11"@) {
            Some(url) => Some(replaced(url, "_B11.jp2"@, "_B10.jp2"@)),
            None => None,
        },
    }
}

/// Where the catalogue says an asset is.
pub fn href(it: &Json, key: &str) -> (r: Option<String>)
    ensures
        opt(r) == asset(it@, key@),
{
    let assets = match it.field("assets") {
        Some(a) => a,
        None => return None,
    };
    let entry = match assets.field(key) {
        Some(e) => e,
        None => return None,
    };
    match entry.text_field("href") {
        Some(url) => Some(url.clone()),
        None => None,
    }
}

/// Where an asset of the requester-pays bucket is served over HTTPS.
pub fn aws_l1c_href(it: &Json, key: &str) -> (r: Option<String>)
    ensures
        opt(r) == asset_over_https(it@, key@),
{
    match href(it, key) {
        Some(url) => match strip_prefix(url.as_str(), "s3://sentinel-s2-l1c/") {
            Some(path) => {
                let mut s = "https://sentinel-s2-l1c.s3.eu-central-1.amazonaws.com/".to_owned();
                s.append(path.as_str());
                Some(s)
            },
            None => Some(url),
        },
        None => None,
    }
}

/// Where the cirrus band is. Older records of the Copernicus catalogue omit the asset, though the
/// file is there beside the one of the short-wave band.
pub fn cdse_b10(it: &Json) -> (r: Option<String>)
    ensures
        opt(r) == cirrus_asset(it@),
{
    match href(it, "B10") {
        Some(url) => Some(url),
        None => match href(it, "B11") {
            Some(url) => {
                proof {
                    reveal_strlit("_B11.jp2");
                }
                Some(replace(url.as_str(), "_B11.jp2", "_B10.jp2"))
            },
            None => None,
        },
    }
}

/// Where the bands of a scene are, under the names that each catalogue gives its assets. The
/// tile metadata stands in for the product metadata where the catalogue advertises an object that
/// does not exist.
pub open spec fn bands_view(it: Tree, source: Seq<char>) -> BandsView {
    if is_cdse(source) && is_l1c(source) {
        BandsView {
            b01: asset(it, "B01"@),
            b02: asset(it, "B02"@),
            b03: asset(it, "B03"@),
            b04: asset(it, "B04"@),
            b05: asset(it, "B05"@),
            b06: asset(it, "B06"@),
            b07: asset(it, "B07"@),
            b08: asset(it, "B08"@),
            b8a: asset(it, "B8A"@),
            b09: asset(it, "B09"@),
            b10: cirrus_asset(it),
            b11: asset(it, "B11"@),
            b12: asset(it, "B12"@),
            scl: None,
            product_metadata: asset(it, "product_metadata"@),
            granule_metadata: asset(it, "granule_metadata"@),
        }
    } else if is_cdse(source) {
        BandsView {
            b01: None,
            b02: None,
            b03: None,
            b04: None,
            b05: None,
            b06: None,
            b07: None,
            b08: None,
            b09: None,
            b10: None,
            b12: asset(it, "B12_20m"@),
            b11: asset(it, "B11_20m"@),
            b8a: asset(it, "B8A_20m"@),
            scl: asset(it, "SCL_20m"@),
            product_metadata: asset(it, "product_metadata"@),
            granule_metadata: asset(it, "granule_metadata"@),
        }
    } else if is_l1c(source) {
        BandsView {
            b01: asset_over_https(it, "coastal"@),
            b02: asset_over_https(it, "blue"@),
            b03: asset_over_https(it, "green"@),
            b04: asset_over_https(it, "red"@),
            b05: asset_over_https(it, "rededge1"@),
            b06: asset_over_https(it, "rededge2"@),
            b07: asset_over_https(it, "rededge3"@),
            b08: asset_over_https(it, "nir"@),
            b8a: asset_over_https(it, "nir08"@),
            b09: asset_over_https(it, "nir09"@),
            b10: asset_over_https(it, "cirrus"@),
            b11: asset_over_https(it, "swir16"@),
            b12: asset_over_https(it, "swir22"@),
            scl: None,
            product_metadata: asset_over_https(it, "granule_metadata"@),
            granule_metadata: asset_over_https(it, "granule_metadata"@),
        }
    } else {
        BandsView {
            b01: None,
            b02: None,
            b03: None,
            b04: None,
            b05: None,
            b06: None,
            b07: None,
            b08: None,
            b09: None,
            b10: None,
            b12: asset(it, "swir22"@),
            b11: asset(it, "swir16"@),
            b8a: asset(it, "nir08"@),
            scl: asset(it, "scl"@),
            product_metadata: None,
            granule_metadata: None,
        }
    }
}

/// Where the bands of a scene are.
pub fn bands_of(it: &Json, source: &str) -> (r: Bands)
    ensures
        r@ == bands_view(it@, source@),
{
    let cdse = starts_with(source, "cdse");
    let l1c = ends_with(source, "l1c");
    if cdse && l1c {
        Bands {
            b01: href(it, "B01"),
            b02: href(it, "B02"),
            b03: href(it, "B03"),
            b04: href(it, "B04"),
            b05: href(it, "B05"),
            b06: href(it, "B06"),
            b07: href(it, "B07"),
            b08: href(it, "B08"),
            b8a: href(it, "B8A"),
            b09: href(it, "B09"),
            b10: cdse_b10(it),
            b11: href(it, "B11"),
            b12: href(it, "B12"),
            scl: None,
            product_metadata: href(it, "product_metadata"),
            granule_metadata: href(it, "granule_metadata"),
        }
    } else if cdse {
        Bands {
            b01: None,
            b02: None,
            b03: None,
            b04: None,
            b05: None,
            b06: None,
            b07: None,
            b08: None,
            b09: None,
            b10: None,
            b12: href(it, "B12_20m"),
            b11: href(it, "B11_20m"),
            b8a: href(it, "B8A_20m"),
            scl: href(it, "SCL_20m"),
            product_metadata: href(it, "product_metadata"),
            granule_metadata: href(it, "granule_metadata"),
        }
    } else if l1c {
        Bands {
            b01: aws_l1c_href(it, "coastal"),
            b02: aws_l1c_href(it, "blue"),
            b03: aws_l1c_href(it, "green"),
            b04: aws_l1c_href(it, "red"),
            b05: aws_l1c_href(it, "rededge1"),
            b06: aws_l1c_href(it, "rededge2"),
            b07: aws_l1c_href(it, "rededge3"),
            b08: aws_l1c_href(it, "nir"),
            b8a: aws_l1c_href(it, "nir08"),
            b09: aws_l1c_href(it, "nir09"),
            b10: aws_l1c_href(it, "cirrus"),
            b11: aws_l1c_href(it, "swir16"),
            b12: aws_l1c_href(it, "swir22"),
            scl: None,
            product_metadata: aws_l1c_href(it, "granule_metadata"),
            granule_metadata: aws_l1c_href(it, "granule_metadata"),
        }
    } else {
        Bands {
            b01: None,
            b02: None,
            b03: None,
            b04: None,
            b05: None,
            b06: None,
            b07: None,
            b08: None,
            b09: None,
            b10: None,
            b12: href(it, "swir22"),
            b11: href(it, "swir16"),
            b8a: href(it, "nir08"),
            scl: href(it, "scl"),
            product_metadata: None,
            granule_metadata: None,
        }
    }
}

/// The encoding of one hundred: the cloud cover of a scene that states none.
pub const FULL_COVER: u64 = 0x4059_0000_0000_0000;

pub open spec fn properties(it: Tree) -> Tree {
    it.field("properties"@)
}

/// When a scene was taken.
pub open spec fn datetime_of(it: Tree) -> Seq<char> {
    or_empty(properties(it).field("datetime"@).as_text())
}

/// The day on which a scene was taken: the first ten bytes of the time.
pub open spec fn day_of(it: Tree) -> Seq<char> {
    or_empty(first_bytes(datetime_of(it), 10))
}

/// The cloud cover of a scene, full where none is stated.
pub open spec fn cloud_of(it: Tree) -> Real {
    match properties(it).field("eo:cloud_cover"@).as_real() {
        Some(x) => x,
        None => Real { bits: FULL_COVER },
    }
}

/// The grid code of a scene, under either name.
pub open spec fn grid_of(it: Tree) -> Option<Seq<char>> {
    match properties(it).field("grid:code"@).as_text() {
        Some(s) => Some(s),
        None => properties(it).field("s2:mgrs_tile"@).as_text(),
    }
}

/// The tile of a scene; where none is stated, the scene is its own.
pub open spec fn tile_of(it: Tree) -> Seq<char> {
    match grid_of(it) {
        Some(s) => s,
        None => or_empty(it.field("id"@).as_text()),
    }
}

/// The orbit that the name of a scene carries: four bytes that begin with an R.
pub open spec fn orbit_token(id: Seq<char>) -> Seq<char> {
    or_empty(first_where(parts(id, '_'), |t: Seq<char>| byte_len(t) == 4 && seq!['R'].is_prefix_of(t)))
}

/// Scenes with the same key show the same tile on the same day. Where both looks of a day are
/// kept, the orbit tells them apart.
pub open spec fn scene_key(it: Tree, keep_orbits: bool) -> Seq<char> {
    let orbit = if keep_orbits {
        orbit_token(or_empty(it.field("id"@).as_text()))
    } else {
        Seq::empty()
    };
    tile_of(it) + "_"@ + day_of(it) + "_"@ + orbit
}

/// The numbers among the values of a list.
pub open spec fn numbers(a: Seq<Tree>) -> Seq<Real>
    decreases a.len(),
{
    if a.len() == 0 {
        Seq::empty()
    } else {
        match a.last().as_real() {
            Some(x) => numbers(a.drop_last()).push(x),
            None => numbers(a.drop_last()),
        }
    }
}

/// The first four of the numbers as an envelope, zero where one is missing.
pub open spec fn as_envelope(v: Seq<Real>) -> Envelope {
    let at = |i: int|
        if i < v.len() {
            v[i]
        } else {
            Real { bits: 0 }
        };
    Envelope { west: at(0), south: at(1), east: at(2), north: at(3) }
}

pub open spec fn bbox_of(it: Tree) -> Envelope {
    as_envelope(numbers(it.field("bbox"@).elements()))
}

/// Whether a scene belongs to a query. The catalogue occasionally returns tiles of the antimeridian
/// with envelopes around the world; where a scene states four bounds, they must be those of a tile
/// and must meet one of the envelopes asked for.
pub open spec fn in_area(it: Tree, q: Seq<Envelope>) -> bool {
    ||| !(it.field("bbox"@) is Array)
    ||| numbers(it.field("bbox"@).elements()).len() != 4
    ||| narrow(bbox_of(it)) && exists|i: int| 0 <= i < q.len() && overlap(bbox_of(it), #[trigger] q[i])
}

/// The place of the first scene with the key `k`; the length of the list where there is none.
pub open spec fn place_of(best: Seq<Tree>, k: Seq<char>, keep_orbits: bool) -> nat
    decreases best.len(),
{
    if best.len() == 0 || scene_key(best[0], keep_orbits) == k {
        0
    } else {
        1 + place_of(best.drop_first(), k, keep_orbits)
    }
}

/// The clearest scene of each key so far, with one more scene taken in: it replaces the one of its
/// key where that one is not at most as cloudy.
pub open spec fn taken_in(best: Seq<Tree>, it: Tree, keep_orbits: bool) -> Seq<Tree> {
    let i = place_of(best, scene_key(it, keep_orbits), keep_orbits);
    if i >= best.len() {
        best.push(it)
    } else if cloud_of(best[i as int]).is_le(cloud_of(it)) {
        best
    } else {
        best.update(i as int, it)
    }
}

/// The scenes of a query, one for each key, the clearest one.
pub open spec fn clearest(features: Seq<Tree>, q: Seq<Envelope>, keep_orbits: bool) -> Seq<Tree>
    decreases features.len(),
{
    if features.len() == 0 {
        Seq::empty()
    } else {
        let best = clearest(features.drop_last(), q, keep_orbits);
        if in_area(features.last(), q) {
            taken_in(best, features.last(), keep_orbits)
        } else {
            best
        }
    }
}

fn text_or_empty(s: Option<&String>) -> (r: String)
    ensures
        r@ == or_empty(
            match s {
                Some(t) => Some(t@),
                None => None,
            },
        ),
{
    match s {
        Some(t) => t.clone(),
        None => String::new(),
    }
}

fn property_text(it: &Json, key: &str) -> (r: Option<String>)
    ensures
        opt(r) == properties(it@).field(key@).as_text(),
{
    match it.field("properties") {
        Some(p) => match p.text_field(key) {
            Some(s) => Some(s.clone()),
            None => None,
        },
        None => None,
    }
}

fn property_real(it: &Json, key: &str) -> (r: Option<Real>)
    ensures
        r == properties(it@).field(key@).as_real(),
{
    match it.field("properties") {
        Some(p) => p.real_field(key),
        None => None,
    }
}

fn datetime(it: &Json) -> (r: String)
    ensures
        r@ == datetime_of(it@),
{
    match property_text(it, "datetime") {
        Some(s) => s,
        None => String::new(),
    }
}

fn day(it: &Json) -> (r: String)
    ensures
        r@ == day_of(it@),
{
    match prefix(datetime(it).as_str(), 10) {
        Some(s) => s,
        None => String::new(),
    }
}

fn cloud(it: &Json) -> (r: Real)
    ensures
        r == cloud_of(it@),
{
    match property_real(it, "eo:cloud_cover") {
        Some(x) => x,
        None => Real { bits: FULL_COVER },
    }
}

/// The grid code of a scene, under either name that catalogues use.
pub fn grid(it: &Json) -> (r: Option<String>)
    ensures
        opt(r) == grid_of(it@),
{
    match property_text(it, "grid:code") {
        Some(s) => Some(s),
        None => property_text(it, "s2:mgrs_tile"),
    }
}

fn orbit_in(id: &str) -> (r: String)
    ensures
        r@ == orbit_token(id@),
{
    let list = split(id, '_');
    let ghost p = |t: Seq<char>| byte_len(t) == 4 && seq!['R'].is_prefix_of(t);
    let ghost all = views(list@);
    let mut i: usize = 0;
    assert(all.skip(0) =~= all);
    proof {
        reveal_strlit("R");
        assert("R"@ =~= seq!['R']);
    }
    while i < list.len()
        invariant
            i <= list@.len(),
            all == views(list@),
            all == parts(id@, '_'),
            "R"@ == seq!['R'],
            p == (|t: Seq<char>| byte_len(t) == 4 && seq!['R'].is_prefix_of(t)),
            first_where(all.skip(i as int), p) == first_where(all, p),
        decreases list@.len() - i,
    {
        assert(all.skip(i as int)[0] == list@[i as int]@);
        if takes_bytes(list[i].as_str(), 4) && starts_with(list[i].as_str(), "R") {
            return list[i].clone();
        }
        assert(all.skip(i as int).drop_first() =~= all.skip(i + 1));
        i += 1;
    }
    String::new()
}

fn key(it: &Json, keep_orbits: bool) -> (r: String)
    ensures
        r@ == scene_key(it@, keep_orbits),
{
    let id = text_or_empty(it.text_field("id"));
    let mut s = match grid(it) {
        Some(t) => t,
        None => id.clone(),
    };
    s.append("_");
    s.append(day(it).as_str());
    s.append("_");
    if keep_orbits {
        s.append(orbit_in(id.as_str()).as_str());
    } else {
        assert(s@ + Seq::<char>::empty() =~= s@);
    }
    s
}

fn bbox_numbers(it: &Json) -> (r: Option<Vec<Real>>)
    ensures
        r is Some <==> it@.field("bbox"@) is Array,
        r matches Some(v) ==> v@ == numbers(it@.field("bbox"@).elements()),
{
    match it.field("bbox") {
        Some(b) => match b {
            Json::Array(a) => {
                let ghost all = b@->Array_0;
                let mut v: Vec<Real> = Vec::new();
                let mut i: usize = 0;
                assert(all.take(0) =~= Seq::empty());
                while i < a.len()
                    invariant
                        i <= a@.len(),
                        all.len() == a@.len(),
                        forall|j: int| 0 <= j < a@.len() ==> #[trigger] all[j] == a@[j]@,
                        v@ == numbers(all.take(i as int)),
                    decreases a@.len() - i,
                {
                    assert(all.take(i + 1).drop_last() =~= all.take(i as int));
                    match a[i].as_real() {
                        Some(x) => v.push(x),
                        None => {},
                    }
                    i += 1;
                }
                assert(all.take(i as int) =~= all);
                Some(v)
            },
            _ => None,
        },
        None => None,
    }
}

fn envelope_of(v: &Vec<Real>) -> (r: Envelope)
    ensures
        r == as_envelope(v@),
{
    let zero = Real { bits: 0 };
    Envelope {
        west: if v.len() > 0 {
            v[0]
        } else {
            zero
        },
        south: if v.len() > 1 {
            v[1]
        } else {
            zero
        },
        east: if v.len() > 2 {
            v[2]
        } else {
            zero
        },
        north: if v.len() > 3 {
            v[3]
        } else {
            zero
        },
    }
}

/// Whether `b` meets one of the envelopes.
fn meets_any(b: Envelope, q: &Vec<Envelope>) -> (r: bool)
    ensures
        r == exists|i: int| 0 <= i < q@.len() && overlap(b, #[trigger] q@[i]),
{
    let mut i: usize = 0;
    while i < q.len()
        invariant
            i <= q@.len(),
            forall|j: int| 0 <= j < i ==> !overlap(b, #[trigger] q@[j]),
        decreases q@.len() - i,
    {
        if overlaps(b, q[i]) {
            return true;
        }
        i += 1;
    }
    false
}

/// Whether a scene belongs to a query.
pub fn belongs(it: &Json, q: &Vec<Envelope>) -> (r: bool)
    ensures
        r == in_area(it@, q@),
{
    match bbox_numbers(it) {
        Some(v) => {
            if v.len() != 4 {
                return true;
            }
            let b = envelope_of(&v);
            is_narrow(b) && meets_any(b, q)
        },
        None => true,
    }
}

proof fn lemma_place_of(best: Seq<Tree>, k: Seq<char>, keep_orbits: bool, i: int)
    requires
        0 <= i <= best.len(),
        forall|j: int| 0 <= j < i ==> scene_key(#[trigger] best[j], keep_orbits) != k,
        i == best.len() || scene_key(best[i], keep_orbits) == k,
    ensures
        place_of(best, k, keep_orbits) == i,
    decreases best.len(),
{
    if i > 0 {
        assert forall|j: int| 0 <= j < i - 1 implies scene_key(
            #[trigger] best.drop_first()[j],
            keep_orbits,
        ) != k by {
            assert(best.drop_first()[j] == best[j + 1]);
        }
        lemma_place_of(best.drop_first(), k, keep_orbits, i - 1);
    }
}

/// The scenes that a reply of the catalogue holds for a query, one for each tile and day, the
/// clearest one. The cloud threshold of a run plays no part in it.
pub fn survivors(features: Vec<Json>, area: &Vec<Envelope>, keep_orbits: bool) -> (r: Vec<Json>)
    ensures
        trees(r@) == clearest(trees(features@), widened_all(area@), keep_orbits),
{
    let q = widen_all(area);
    let ghost all = trees(features@);
    let mut best: Vec<Json> = Vec::new();
    let mut index: StringHashMap<usize> = StringHashMap::new();
    assert(trees(best@) =~= Seq::empty());
    assert(all.take(0) =~= Seq::empty());
    for it in iter: features
        invariant
            all == trees(iter.seq()),
            trees(best@) == clearest(all.take(iter.index() as int), q@, keep_orbits),
            indexed(index@, trees(best@), keep_orbits),
    {
        let ghost n = iter.index() as int;
        assert(all.take(n + 1).drop_last() =~= all.take(n));
        assert(all.take(n + 1).last() == it@);
        if belongs(&it, &q) {
            take_in(&mut best, &mut index, it, keep_orbits);
        }
    }
    assert(all.take(all.len() as int) =~= all);
    best
}

/// Whether an index gives the place of each key.
spec fn indexed(index: Map<Seq<char>, usize>, best: Seq<Tree>, keep_orbits: bool) -> bool {
    forall|k: Seq<char>|
        #![trigger index.contains_key(k)]
        #![trigger place_of(best, k, keep_orbits)]
        (index.contains_key(k) <==> place_of(best, k, keep_orbits) < best.len()) && (
        index.contains_key(k) ==> index[k] == place_of(best, k, keep_orbits))
}

proof fn lemma_place_after(best: Seq<Tree>, i: int, it: Tree, k: Seq<char>, keep_orbits: bool)
    requires
        0 <= i <= best.len(),
        place_of(best, scene_key(it, keep_orbits), keep_orbits) == i,
    ensures
        i == best.len() ==> place_of(best.push(it), k, keep_orbits) == if scene_key(it, keep_orbits)
            == k {
            i
        } else if place_of(best, k, keep_orbits) < best.len() {
            place_of(best, k, keep_orbits) as int
        } else {
            best.len() as int + 1
        },
        i < best.len() ==> place_of(best.update(i, it), k, keep_orbits) == place_of(
            best,
            k,
            keep_orbits,
        ),
{
    let at = place_of(best, k, keep_orbits) as int;
    lemma_place_of_found(best, k, keep_orbits);
    lemma_place_of_found(best, scene_key(it, keep_orbits), keep_orbits);
    if i == best.len() {
        let after = best.push(it);
        let to = if scene_key(it, keep_orbits) == k || at < best.len() {
            at
        } else {
            at + 1
        };
        assert forall|j: int| 0 <= j < to implies scene_key(#[trigger] after[j], keep_orbits)
            != k by {
            if j < best.len() {
                assert(after[j] == best[j]);
            }
        }
        lemma_place_of(after, k, keep_orbits, to);
    } else {
        let after = best.update(i, it);
        assert forall|j: int| 0 <= j < at implies scene_key(#[trigger] after[j], keep_orbits)
            != k by {
            assert(scene_key(best[j], keep_orbits) != k);
        }
        lemma_place_of(after, k, keep_orbits, at);
    }
}

/// Takes one more scene into the clearest ones so far.
fn take_in(best: &mut Vec<Json>, index: &mut StringHashMap<usize>, it: Json, keep_orbits: bool)
    requires
        indexed(old(index)@, trees(old(best)@), keep_orbits),
    ensures
        trees(final(best)@) == taken_in(trees(old(best)@), it@, keep_orbits),
        indexed(final(index)@, trees(final(best)@), keep_orbits),
{
    let k = key(&it, keep_orbits);
    let ghost seen = trees(best@);
    let ghost known = index@;
    let found: Option<usize> = match index.get(k.as_str()) {
        Some(i) => Some(*i),
        None => None,
    };
    proof {
        assert(known.contains_key(k@) <==> place_of(seen, k@, keep_orbits) < seen.len());
        lemma_place_of_found(seen, k@, keep_orbits);
    }
    match found {
        Some(i) => {
            assert(seen[i as int] == best@[i as int]@);
            if !cloud(&best[i]).le(cloud(&it)) {
                let ghost new = it@;
                best.set(i, it);
                proof {
                    let after = seen.update(i as int, new);
                    assert(trees(best@) =~= after);
                    assert forall|q: Seq<char>|
                        #![trigger known.contains_key(q)]
                        #![trigger place_of(after, q, keep_orbits)]
                        (known.contains_key(q) <==> place_of(after, q, keep_orbits) < after.len())
                            && (known.contains_key(q) ==> known[q] == place_of(
                            after,
                            q,
                            keep_orbits,
                        )) by {
                        lemma_place_after(seen, i as int, new, q, keep_orbits);
                        assert(known.contains_key(q) <==> place_of(seen, q, keep_orbits)
                            < seen.len());
                    }
                    assert(indexed(known, after, keep_orbits));
                }
            }
            assert(index@ == known);
        },
        None => {
            let ghost new = it@;
            let at: usize = best.len();
            index.insert(k, at);
            best.push(it);
            proof {
                let after = seen.push(new);
                assert(trees(best@) =~= after);
                assert forall|q: Seq<char>|
                    #![trigger index@.contains_key(q)]
                    #![trigger place_of(after, q, keep_orbits)]
                    (index@.contains_key(q) <==> place_of(after, q, keep_orbits) < after.len()) && (
                    index@.contains_key(q) ==> index@[q] == place_of(after, q, keep_orbits)) by {
                    lemma_place_after(seen, at as int, new, q, keep_orbits);
                    assert(known.contains_key(q) <==> place_of(seen, q, keep_orbits) < seen.len());
                    lemma_place_of_found(seen, q, keep_orbits);
                }
            }
        },
    }
}

/// The grid code that the coordinate system of a scene follows from.
pub open spec fn grid_code_of(it: Tree) -> Seq<char> {
    or_empty(properties(it).field("grid:code"@).as_text())
}

/// The grid code that the coordinate system of a scene follows from, where the catalogue does not
/// state the system itself.
pub fn grid_code(it: &Json) -> (r: String)
    ensures
        r@ == grid_code_of(it@),
{
    match property_text(it, "grid:code") {
        Some(s) => s,
        None => String::new(),
    }
}

/// The code of the coordinate system of a scene: `from_grid` on the Copernicus catalogue, what the
/// catalogue states on the other.
pub open spec fn epsg_view(it: Tree, source: Seq<char>, from_grid: i32) -> i32 {
    if is_cdse(source) {
        from_grid
    } else {
        match properties(it).field("proj:epsg"@).as_signed() {
            Some(n) => n as i32,
            None => 0,
        }
    }
}

/// The code of the coordinate system of a scene, where `from_grid` is the one that follows from its
/// grid code.
pub fn epsg_of(it: &Json, source: &str, from_grid: i32) -> (r: i32)
    ensures
        r == epsg_view(it@, source@, from_grid),
{
    if starts_with(source, "cdse") {
        return from_grid;
    }
    match it.field("properties") {
        Some(p) => match p.field("proj:epsg") {
            Some(j) => match j.as_signed() {
                Some(n) => #[verifier::truncate]
                (n as i32),
                None => 0,
            },
            None => 0,
        },
        None => 0,
    }
}

/// The scene that a feature of the catalogue describes.
pub open spec fn item_view(it: Tree, source: Seq<char>, from_grid: i32) -> ItemView {
    ItemView {
        id: or_empty(it.field("id"@).as_text()),
        date: day_of(it),
        datetime: datetime_of(it),
        cloud_cover: properties(it).field("eo:cloud_cover"@).as_real(),
        mgrs: replaced(or_empty(grid_of(it)), "MGRS-"@, ""@),
        epsg: epsg_view(it, source, from_grid),
        bbox: bbox_of(it),
        sun_elevation: properties(it).field("view:sun_elevation"@).as_real(),
        sun_azimuth: properties(it).field("view:sun_azimuth"@).as_real(),
        bands: bands_view(it, source),
        level: level_of(source),
    }
}

/// The scene that a feature of the catalogue describes.
pub fn item_of(it: &Json, source: &str, from_grid: i32) -> (r: Item)
    ensures
        r@ == item_view(it@, source@, from_grid),
{
    let code = match grid(it) {
        Some(s) => s,
        None => String::new(),
    };
    proof {
        reveal_strlit("MGRS-");
    }
    let bbox = match bbox_numbers(it) {
        Some(v) => envelope_of(&v),
        None => {
            assert(numbers(it@.field("bbox"@).elements()) =~= Seq::empty());
            envelope_of(&Vec::new())
        },
    };
    Item {
        id: text_or_empty(it.text_field("id")),
        date: day(it),
        datetime: datetime(it),
        cloud_cover: property_real(it, "eo:cloud_cover"),
        mgrs: replace(code.as_str(), "MGRS-", ""),
        epsg: epsg_of(it, source, from_grid),
        bbox,
        sun_elevation: property_real(it, "view:sun_elevation"),
        sun_azimuth: property_real(it, "view:sun_azimuth"),
        bands: bands_of(it, source),
        level: level(source).to_owned(),
    }
}

/// What the cloud masks of two products of one acquisition are matched by.
pub open spec fn mask_key(it: ItemView) -> Seq<char> {
    it.mgrs + "_"@ + it.date
}

/// The cloud mask among the twins for the key `k`, the last one where there are several.
pub open spec fn mask_of(twins: Seq<ItemView>, k: Seq<char>) -> Option<Seq<char>>
    decreases twins.len(),
{
    if twins.len() == 0 {
        None
    } else if twins.last().bands.scl is Some && mask_key(twins.last()) == k {
        twins.last().bands.scl
    } else {
        mask_of(twins.drop_last(), k)
    }
}

/// A scene with the cloud mask of its twin, where it has none of its own.
pub open spec fn masked(it: ItemView, twins: Seq<ItemView>) -> ItemView {
    if it.bands.scl is Some {
        it
    } else {
        ItemView {
            bands: BandsView { scl: mask_of(twins, mask_key(it)), ..it.bands },
            ..it
        }
    }
}

/// The scenes of a query as a run sees them. The scene classification ships only with the surface
/// product, so a top-of-atmosphere scene borrows the mask of its twin; one without a twin stays
/// without a mask, which is unrated rather than clear.
pub open spec fn discovered(
    found: Seq<Tree>,
    source: Seq<char>,
    codes: Seq<i32>,
    twins: Seq<ItemView>,
) -> Seq<ItemView> {
    Seq::new(
        found.len(),
        |i: int|
            if is_l1c(source) {
                masked(item_view(found[i], source, codes[i]), twins)
            } else {
                item_view(found[i], source, codes[i])
            },
    )
}

fn mask_key_of(it: &Item) -> (r: String)
    ensures
        r@ == mask_key(it@),
{
    let mut s = it.mgrs.clone();
    s.append("_");
    s.append(it.date.as_str());
    s
}

/// Whether an index gives the place of the twin whose mask each key has.
spec fn masks_indexed(index: Map<Seq<char>, usize>, twins: Seq<ItemView>) -> bool {
    forall|k: Seq<char>|
        #![trigger index.contains_key(k)]
        #![trigger mask_of(twins, k)]
        (index.contains_key(k) <==> mask_of(twins, k) is Some) && (index.contains_key(k)
            ==> index[k] < twins.len() && mask_of(twins, k) == twins[index[k] as int].bands.scl)
}

fn mask_index(twins: &Vec<Item>) -> (r: StringHashMap<usize>)
    ensures
        masks_indexed(r@, item_views(twins@)),
{
    let ghost all = item_views(twins@);
    let mut index: StringHashMap<usize> = StringHashMap::new();
    proof {
        assert(all.take(0) =~= Seq::empty());
    }
    for i in 0..twins.len()
        invariant
            all == item_views(twins@),
            masks_indexed(index@, all.take(i as int)),
    {
        let ghost known = index@;
        let ghost (was, now) = (all.take(i as int), all.take(i + 1));
        proof {
            assert(now.drop_last() =~= was);
            assert(now.last() == twins@[i as int]@);
        }
        if twins[i].bands.scl.is_some() {
            index.insert(mask_key_of(&twins[i]), i);
        }
        proof {
            assert forall|k: Seq<char>|
                #![trigger index@.contains_key(k)]
                #![trigger mask_of(now, k)]
                (index@.contains_key(k) <==> mask_of(now, k) is Some) && (index@.contains_key(k)
                    ==> index@[k] < now.len() && mask_of(now, k)
                    == now[index@[k] as int].bands.scl) by {
                assert(known.contains_key(k) <==> mask_of(was, k) is Some);
                if known.contains_key(k) {
                    assert(now[known[k] as int] == was[known[k] as int]);
                }
            }
        }
    }
    proof {
        assert(all.take(twins@.len() as int) =~= all);
    }
    index
}

/// The searches that a discovery makes, in order: the source itself, and for a top-of-atmosphere
/// source its surface twin, for the masks. Nothing is asked for no area.
pub fn searches(area: &Vec<Envelope>, source: &str) -> (r: Vec<String>)
    ensures
        views(r@) == searches_of(area@.len(), source@),
        views(r@) == if area@.len() == 0 {
            Seq::<Seq<char>>::empty()
        } else if is_l1c(source@) {
            seq![source@, twin_of(source@)]
        } else {
            seq![source@]
        },
{
    let mut v: Vec<String> = Vec::new();
    if area.len() > 0 {
        v.push(source.to_owned());
        if ends_with(source, "l1c") {
            v.push(l2a_twin(source).to_owned());
            assert(views(v@) =~= seq![source@, twin_of(source@)]);
        } else {
            assert(views(v@) =~= seq![source@]);
        }
    } else {
        assert(views(v@) =~= Seq::empty());
    }
    v
}

/// The scenes of a query, with the cloud masks of their twins, and deliberately not filtered by
/// cloud: one discovery serves any threshold. `found` are the survivors of the search for the
/// source, `codes` the coordinate systems that follow from their grid codes, `twins` the scenes of
/// the search for its twin.
pub fn discover(found: &Vec<Json>, source: &str, codes: &Vec<i32>, twins: &Vec<Item>) -> (r: Vec<
    Item,
>)
    requires
        codes@.len() == found@.len(),
    ensures
        item_views(r@) == discovered(trees(found@), source@, codes@, item_views(twins@)),
{
    let l1c = ends_with(source, "l1c");
    let masks = mask_index(twins);
    let ghost want = discovered(trees(found@), source@, codes@, item_views(twins@));
    let mut out: Vec<Item> = Vec::new();
    let mut i: usize = 0;
    assert(item_views(out@) =~= want.take(0));
    while i < found.len()
        invariant
            i <= found@.len(),
            codes@.len() == found@.len(),
            want == discovered(trees(found@), source@, codes@, item_views(twins@)),
            l1c == is_l1c(source@),
            masks_indexed(masks@, item_views(twins@)),
            item_views(out@) =~= want.take(i as int),
        decreases found@.len() - i,
    {
        let mut it = item_of(&found[i], source, codes[i]);
        let ghost plain = it@;
        assert(trees(found@)[i as int] == found@[i as int]@);
        if l1c && it.bands.scl.is_none() {
            let k = mask_key_of(&it);
            assert(masks@.contains_key(k@) <==> mask_of(item_views(twins@), k@) is Some);
            match masks.get(k.as_str()) {
                Some(m) => {
                    it.bands.scl = copy_opt(&twins[*m].bands.scl);
                },
                None => {},
            }
            assert(it@ == masked(plain, item_views(twins@)));
        }
        assert(it@ == want[i as int]);
        let ghost before = out@;
        out.push(it);
        assert(item_views(out@) =~= item_views(before).push(it@));
        i += 1;
    }
    out
}

/// How many of the scenes have no cloud mask.
pub open spec fn unrated(items: Seq<ItemView>) -> nat {
    items.filter(|it: ItemView| it.bands.scl is None).len()
}

/// How many of the scenes have no cloud mask: missing denominator, to be said rather than passed
/// over.
pub fn count_unrated(items: &Vec<Item>) -> (r: usize)
    ensures
        r == unrated(item_views(items@)),
{
    let ghost all = item_views(items@);
    let ghost p = |it: ItemView| it.bands.scl is None;
    let mut n: usize = 0;
    let mut i: usize = 0;
    assert(all.take(0).filter(p) =~= Seq::empty()) by {
        reveal(Seq::filter);
    }
    while i < items.len()
        invariant
            i <= items@.len(),
            all == item_views(items@),
            p == (|it: ItemView| it.bands.scl is None),
            n == all.take(i as int).filter(p).len(),
            n <= i,
        decreases items@.len() - i,
    {
        proof {
            reveal(Seq::filter);
            assert(all.take(i + 1).drop_last() =~= all.take(i as int));
            assert(all.take(i + 1).last() == items@[i as int]@);
        }
        if items[i].bands.scl.is_none() {
            n += 1;
        }
        i += 1;
    }
    assert(all.take(i as int) =~= all);
    n
}

/// Whether a scene meets an area: its envelope is that of a tile, and overlaps the widened one.
pub open spec fn meets_area(it: ItemView, env: Envelope) -> bool {
    narrow(it.bbox) && overlap(it.bbox, widened(env))
}

/// Does the envelope of a scene meet that of a query?
pub fn meets(item: &Item, env: Envelope) -> (r: bool)
    ensures
        r == meets_area(item@, env),
{
    is_narrow(item.bbox) && overlaps(item.bbox, widen(env))
}

/// Whether a scene is no cloudier than the threshold; one that states no cover is fully covered.
pub open spec fn clear_enough(it: ItemView, max_cloud_cover: Real) -> bool {
    match it.cloud_cover {
        Some(x) => x.is_le(max_cloud_cover),
        None => (Real { bits: FULL_COVER }).is_le(max_cloud_cover),
    }
}

/// Drops the scenes that the cloud threshold of a run excludes.
pub fn filter_cloud(items: Vec<Item>, max_cloud_cover: Real) -> (r: Vec<Item>)
    ensures
        r@ == items@.filter(|it: Item| clear_enough(it@, max_cloud_cover)),
        are_clear(item_views(r@), item_views(items@), max_cloud_cover),
{
    let ghost p = |it: Item| clear_enough(it@, max_cloud_cover);
    let mut out: Vec<Item> = Vec::new();
    assert(items@.take(0).filter(p) =~= Seq::empty()) by {
        reveal(Seq::filter);
    }
    let ghost all = items@;
    for it in iter: items
        invariant
            all == iter.seq(),
            p == (|it: Item| clear_enough(it@, max_cloud_cover)),
            out@ == all.take(iter.index() as int).filter(p),
    {
        proof {
            reveal(Seq::filter);
            let n = iter.index() as int;
            assert(all.take(n + 1).drop_last() =~= all.take(n));
            assert(all.take(n + 1).last() == it);
        }
        let cover = match it.cloud_cover {
            Some(x) => x,
            None => Real { bits: FULL_COVER },
        };
        if cover.le(max_cloud_cover) {
            out.push(it);
        }
    }
    proof {
        assert(all.take(all.len() as int) =~= all);
        lemma_filter_views(all, p, |it: ItemView| clear_enough(it, max_cloud_cover));
    }
    out
}

/// The scenes of one area straight from the catalogue: those discovered over it, held to the cloud
/// threshold of the run.
pub fn search(
    found: &Vec<Json>,
    source: &str,
    codes: &Vec<i32>,
    twins: &Vec<Item>,
    max_cloud_cover: Real,
) -> (r: Vec<Item>)
    requires
        codes@.len() == found@.len(),
    ensures
        item_views(r@) == discovered(trees(found@), source@, codes@, item_views(twins@)).filter(
            |it: ItemView| clear_enough(it, max_cloud_cover),
        ),
        are_clear(
            item_views(r@),
            discovered(trees(found@), source@, codes@, item_views(twins@)),
            max_cloud_cover,
        ),
{
    let all = discover(found, source, codes, twins);
    let ghost p = |it: Item| clear_enough(it@, max_cloud_cover);
    let ghost q = |it: ItemView| clear_enough(it, max_cloud_cover);
    proof {
        lemma_filter_views(all@, p, q);
    }
    filter_cloud(all, max_cloud_cover)
}

proof fn lemma_filter_views(v: Seq<Item>, p: spec_fn(Item) -> bool, q: spec_fn(ItemView) -> bool)
    requires
        forall|it: Item| #[trigger] p(it) == q(it@),
    ensures
        item_views(v.filter(p)) == item_views(v).filter(q),
    decreases v.len(),
{
    reveal(Seq::filter);
    if v.len() > 0 {
        lemma_filter_views(v.drop_last(), p, q);
        assert(item_views(v).drop_last() =~= item_views(v.drop_last()));
        assert(item_views(v).last() == v.last()@);
        assert(item_views(v.filter(p)) =~= item_views(v).filter(q));
    } else {
        assert(item_views(v.filter(p)) =~= item_views(v).filter(q));
    }
}

/// Selecting the scenes of one area out of a manifest applies the very test by which a search for
/// that area alone would have kept them.
pub proof fn selection_is_the_test_of_discovery(
    it: Tree,
    source: Seq<char>,
    from_grid: i32,
    env: Envelope,
)
    requires
        it.field("bbox"@) is Array,
        numbers(it.field("bbox"@).elements()).len() == 4,
    ensures
        meets_area(item_view(it, source, from_grid), env) <==> in_area(it, seq![widened(env)]),
{
    let q = seq![widened(env)];
    assert(q[0] == widened(env));
}

/// A discovery of a batch keeps a scene just where one of its areas would have kept it alone.
pub proof fn a_batch_keeps_what_its_areas_keep(it: Tree, q: Seq<Envelope>)
    requires
        q.len() > 0,
    ensures
        in_area(it, q) <==> exists|i: int| 0 <= i < q.len() && in_area(it, #[trigger] seq![q[i]]),
{
    if in_area(it, q) {
        if narrow(bbox_of(it)) && exists|i: int|
            0 <= i < q.len() && overlap(bbox_of(it), #[trigger] q[i]) {
            let i = choose|i: int| 0 <= i < q.len() && overlap(bbox_of(it), #[trigger] q[i]);
            assert(seq![q[i]][0] == q[i]);
            assert(in_area(it, seq![q[i]]));
        } else {
            assert(in_area(it, seq![q[0]]));
        }
    }
    if exists|i: int| 0 <= i < q.len() && in_area(it, #[trigger] seq![q[i]]) {
        let i = choose|i: int| 0 <= i < q.len() && in_area(it, #[trigger] seq![q[i]]);
        if narrow(bbox_of(it)) && exists|k: int|
            0 <= k < seq![q[i]].len() && overlap(bbox_of(it), #[trigger] seq![q[i]][k]) {
            let k = choose|k: int|
                0 <= k < seq![q[i]].len() && overlap(bbox_of(it), #[trigger] seq![q[i]][k]);
            assert(overlap(bbox_of(it), q[i]));
        }
    }
}

/// Whether the scenes have keys of their own.
pub open spec fn keys_differ(best: Seq<Tree>, keep_orbits: bool) -> bool {
    forall|i: int, j: int|
        0 <= i < j < best.len() ==> scene_key(#[trigger] best[i], keep_orbits) != scene_key(
            #[trigger] best[j],
            keep_orbits,
        )
}

proof fn lemma_place_of_found(best: Seq<Tree>, k: Seq<char>, keep_orbits: bool)
    ensures
        place_of(best, k, keep_orbits) <= best.len(),
        place_of(best, k, keep_orbits) < best.len() ==> scene_key(
            best[place_of(best, k, keep_orbits) as int],
            keep_orbits,
        ) == k,
        forall|j: int|
            0 <= j < place_of(best, k, keep_orbits) ==> scene_key(#[trigger] best[j], keep_orbits)
                != k,
    decreases best.len(),
{
    if best.len() > 0 && scene_key(best[0], keep_orbits) != k {
        lemma_place_of_found(best.drop_first(), k, keep_orbits);
        assert forall|j: int| 0 <= j < place_of(best, k, keep_orbits) implies scene_key(
            #[trigger] best[j],
            keep_orbits,
        ) != k by {
            if j > 0 {
                assert(best.drop_first()[j - 1] == best[j]);
            }
        }
    }
}

/// One discovery serves any threshold: what it returns holds one scene for each tile and day, each
/// of them a scene that the catalogue returned for the area, and none of them cloudier than any
/// other scene of that tile and day.
#[verifier::spinoff_prover]
#[verifier::rlimit(60)]
pub proof fn discovery_keeps_the_clearest(
    features: Seq<Tree>,
    q: Seq<Envelope>,
    keep_orbits: bool,
)
    requires
        forall|i: int| 0 <= i < features.len() ==> !cloud_of(#[trigger] features[i]).is_nan(),
    ensures
        keys_differ(clearest(features, q, keep_orbits), keep_orbits),
        forall|k: int|
            #![trigger clearest(features, q, keep_orbits)[k]]
            0 <= k < clearest(features, q, keep_orbits).len() ==> features.contains(
                clearest(features, q, keep_orbits)[k],
            ) && in_area(clearest(features, q, keep_orbits)[k], q),
        forall|i: int|
            0 <= i < features.len() && in_area(#[trigger] features[i], q) ==> represented(
                features[i],
                clearest(features, q, keep_orbits),
                keep_orbits,
            ),
    decreases features.len(),
{
    lemma_clearest_from(features, q, keep_orbits);
    if features.len() > 0 {
        let front = features.drop_last();
        let it = features[features.len() - 1];
        assert forall|i: int| 0 <= i < front.len() implies !cloud_of(
            #[trigger] front[i],
        ).is_nan() by {
            assert(front[i] == features[i]);
        }
        discovery_keeps_the_clearest(front, q, keep_orbits);
        let best = clearest(front, q, keep_orbits);
        let next = clearest(features, q, keep_orbits);
        let at = place_of(best, scene_key(it, keep_orbits), keep_orbits) as int;
        lemma_place_of_found(best, scene_key(it, keep_orbits), keep_orbits);
        if at < best.len() {
            assert(front.contains(best[at]));
            let i2 = choose|i2: int| 0 <= i2 < front.len() && front[i2] == best[at];
            assert(!cloud_of(front[i2]).is_nan());
        }
        lemma_next_keeps(best, next, it, at, keep_orbits, q);
        assert forall|i: int|
            0 <= i < features.len() && in_area(#[trigger] features[i], q) implies represented(
            features[i],
            next,
            keep_orbits,
        ) by {
            if i < front.len() {
                assert(front[i] == features[i]);
                assert(represented(front[i], best, keep_orbits));
            }
        }
    }
}

proof fn lemma_next_keeps(
    best: Seq<Tree>,
    next: Seq<Tree>,
    it: Tree,
    at: int,
    keep_orbits: bool,
    q: Seq<Envelope>,
)
    requires
        0 <= at <= best.len(),
        at < best.len() ==> scene_key(best[at], keep_orbits) == scene_key(it, keep_orbits),
        at < best.len() ==> !cloud_of(best[at]).is_nan(),
        !cloud_of(it).is_nan(),
        forall|j: int|
            0 <= j < at ==> scene_key(#[trigger] best[j], keep_orbits) != scene_key(
                it,
                keep_orbits,
            ),
        keys_differ(best, keep_orbits),
        next == if !in_area(it, q) {
            best
        } else if at == best.len() {
            best.push(it)
        } else if cloud_of(best[at]).is_le(cloud_of(it)) {
            best
        } else {
            best.update(at, it)
        },
    ensures
        keys_differ(next, keep_orbits),
        in_area(it, q) ==> represented(it, next, keep_orbits),
        forall|x: Tree| #[trigger]
            represented(x, best, keep_orbits) ==> represented(x, next, keep_orbits),
{
    if in_area(it, q) {
        if at == best.len() {
            assert(stands_for(next[at], it, keep_orbits)) by {
                lemma_le_orders(cloud_of(it), cloud_of(it), cloud_of(it));
            }
        } else {
            lemma_le_orders(cloud_of(it), cloud_of(best[at]), cloud_of(it));
            assert(stands_for(next[at], it, keep_orbits)) by {
                lemma_le_orders(cloud_of(it), cloud_of(it), cloud_of(it));
            }
        }
    }
    assert forall|x: Tree| #[trigger] represented(x, best, keep_orbits) implies represented(
        x,
        next,
        keep_orbits,
    ) by {
        let k = choose|k: int|
            0 <= k < best.len() && stands_for(#[trigger] best[k], x, keep_orbits);
        if next[k] != best[k] {
            lemma_le_orders(cloud_of(it), cloud_of(best[k]), cloud_of(x));
        }
        assert(stands_for(next[k], x, keep_orbits));
    }
}

proof fn lemma_le_orders(a: Real, b: Real, c: Real)
    ensures
        !a.is_nan() && !b.is_nan() ==> a.is_le(b) || b.is_le(a),
        a.is_le(b) && b.is_le(c) ==> a.is_le(c),
{
}

/// `a` shows the tile and day of `b` no cloudier than `b` does.
pub open spec fn stands_for(a: Tree, b: Tree, keep_orbits: bool) -> bool {
    scene_key(a, keep_orbits) == scene_key(b, keep_orbits) && cloud_of(a).is_le(cloud_of(b))
}

pub open spec fn represented(it: Tree, best: Seq<Tree>, keep_orbits: bool) -> bool {
    exists|k: int| 0 <= k < best.len() && stands_for(#[trigger] best[k], it, keep_orbits)
}

/// Applying one threshold after another is applying the lower of them: a list filtered for a
/// threshold serves every lower one.
pub proof fn thresholds_compose(items: Seq<Item>, high: Real, low: Real)
    requires
        low.is_le(high),
    ensures
        items.filter(|it: Item| clear_enough(it@, high)).filter(|it: Item| clear_enough(it@, low))
            == items.filter(|it: Item| clear_enough(it@, low)),
    decreases items.len(),
{
    reveal(Seq::filter);
    let p = |it: Item| clear_enough(it@, high);
    if items.len() > 0 {
        thresholds_compose(items.drop_last(), high, low);
        let f = items.drop_last().filter(p);
        let last = items.last();
        if p(last) {
            assert(items.filter(p) == f.push(last));
            assert(f.push(last).drop_last() =~= f);
        } else {
            assert(items.filter(p) == f);
        }
    }
}

proof fn lemma_clearest_from(features: Seq<Tree>, q: Seq<Envelope>, keep_orbits: bool)
    ensures
        forall|k: int|
            0 <= k < clearest(features, q, keep_orbits).len() ==> features.contains(
                #[trigger] clearest(features, q, keep_orbits)[k],
            ),
    decreases features.len(),
{
    if features.len() > 0 {
        let front = features.drop_last();
        lemma_clearest_from(front, q, keep_orbits);
        let best = clearest(front, q, keep_orbits);
        let next = clearest(features, q, keep_orbits);
        assert(features[features.len() - 1] == features.last());
        assert forall|k: int| 0 <= k < next.len() implies features.contains(
            #[trigger] next[k],
        ) by {
            if k < best.len() && next[k] == best[k] {
                assert(front.contains(best[k]));
                let i = choose|i: int| 0 <= i < front.len() && front[i] == best[k];
                assert(features[i] == next[k]);
            }
        }
    }
}

/// Whether a scene is the one that a discovery keeps of its tile and day: it belongs to the query,
/// none of the others that do is less cloudy, and none before it is as clear.
pub open spec fn is_winner(
    features: Seq<Tree>,
    q: Seq<Envelope>,
    keep_orbits: bool,
    i: int,
) -> bool {
    &&& 0 <= i < features.len()
    &&& in_area(features[i], q)
    &&& forall|j: int|
        0 <= j < features.len() && in_area(#[trigger] features[j], q) && scene_key(
            features[j],
            keep_orbits,
        ) == scene_key(features[i], keep_orbits) ==> cloud_of(features[i]).is_le(
            cloud_of(features[j]),
        ) && (j < i ==> cloud_of(features[i]).is_lt(cloud_of(features[j])))
}

/// Whether every scene states a cover that is a number, as every document does.
pub open spec fn all_rated(features: Seq<Tree>) -> bool {
    forall|i: int| 0 <= i < features.len() ==> !cloud_of(#[trigger] features[i]).is_nan()
}

proof fn lemma_winner_before(features: Seq<Tree>, q: Seq<Envelope>, keep_orbits: bool, i: int)
    requires
        features.len() > 0,
        0 <= i < features.len() - 1,
    ensures
        is_winner(features, q, keep_orbits, i) <==> is_winner(
            features.drop_last(),
            q,
            keep_orbits,
            i,
        ) && (in_area(features.last(), q) && scene_key(features.last(), keep_orbits) == scene_key(
            features[i],
            keep_orbits,
        ) ==> cloud_of(features[i]).is_le(cloud_of(features.last()))),
{
    let front = features.drop_last();
    assert(features[features.len() - 1] == features.last());
    assert forall|j: int| 0 <= j < front.len() implies #[trigger] front[j] == features[j] by {}
    if is_winner(features, q, keep_orbits, i) {
        assert forall|j: int|
            0 <= j < front.len() && in_area(#[trigger] front[j], q) && scene_key(
                front[j],
                keep_orbits,
            ) == scene_key(front[i], keep_orbits) implies cloud_of(front[i]).is_le(
            cloud_of(front[j]),
        ) && (j < i ==> cloud_of(front[i]).is_lt(cloud_of(front[j]))) by {
            assert(in_area(features[j], q));
        }
    }
    if is_winner(front, q, keep_orbits, i) && (in_area(features.last(), q) && scene_key(
        features.last(),
        keep_orbits,
    ) == scene_key(features[i], keep_orbits) ==> cloud_of(features[i]).is_le(
        cloud_of(features.last()),
    )) {
        assert forall|j: int|
            0 <= j < features.len() && in_area(#[trigger] features[j], q) && scene_key(
                features[j],
                keep_orbits,
            ) == scene_key(features[i], keep_orbits) implies cloud_of(features[i]).is_le(
            cloud_of(features[j]),
        ) && (j < i ==> cloud_of(features[i]).is_lt(cloud_of(features[j]))) by {
            if j < front.len() {
                assert(in_area(front[j], q));
            }
        }
    }
}

/// What a discovery keeps are the winners, each of them and nothing else.
#[verifier::spinoff_prover]
#[verifier::rlimit(60)]
pub proof fn discovery_keeps_the_winners(features: Seq<Tree>, q: Seq<Envelope>, keep_orbits: bool)
    requires
        all_rated(features),
    ensures
        forall|k: int|
            0 <= k < clearest(features, q, keep_orbits).len() ==> has_won(
                features,
                q,
                keep_orbits,
                #[trigger] clearest(features, q, keep_orbits)[k],
            ),
        forall|i: int|
            #[trigger] is_winner(features, q, keep_orbits, i) ==> clearest(
                features,
                q,
                keep_orbits,
            ).contains(features[i]),
    decreases features.len(),
{
    if features.len() > 0 {
        let front = features.drop_last();
        let n = features.len() - 1;
        let it = features[n];
        assert(all_rated(front)) by {
            assert forall|i: int| 0 <= i < front.len() implies !cloud_of(
                #[trigger] front[i],
            ).is_nan() by {
                assert(front[i] == features[i]);
            }
        }
        discovery_keeps_the_winners(front, q, keep_orbits);
        discovery_keeps_the_clearest(front, q, keep_orbits);
        lemma_clearest_from(front, q, keep_orbits);
        let best = clearest(front, q, keep_orbits);
        let next = clearest(features, q, keep_orbits);
        let key = scene_key(it, keep_orbits);
        let at = place_of(best, key, keep_orbits) as int;
        lemma_place_of_found(best, key, keep_orbits);
        lemma_last_winner(features, q, keep_orbits);
        if in_area(it, q) && (at == best.len() || !cloud_of(best[at]).is_le(cloud_of(it))) {
            assert(next[if at == best.len() { best.len() as int } else { at }] == it);
        }
        assert forall|k: int| 0 <= k < next.len() implies has_won(
            features,
            q,
            keep_orbits,
            #[trigger] next[k],
        ) by {
            if k < best.len() && next[k] == best[k] && !(k == at && in_area(it, q) && !cloud_of(
                best[at],
            ).is_le(cloud_of(it))) {
                assert(has_won(front, q, keep_orbits, best[k]));
                let i = choose|i: int|
                    is_winner(front, q, keep_orbits, i) && #[trigger] front[i] == best[k];
                lemma_winner_before(features, q, keep_orbits, i);
                if in_area(it, q) && scene_key(best[k], keep_orbits) == key {
                    assert(k == at);
                }
                assert(features[i] == next[k]);
                assert(is_winner(features, q, keep_orbits, i));
            } else {
                assert(next[k] == it);
                assert(is_winner(features, q, keep_orbits, n));
            }
        }
        assert forall|i: int| #[trigger] is_winner(
            features,
            q,
            keep_orbits,
            i,
        ) implies next.contains(features[i]) by {
            if i < n {
                lemma_winner_before(features, q, keep_orbits, i);
                assert(is_winner(front, q, keep_orbits, i));
                assert(best.contains(front[i]));
                let k = choose|k: int| 0 <= k < best.len() && best[k] == front[i];
                if in_area(it, q) && scene_key(front[i], keep_orbits) == key {
                    assert(k == at);
                }
                assert(next[k] == features[i]);
            }
        }
    }
}

/// Whether a scene is one of the winners.
pub open spec fn has_won(
    features: Seq<Tree>,
    q: Seq<Envelope>,
    keep_orbits: bool,
    it: Tree,
) -> bool {
    exists|i: int| is_winner(features, q, keep_orbits, i) && #[trigger] features[i] == it
}

proof fn lemma_last_winner(features: Seq<Tree>, q: Seq<Envelope>, keep_orbits: bool)
    requires
        features.len() > 0,
        all_rated(features),
    ensures
        ({
            let n = features.len() - 1;
            let it = features[n];
            let best = clearest(features.drop_last(), q, keep_orbits);
            let at = place_of(best, scene_key(it, keep_orbits), keep_orbits) as int;
            is_winner(features, q, keep_orbits, n) <==> in_area(it, q) && (at >= best.len()
                || !cloud_of(best[at]).is_le(cloud_of(it)))
        }),
{
    let n = features.len() - 1;
    let front = features.drop_last();
    let it = features[n];
    let key = scene_key(it, keep_orbits);
    let best = clearest(front, q, keep_orbits);
    let at = place_of(best, key, keep_orbits) as int;
    assert forall|i: int| 0 <= i < front.len() implies #[trigger] front[i] == features[i] by {}
    assert(forall|i: int| 0 <= i < front.len() ==> !cloud_of(#[trigger] front[i]).is_nan());
    discovery_keeps_the_clearest(front, q, keep_orbits);
    lemma_place_of_found(best, key, keep_orbits);
    if at < best.len() {
        assert(front.contains(best[at]));
        let m = choose|m: int| 0 <= m < front.len() && front[m] == best[at];
        assert(features[m] == best[at]);
        assert(in_area(features[m], q));
        lemma_le_orders(cloud_of(it), cloud_of(features[m]), cloud_of(it));
    }
    if in_area(it, q) && (at >= best.len() || !cloud_of(best[at]).is_le(cloud_of(it))) {
        assert forall|j: int|
            0 <= j < features.len() && in_area(#[trigger] features[j], q) && scene_key(
                features[j],
                keep_orbits,
            ) == key implies cloud_of(it).is_le(cloud_of(features[j])) && (j < n ==> cloud_of(
            it,
        ).is_lt(cloud_of(features[j]))) by {
            lemma_le_orders(cloud_of(it), cloud_of(it), cloud_of(it));
            if j < n {
                assert(in_area(front[j], q));
                assert(represented(front[j], best, keep_orbits));
                let k = choose|k: int|
                    0 <= k < best.len() && stands_for(#[trigger] best[k], front[j], keep_orbits);
                assert(at < best.len());
                assert(k == at);
                lemma_le_orders(cloud_of(best[at]), cloud_of(features[j]), cloud_of(it));
            }
        }
    }
}

proof fn lemma_clearest_filter(features: Seq<Tree>, q: Seq<Envelope>, keep_orbits: bool)
    ensures
        clearest(features.filter(|it: Tree| in_area(it, q)), q, keep_orbits) == clearest(
            features,
            q,
            keep_orbits,
        ),
    decreases features.len(),
{
    reveal(Seq::filter);
    let p = |it: Tree| in_area(it, q);
    if features.len() > 0 {
        lemma_clearest_filter(features.drop_last(), q, keep_orbits);
        if p(features.last()) {
            let f = features.drop_last().filter(p);
            assert(f.push(features.last()).drop_last() =~= f);
        }
    } else {
        assert(features.filter(p) =~= features);
    }
}

/// A manifest run and a search for one area agree. Where the catalogue answers the search of a
/// batch and the search of one of its areas with the same scenes that meet the area, in the same
/// order, and where the batch keeps a scene that meets the area of each tile and day that has one,
/// the scenes selected for the area out of the batch are those that a discovery of the area alone
/// keeps.
pub proof fn a_manifest_and_a_search_agree(
    features: Seq<Tree>,
    alone: Seq<Tree>,
    q: Seq<Envelope>,
    n: int,
    keep_orbits: bool,
)
    requires
        0 <= n < q.len(),
        all_rated(features),
        features.filter(|it: Tree| in_area(it, seq![q[n]])) == alone.filter(
            |it: Tree| in_area(it, seq![q[n]]),
        ),
        forall|i: int|
            0 <= i < features.len() && in_area(#[trigger] features[i], seq![q[n]]) ==> is_served(
                features[i],
                clearest(features, q, keep_orbits),
                seq![q[n]],
                keep_orbits,
            ),
    ensures
        forall|it: Tree|
            clearest(features, q, keep_orbits).contains(it) && in_area(it, seq![q[n]])
                <==> #[trigger] clearest(alone, seq![q[n]], keep_orbits).contains(it),
{
    let one = seq![q[n]];
    let wide = clearest(features, q, keep_orbits);
    let small = clearest(alone, one, keep_orbits);
    lemma_clearest_filter(features, one, keep_orbits);
    lemma_clearest_filter(alone, one, keep_orbits);
    assert(small == clearest(features, one, keep_orbits));
    discovery_keeps_the_winners(features, q, keep_orbits);
    discovery_keeps_the_winners(features, one, keep_orbits);
    assert forall|it: Tree| in_area(it, one) implies in_area(it, q) by {
        a_batch_keeps_what_its_areas_keep(it, q);
    }
    assert forall|it: Tree| wide.contains(it) && in_area(it, one) <==> #[trigger] small.contains(
        it,
    ) by {
        if wide.contains(it) && in_area(it, one) {
            let k = choose|k: int| 0 <= k < wide.len() && wide[k] == it;
            assert(has_won(features, q, keep_orbits, wide[k]));
            let i = choose|i: int|
                is_winner(features, q, keep_orbits, i) && #[trigger] features[i] == it;
            assert(is_winner(features, one, keep_orbits, i));
        }
        if small.contains(it) {
            let k = choose|k: int| 0 <= k < small.len() && small[k] == it;
            assert(has_won(features, one, keep_orbits, small[k]));
            let i = choose|i: int|
                is_winner(features, one, keep_orbits, i) && #[trigger] features[i] == it;
            assert(is_served(features[i], wide, one, keep_orbits));
            let w = choose|w: int|
                0 <= w < wide.len() && in_area(#[trigger] wide[w], one) && scene_key(
                    wide[w],
                    keep_orbits,
                ) == scene_key(features[i], keep_orbits);
            assert(has_won(features, q, keep_orbits, wide[w]));
            let m = choose|m: int|
                is_winner(features, q, keep_orbits, m) && #[trigger] features[m] == wide[w];
            assert(in_area(features[m], one) && in_area(features[i], q));
            assert(i == m);
        }
    }
}

/// Whether some scenes hold one of the tile and day of another that meets an area.
pub open spec fn is_served(
    it: Tree,
    best: Seq<Tree>,
    area: Seq<Envelope>,
    keep_orbits: bool,
) -> bool {
    exists|w: int|
        0 <= w < best.len() && in_area(#[trigger] best[w], area) && scene_key(best[w], keep_orbits)
            == scene_key(it, keep_orbits)
}

/// Whether no two scenes of one tile and day that belong to a query are equally cloudy, but for the
/// same scene again.
pub open spec fn no_ties(features: Seq<Tree>, q: Seq<Envelope>, keep_orbits: bool) -> bool {
    forall|i: int, j: int|
        0 <= i < features.len() && 0 <= j < features.len() && in_area(#[trigger] features[i], q)
            && in_area(#[trigger] features[j], q) && scene_key(features[i], keep_orbits)
            == scene_key(features[j], keep_orbits) && cloud_of(features[i]).rank() == cloud_of(
            features[j],
        ).rank() ==> features[i] == features[j]
}

proof fn lemma_same_contents(a: Seq<Tree>, b: Seq<Tree>, q: Seq<Envelope>, keep_orbits: bool, it: Tree)
    requires
        all_rated(a),
        all_rated(b),
        no_ties(a, q, keep_orbits),
        forall|x: Tree| in_area(x, q) ==> (a.contains(x) <==> #[trigger] b.contains(x)),
        clearest(a, q, keep_orbits).contains(it),
    ensures
        clearest(b, q, keep_orbits).contains(it),
{
    let (ka, kb) = (clearest(a, q, keep_orbits), clearest(b, q, keep_orbits));
    discovery_keeps_the_winners(a, q, keep_orbits);
    discovery_keeps_the_clearest(b, q, keep_orbits);
    let k = choose|k: int| 0 <= k < ka.len() && ka[k] == it;
    assert(has_won(a, q, keep_orbits, ka[k]));
    let i = choose|i: int| is_winner(a, q, keep_orbits, i) && #[trigger] a[i] == it;
    assert(a.contains(it) && b.contains(it));
    let m = choose|m: int| 0 <= m < b.len() && b[m] == it;
    assert(in_area(b[m], q));
    assert(represented(b[m], kb, keep_orbits));
    let w = choose|w: int| 0 <= w < kb.len() && stands_for(#[trigger] kb[w], b[m], keep_orbits);
    assert(b.contains(kb[w]) && in_area(kb[w], q));
    assert(a.contains(kb[w]));
    let j = choose|j: int| 0 <= j < a.len() && a[j] == kb[w];
    assert(in_area(a[j], q) && in_area(a[i], q));
    assert(cloud_of(a[i]).is_le(cloud_of(a[j])));
    assert(a[i] == a[j]);
}

/// A manifest run and a search for one area agree in whatever order the catalogue answers, where no
/// two scenes of one tile and day that meet the area are equally cloudy: the search of a batch and
/// the search of one of its areas need only hold the same scenes that meet the area.
pub proof fn a_manifest_and_a_search_agree_in_any_order(
    features: Seq<Tree>,
    alone: Seq<Tree>,
    q: Seq<Envelope>,
    n: int,
    keep_orbits: bool,
)
    requires
        0 <= n < q.len(),
        all_rated(features),
        all_rated(alone),
        no_ties(features, seq![q[n]], keep_orbits),
        forall|it: Tree|
            in_area(it, seq![q[n]]) ==> (features.contains(it) <==> #[trigger] alone.contains(it)),
        forall|i: int|
            0 <= i < features.len() && in_area(#[trigger] features[i], seq![q[n]]) ==> is_served(
                features[i],
                clearest(features, q, keep_orbits),
                seq![q[n]],
                keep_orbits,
            ),
    ensures
        forall|it: Tree|
            clearest(features, q, keep_orbits).contains(it) && in_area(it, seq![q[n]])
                <==> #[trigger] clearest(alone, seq![q[n]], keep_orbits).contains(it),
{
    let one = seq![q[n]];
    a_manifest_and_a_search_agree(features, features, q, n, keep_orbits);
    assert(no_ties(alone, one, keep_orbits)) by {
        assert forall|i: int, j: int|
            0 <= i < alone.len() && 0 <= j < alone.len() && in_area(#[trigger] alone[i], one)
                && in_area(#[trigger] alone[j], one) && scene_key(alone[i], keep_orbits)
                == scene_key(alone[j], keep_orbits) && cloud_of(alone[i]).rank() == cloud_of(
                alone[j],
            ).rank() implies alone[i] == alone[j] by {
            assert(alone.contains(alone[i]) && alone.contains(alone[j]));
            assert(features.contains(alone[i]) && features.contains(alone[j]));
            let a = choose|a: int| 0 <= a < features.len() && features[a] == alone[i];
            let b = choose|b: int| 0 <= b < features.len() && features[b] == alone[j];
            assert(in_area(features[a], one) && in_area(features[b], one));
        }
    }
    assert forall|x: Tree| in_area(x, one) implies (alone.contains(x)
        <==> #[trigger] features.contains(x)) by {
        assert(alone.contains(x) <==> features.contains(x));
    }
    assert forall|it: Tree|
        clearest(features, q, keep_orbits).contains(it) && in_area(it, one)
            <==> #[trigger] clearest(alone, one, keep_orbits).contains(it) by {
        assert(clearest(features, q, keep_orbits).contains(it) && in_area(it, one) <==> clearest(
            features,
            one,
            keep_orbits,
        ).contains(it));
        if clearest(features, one, keep_orbits).contains(it) {
            lemma_same_contents(features, alone, one, keep_orbits, it);
        }
        if clearest(alone, one, keep_orbits).contains(it) {
            lemma_same_contents(alone, features, one, keep_orbits, it);
        }
    }
}

/// Whether a scene is a twin of another one that has a mask: of the same tile, taken on the same
/// day.
pub open spec fn lends_a_mask(t: ItemView, it: ItemView) -> bool {
    t.mgrs == it.mgrs && t.date == it.date && t.bands.scl is Some
}

/// A mask is borrowed from a twin of the same tile and the same day, the last one that has a mask.
/// A scene without such a twin stays without one, one that has a mask keeps its own, and nothing
/// else of a scene changes. No day has the mark in it that stands between a tile and its day.
pub proof fn a_mask_is_borrowed_from_a_twin(it: ItemView, twins: Seq<ItemView>)
    requires
        !it.date.contains('_'),
        forall|i: int| 0 <= i < twins.len() ==> !(#[trigger] twins[i]).date.contains('_'),
    ensures
        ({
            let m = masked(it, twins);
            &&& it.bands.scl is Some ==> m == it
            &&& it.bands.scl is None && m.bands.scl is Some ==> exists|i: int|
                {
                    &&& 0 <= i < twins.len()
                    &&& lends_a_mask(#[trigger] twins[i], it)
                    &&& twins[i].bands.scl == m.bands.scl
                    &&& forall|j: int| i < j < twins.len() ==> !lends_a_mask(#[trigger] twins[j], it)
                }
            &&& it.bands.scl is None && m.bands.scl is None ==> forall|i: int|
                0 <= i < twins.len() ==> !lends_a_mask(#[trigger] twins[i], it)
            &&& m == (ItemView { bands: BandsView { scl: m.bands.scl, ..it.bands }, ..it })
        }),
    decreases twins.len(),
{
    if twins.len() > 0 {
        let was = twins.drop_last();
        let last = twins[twins.len() - 1];
        assert forall|i: int| 0 <= i < was.len() implies !(#[trigger] was[i]).date.contains(
            '_',
        ) by {
            assert(was[i] == twins[i]);
        }
        a_mask_is_borrowed_from_a_twin(it, was);
        reveal_strlit("_");
        assert("_"@ =~= seq!['_']);
        a_pair_is_told_by_its_separator(last.mgrs, last.date, it.mgrs, it.date, '_');
        assert(mask_key(last) == mask_key(it) <==> last.mgrs == it.mgrs && last.date == it.date);
        if it.bands.scl is None {
            let (m, before) = (masked(it, twins), masked(it, was));
            if lends_a_mask(last, it) {
                assert(m.bands.scl == last.bands.scl);
            } else {
                assert(m.bands.scl == before.bands.scl);
                assert forall|i: int| 0 <= i < was.len() implies was[i] == #[trigger] twins[i] by {}
                if m.bands.scl is Some {
                    let i = choose|i: int|
                        {
                            &&& 0 <= i < was.len()
                            &&& lends_a_mask(#[trigger] was[i], it)
                            &&& was[i].bands.scl == before.bands.scl
                            &&& forall|j: int|
                                i < j < was.len() ==> !lends_a_mask(#[trigger] was[j], it)
                        };
                    assert(lends_a_mask(twins[i], it));
                    assert forall|j: int| i < j < twins.len() implies !lends_a_mask(
                        #[trigger] twins[j],
                        it,
                    ) by {
                        if j < was.len() {
                            assert(!lends_a_mask(was[j], it));
                        }
                    }
                } else {
                    assert forall|i: int| 0 <= i < twins.len() implies !lends_a_mask(
                        #[trigger] twins[i],
                        it,
                    ) by {
                        if i < was.len() {
                            assert(!lends_a_mask(was[i], it));
                        }
                    }
                }
            }
        }
    }
}

/// A discovery gives every scene that was found, in order, each as its feature says but for the
/// mask: a top-of-atmosphere source borrows it, and a surface source keeps its own.
pub proof fn a_discovery_only_lends_masks(
    found: Seq<Tree>,
    source: Seq<char>,
    codes: Seq<i32>,
    twins: Seq<ItemView>,
    k: int,
)
    requires
        codes.len() == found.len(),
        0 <= k < found.len(),
        !day_of(found[k]).contains('_'),
        forall|i: int| 0 <= i < twins.len() ==> !(#[trigger] twins[i]).date.contains('_'),
    ensures
        discovered(found, source, codes, twins).len() == found.len(),
        ({
            let d = discovered(found, source, codes, twins)[k];
            let plain = item_view(found[k], source, codes[k]);
            &&& d == (ItemView { bands: BandsView { scl: d.bands.scl, ..plain.bands }, ..plain })
            &&& !"l1c"@.is_suffix_of(source) ==> d == plain
            &&& "l1c"@.is_suffix_of(source) && d.bands.scl is Some ==> exists|i: int|
                0 <= i < twins.len() && lends_a_mask(#[trigger] twins[i], plain)
                    && twins[i].bands.scl == d.bands.scl
            &&& "l1c"@.is_suffix_of(source) && d.bands.scl is None ==> forall|i: int|
                0 <= i < twins.len() ==> !lends_a_mask(#[trigger] twins[i], plain)
        }),
{
    let plain = item_view(found[k], source, codes[k]);
    a_mask_is_borrowed_from_a_twin(plain, twins);
}

/// Whether a link is the one that a feature has for an asset.
pub open spec fn links_to(it: Tree, name: Seq<char>, link: Option<Seq<char>>) -> bool {
    it.field("assets"@).field(name).field("href"@).as_text() == link
}

/// Whether a link leads where a feature says that an asset is, over HTTPS where that is in the
/// bucket of the top-of-atmosphere products.
pub open spec fn leads_to(it: Tree, name: Seq<char>, link: Option<Seq<char>>) -> bool {
    match it.field("assets"@).field(name).field("href"@).as_text() {
        Some(url) => {
            &&& link is Some
            &&& forall|path: Seq<char>|
                url == #[trigger] ("s3://sentinel-s2-l1c/"@ + path) ==> link == Some(
                    "https://sentinel-s2-l1c.s3.eu-central-1.amazonaws.com/"@ + path,
                )
            &&& !"s3://sentinel-s2-l1c/"@.is_prefix_of(url) ==> link == Some(url)
        },
        None => link is None,
    }
}

proof fn lemma_over_https(it: Tree, name: Seq<char>)
    ensures
        leads_to(it, name, asset_over_https(it, name)),
{
    let bucket = "s3://sentinel-s2-l1c/"@;
    if asset(it, name) is Some {
        let url = asset(it, name)->0;
        assert forall|path: Seq<char>| url == #[trigger] (bucket + path) implies asset_over_https(
            it,
            name,
        ) == Some("https://sentinel-s2-l1c.s3.eu-central-1.amazonaws.com/"@ + path) by {
            assert(bucket.is_prefix_of(url));
            assert(url.skip(bucket.len() as int) =~= path);
        }
    }
}

/// Each band of a scene is read where the catalogue has it: the Copernicus catalogue names its
/// top-of-atmosphere assets by the number of the band and its surface assets by the number and the
/// resolution, and the other one names both by the colour. Only a surface product has a mask.
pub proof fn bands_are_read_where_the_catalogue_has_them(it: Tree, source: Seq<char>)
    ensures
        ({
            let b = bands_view(it, source);
            let cdse = "cdse"@.is_prefix_of(source);
            let l1c = "l1c"@.is_suffix_of(source);
            &&& cdse && l1c ==> {
                &&& links_to(it, "B01"@, b.b01)
                &&& links_to(it, "B02"@, b.b02)
                &&& links_to(it, "B03"@, b.b03)
                &&& links_to(it, "B04"@, b.b04)
                &&& links_to(it, "B05"@, b.b05)
                &&& links_to(it, "B06"@, b.b06)
                &&& links_to(it, "B07"@, b.b07)
                &&& links_to(it, "B08"@, b.b08)
                &&& links_to(it, "B8A"@, b.b8a)
                &&& links_to(it, "B09"@, b.b09)
                &&& links_to(it, "B11"@, b.b11)
                &&& links_to(it, "B12"@, b.b12)
                &&& links_to(it, "product_metadata"@, b.product_metadata)
                &&& links_to(it, "granule_metadata"@, b.granule_metadata)
                &&& b.scl is None
            }
            &&& cdse && !l1c ==> {
                &&& links_to(it, "B12_20m"@, b.b12)
                &&& links_to(it, "B11_20m"@, b.b11)
                &&& links_to(it, "B8A_20m"@, b.b8a)
                &&& links_to(it, "SCL_20m"@, b.scl)
                &&& links_to(it, "product_metadata"@, b.product_metadata)
                &&& links_to(it, "granule_metadata"@, b.granule_metadata)
                &&& b.b01 is None
                &&& b.b02 is None
                &&& b.b03 is None
                &&& b.b04 is None
                &&& b.b05 is None
                &&& b.b06 is None
                &&& b.b07 is None
                &&& b.b08 is None
                &&& b.b09 is None
                &&& b.b10 is None
            }
            &&& !cdse && l1c ==> {
                &&& leads_to(it, "coastal"@, b.b01)
                &&& leads_to(it, "blue"@, b.b02)
                &&& leads_to(it, "green"@, b.b03)
                &&& leads_to(it, "red"@, b.b04)
                &&& leads_to(it, "rededge1"@, b.b05)
                &&& leads_to(it, "rededge2"@, b.b06)
                &&& leads_to(it, "rededge3"@, b.b07)
                &&& leads_to(it, "nir"@, b.b08)
                &&& leads_to(it, "nir08"@, b.b8a)
                &&& leads_to(it, "nir09"@, b.b09)
                &&& leads_to(it, "cirrus"@, b.b10)
                &&& leads_to(it, "swir16"@, b.b11)
                &&& leads_to(it, "swir22"@, b.b12)
                &&& leads_to(it, "granule_metadata"@, b.product_metadata)
                &&& leads_to(it, "granule_metadata"@, b.granule_metadata)
                &&& b.scl is None
            }
            &&& !cdse && !l1c ==> {
                &&& links_to(it, "swir22"@, b.b12)
                &&& links_to(it, "swir16"@, b.b11)
                &&& links_to(it, "nir08"@, b.b8a)
                &&& links_to(it, "scl"@, b.scl)
                &&& b.b01 is None
                &&& b.b02 is None
                &&& b.b03 is None
                &&& b.b04 is None
                &&& b.b05 is None
                &&& b.b06 is None
                &&& b.b07 is None
                &&& b.b08 is None
                &&& b.b09 is None
                &&& b.b10 is None
                &&& b.product_metadata is None
                &&& b.granule_metadata is None
            }
        }),
{
    lemma_over_https(it, "coastal"@);
    lemma_over_https(it, "blue"@);
    lemma_over_https(it, "green"@);
    lemma_over_https(it, "red"@);
    lemma_over_https(it, "rededge1"@);
    lemma_over_https(it, "rededge2"@);
    lemma_over_https(it, "rededge3"@);
    lemma_over_https(it, "nir"@);
    lemma_over_https(it, "nir08"@);
    lemma_over_https(it, "nir09"@);
    lemma_over_https(it, "cirrus"@);
    lemma_over_https(it, "swir16"@);
    lemma_over_https(it, "swir22"@);
    lemma_over_https(it, "granule_metadata"@);
}

/// The cirrus band of the Copernicus catalogue is the asset of its number, where the feature has
/// it. Where it has none, it is the file beside the one of band eleven, under its own number.
pub proof fn the_cirrus_band_stands_beside_band_eleven(it: Tree, source: Seq<char>, stem: Seq<char>)
    requires
        "cdse"@.is_prefix_of(source),
        "l1c"@.is_suffix_of(source),
        forall|k: int|
            0 <= k < stem.len() ==> !"_B11.jp2"@.is_prefix_of(
                #[trigger] (stem + "_B11.jp2"@).skip(k),
            ),
    ensures
        ({
            let b10 = bands_view(it, source).b10;
            &&& !links_to(it, "B10"@, None) ==> links_to(it, "B10"@, b10)
            &&& links_to(it, "B10"@, None) && links_to(it, "B11"@, None) ==> b10 is None
            &&& links_to(it, "B10"@, None) && links_to(it, "B11"@, Some(stem + "_B11.jp2"@))
                ==> b10 == Some(stem + "_B10.jp2"@)
        }),
{
    reveal_strlit("_B11.jp2");
    an_ending_is_replaced(stem, "_B11.jp2"@, "_B10.jp2"@);
}

/// A scene holds what its feature says of it, each thing under its own name: a text that the
/// feature lacks is empty, and a number that it lacks is absent. Its day is the beginning of its
/// time.
pub proof fn a_scene_holds_what_its_feature_says(
    it: Tree,
    source: Seq<char>,
    from_grid: i32,
    tile: Seq<char>,
)
    requires
        !tile.contains('-'),
    ensures
        ({
            let s = item_view(it, source, from_grid);
            let p = it.field("properties"@);
            let (code, other) = (p.field("grid:code"@).as_text(), p.field("s2:mgrs_tile"@).as_text());
            &&& it.field("id"@).as_text() matches Some(x) ==> s.id == x
            &&& p.field("datetime"@).as_text() matches Some(x) ==> s.datetime == x
            &&& p.field("datetime"@).as_text() is None ==> s.datetime.len() == 0
            &&& s.cloud_cover == p.field("eo:cloud_cover"@).as_real()
            &&& s.sun_elevation == p.field("view:sun_elevation"@).as_real()
            &&& s.sun_azimuth == p.field("view:sun_azimuth"@).as_real()
            &&& s.date.is_prefix_of(s.datetime)
            &&& s.date.len() > 0 ==> byte_len(s.date) == 10
            &&& code == Some("MGRS-"@ + tile) ==> s.mgrs == tile
            &&& code == Some(tile) ==> s.mgrs == tile
            &&& code is None && other == Some(tile) ==> s.mgrs == tile
            &&& code is None && other is None ==> s.mgrs.len() == 0
            &&& "cdse"@.is_prefix_of(source) ==> s.epsg == from_grid
            &&& !"cdse"@.is_prefix_of(source) ==> match p.field("proj:epsg"@).as_signed() {
                Some(n) => -0x8000_0000 <= n <= 0x7fff_ffff ==> s.epsg == n,
                None => s.epsg == 0,
            }
            &&& "l1c"@.is_suffix_of(source) ==> s.level == "l1c"@
            &&& !"l1c"@.is_suffix_of(source) ==> s.level == "l2a"@
        }),
{
    reveal_strlit("MGRS-");
    reveal_strlit("");
    let mark = "MGRS-"@;
    assert(mark[4] == '-');
    nothing_is_replaced_where_a_character_is_missing(tile, mark, ""@, '-');
    nothing_is_replaced_where_a_character_is_missing(Seq::empty(), mark, ""@, '-');
    let s = mark + tile;
    assert(mark.is_prefix_of(s));
    assert(s.skip(5) =~= tile);
    assert(""@ + tile =~= tile);
    the_first_bytes_are_a_beginning(datetime_of(it), 10);
}

/// The envelope of a scene is the four numbers that its feature states, in their order: west,
/// south, east and north.
pub proof fn bounds_are_stated_from_west_to_north(
    it: Tree,
    west: Real,
    south: Real,
    east: Real,
    north: Real,
)
    requires
        it.field("bbox"@).elements().len() == 4,
        it.field("bbox"@).elements()[0].as_real() == Some(west),
        it.field("bbox"@).elements()[1].as_real() == Some(south),
        it.field("bbox"@).elements()[2].as_real() == Some(east),
        it.field("bbox"@).elements()[3].as_real() == Some(north),
    ensures
        bbox_of(it) == (Envelope { west, south, east, north }),
{
    reveal_with_fuel(numbers, 5);
    let a = it.field("bbox"@).elements();
    assert(numbers(a) =~= seq![west, south, east, north]);
}

/// A scene that states its cover is as cloudy as it states, and one that states none is fully
/// covered: no threshold under a hundred lets it pass, and it is never clearer than one that states
/// a cover of at most a hundred.
pub proof fn an_unstated_cover_is_full(
    it: Tree,
    source: Seq<char>,
    from_grid: i32,
    max_cloud_cover: Real,
)
    ensures
        ({
            let stated = it.field("properties"@).field("eo:cloud_cover"@).as_real();
            let s = item_view(it, source, from_grid);
            &&& stated matches Some(x) ==> cloud_of(it) == x
            &&& stated is None ==> cloud_of(it) == Real::of_count(100)
            &&& stated matches Some(x) ==> (clear_enough(s, max_cloud_cover) <==> x.is_le(
                max_cloud_cover,
            ))
            &&& stated is None ==> (clear_enough(s, max_cloud_cover) <==> Real::of_count(100).is_le(
                max_cloud_cover,
            ))
        }),
{
    lemma2_to64();
    lemma2_to64_rest();
    lemma_pow2_strictly_increases(6, 1028);
    a_ratio_is_encoded(100, 1, Real { bits: FULL_COVER }, 1028, 46);
}

/// Two scenes stand for one another just where they show the same tile on the same day and, where
/// both looks of a day are kept, from the same orbit. No day has the mark in it that stands between
/// the parts of a key.
pub proof fn scenes_stand_for_one_another_by_tile_and_day(a: Tree, b: Tree, keep_orbits: bool)
    requires
        !day_of(a).contains('_'),
        !day_of(b).contains('_'),
    ensures
        scene_key(a, keep_orbits) == scene_key(b, keep_orbits) <==> {
            &&& tile_of(a) == tile_of(b)
            &&& day_of(a) == day_of(b)
            &&& keep_orbits ==> orbit_token(or_empty(a.field("id"@).as_text())) == orbit_token(
                or_empty(b.field("id"@).as_text()),
            )
        },
{
    reveal_strlit("_");
    assert("_"@ =~= seq!['_']);
    let of = |it: Tree|
        if keep_orbits {
            orbit_token(or_empty(it.field("id"@).as_text()))
        } else {
            Seq::empty()
        };
    an_orbit_is_part_of_a_name(or_empty(a.field("id"@).as_text()));
    an_orbit_is_part_of_a_name(or_empty(b.field("id"@).as_text()));
    let (front_a, front_b) = (
        tile_of(a) + seq!['_'] + day_of(a),
        tile_of(b) + seq!['_'] + day_of(b),
    );
    assert(scene_key(a, keep_orbits) == front_a + seq!['_'] + of(a));
    assert(scene_key(b, keep_orbits) == front_b + seq!['_'] + of(b));
    a_pair_is_told_by_its_separator(front_a, of(a), front_b, of(b), '_');
    a_pair_is_told_by_its_separator(tile_of(a), day_of(a), tile_of(b), day_of(b), '_');
}

/// The tile of a scene is the grid code that its feature states, or else the tile that it states; a
/// scene that states neither is a tile of its own, by its name.
pub proof fn a_tile_is_stated_under_either_name(it: Tree)
    ensures
        ({
            let p = it.field("properties"@);
            let (code, other) = (p.field("grid:code"@).as_text(), p.field("s2:mgrs_tile"@).as_text());
            &&& code matches Some(x) ==> tile_of(it) == x
            &&& code is None ==> (other matches Some(x) ==> tile_of(it) == x)
            &&& code is None && other is None ==> (it.field("id"@).as_text() matches Some(x)
                ==> tile_of(it) == x)
        }),
{
}

/// The orbit of a scene is the first part of its name that is an R with three bytes behind it; a
/// name without such a part carries none.
pub proof fn an_orbit_is_part_of_a_name(id: Seq<char>)
    ensures
        ({
            let p = parts(id, '_');
            let token = orbit_token(id);
            let like = |t: Seq<char>| t.len() > 0 && t[0] == 'R' && byte_len(t) == 4;
            &&& !token.contains('_')
            &&& token.len() == 0 <==> forall|i: int| 0 <= i < p.len() ==> !like(#[trigger] p[i])
            &&& token.len() > 0 ==> like(token) && exists|i: int|
                0 <= i < p.len() && #[trigger] p[i] == token && forall|j: int|
                    0 <= j < i ==> !like(#[trigger] p[j])
        }),
{
    let p = parts(id, '_');
    let test = |t: Seq<char>| byte_len(t) == 4 && seq!['R'].is_prefix_of(t);
    the_first_comes_before_the_others(p, test);
    joined_parts_are_the_text(id, '_');
    assert forall|t: Seq<char>| #[trigger] test(t) <==> t.len() > 0 && t[0] == 'R' && byte_len(t)
        == 4 by {
        if t.len() > 0 && t[0] == 'R' {
            assert(t.subrange(0, 1) =~= seq!['R']);
        }
        if seq!['R'].is_prefix_of(t) {
            assert(seq!['R'][0] == t.subrange(0, 1)[0]);
        }
    }
    assert forall|i: int| 0 <= i < p.len() implies (test(#[trigger] p[i]) <==> p[i].len() > 0
        && p[i][0] == 'R' && byte_len(p[i]) == 4) by {}
}

/// A scene with four stated bounds belongs to a query just where it is a tile and shares a point
/// with one of the boxes asked for; one that states no four bounds is not held back.
pub proof fn a_scene_belongs_where_it_meets_the_query(it: Tree, q: Seq<Envelope>)
    requires
        is_box(bbox_of(it)),
        forall|i: int| 0 <= i < q.len() ==> is_box(#[trigger] q[i]),
    ensures
        it.field("bbox"@) is Array && numbers(it.field("bbox"@).elements()).len() == 4 ==> (in_area(
            it,
            q,
        ) <==> {
            let b = bbox_of(it);
            &&& b.east.sum(b.west.negated()).is_lt(Real::of_count(5))
            &&& exists|i: int| 0 <= i < q.len() && share_a_point(b, #[trigger] q[i])
        }),
        !(it.field("bbox"@) is Array) || numbers(it.field("bbox"@).elements()).len() != 4
            ==> in_area(it, q),
{
    let b = bbox_of(it);
    a_tile_spans_less_than_five_degrees(b);
    assert forall|i: int| 0 <= i < q.len() implies (overlap(b, #[trigger] q[i]) <==> share_a_point(
        b,
        q[i],
    )) by {
        boxes_overlap_where_they_share_a_point(b, q[i]);
    }
}

/// Whether some point is in both of two boxes.
pub open spec fn share_a_point(a: Envelope, b: Envelope) -> bool {
    exists|x: Real, y: Real| #[trigger] holds(a, x, y) && holds(b, x, y)
}

/// Each scene without a mask counts as unrated, once, and no other does.
pub proof fn scenes_without_a_mask_are_unrated(items: Seq<ItemView>, it: ItemView)
    ensures
        unrated(Seq::empty()) == 0,
        unrated(items.push(it)) == unrated(items) + if it.bands.scl is None {
            1nat
        } else {
            0nat
        },
{
    reveal(Seq::filter);
    assert(items.push(it).drop_last() =~= items);
}

/// Whether scenes are those that a threshold leaves of some others.
pub open spec fn are_clear(r: Seq<ItemView>, items: Seq<ItemView>, max_cloud_cover: Real) -> bool {
    r == items.filter(|it: ItemView| clear_enough(it, max_cloud_cover))
}

/// A threshold leaves just the scenes that state no more cover than it, and those that state none
/// where it is at least a hundred.
pub proof fn a_threshold_leaves_the_clear_scenes(
    r: Seq<ItemView>,
    items: Seq<ItemView>,
    max_cloud_cover: Real,
    it: ItemView,
)
    requires
        are_clear(r, items, max_cloud_cover),
    ensures
        r.contains(it) <==> items.contains(it) && match it.cloud_cover {
            Some(x) => x.is_le(max_cloud_cover),
            None => Real::of_count(100).is_le(max_cloud_cover),
        },
{
    lemma2_to64();
    lemma2_to64_rest();
    lemma_pow2_strictly_increases(6, 1028);
    a_ratio_is_encoded(100, 1, Real { bits: FULL_COVER }, 1028, 46);
    let p = |it: ItemView| clear_enough(it, max_cloud_cover);
    a_filter_keeps_what_passes(items, p, it);
}

/// What a filter keeps is what was there and passes its test.
pub proof fn a_filter_keeps_what_passes<T>(s: Seq<T>, p: spec_fn(T) -> bool, x: T)
    ensures
        s.filter(p).contains(x) <==> s.contains(x) && p(x),
    decreases s.len(),
{
    reveal(Seq::filter);
    if s.len() > 0 {
        let front = s.drop_last();
        a_filter_keeps_what_passes(front, p, x);
        assert(s =~= front.push(s.last()));
        lemma_seq_contains_after_push(front, s.last(), x);
        lemma_seq_contains_after_push(front.filter(p), s.last(), x);
    } else {
        assert(s.filter(p) =~= Seq::empty());
    }
}

/// The twin of a source is a surface source of the same catalogue.
pub proof fn a_twin_is_of_the_same_catalogue(source: Seq<char>)
    ensures
        api_of(twin_of(source)) == api_of(source),
        level_of(twin_of(source)) == "l2a"@,
{
    reveal_strlit("cdse");
    reveal_strlit("aws");
    reveal_strlit("l1c");
    assert("cdse"@.subrange(0, 4) =~= "cdse"@);
    assert(!"cdse"@.is_prefix_of("aws"@));
    assert(!"l1c"@.is_suffix_of("cdse"@)) by {
        assert("cdse"@.subrange(1, 4)[0] != "l1c"@[0]);
    }
    assert(!"l1c"@.is_suffix_of("aws"@)) by {
        assert("aws"@.subrange(0, 3)[0] != "l1c"@[0]);
    }
}

/// The coordinate system of a scene follows from the grid code that its feature states under that
/// name, and from no other tile that it may state.
pub proof fn a_grid_code_is_stated_by_name(it: Tree)
    ensures
        it.field("properties"@).field("grid:code"@).as_text() matches Some(x) ==> grid_code_of(it) == x,
        it.field("properties"@).field("grid:code"@).as_text() is None ==> grid_code_of(it).len() == 0,
{
}

/// The searches that a discovery over so many envelopes makes.
pub open spec fn searches_of(envelopes: nat, source: Seq<char>) -> Seq<Seq<char>> {
    if envelopes == 0 {
        Seq::<Seq<char>>::empty()
    } else if is_l1c(source) {
        seq![source, twin_of(source)]
    } else {
        seq![source]
    }
}

/// Nothing is asked for no area. Any other discovery asks for its source first, and then, where
/// that is a top-of-atmosphere source and for no other, for its twin.
pub proof fn only_radiance_asks_for_a_twin(envelopes: nat, source: Seq<char>)
    ensures
        searches_of(0, source).len() == 0,
        envelopes > 0 ==> searches_of(envelopes, source).len() > 0 && searches_of(envelopes, source)[0]
            == source,
        envelopes > 0 && "l1c"@.is_suffix_of(source) ==> searches_of(envelopes, source).len() == 2
            && searches_of(envelopes, source)[1] == twin_of(source),
        envelopes > 0 && !"l1c"@.is_suffix_of(source) ==> searches_of(envelopes, source).len() == 1,
{
}

} // verus!
