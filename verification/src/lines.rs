//! The lines of a manifest: how a header and a scene are put in writing, and the lines that were
//! written so.
use crate::envelope::Envelope;
use crate::json::{
    count_tree, document, element_texts, is_plain, is_unbroken, lemma_one_line, member_text,
    member_texts, parse, quote, reads, reads_back, trees, written, Doc, Json, Tree,
};
use crate::manifest::{
    a_manifest_gives_back_its_header_and_scenes, assembled, framed, gunzipped, is_line, is_listing,
    lines_of, listed, whole, Header, HeaderView, Listing, VERSION,
};
use crate::number::Real;
use crate::stac::{item_views, Bands, BandsView, Item, ItemView};
use crate::text::{
    after_leading, before_trailing, is_digit, is_space, join, joined, opt, same, to_decimal,
    to_padded, trimmed, views,
};
use vstd::prelude::*;
use vstd::utf8::encode_utf8;

verus! {

/// The numbers of a scene, as they are put in writing. One that the scene lacks counts for nothing.
#[derive(Clone, Debug)]
pub struct Numerals {
    pub cloud_cover: String,
    pub west: String,
    pub south: String,
    pub east: String,
    pub north: String,
    pub sun_elevation: String,
    pub sun_azimuth: String,
}

/// [`Numerals`], as mathematics.
pub ghost struct NumeralsView {
    pub cloud_cover: Seq<char>,
    pub west: Seq<char>,
    pub south: Seq<char>,
    pub east: Seq<char>,
    pub north: Seq<char>,
    pub sun_elevation: Seq<char>,
    pub sun_azimuth: Seq<char>,
}

impl View for Numerals {
    type V = NumeralsView;

    open spec fn view(&self) -> NumeralsView {
        NumeralsView {
            cloud_cover: self.cloud_cover@,
            west: self.west@,
            south: self.south@,
            east: self.east@,
            north: self.north@,
            sun_elevation: self.sun_elevation@,
            sun_azimuth: self.sun_azimuth@,
        }
    }
}

/// A text, where there is one.
pub open spec fn opt_text(s: Option<Seq<char>>) -> Doc {
    match s {
        Some(t) => Doc::Text(t),
        None => Doc::Null,
    }
}

/// A number, where there is one.
pub open spec fn opt_decimal(x: Option<Real>, numeral: Seq<char>) -> Doc {
    match x {
        Some(_) => Doc::Decimal(numeral),
        None => Doc::Null,
    }
}

/// The members of a header, in the order in which they are written.
pub open spec fn header_members(h: HeaderView) -> Seq<(Seq<char>, Doc)> {
    seq![
        ("manifest"@, Doc::Count(h.manifest as u64)),
        ("source"@, Doc::Text(h.source)),
        ("start"@, Doc::Text(h.start)),
        ("end"@, Doc::Text(h.end)),
        ("aoi"@, Doc::Text(h.aoi)),
        ("aoi_sha256"@, Doc::Text(h.aoi_sha256)),
        ("s2e"@, Doc::Text(h.s2e)),
        ("created"@, Doc::Text(h.created)),
        ("scenes"@, Doc::Count(h.scenes as u64)),
        ("requests"@, Doc::Count(h.requests as u64)),
    ]
}

/// A header in writing.
pub open spec fn header_text(h: HeaderView) -> Seq<char> {
    written(Doc::Object(header_members(h)))
}

/// The members of the bands of a scene, in the order in which they are written.
pub open spec fn bands_members(b: BandsView) -> Seq<(Seq<char>, Doc)> {
    seq![
        ("b01"@, opt_text(b.b01)),
        ("b02"@, opt_text(b.b02)),
        ("b03"@, opt_text(b.b03)),
        ("b04"@, opt_text(b.b04)),
        ("b05"@, opt_text(b.b05)),
        ("b06"@, opt_text(b.b06)),
        ("b07"@, opt_text(b.b07)),
        ("b08"@, opt_text(b.b08)),
        ("b12"@, opt_text(b.b12)),
        ("b11"@, opt_text(b.b11)),
        ("b8a"@, opt_text(b.b8a)),
        ("b09"@, opt_text(b.b09)),
        ("b10"@, opt_text(b.b10)),
        ("scl"@, opt_text(b.scl)),
        ("product_metadata"@, opt_text(b.product_metadata)),
        ("granule_metadata"@, opt_text(b.granule_metadata)),
    ]
}

/// The bounds of a scene: west, south, east and north.
pub open spec fn bbox_doc(n: NumeralsView) -> Doc {
    Doc::Array(
        seq![
            Doc::Decimal(n.west),
            Doc::Decimal(n.south),
            Doc::Decimal(n.east),
            Doc::Decimal(n.north),
        ],
    )
}

/// The members of a scene, in the order in which they are written.
pub open spec fn item_members(it: ItemView, n: NumeralsView) -> Seq<(Seq<char>, Doc)> {
    seq![
        ("id"@, Doc::Text(it.id)),
        ("date"@, Doc::Text(it.date)),
        ("datetime"@, Doc::Text(it.datetime)),
        ("cloud_cover"@, opt_decimal(it.cloud_cover, n.cloud_cover)),
        ("mgrs"@, Doc::Text(it.mgrs)),
        ("epsg"@, Doc::Whole(it.epsg as i64)),
        ("bbox"@, bbox_doc(n)),
        ("sun_elevation"@, opt_decimal(it.sun_elevation, n.sun_elevation)),
        ("sun_azimuth"@, opt_decimal(it.sun_azimuth, n.sun_azimuth)),
        ("bands"@, Doc::Object(bands_members(it.bands))),
        ("level"@, Doc::Text(it.level)),
    ]
}

/// A scene in writing.
pub open spec fn item_text(it: ItemView, n: NumeralsView) -> Seq<char> {
    written(Doc::Object(item_members(it, n)))
}

/// Whether a numeral reads as a certain number.
pub open spec fn stands_for(numeral: Seq<char>, x: Real) -> bool {
    document(numeral) matches Ok(Tree::Number(v)) && v.real == Some(x)
}

/// Whether the numerals are those of a scene: each reads as the number that it stands for.
pub open spec fn are_of(n: NumeralsView, it: ItemView) -> bool {
    &&& it.cloud_cover matches Some(x) ==> stands_for(n.cloud_cover, x)
    &&& stands_for(n.west, it.bbox.west)
    &&& stands_for(n.south, it.bbox.south)
    &&& stands_for(n.east, it.bbox.east)
    &&& stands_for(n.north, it.bbox.north)
    &&& it.sun_elevation matches Some(x) ==> stands_for(n.sun_elevation, x)
    &&& it.sun_azimuth matches Some(x) ==> stands_for(n.sun_azimuth, x)
}

fn opt_quote(s: &Option<String>) -> (r: String)
    ensures
        r@ == written(opt_text(opt(*s))),
{
    match s {
        Some(t) => quote(t.as_str()),
        None => "null".to_owned(),
    }
}

fn opt_numeral(x: Option<Real>, numeral: &str) -> (r: String)
    ensures
        r@ == written(opt_decimal(x, numeral@)),
{
    match x {
        Some(_) => numeral.to_owned(),
        None => "null".to_owned(),
    }
}

fn member_line(name: &str, value: &str) -> (r: String)
    ensures
        r@ == member_text(name@, value@),
{
    let mut s = quote(name);
    s.append(":");
    s.append(value);
    s
}

fn object_line(members: &Vec<String>) -> (r: String)
    ensures
        r@ == "{"@ + joined(views(members@), ","@) + "}"@,
{
    let mut s = "{".to_owned();
    s.append(join(members, ",").as_str());
    s.append("}");
    s
}

/// A header in writing.
pub fn header_line(h: &Header) -> (r: String)
    ensures
        r@ == header_text(h@),
{
    let mut v: Vec<String> = Vec::new();
    v.push(member_line("manifest", to_decimal(h.manifest as u64).as_str()));
    v.push(member_line("source", quote(h.source.as_str()).as_str()));
    v.push(member_line("start", quote(h.start.as_str()).as_str()));
    v.push(member_line("end", quote(h.end.as_str()).as_str()));
    v.push(member_line("aoi", quote(h.aoi.as_str()).as_str()));
    v.push(member_line("aoi_sha256", quote(h.aoi_sha256.as_str()).as_str()));
    v.push(member_line("s2e", quote(h.s2e.as_str()).as_str()));
    v.push(member_line("created", quote(h.created.as_str()).as_str()));
    v.push(member_line("scenes", to_decimal(h.scenes as u64).as_str()));
    v.push(member_line("requests", to_decimal(h.requests as u64).as_str()));
    proof {
        let m = header_members(h@);
        assert(views(v@) =~= member_texts(m));
    }
    object_line(&v)
}

fn bands_line(b: &Bands) -> (r: String)
    ensures
        r@ == written(Doc::Object(bands_members(b@))),
{
    let mut v: Vec<String> = Vec::new();
    v.push(member_line("b01", opt_quote(&b.b01).as_str()));
    v.push(member_line("b02", opt_quote(&b.b02).as_str()));
    v.push(member_line("b03", opt_quote(&b.b03).as_str()));
    v.push(member_line("b04", opt_quote(&b.b04).as_str()));
    v.push(member_line("b05", opt_quote(&b.b05).as_str()));
    v.push(member_line("b06", opt_quote(&b.b06).as_str()));
    v.push(member_line("b07", opt_quote(&b.b07).as_str()));
    v.push(member_line("b08", opt_quote(&b.b08).as_str()));
    v.push(member_line("b12", opt_quote(&b.b12).as_str()));
    v.push(member_line("b11", opt_quote(&b.b11).as_str()));
    v.push(member_line("b8a", opt_quote(&b.b8a).as_str()));
    v.push(member_line("b09", opt_quote(&b.b09).as_str()));
    v.push(member_line("b10", opt_quote(&b.b10).as_str()));
    v.push(member_line("scl", opt_quote(&b.scl).as_str()));
    v.push(member_line("product_metadata", opt_quote(&b.product_metadata).as_str()));
    v.push(member_line("granule_metadata", opt_quote(&b.granule_metadata).as_str()));
    proof {
        let m = bands_members(b@);
        assert(views(v@) =~= member_texts(m));
    }
    object_line(&v)
}

fn bbox_line(n: &Numerals) -> (r: String)
    ensures
        r@ == written(bbox_doc(n@)),
{
    let mut v: Vec<String> = Vec::new();
    v.push(n.west.clone());
    v.push(n.south.clone());
    v.push(n.east.clone());
    v.push(n.north.clone());
    let mut s = "[".to_owned();
    s.append(join(&v, ",").as_str());
    s.append("]");
    proof {
        let a = bbox_doc(n@)->Array_0;
        assert(views(v@) =~= element_texts(a));
    }
    s
}

/// A scene in writing.
pub fn item_line(it: &Item, n: &Numerals) -> (r: String)
    ensures
        r@ == item_text(it@, n@),
{
    let mut v: Vec<String> = Vec::new();
    v.push(member_line("id", quote(it.id.as_str()).as_str()));
    v.push(member_line("date", quote(it.date.as_str()).as_str()));
    v.push(member_line("datetime", quote(it.datetime.as_str()).as_str()));
    let cloud_cover = opt_numeral(it.cloud_cover, n.cloud_cover.as_str());
    v.push(member_line("cloud_cover", cloud_cover.as_str()));
    v.push(member_line("mgrs", quote(it.mgrs.as_str()).as_str()));
    v.push(member_line("epsg", to_padded(it.epsg as i64, 0).as_str()));
    v.push(member_line("bbox", bbox_line(n).as_str()));
    let sun_elevation = opt_numeral(it.sun_elevation, n.sun_elevation.as_str());
    v.push(member_line("sun_elevation", sun_elevation.as_str()));
    let sun_azimuth = opt_numeral(it.sun_azimuth, n.sun_azimuth.as_str());
    v.push(member_line("sun_azimuth", sun_azimuth.as_str()));
    v.push(member_line("bands", bands_line(&it.bands).as_str()));
    v.push(member_line("level", quote(it.level.as_str()).as_str()));
    proof {
        let m = item_members(it@, n@);
        assert(views(v@) =~= member_texts(m));
    }
    object_line(&v)
}

/// A text that may be absent; nothing of any other value.
spec fn text_read(t: Tree) -> Option<Option<Seq<char>>> {
    match t {
        Tree::Null => Some(None),
        Tree::Text(s) => Some(Some(s)),
        _ => None,
    }
}

/// A number that may be absent; nothing of any other value.
spec fn real_read(t: Tree) -> Option<Option<Real>> {
    match t {
        Tree::Null => Some(None),
        Tree::Number(n) => match n.real {
            Some(x) => Some(Some(x)),
            None => None,
        },
        _ => None,
    }
}

/// A count of at most `max`.
spec fn count_read(t: Tree, max: u64) -> Option<u64> {
    match t {
        Tree::Number(n) => match n.unsigned {
            Some(u) => if u <= max {
                Some(u)
            } else {
                None
            },
            None => None,
        },
        _ => None,
    }
}

/// A whole number of 32 bits.
spec fn code_read(t: Tree) -> Option<i32> {
    match t.as_signed() {
        Some(n) => if -0x8000_0000 <= n <= 0x7fff_ffff {
            Some(n as i32)
        } else {
            None
        },
        None => None,
    }
}

/// The envelope of four numbers.
spec fn bbox_read(t: Tree) -> Option<Envelope> {
    let a = t.elements();
    if a.len() == 4 && a[0].as_real() is Some && a[1].as_real() is Some && a[2].as_real() is Some
        && a[3].as_real() is Some {
        Some(
            Envelope {
                west: a[0].as_real()->0,
                south: a[1].as_real()->0,
                east: a[2].as_real()->0,
                north: a[3].as_real()->0,
            },
        )
    } else {
        None
    }
}

/// The bands that an object names; nothing where one of them is no text.
spec fn bands_read(t: Tree) -> Option<BandsView> {
    if t is Object
        && text_read(t.field("b01"@)) is Some
        && text_read(t.field("b02"@)) is Some
        && text_read(t.field("b03"@)) is Some
        && text_read(t.field("b04"@)) is Some
        && text_read(t.field("b05"@)) is Some
        && text_read(t.field("b06"@)) is Some
        && text_read(t.field("b07"@)) is Some
        && text_read(t.field("b08"@)) is Some
        && text_read(t.field("b09"@)) is Some
        && text_read(t.field("b10"@)) is Some
        && text_read(t.field("b11"@)) is Some
        && text_read(t.field("b12"@)) is Some
        && text_read(t.field("b8a"@)) is Some
        && text_read(t.field("granule_metadata"@)) is Some
        && text_read(t.field("product_metadata"@)) is Some
        && text_read(t.field("scl"@)) is Some
    {
        Some(
            BandsView {
                b01: text_read(t.field("b01"@))->0,
                b02: text_read(t.field("b02"@))->0,
                b03: text_read(t.field("b03"@))->0,
                b04: text_read(t.field("b04"@))->0,
                b05: text_read(t.field("b05"@))->0,
                b06: text_read(t.field("b06"@))->0,
                b07: text_read(t.field("b07"@))->0,
                b08: text_read(t.field("b08"@))->0,
                b09: text_read(t.field("b09"@))->0,
                b10: text_read(t.field("b10"@))->0,
                b11: text_read(t.field("b11"@))->0,
                b12: text_read(t.field("b12"@))->0,
                b8a: text_read(t.field("b8a"@))->0,
                granule_metadata: text_read(t.field("granule_metadata"@))->0,
                product_metadata: text_read(t.field("product_metadata"@))->0,
                scl: text_read(t.field("scl"@))->0,
            },
        )
    } else {
        None
    }
}

/// The header that an object is; nothing where a member is missing or of another kind.
spec fn header_read(t: Tree) -> Option<HeaderView> {
    if t is Object
        && t.field("aoi"@).as_text() is Some
        && t.field("aoi_sha256"@).as_text() is Some
        && t.field("created"@).as_text() is Some
        && t.field("end"@).as_text() is Some
        && count_read(t.field("manifest"@), u32::MAX as u64) is Some
        && count_read(t.field("requests"@), usize::MAX as u64) is Some
        && t.field("s2e"@).as_text() is Some
        && count_read(t.field("scenes"@), usize::MAX as u64) is Some
        && t.field("source"@).as_text() is Some
        && t.field("start"@).as_text() is Some
    {
        Some(
            HeaderView {
                aoi: t.field("aoi"@).as_text()->0,
                aoi_sha256: t.field("aoi_sha256"@).as_text()->0,
                created: t.field("created"@).as_text()->0,
                end: t.field("end"@).as_text()->0,
                manifest: count_read(t.field("manifest"@), u32::MAX as u64)->0 as u32,
                requests: count_read(t.field("requests"@), usize::MAX as u64)->0 as usize,
                s2e: t.field("s2e"@).as_text()->0,
                scenes: count_read(t.field("scenes"@), usize::MAX as u64)->0 as usize,
                source: t.field("source"@).as_text()->0,
                start: t.field("start"@).as_text()->0,
            },
        )
    } else {
        None
    }
}

/// The scene that an object is; nothing where a member is missing or of another kind.
spec fn item_read(t: Tree) -> Option<ItemView> {
    if t is Object
        && bands_read(t.field("bands"@)) is Some
        && bbox_read(t.field("bbox"@)) is Some
        && real_read(t.field("cloud_cover"@)) is Some
        && t.field("date"@).as_text() is Some
        && t.field("datetime"@).as_text() is Some
        && code_read(t.field("epsg"@)) is Some
        && t.field("id"@).as_text() is Some
        && t.field("level"@).as_text() is Some
        && t.field("mgrs"@).as_text() is Some
        && real_read(t.field("sun_azimuth"@)) is Some
        && real_read(t.field("sun_elevation"@)) is Some
    {
        Some(
            ItemView {
                bands: bands_read(t.field("bands"@))->0,
                bbox: bbox_read(t.field("bbox"@))->0,
                cloud_cover: real_read(t.field("cloud_cover"@))->0,
                date: t.field("date"@).as_text()->0,
                datetime: t.field("datetime"@).as_text()->0,
                epsg: code_read(t.field("epsg"@))->0,
                id: t.field("id"@).as_text()->0,
                level: t.field("level"@).as_text()->0,
                mgrs: t.field("mgrs"@).as_text()->0,
                sun_azimuth: real_read(t.field("sun_azimuth"@))->0,
                sun_elevation: real_read(t.field("sun_elevation"@))->0,
            },
        )
    } else {
        None
    }
}

fn text_member(j: &Json, key: &str) -> (r: Option<String>)
    ensures
        opt(r) == j@.field(key@).as_text(),
{
    match j.text_field(key) {
        Some(s) => Some(s.clone()),
        None => None,
    }
}

fn member_opt_text(j: &Json, key: &str) -> (r: Option<Option<String>>)
    ensures
        match r {
            Some(s) => text_read(j@.field(key@)) == Some(opt(s)),
            None => text_read(j@.field(key@)) is None,
        },
{
    match j.field(key) {
        Some(Json::Null) => Some(None),
        Some(Json::Text(s)) => Some(Some(s.clone())),
        Some(_) => None,
        None => Some(None),
    }
}

fn member_opt_real(j: &Json, key: &str) -> (r: Option<Option<Real>>)
    ensures
        r == real_read(j@.field(key@)),
{
    match j.field(key) {
        Some(Json::Null) => Some(None),
        Some(Json::Number(n)) => match n.real {
            Some(x) => Some(Some(x)),
            None => None,
        },
        Some(_) => None,
        None => Some(None),
    }
}

fn member_count(j: &Json, key: &str, max: u64) -> (r: Option<u64>)
    ensures
        r == count_read(j@.field(key@), max),
{
    match j.field(key) {
        Some(Json::Number(n)) => match n.unsigned {
            Some(u) => if u <= max {
                Some(u)
            } else {
                None
            },
            None => None,
        },
        _ => None,
    }
}

fn member_code(j: &Json, key: &str) -> (r: Option<i32>)
    ensures
        r == code_read(j@.field(key@)),
{
    match j.field(key) {
        Some(v) => match v.as_signed() {
            Some(n) => if -0x8000_0000 <= n && n <= 0x7fff_ffff {
                Some(n as i32)
            } else {
                None
            },
            None => None,
        },
        None => None,
    }
}

fn member_bbox(j: &Json, key: &str) -> (r: Option<Envelope>)
    ensures
        r == bbox_read(j@.field(key@)),
{
    match j.field(key) {
        Some(Json::Array(v)) => {
            proof {
                assert(j@.field(key@).elements() =~= trees(v@));
            }
            if v.len() != 4 {
                return None;
            }
            match (v[0].as_real(), v[1].as_real(), v[2].as_real(), v[3].as_real()) {
                (Some(west), Some(south), Some(east), Some(north)) => Some(
                    Envelope { west, south, east, north },
                ),
                _ => None,
            }
        },
        _ => {
            proof {
                assert(j@.field(key@).elements() =~= Seq::empty());
            }
            None
        },
    }
}

fn to_bands(j: &Json) -> (r: Option<Bands>)
    ensures
        match r {
            Some(b) => bands_read(j@) == Some(b@),
            None => bands_read(j@) is None,
        },
{
    match j {
        Json::Object(_) => {},
        _ => return None,
    }
    let b01 = member_opt_text(j, "b01")?;
    let b02 = member_opt_text(j, "b02")?;
    let b03 = member_opt_text(j, "b03")?;
    let b04 = member_opt_text(j, "b04")?;
    let b05 = member_opt_text(j, "b05")?;
    let b06 = member_opt_text(j, "b06")?;
    let b07 = member_opt_text(j, "b07")?;
    let b08 = member_opt_text(j, "b08")?;
    let b09 = member_opt_text(j, "b09")?;
    let b10 = member_opt_text(j, "b10")?;
    let b11 = member_opt_text(j, "b11")?;
    let b12 = member_opt_text(j, "b12")?;
    let b8a = member_opt_text(j, "b8a")?;
    let granule_metadata = member_opt_text(j, "granule_metadata")?;
    let product_metadata = member_opt_text(j, "product_metadata")?;
    let scl = member_opt_text(j, "scl")?;
    Some(
        Bands {
            b01, b02, b03, b04, b05, b06, b07, b08, b12, b11, b8a, b09, b10, scl, product_metadata,
            granule_metadata,
        },
    )
}

fn to_header(j: &Json) -> (r: Option<Header>)
    ensures
        match r {
            Some(h) => header_read(j@) == Some(h@),
            None => header_read(j@) is None,
        },
{
    match j {
        Json::Object(_) => {},
        _ => return None,
    }
    let aoi = text_member(j, "aoi")?;
    let aoi_sha256 = text_member(j, "aoi_sha256")?;
    let created = text_member(j, "created")?;
    let end = text_member(j, "end")?;
    let manifest = member_count(j, "manifest", u32::MAX as u64)? as u32;
    let requests = member_count(j, "requests", usize::MAX as u64)? as usize;
    let s2e = text_member(j, "s2e")?;
    let scenes = member_count(j, "scenes", usize::MAX as u64)? as usize;
    let source = text_member(j, "source")?;
    let start = text_member(j, "start")?;
    Some(Header { manifest, source, start, end, aoi, aoi_sha256, s2e, created, scenes, requests })
}

fn to_item(j: &Json) -> (r: Option<Item>)
    ensures
        match r {
            Some(it) => item_read(j@) == Some(it@),
            None => item_read(j@) is None,
        },
{
    match j {
        Json::Object(_) => {},
        _ => return None,
    }
    let bands = match j.field("bands") {
        Some(b) => to_bands(b)?,
        None => return None,
    };
    let bbox = member_bbox(j, "bbox")?;
    let cloud_cover = member_opt_real(j, "cloud_cover")?;
    let date = text_member(j, "date")?;
    let datetime = text_member(j, "datetime")?;
    let epsg = member_code(j, "epsg")?;
    let id = text_member(j, "id")?;
    let level = text_member(j, "level")?;
    let mgrs = text_member(j, "mgrs")?;
    let sun_azimuth = member_opt_real(j, "sun_azimuth")?;
    let sun_elevation = member_opt_real(j, "sun_elevation")?;
    Some(
        Item {
            id, date, datetime, cloud_cover, mgrs, epsg, bbox, sun_elevation, sun_azimuth, bands,
            level,
        },
    )
}

/// Whether `r` is the header that a line was written from, or nothing where the line was written
/// from none.
pub open spec fn is_header_of(line: Seq<char>, r: Option<Header>) -> bool {
    &&& r matches Some(h) ==> line == header_text(h@)
    &&& forall|h: HeaderView| line == #[trigger] header_text(h) ==> r is Some && r->0@ == h
}

/// Whether `r` is the scene that a line was written from with these numerals, or nothing where the
/// line was written from none.
pub open spec fn is_item_of(line: Seq<char>, n: NumeralsView, r: Option<Item>) -> bool {
    &&& r matches Some(it) ==> line == item_text(it@, n) && are_of(n, it@)
    &&& forall|it: ItemView|
        line == #[trigger] item_text(it, n) && are_of(n, it) ==> r is Some && r->0@ == it
}

/// The header that a line was written from. There is none for a line that is laid out otherwise,
/// though it may say a header too.
pub fn recognise_header(line: &str) -> (r: Option<Header>)
    ensures
        is_header_of(line@, r),
{
    let parsed = parse(line);
    proof {
        assert forall|h: HeaderView| line@ == #[trigger] header_text(h) implies parsed is Ok
            && header_read(parsed->Ok_0@) == Some(h) by {
            lemma_header_is_plain(h);
            lemma_header_from(parsed->Ok_0@, h);
        }
    }
    match parsed {
        Ok(j) => match to_header(&j) {
            Some(h) => if same(header_line(&h).as_str(), line) {
                Some(h)
            } else {
                None
            },
            None => None,
        },
        Err(_) => None,
    }
}

fn reads_as(numeral: &str, x: Real) -> (r: bool)
    ensures
        r == stands_for(numeral@, x),
{
    match parse(numeral) {
        Ok(Json::Number(v)) => match v.real {
            Some(y) => x == y,
            None => false,
        },
        _ => false,
    }
}

fn opt_reads_as(numeral: &str, x: Option<Real>) -> (r: bool)
    ensures
        r == (x matches Some(y) ==> stands_for(numeral@, y)),
{
    match x {
        Some(y) => reads_as(numeral, y),
        None => true,
    }
}

fn read_as_numbers(n: &Numerals, it: &Item) -> (r: bool)
    ensures
        r == are_of(n@, it@),
{
    opt_reads_as(n.cloud_cover.as_str(), it.cloud_cover)
        && reads_as(n.west.as_str(), it.bbox.west)
        && reads_as(n.south.as_str(), it.bbox.south)
        && reads_as(n.east.as_str(), it.bbox.east)
        && reads_as(n.north.as_str(), it.bbox.north)
        && opt_reads_as(n.sun_elevation.as_str(), it.sun_elevation)
        && opt_reads_as(n.sun_azimuth.as_str(), it.sun_azimuth)
}

/// The scene that a line was written from with these numerals. There is none for a line that is
/// laid out otherwise, though it may say a scene too.
pub fn recognise_item(line: &str, n: &Numerals) -> (r: Option<Item>)
    ensures
        is_item_of(line@, n@, r),
{
    let parsed = parse(line);
    proof {
        assert forall|it: ItemView| line@ == #[trigger] item_text(it, n@) && are_of(
            n@,
            it,
        ) implies parsed is Ok && item_read(parsed->Ok_0@) == Some(it) by {
            lemma_item_is_plain(it, n@);
            lemma_item_from(parsed->Ok_0@, it, n@);
        }
    }
    match parsed {
        Ok(j) => match to_item(&j) {
            Some(it) => if same(item_line(&it, n).as_str(), line) && read_as_numbers(n, &it) {
                Some(it)
            } else {
                None
            },
            None => None,
        },
        Err(_) => None,
    }
}

/// A number that tells the names of members apart: from their length, and their second and third
/// characters.
spec fn tag(s: Seq<char>) -> int {
    if s.len() < 3 {
        s.len() as int
    } else {
        s.len() * 0x10000 + (s[1] as u32) * 0x100 + s[2] as u32
    }
}

/// Whether members have names of their own, told apart by their tags.
spec fn told_apart(members: Seq<(Seq<char>, Doc)>) -> bool {
    forall|i: int, j: int|
        0 <= i < j < members.len() ==> tag((#[trigger] members[i]).0) != tag(
            (#[trigger] members[j]).0,
        )
}

proof fn lemma_apart(members: Seq<(Seq<char>, Doc)>, room: nat)
    requires
        told_apart(members),
        forall|i: int| 0 <= i < members.len() ==> is_plain((#[trigger] members[i]).1, room),
    ensures
        is_plain(Doc::Object(members), room + 1),
{
}

proof fn lemma_bands_are_plain(b: BandsView)
    ensures
        is_plain(Doc::Object(bands_members(b)), 99),
{
    reveal_strlit("b01");
    reveal_strlit("b02");
    reveal_strlit("b03");
    reveal_strlit("b04");
    reveal_strlit("b05");
    reveal_strlit("b06");
    reveal_strlit("b07");
    reveal_strlit("b08");
    reveal_strlit("b12");
    reveal_strlit("b11");
    reveal_strlit("b8a");
    reveal_strlit("b09");
    reveal_strlit("b10");
    reveal_strlit("scl");
    reveal_strlit("product_metadata");
    reveal_strlit("granule_metadata");
    lemma_apart(bands_members(b), 98);
}

proof fn lemma_header_is_plain(h: HeaderView)
    ensures
        is_plain(Doc::Object(header_members(h)), 100),
{
    reveal_strlit("manifest");
    reveal_strlit("source");
    reveal_strlit("start");
    reveal_strlit("end");
    reveal_strlit("aoi");
    reveal_strlit("aoi_sha256");
    reveal_strlit("s2e");
    reveal_strlit("created");
    reveal_strlit("scenes");
    reveal_strlit("requests");
    lemma_apart(header_members(h), 99);
}

proof fn lemma_bbox_is_plain(n: NumeralsView)
    requires
        is_plain(Doc::Decimal(n.west), 98),
        is_plain(Doc::Decimal(n.south), 98),
        is_plain(Doc::Decimal(n.east), 98),
        is_plain(Doc::Decimal(n.north), 98),
    ensures
        is_plain(bbox_doc(n), 99),
{
    let a = bbox_doc(n)->Array_0;
    assert forall|i: int| 0 <= i < a.len() implies is_plain(#[trigger] a[i], 98) by {
        assert(i == 0 || i == 1 || i == 2 || i == 3);
    }
}

proof fn lemma_item_is_plain(it: ItemView, n: NumeralsView)
    requires
        are_of(n, it),
    ensures
        is_plain(Doc::Object(item_members(it, n)), 100),
{
    reveal_strlit("id");
    reveal_strlit("date");
    reveal_strlit("datetime");
    reveal_strlit("cloud_cover");
    reveal_strlit("mgrs");
    reveal_strlit("epsg");
    reveal_strlit("bbox");
    reveal_strlit("sun_elevation");
    reveal_strlit("sun_azimuth");
    reveal_strlit("bands");
    reveal_strlit("level");
    assert("id"@.len() == 2);
    lemma_bands_are_plain(it.bands);
    lemma_bbox_is_plain(n);
    lemma_apart(item_members(it, n), 99);
}

proof fn lemma_header_from(t: Tree, h: HeaderView)
    requires
        reads(t, Doc::Object(header_members(h))),
    ensures
        header_read(t) == Some(h),
{
    let m = header_members(h);
    assert(reads(t.field(m[0].0), m[0].1));
    assert(reads(t.field(m[1].0), m[1].1));
    assert(reads(t.field(m[2].0), m[2].1));
    assert(reads(t.field(m[3].0), m[3].1));
    assert(reads(t.field(m[4].0), m[4].1));
    assert(reads(t.field(m[5].0), m[5].1));
    assert(reads(t.field(m[6].0), m[6].1));
    assert(reads(t.field(m[7].0), m[7].1));
    assert(reads(t.field(m[8].0), m[8].1));
    assert(reads(t.field(m[9].0), m[9].1));
}

proof fn lemma_band_from(t: Tree, s: Option<Seq<char>>)
    requires
        reads(t, opt_text(s)),
    ensures
        text_read(t) == Some(s),
{
}

proof fn lemma_bands_from(t: Tree, b: BandsView)
    requires
        reads(t, Doc::Object(bands_members(b))),
    ensures
        bands_read(t) == Some(b),
{
    let m = bands_members(b);
    assert(reads(t.field(m[0].0), m[0].1));
    lemma_band_from(t.field("b01"@), b.b01);
    assert(reads(t.field(m[1].0), m[1].1));
    lemma_band_from(t.field("b02"@), b.b02);
    assert(reads(t.field(m[2].0), m[2].1));
    lemma_band_from(t.field("b03"@), b.b03);
    assert(reads(t.field(m[3].0), m[3].1));
    lemma_band_from(t.field("b04"@), b.b04);
    assert(reads(t.field(m[4].0), m[4].1));
    lemma_band_from(t.field("b05"@), b.b05);
    assert(reads(t.field(m[5].0), m[5].1));
    lemma_band_from(t.field("b06"@), b.b06);
    assert(reads(t.field(m[6].0), m[6].1));
    lemma_band_from(t.field("b07"@), b.b07);
    assert(reads(t.field(m[7].0), m[7].1));
    lemma_band_from(t.field("b08"@), b.b08);
    assert(reads(t.field(m[8].0), m[8].1));
    lemma_band_from(t.field("b12"@), b.b12);
    assert(reads(t.field(m[9].0), m[9].1));
    lemma_band_from(t.field("b11"@), b.b11);
    assert(reads(t.field(m[10].0), m[10].1));
    lemma_band_from(t.field("b8a"@), b.b8a);
    assert(reads(t.field(m[11].0), m[11].1));
    lemma_band_from(t.field("b09"@), b.b09);
    assert(reads(t.field(m[12].0), m[12].1));
    lemma_band_from(t.field("b10"@), b.b10);
    assert(reads(t.field(m[13].0), m[13].1));
    lemma_band_from(t.field("scl"@), b.scl);
    assert(reads(t.field(m[14].0), m[14].1));
    lemma_band_from(t.field("product_metadata"@), b.product_metadata);
    assert(reads(t.field(m[15].0), m[15].1));
    lemma_band_from(t.field("granule_metadata"@), b.granule_metadata);
}

proof fn lemma_number_from(t: Tree, x: Option<Real>, numeral: Seq<char>)
    requires
        reads(t, opt_decimal(x, numeral)),
        x matches Some(y) ==> stands_for(numeral, y),
    ensures
        real_read(t) == Some(x),
{
}

proof fn lemma_bbox_from(t: Tree, e: Envelope, n: NumeralsView)
    requires
        reads(t, bbox_doc(n)),
        stands_for(n.west, e.west),
        stands_for(n.south, e.south),
        stands_for(n.east, e.east),
        stands_for(n.north, e.north),
    ensures
        bbox_read(t) == Some(e),
{
    let a = bbox_doc(n)->Array_0;
    assert(reads(t.elements()[0], a[0]));
    assert(reads(t.elements()[1], a[1]));
    assert(reads(t.elements()[2], a[2]));
    assert(reads(t.elements()[3], a[3]));
}

proof fn lemma_item_from(t: Tree, it: ItemView, n: NumeralsView)
    requires
        reads(t, Doc::Object(item_members(it, n))),
        are_of(n, it),
    ensures
        item_read(t) == Some(it),
{
    let m = item_members(it, n);
    assert(reads(t.field(m[0].0), m[0].1));
    assert(reads(t.field(m[1].0), m[1].1));
    assert(reads(t.field(m[2].0), m[2].1));
    assert(reads(t.field(m[3].0), m[3].1));
    assert(reads(t.field(m[4].0), m[4].1));
    assert(reads(t.field(m[5].0), m[5].1));
    assert(reads(t.field(m[6].0), m[6].1));
    assert(reads(t.field(m[7].0), m[7].1));
    assert(reads(t.field(m[8].0), m[8].1));
    assert(reads(t.field(m[9].0), m[9].1));
    assert(reads(t.field(m[10].0), m[10].1));
    lemma_number_from(t.field("cloud_cover"@), it.cloud_cover, n.cloud_cover);
    lemma_number_from(t.field("sun_elevation"@), it.sun_elevation, n.sun_elevation);
    lemma_number_from(t.field("sun_azimuth"@), it.sun_azimuth, n.sun_azimuth);
    lemma_bbox_from(t.field("bbox"@), it.bbox, n);
    lemma_bands_from(t.field("bands"@), it.bands);
}

/// Whether numerals are in figures: digits, signs, points and exponents.
pub open spec fn in_figures(n: NumeralsView) -> bool {
    &&& are_figures(n.cloud_cover)
    &&& are_figures(n.west) && are_figures(n.south) && are_figures(n.east) && are_figures(n.north)
    &&& are_figures(n.sun_elevation) && are_figures(n.sun_azimuth)
}

/// Whether a text consists of the characters of a number.
pub open spec fn are_figures(s: Seq<char>) -> bool {
    forall|i: int|
        0 <= i < s.len() ==> is_digit(#[trigger] s[i]) || s[i] == '+' || s[i] == '-' || s[i] == '.'
            || s[i] == 'e' || s[i] == 'E'
}

proof fn lemma_unbroken(m: Seq<(Seq<char>, Doc)>)
    requires
        forall|i: int| 0 <= i < m.len() ==> is_unbroken((#[trigger] m[i]).1),
    ensures
        is_unbroken(Doc::Object(m)),
{
}

proof fn lemma_object_is_line(m: Seq<(Seq<char>, Doc)>)
    requires
        forall|i: int| 0 <= i < m.len() ==> is_unbroken((#[trigger] m[i]).1),
    ensures
        is_line(written(Doc::Object(m))),
        trimmed(written(Doc::Object(m))).len() > 0,
{
    let s = written(Doc::Object(m));
    reveal_strlit("{");
    reveal_strlit("}");
    lemma_unbroken(m);
    lemma_one_line(Doc::Object(m));
    assert(s[0] == '{' && s.last() == '}');
    let space = |c: char| is_space(c);
    assert(after_leading(s, space) == s);
    assert(before_trailing(s, space) == s);
}

/// A header is written on one line.
pub proof fn a_header_is_one_line(h: HeaderView)
    ensures
        is_line(header_text(h)),
{
    lemma_object_is_line(header_members(h));
}

/// A scene is written on one line, which is not blank.
pub proof fn a_scene_is_one_line(it: ItemView, n: NumeralsView)
    requires
        in_figures(n),
    ensures
        is_line(item_text(it, n)),
        trimmed(item_text(it, n)).len() > 0,
{
    let a = bbox_doc(n)->Array_0;
    assert forall|i: int| 0 <= i < a.len() implies is_unbroken(#[trigger] a[i]) by {
        assert(i == 0 || i == 1 || i == 2 || i == 3);
    }
    assert(is_unbroken(bbox_doc(n)));
    lemma_unbroken(bands_members(it.bands));
    lemma_object_is_line(item_members(it, n));
}

/// The scenes of a manifest in writing.
pub open spec fn scene_texts(items: Seq<Item>, numerals: Seq<NumeralsView>) -> Seq<Seq<char>> {
    Seq::new(items.len(), |k: int| item_text(items[k]@, numerals[k]))
}

/// What comes back from a manifest is what went in. Where a header of this version is put in
/// writing by [`header_line`], and scenes by [`item_line`] with numerals that read as their numbers,
/// the file that [`write`] makes of the lines is listed by [`lines`] as those lines;
/// [`recognise_header`] and [`recognise_item`] find in them the same header and the same scenes; and
/// [`read`] gives back that header and every one of those scenes, in their order and in every field.
///
/// [`write`]: crate::manifest::write
/// [`lines`]: crate::manifest::lines
/// [`read`]: crate::manifest::read
pub proof fn what_went_in_comes_back(
    h: Header,
    items: Seq<Item>,
    numerals: Seq<NumeralsView>,
    file: Seq<u8>,
    listing: Result<Listing, String>,
    header: Option<Header>,
    scenes: Seq<Option<Item>>,
)
    requires
        h.manifest == VERSION,
        numerals.len() == items.len(),
        forall|k: int|
            #![trigger numerals[k]]
            0 <= k < items.len() ==> in_figures(numerals[k]) && are_of(numerals[k], items[k]@),
        gunzipped(file) == Ok::<Seq<u8>, Seq<char>>(
            encode_utf8(framed(header_text(h@), scene_texts(items, numerals))),
        ),
        gunzipped(file) matches Ok(bytes) ==> is_listing(listing, listed(lines_of(bytes, None))),
        listing matches Ok(l) ==> is_header_of(l@.header, header),
        scenes.len() == items.len(),
        listing matches Ok(l) ==> forall|k: int|
            #![trigger scenes[k]]
            0 <= k < scenes.len() ==> is_item_of(l@.scenes[k].1, numerals[k], scenes[k]),
    ensures
        listing is Ok,
        listing->Ok_0@ == whole(header_text(h@), scene_texts(items, numerals)),
        header is Some,
        forall|k: int| 0 <= k < scenes.len() ==> (#[trigger] scenes[k]) is Some,
        assembled(
            listing->Ok_0@,
            Ok(header->0),
            scenes.map_values(|it: Option<Item>| Ok::<Item, String>(it->0)),
        ) == Ok::<(HeaderView, Seq<ItemView>), Seq<char>>((h@, item_views(items))),
{
    let texts = scene_texts(items, numerals);
    a_header_is_one_line(h@);
    assert forall|k: int| 0 <= k < texts.len() implies is_line(#[trigger] texts[k]) && trimmed(
        texts[k],
    ).len() > 0 by {
        assert(in_figures(numerals[k]));
        a_scene_is_one_line(items[k]@, numerals[k]);
    }
    a_manifest_gives_back_its_header_and_scenes(header_text(h@), texts, file, listing, h, items);
    assert(listing->Ok_0@.header == header_text(h@));
    let found = scenes.map_values(|it: Option<Item>| it->0);
    assert forall|k: int| 0 <= k < scenes.len() implies (#[trigger] scenes[k]) is Some
        && found[k]@ == items[k]@ by {
        assert(are_of(numerals[k], items[k]@));
        assert(listing->Ok_0@.scenes[k].1 == item_text(items[k]@, numerals[k]));
    }
    a_manifest_gives_back_its_header_and_scenes(
        header_text(h@),
        texts,
        file,
        listing,
        header->0,
        found,
    );
    assert(item_views(found) =~= item_views(items));
    assert(found.map_values(|it: Item| Ok::<Item, String>(it)) =~= scenes.map_values(
        |it: Option<Item>| Ok::<Item, String>(it->0),
    ));
}

/// A header is written under the names of its fields: whoever reads its line finds each value under
/// its own name.
pub proof fn a_header_is_written_under_its_names(
    h: HeaderView,
    read: Result<Tree, Seq<char>>,
)
    requires
        reads_back(read, header_text(h)),
    ensures
        read is Ok,
        read matches Ok(t) ==> {
            &&& t.field("manifest"@) == count_tree(h.manifest as u64)
            &&& t.field("source"@).as_text() == Some(h.source)
            &&& t.field("start"@).as_text() == Some(h.start)
            &&& t.field("end"@).as_text() == Some(h.end)
            &&& t.field("aoi"@).as_text() == Some(h.aoi)
            &&& t.field("aoi_sha256"@).as_text() == Some(h.aoi_sha256)
            &&& t.field("s2e"@).as_text() == Some(h.s2e)
            &&& t.field("created"@).as_text() == Some(h.created)
            &&& t.field("scenes"@) == count_tree(h.scenes as u64)
            &&& t.field("requests"@) == count_tree(h.requests as u64)
        },
{
    lemma_header_is_plain(h);
    let m = header_members(h);
    let t = read->Ok_0;
    assert(reads(t, Doc::Object(m)));
    assert(reads(t.field(m[0].0), m[0].1));
    assert(reads(t.field(m[1].0), m[1].1));
    assert(reads(t.field(m[2].0), m[2].1));
    assert(reads(t.field(m[3].0), m[3].1));
    assert(reads(t.field(m[4].0), m[4].1));
    assert(reads(t.field(m[5].0), m[5].1));
    assert(reads(t.field(m[6].0), m[6].1));
    assert(reads(t.field(m[7].0), m[7].1));
    assert(reads(t.field(m[8].0), m[8].1));
    assert(reads(t.field(m[9].0), m[9].1));
}

/// A scene is written under the names of its fields: whoever reads its line finds each value under
/// its own name, each band among the bands, and the bounds from west to north. What a scene lacks
/// is found under no name.
pub proof fn a_scene_is_written_under_its_names(
    it: ItemView,
    n: NumeralsView,
    read: Result<Tree, Seq<char>>,
)
    requires
        are_of(n, it),
        reads_back(read, item_text(it, n)),
    ensures
        read is Ok,
        read matches Ok(t) ==> {
            let b = t.field("bands"@);
            let e = t.field("bbox"@).elements();
            &&& t.field("id"@).as_text() == Some(it.id)
            &&& t.field("date"@).as_text() == Some(it.date)
            &&& t.field("datetime"@).as_text() == Some(it.datetime)
            &&& t.field("mgrs"@).as_text() == Some(it.mgrs)
            &&& t.field("level"@).as_text() == Some(it.level)
            &&& t.field("epsg"@).as_signed() == Some(it.epsg as i64)
            &&& t.field("cloud_cover"@).as_real() == it.cloud_cover
            &&& t.field("sun_elevation"@).as_real() == it.sun_elevation
            &&& t.field("sun_azimuth"@).as_real() == it.sun_azimuth
            &&& e.len() == 4
            &&& e[0].as_real() == Some(it.bbox.west)
            &&& e[1].as_real() == Some(it.bbox.south)
            &&& e[2].as_real() == Some(it.bbox.east)
            &&& e[3].as_real() == Some(it.bbox.north)
            &&& b.field("b01"@).as_text() == it.bands.b01
            &&& b.field("b02"@).as_text() == it.bands.b02
            &&& b.field("b03"@).as_text() == it.bands.b03
            &&& b.field("b04"@).as_text() == it.bands.b04
            &&& b.field("b05"@).as_text() == it.bands.b05
            &&& b.field("b06"@).as_text() == it.bands.b06
            &&& b.field("b07"@).as_text() == it.bands.b07
            &&& b.field("b08"@).as_text() == it.bands.b08
            &&& b.field("b12"@).as_text() == it.bands.b12
            &&& b.field("b11"@).as_text() == it.bands.b11
            &&& b.field("b8a"@).as_text() == it.bands.b8a
            &&& b.field("b09"@).as_text() == it.bands.b09
            &&& b.field("b10"@).as_text() == it.bands.b10
            &&& b.field("scl"@).as_text() == it.bands.scl
            &&& b.field("product_metadata"@).as_text() == it.bands.product_metadata
            &&& b.field("granule_metadata"@).as_text() == it.bands.granule_metadata
        },
{
    lemma_item_is_plain(it, n);
    let m = item_members(it, n);
    let t = read->Ok_0;
    assert(reads(t, Doc::Object(m)));
    assert(reads(t.field(m[0].0), m[0].1));
    assert(reads(t.field(m[1].0), m[1].1));
    assert(reads(t.field(m[2].0), m[2].1));
    assert(reads(t.field(m[3].0), m[3].1));
    assert(reads(t.field(m[4].0), m[4].1));
    assert(reads(t.field(m[5].0), m[5].1));
    assert(reads(t.field(m[6].0), m[6].1));
    assert(reads(t.field(m[7].0), m[7].1));
    assert(reads(t.field(m[8].0), m[8].1));
    assert(reads(t.field(m[9].0), m[9].1));
    assert(reads(t.field(m[10].0), m[10].1));
    let a = bbox_doc(n)->Array_0;
    let e = t.field("bbox"@).elements();
    assert(reads(e[0], a[0]) && reads(e[1], a[1]) && reads(e[2], a[2]) && reads(e[3], a[3]));
    let w = bands_members(it.bands);
    let b = t.field("bands"@);
    assert(reads(b, Doc::Object(w)));
    assert(reads(b.field(w[0].0), w[0].1));
    assert(reads(b.field(w[1].0), w[1].1));
    assert(reads(b.field(w[2].0), w[2].1));
    assert(reads(b.field(w[3].0), w[3].1));
    assert(reads(b.field(w[4].0), w[4].1));
    assert(reads(b.field(w[5].0), w[5].1));
    assert(reads(b.field(w[6].0), w[6].1));
    assert(reads(b.field(w[7].0), w[7].1));
    assert(reads(b.field(w[8].0), w[8].1));
    assert(reads(b.field(w[9].0), w[9].1));
    assert(reads(b.field(w[10].0), w[10].1));
    assert(reads(b.field(w[11].0), w[11].1));
    assert(reads(b.field(w[12].0), w[12].1));
    assert(reads(b.field(w[13].0), w[13].1));
    assert(reads(b.field(w[14].0), w[14].1));
    assert(reads(b.field(w[15].0), w[15].1));
}

} // verus!
