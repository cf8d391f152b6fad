//! Areas of interest: the features of a file, the shard of them that one member of a fleet works,
//! and the envelope and the name of each.
use crate::envelope::{holds, Envelope};
use crate::json::{document, members_of, object_value, parse, trees, Json, Tree};
use crate::number::{Pair, Real, INFINITY, SIGN};
use crate::stac::Item;
use crate::text::{
    a_number_is_read_back, after_leading, before_trailing, decimal, is_digit, is_space, joined,
    joined_texts_are_taken_apart, number, or_empty, parse_number, parts, place, split, split_once,
    to_decimal, trim, trimmed, views, NumberError,
};
use vstd::prelude::*;

verus! {

/// What is said of a text that is no number.
pub open spec fn complaint(e: NumberError) -> Seq<char> {
    match e {
        NumberError::Empty => "cannot parse integer from empty string"@,
        NumberError::InvalidDigit => "invalid digit found in string"@,
        NumberError::TooLarge => "number too large to fit in target type"@,
    }
}

/// The shard that a text names: member I of N, counted from zero.
pub open spec fn shard_of(s: Seq<char>) -> Result<(nat, nat), Seq<char>> {
    let at = place(s, '/') as int;
    if at >= s.len() {
        Err("expected I/N"@)
    } else {
        match number(trimmed(s.take(at)), usize::MAX as nat) {
            Err(e) => Err(complaint(e)),
            Ok(i) => match number(trimmed(s.skip(at + 1)), usize::MAX as nat) {
                Err(e) => Err(complaint(e)),
                Ok(n) => if i < n {
                    Ok((i, n))
                } else {
                    Err("expected 0 <= I < N"@)
                },
            },
        }
    }
}

fn say(e: NumberError) -> (r: String)
    ensures
        r@ == complaint(e),
{
    match e {
        NumberError::Empty => "cannot parse integer from empty string".to_owned(),
        NumberError::InvalidDigit => "invalid digit found in string".to_owned(),
        NumberError::TooLarge => "number too large to fit in target type".to_owned(),
    }
}

/// The shard that a text names: member I of N, counted from zero.
pub fn parse_shard(s: &str) -> (r: Result<(usize, usize), String>)
    ensures
        match shard_of(s@) {
            Ok(p) => r is Ok && r->Ok_0.0 == p.0 && r->Ok_0.1 == p.1 && p.0 < p.1,
            Err(e) => r is Err && r->Err_0@ == e,
        },
{
    let (i_text, n_text) = match split_once(s, '/') {
        Some(p) => p,
        None => return Err("expected I/N".to_owned()),
    };
    let i = match parse_number(trim(i_text.as_str()).as_str(), usize::MAX as u64) {
        Ok(i) => i as usize,
        Err(e) => return Err(say(e)),
    };
    let n = match parse_number(trim(n_text.as_str()).as_str(), usize::MAX as u64) {
        Ok(n) => n as usize,
        Err(e) => return Err(say(e)),
    };
    if i < n {
        Ok((i, n))
    } else {
        Err("expected 0 <= I < N".to_owned())
    }
}

/// The texts of the numbers of a box.
pub fn bbox_texts(s: &str) -> (r: Vec<String>)
    ensures
        views(r@) == box_texts(s@),
        views(r@) == parts(s@, ',').map_values(|t: Seq<char>| trimmed(t)),
{
    let list = split(s, ',');
    let ghost f = |t: Seq<char>| trimmed(t);
    let ghost all = parts(s@, ',');
    let mut out: Vec<String> = Vec::new();
    for i in 0..list.len()
        invariant
            all == views(list@),
            f == (|t: Seq<char>| trimmed(t)),
            views(out@) =~= all.take(i as int).map_values(f),
    {
        let ghost before = views(out@);
        out.push(trim(list[i].as_str()));
        proof {
            assert(all[i as int] == list@[i as int]@);
            assert(views(out@) =~= before.push(trimmed(list@[i as int]@)));
        }
    }
    proof {
        assert(all.take(list@.len() as int) =~= all);
    }
    out
}

/// The first of some readings that is no number.
pub open spec fn unreadable(v: Seq<Result<Real, String>>) -> nat
    decreases v.len(),
{
    if v.len() == 0 || v[0] is Err {
        0
    } else {
        1 + unreadable(v.drop_first())
    }
}

/// The box of four numbers, west, south, east and north; what is wrong, where they are not four
/// numbers.
pub open spec fn box_of(v: Seq<Result<Real, String>>) -> Result<Envelope, Seq<char>> {
    let n = unreadable(v) as int;
    if n < v.len() {
        Err("not a number: "@ + v[n]->Err_0@)
    } else if v.len() != 4 {
        Err("expected W,S,E,N"@)
    } else {
        Ok(
            Envelope {
                west: v[0]->Ok_0,
                south: v[1]->Ok_0,
                east: v[2]->Ok_0,
                north: v[3]->Ok_0,
            },
        )
    }
}

proof fn lemma_unreadable(v: Seq<Result<Real, String>>, n: int)
    requires
        0 <= n <= v.len(),
        forall|k: int| 0 <= k < n ==> (#[trigger] v[k]) is Ok,
        n < v.len() ==> v[n] is Err,
    ensures
        unreadable(v) == n,
    decreases n,
{
    if n > 0 {
        assert(v[0] is Ok);
        let t = v.drop_first();
        assert forall|k: int| 0 <= k < n - 1 implies (#[trigger] t[k]) is Ok by {
            assert(t[k] == v[k + 1]);
        }
        lemma_unreadable(t, n - 1);
    }
}

/// The box of four numbers, from what their texts read as.
pub fn parse_bbox(v: &Vec<Result<Real, String>>) -> (r: Result<Envelope, String>)
    ensures
        match box_of(v@) {
            Ok(b) => r == Ok::<Envelope, String>(b),
            Err(e) => r is Err && r->Err_0@ == e,
        },
{
    let mut found: Vec<Real> = Vec::new();
    for i in 0..v.len()
        invariant
            found@.len() == i,
            forall|k: int| 0 <= k < i ==> (#[trigger] v@[k]) is Ok && v@[k]->Ok_0 == found@[k],
    {
        match &v[i] {
            Ok(x) => {
                found.push(*x);
            },
            Err(e) => {
                proof {
                    lemma_unreadable(v@, i as int);
                }
                let mut m = "not a number: ".to_owned();
                m.append(e.as_str());
                return Err(m);
            },
        }
    }
    proof {
        lemma_unreadable(v@, v@.len() as int);
    }
    if found.len() != 4 {
        return Err("expected W,S,E,N".to_owned());
    }
    proof {
        assert(v@[0] is Ok && v@[1] is Ok && v@[2] is Ok && v@[3] is Ok);
    }
    Ok(Envelope { west: found[0], south: found[1], east: found[2], north: found[3] })
}

/// Whether an array is a position: two values at least, of which the first is a number.
pub open spec fn is_position(a: Seq<Tree>) -> bool {
    a.len() >= 2 && a[0].as_real() is Some
}

/// The positions in some coordinates, however deep they are nested, each with its second number
/// where it has one.
pub open spec fn positions(t: Tree) -> Seq<(Real, Option<Real>)>
    decreases t, 0nat,
{
    match t {
        Tree::Array(a) => if is_position(a) {
            seq![(a[0].as_real()->0, a[1].as_real())]
        } else {
            positions_among(a, a.len())
        },
        _ => Seq::empty(),
    }
}

/// The positions in the first `n` of some coordinates.
pub open spec fn positions_among(a: Seq<Tree>, n: nat) -> Seq<(Real, Option<Real>)>
    decreases a, n,
{
    if n == 0 || n > a.len() {
        Seq::empty()
    } else {
        positions_among(a, (n - 1) as nat) + positions(a[n - 1])
    }
}

/// Whether every position has two numbers.
pub open spec fn all_whole(p: Seq<(Real, Option<Real>)>) -> bool {
    forall|k: int| 0 <= k < p.len() ==> (#[trigger] p[k]).1 is Some
}

/// The envelope of some positions; that of none is turned inside out.
pub open spec fn extent_of(p: Seq<(Real, Option<Real>)>) -> Envelope
    decreases p.len(),
{
    if p.len() == 0 {
        Envelope {
            west: Real { bits: INFINITY },
            south: Real { bits: INFINITY },
            east: Real { bits: (INFINITY + SIGN) as u64 },
            north: Real { bits: (INFINITY + SIGN) as u64 },
        }
    } else {
        let e = extent_of(p.drop_last());
        let (x, y) = (p.last().0, p.last().1->0);
        Envelope {
            west: e.west.smaller(x),
            south: e.south.smaller(y),
            east: e.east.larger(x),
            north: e.north.larger(y),
        }
    }
}

fn gather(j: &Json, out: &mut Vec<(Real, Option<Real>)>)
    ensures
        final(out)@ == old(out)@ + positions(j@),
    decreases j,
{
    let ghost before = out@;
    match j {
        Json::Array(v) => {
            let ghost a = j@.elements();
            proof {
                assert(a =~= trees(v@));
                assert(j@ == Tree::Array(a));
            }
            if v.len() >= 2 {
                match v[0].as_real() {
                    Some(x) => {
                        out.push((x, v[1].as_real()));
                        proof {
                            assert(out@ =~= before + positions(j@));
                        }
                        return;
                    },
                    None => {},
                }
            }
            proof {
                assert(before + Seq::<(Real, Option<Real>)>::empty() =~= before);
            }
            for i in 0..v.len()
                invariant
                    *j == Json::Array(*v),
                    a == trees(v@),
                    out@ == before + positions_among(a, i as nat),
            {
                assert(decreases_to!(*j => j->Array_0));
                assert(decreases_to!(*v => v[i as int]));
                gather(&v[i], out);
                proof {
                    assert(a[i as int] == v@[i as int]@);
                    assert(out@ =~= before + positions_among(a, (i + 1) as nat));
                }
            }
        },
        _ => {
            proof {
                assert(before + positions(j@) =~= before);
            }
        },
    }
}

/// The envelope of a geometry; nothing where a position has no second number.
pub fn geom_bbox(geometry: &Json) -> (r: Option<Envelope>)
    ensures
        is_extent(r, geometry@),
        ({
            let p = positions(geometry@.field("coordinates"@));
            if all_whole(p) {
                r == Some(extent_of(p))
            } else {
                r is None
            }
        }),
{
    let mut points: Vec<(Real, Option<Real>)> = Vec::new();
    let ghost p = positions(geometry@.field("coordinates"@));
    match geometry.field("coordinates") {
        Some(c) => {
            gather(c, &mut points);
        },
        None => {},
    }
    proof {
        assert(points@ =~= p);
        assert(p.take(0) =~= Seq::empty());
    }
    let mut e = Envelope {
        west: Real { bits: INFINITY },
        south: Real { bits: INFINITY },
        east: Real { bits: INFINITY + SIGN },
        north: Real { bits: INFINITY + SIGN },
    };
    for i in 0..points.len()
        invariant
            points@ == p,
            p == positions(geometry@.field("coordinates"@)),
            forall|k: int| 0 <= k < i ==> (#[trigger] p[k]).1 is Some,
            e == extent_of(p.take(i as int)),
    {
        proof {
            assert(p.take(i + 1).drop_last() =~= p.take(i as int));
            assert(p.take(i + 1).last() == p[i as int]);
        }
        let x = points[i].0;
        match points[i].1 {
            Some(y) => {
                e = Envelope {
                    west: e.west.min(x),
                    south: e.south.min(y),
                    east: e.east.max(x),
                    north: e.north.max(y),
                };
            },
            None => {
                proof {
                    assert(p[i as int].1 is None);
                }
                return None;
            },
        }
    }
    proof {
        assert(p.take(points@.len() as int) =~= p);
    }
    Some(e)
}

/// The envelope of a geometry holds every position of it.
pub proof fn an_envelope_holds_its_positions(p: Seq<(Real, Option<Real>)>, k: int)
    requires
        all_whole(p),
        forall|i: int| 0 <= i < p.len() ==> !(#[trigger] p[i]).0.is_nan() && !p[i].1->0.is_nan(),
        0 <= k < p.len(),
    ensures
        extent_of(p).west.is_le(p[k].0) && p[k].0.is_le(extent_of(p).east),
        extent_of(p).south.is_le(p[k].1->0) && p[k].1->0.is_le(extent_of(p).north),
    decreases p.len(),
{
    let front = p.drop_last();
    lemma_extent_numbers(front);
    assert(!p[p.len() - 1].0.is_nan());
    if k < p.len() - 1 {
        assert(all_whole(front)) by {
            assert forall|i: int| 0 <= i < front.len() implies (#[trigger] front[i]).1 is Some by {
                assert(front[i] == p[i]);
            }
        }
        assert forall|i: int| 0 <= i < front.len() implies !(#[trigger] front[i]).0.is_nan()
            && !front[i].1->0.is_nan() by {
            assert(front[i] == p[i]);
        }
        an_envelope_holds_its_positions(front, k);
    }
}

proof fn lemma_extent_numbers(p: Seq<(Real, Option<Real>)>)
    ensures
        !extent_of(p).west.is_nan() && !extent_of(p).south.is_nan(),
        !extent_of(p).east.is_nan() && !extent_of(p).north.is_nan(),
    decreases p.len(),
{
    if p.len() > 0 {
        lemma_extent_numbers(p.drop_last());
    }
}

/// What is said of an area file that holds no document.
pub fn read_aoi(text: &str) -> (r: Result<Json, String>)
    ensures
        match document(text@) {
            Ok(t) => r is Ok && r->Ok_0@ == t,
            Err(e) => r is Err && r->Err_0@ == "parse aoi: "@ + e,
        },
{
    match parse(text) {
        Ok(j) => Ok(j),
        Err(e) => {
            let mut m = "parse aoi: ".to_owned();
            m.append(e.as_str());
            Err(m)
        },
    }
}

/// How many of `len` features are in shard `i` of `n`.
pub open spec fn shard_len(len: nat, i: nat, n: nat) -> nat {
    if i >= len || n == 0 {
        0
    } else {
        (1 + (len - i - 1) / n as int) as nat
    }
}

/// The features of a shard, each with its place among all of them: every n-th from the i-th on.
pub open spec fn shard_features(features: Seq<Tree>, i: nat, n: nat) -> Seq<(int, Tree)> {
    Seq::new(shard_len(features.len(), i, n), |k: int| (i + k * n, features[i + k * n]))
}

/// Features with their places, as mathematics.
pub open spec fn feature_views(v: Seq<(usize, Json)>) -> Seq<(int, Tree)> {
    v.map_values(|f: (usize, Json)| (f.0 as int, f.1@))
}

/// The features of a collection, each with its place in the whole collection, so that the names of
/// a shard do not shift with the size of the fleet. A shard keeps every n-th from the i-th on.
pub fn aoi_features(collection: &Json, shard: Option<(usize, usize)>) -> (r: Vec<(usize, Json)>)
    requires
        shard matches Some(s) ==> s.0 < s.1,
    ensures
        ({
            let all = collection@.field("features"@).elements();
            feature_views(r@) == match shard {
                Some(s) => shard_features(all, s.0 as nat, s.1 as nat),
                None => shard_features(all, 0, 1),
            }
        }),
{
    let (i, n): (usize, usize) = match shard {
        Some(s) => s,
        None => (0, 1),
    };
    let mut out: Vec<(usize, Json)> = Vec::new();
    let ghost all = collection@.field("features"@).elements();
    match collection.field("features") {
        Some(Json::Array(v)) => {
            proof {
                assert(all =~= trees(v@));
            }
            if i < v.len() {
                let mut at: usize = i;
                let ghost count = shard_len(all.len(), i as nat, n as nat);
                let ghost k: int = 0;
                proof {
                    assert(feature_views(out@) =~= shard_features(all, i as nat, n as nat).take(0));
                    assert(0 * n == 0);
                    lemma_shard_index(all.len() as int, i as int, n as int, 0);
                }
                loop
                    invariant_except_break
                        i < n,
                        all == trees(v@),
                        count == shard_len(all.len(), i as nat, n as nat),
                        0 <= k < count,
                        at == i + k * n,
                        at < v@.len(),
                        feature_views(out@) =~= shard_features(all, i as nat, n as nat).take(k),
                    ensures
                        feature_views(out@) =~= shard_features(all, i as nat, n as nat),
                    decreases v@.len() - at,
                {
                    let ghost before = feature_views(out@);
                    out.push((at, v[at].copy()));
                    proof {
                        assert(all[at as int] == v@[at as int]@);
                        assert(feature_views(out@) =~= before.push((at as int, all[at as int])));
                        k = k + 1;
                        lemma_shard_index(all.len() as int, i as int, n as int, k);
                        assert(k * n == (k - 1) * n + n) by (nonlinear_arith);
                    }
                    if n > v.len() - 1 - at {
                        proof {
                            assert(k >= count);
                        }
                        break;
                    }
                    at = at + n;
                }
            }
        },
        _ => {
            proof {
                assert(all =~= Seq::empty());
            }
        },
    }
    proof {
        assert(feature_views(out@) =~= shard_features(all, i as nat, n as nat));
    }
    out
}

proof fn lemma_shard_index(len: int, i: int, n: int, k: int)
    requires
        0 <= i < len,
        0 < n,
        0 <= k,
    ensures
        k < 1 + (len - i - 1) / n <==> i + k * n < len,
{
    let m = len - i - 1;
    vstd::arithmetic::div_mod::lemma_fundamental_div_mod(m, n);
    let q = m / n;
    assert(k <= q <==> k * n <= m) by (nonlinear_arith)
        requires
            m == n * q + m % n,
            0 <= m % n < n,
            0 < n,
            0 <= k,
    ;
}

/// The shards of a fleet share the features out: each feature is in the shard of its place modulo
/// the size of the fleet, once, and in no other, with its place in the whole collection.
pub proof fn shards_share_the_features_out(features: Seq<Tree>, n: nat, j: int)
    requires
        0 < n,
        0 <= j < features.len(),
    ensures
        ({
            let home = shard_features(features, (j % (n as int)) as nat, n);
            &&& 0 <= j / (n as int) && j / (n as int) < home.len()
            &&& home[j / (n as int)] == (j, features[j])
        }),
        forall|i: nat, k: int|
            i < n && 0 <= k < shard_features(features, i, n).len() && (
            #[trigger] shard_features(features, i, n)[k]).0 == j ==> i == j % (n as int) && k == j
                / (n as int),
{
    let len = features.len() as int;
    let (h, q) = (j % n as int, j / n as int);
    vstd::arithmetic::div_mod::lemma_fundamental_div_mod(j, n as int);
    vstd::arithmetic::div_mod::lemma_div_pos_is_pos(j, n as int);
    assert(q * n == n as int * q) by (nonlinear_arith);
    assert(0 <= h <= j) by (nonlinear_arith)
        requires
            j == n as int * q + h,
            0 <= q,
            0 <= h < n,
    ;
    lemma_shard_index(len, h, n as int, q);
    assert forall|i: nat, k: int|
        i < n && 0 <= k < shard_features(features, i, n).len() && (#[trigger] shard_features(
            features,
            i,
            n,
        )[k]).0 == j implies i == h && k == q by {
        vstd::arithmetic::div_mod::lemma_fundamental_div_mod_converse(j, n as int, k, i as int);
        assert(k * n == n as int * k) by (nonlinear_arith);
    }
}

/// The shards of a fleet are balanced: no two of them differ by more than one feature.
pub proof fn shards_are_balanced(len: nat, n: nat, a: nat, b: nat)
    requires
        a <= b < n,
    ensures
        shard_len(len, b, n) <= shard_len(len, a, n) <= shard_len(len, b, n) + 1,
{
    let m = n as int;
    if b < len {
        let (x, y) = (len - a - 1, len - b - 1);
        vstd::arithmetic::div_mod::lemma_div_is_ordered(y, x, m);
        vstd::arithmetic::div_mod::lemma_div_is_ordered(x, y + m, m);
        vstd::arithmetic::div_mod::lemma_div_plus_one(y, m);
    } else if a < len {
        vstd::arithmetic::div_mod::lemma_basic_div(len - a - 1, m);
    }
}

/// What a feature is called: by its own name, else by its project's, else by its place.
pub open spec fn name_of(idx: int, f: Tree) -> Seq<char> {
    match f.field("properties"@).field("id"@).as_text() {
        Some(id) => id,
        None => match f.field("properties"@).field("ProjectID"@).as_text() {
            Some(id) => id,
            None => decimal(idx as nat),
        },
    }
}

/// What a feature is called. Detection, verification and coverage all go by this.
pub fn feature_id(idx: usize, f: &Json) -> (r: String)
    ensures
        r@ == name_of(idx as int, f@),
{
    match f.field("properties") {
        Some(p) => match p.text_field("id") {
            Some(id) => id.clone(),
            None => match p.text_field("ProjectID") {
                Some(id) => id.clone(),
                None => to_decimal(idx as u64),
            },
        },
        None => to_decimal(idx as u64),
    }
}

/// The title of a feature, where it has one.
pub open spec fn title_of(f: Tree) -> Seq<char> {
    match f.field("properties"@).field("name"@).as_text() {
        Some(n) => n,
        None => or_empty(f.field("properties"@).field("TerminalName"@).as_text()),
    }
}

/// An area to search: the feature of a file, or a box.
#[derive(Debug)]
pub struct Aoi {
    pub id: String,
    pub name: String,
    pub bbox: Envelope,
    /// Whether its scenes are detected over their whole tile.
    pub full_tile: bool,
    /// The geometry of a feature, or that of a box.
    pub geometry: Json,
    /// The properties of a feature; an empty object where it has none.
    pub properties: Json,
    /// What the records of the area are kept under.
    pub key: String,
}

/// [`Aoi`], as mathematics.
pub ghost struct AoiView {
    pub id: Seq<char>,
    pub name: Seq<char>,
    pub bbox: Envelope,
    pub full_tile: bool,
    pub geometry: Tree,
    pub properties: Tree,
    pub key: Seq<char>,
}

impl View for Aoi {
    type V = AoiView;

    open spec fn view(&self) -> AoiView {
        AoiView {
            id: self.id@,
            name: self.name@,
            bbox: self.bbox,
            full_tile: self.full_tile,
            geometry: self.geometry@,
            properties: self.properties@,
            key: self.key@,
        }
    }
}

/// The members of an object; an empty object of anything else.
pub open spec fn object_of(t: Tree) -> Tree {
    match t {
        Tree::Object(_) => t,
        _ => Tree::Object(Seq::empty()),
    }
}

/// The area of a feature, with a box around it and a key.
pub open spec fn feature_area(idx: int, f: Tree, bbox: Envelope, key: Seq<char>) -> AoiView {
    AoiView {
        id: name_of(idx, f),
        name: title_of(f),
        bbox,
        full_tile: false,
        geometry: f.field("geometry"@),
        properties: object_of(f.field("properties"@)),
        key,
    }
}

/// The area of a box, with its geometry and a key: a region is detected over whole tiles, and any
/// other box over itself.
pub open spec fn box_area(bbox: Envelope, region: bool, drawn: Tree, key: Seq<char>) -> AoiView {
    AoiView {
        id: if region {
            "region"@
        } else {
            "aoi"@
        },
        name: Seq::empty(),
        bbox,
        full_tile: region,
        geometry: drawn,
        properties: Tree::Object(Seq::empty()),
        key,
    }
}

/// The area of a box.
pub fn boxed(bbox: Envelope, region: bool, drawn: &Json, key: &str) -> (r: Aoi)
    ensures
        r@ == box_area(bbox, region, drawn@, key@),
{
    let members: Vec<(String, Json)> = Vec::new();
    proof {
        assert(members_of(members@) =~= Seq::empty());
    }
    Aoi {
        id: if region {
            "region".to_owned()
        } else {
            "aoi".to_owned()
        },
        name: String::new(),
        bbox,
        full_tile: region,
        geometry: drawn.copy(),
        properties: object_value(members),
        key: key.to_owned(),
    }
}

/// The area of a feature.
pub fn featured(idx: usize, f: &Json, bbox: Envelope, key: &str) -> (r: Aoi)
    ensures
        r@ == feature_area(idx as int, f@, bbox, key@),
{
    let geometry = match f.field("geometry") {
        Some(g) => g.copy(),
        None => Json::Null,
    };
    let mut name = String::new();
    let empty: Vec<(String, Json)> = Vec::new();
    proof {
        assert(members_of(empty@) =~= Seq::empty());
    }
    let mut properties = object_value(empty);
    match f.field("properties") {
        Some(p) => {
            match p.text_field("name") {
                Some(n) => {
                    name = n.clone();
                },
                None => match p.text_field("TerminalName") {
                    Some(n) => {
                        name = n.clone();
                    },
                    None => {},
                },
            }
            match p {
                Json::Object(_) => {
                    properties = p.copy();
                },
                _ => {},
            }
        },
        None => {},
    }
    Aoi {
        id: feature_id(idx, f),
        name,
        bbox,
        full_tile: false,
        geometry,
        properties,
        key: key.to_owned(),
    }
}

/// Areas, as mathematics.
pub open spec fn area_views(v: Seq<Aoi>) -> Seq<AoiView> {
    v.map_values(|a: Aoi| a@)
}

/// The areas of a run: the region where one is given, else the box, else each feature, with the box
/// around it.
pub open spec fn areas_of(
    region: Option<Envelope>,
    bbox: Option<Envelope>,
    drawn: Tree,
    features: Seq<(int, Tree)>,
    boxes: Seq<Envelope>,
    keys: Seq<Seq<char>>,
) -> Seq<AoiView> {
    match region {
        Some(b) => seq![box_area(b, true, drawn, keys[0])],
        None => match bbox {
            Some(b) => seq![box_area(b, false, drawn, keys[0])],
            None => Seq::new(
                features.len(),
                |k: int| feature_area(features[k].0, features[k].1, boxes[k], keys[k]),
            ),
        },
    }
}

/// The areas of a run. `drawn` is the geometry of the region or of the box, `boxes` are the
/// envelopes of the features with the halo that was asked for around each, and `keys` are what the
/// records of the areas are kept under.
pub fn load_aois(
    region: Option<Envelope>,
    bbox: Option<Envelope>,
    drawn: &Json,
    features: &Vec<(usize, Json)>,
    boxes: &Vec<Envelope>,
    keys: &Vec<String>,
) -> (r: Vec<Aoi>)
    requires
        boxes@.len() == features@.len(),
        keys@.len() == if region is Some || bbox is Some {
            1
        } else {
            features@.len()
        },
    ensures
        area_views(r@) == areas_of(
            region,
            bbox,
            drawn@,
            feature_views(features@),
            boxes@,
            views(keys@),
        ),
{
    let mut out: Vec<Aoi> = Vec::new();
    let ghost want = areas_of(
        region,
        bbox,
        drawn@,
        feature_views(features@),
        boxes@,
        views(keys@),
    );
    match (region, bbox) {
        (Some(b), _) => {
            out.push(boxed(b, true, drawn, keys[0].as_str()));
            proof {
                assert(area_views(out@) =~= want);
            }
            return out;
        },
        (None, Some(b)) => {
            out.push(boxed(b, false, drawn, keys[0].as_str()));
            proof {
                assert(area_views(out@) =~= want);
            }
            return out;
        },
        (None, None) => {},
    }
    let ghost all = feature_views(features@);
    for i in 0..features.len()
        invariant
            all == feature_views(features@),
            boxes@.len() == features@.len(),
            keys@.len() == features@.len(),
            want == Seq::new(
                all.len(),
                |k: int| feature_area(all[k].0, all[k].1, boxes@[k], views(keys@)[k]),
            ),
            area_views(out@) =~= want.take(i as int),
    {
        let ghost before = area_views(out@);
        proof {
            assert(all[i as int] == (features@[i as int].0 as int, features@[i as int].1@));
        }
        out.push(featured(features[i].0, &features[i].1, boxes[i], keys[i].as_str()));
        proof {
            assert(area_views(out@) =~= before.push(want[i as int]));
        }
    }
    proof {
        assert(want.take(features@.len() as int) =~= want);
    }
    out
}

/// What the features of a run are called.
pub fn feature_ids(features: &Vec<(usize, Json)>) -> (r: Vec<String>)
    ensures
        views(r@) == feature_views(features@).map_values(|f: (int, Tree)| name_of(f.0, f.1)),
{
    let ghost all = feature_views(features@);
    let ghost f = |f: (int, Tree)| name_of(f.0, f.1);
    let mut out: Vec<String> = Vec::new();
    for i in 0..features.len()
        invariant
            all == feature_views(features@),
            f == (|f: (int, Tree)| name_of(f.0, f.1)),
            views(out@) =~= all.take(i as int).map_values(f),
    {
        let ghost before = views(out@);
        proof {
            assert(all[i as int] == (features@[i as int].0 as int, features@[i as int].1@));
        }
        out.push(feature_id(features[i].0, &features[i].1));
        proof {
            assert(views(out@) =~= before.push(f(all[i as int])));
        }
    }
    proof {
        assert(all.take(features@.len() as int) =~= all);
    }
    out
}

/// The window of a scene that an area's detection looks at: the whole tile, or the area's own
/// envelope.
pub fn det_bbox(aoi: &Aoi, item: &Item) -> (r: Envelope)
    ensures
        r == window_of(aoi@, item.bbox),
        r == if aoi.full_tile {
            item.bbox
        } else {
            aoi.bbox
        },
{
    if aoi.full_tile {
        item.bbox
    } else {
        aoi.bbox
    }
}

/// A window of a scene's raster, in pixels of ten metres: its upper left corner and its size.
#[derive(Clone, Copy, Debug)]
pub struct Chip {
    pub min_x: Real,
    pub max_y: Real,
    pub width: u32,
    pub height: u32,
}

/// The corners of an area's envelope.
pub fn corners(bbox: &Envelope) -> (r: Vec<Pair>)
    ensures
        r@ == corners_of(*bbox),
        r@ == seq![
            Pair { x: bbox.west, y: bbox.south },
            Pair { x: bbox.west, y: bbox.north },
            Pair { x: bbox.east, y: bbox.south },
            Pair { x: bbox.east, y: bbox.north },
        ],
{
    let r = vec![
        Pair { x: bbox.west, y: bbox.south },
        Pair { x: bbox.west, y: bbox.north },
        Pair { x: bbox.east, y: bbox.south },
        Pair { x: bbox.east, y: bbox.north },
    ];
    proof {
        assert(r@ =~= seq![
            Pair { x: bbox.west, y: bbox.south },
            Pair { x: bbox.west, y: bbox.north },
            Pair { x: bbox.east, y: bbox.south },
            Pair { x: bbox.east, y: bbox.north },
        ]);
    }
    r
}

/// Whether a point is on a chip.
pub open spec fn on_chip(p: Pair, chip: Chip) -> bool {
    &&& chip.min_x.is_le(p.x)
    &&& p.x.is_le(chip.min_x.sum(Real::of_count((chip.width * 10) as nat)))
    &&& p.y.is_le(chip.max_y)
    &&& chip.max_y.sum(Real::of_count((chip.height * 10) as nat).negated()).is_le(p.y)
}

/// Whether an area fits on a chip, from its corners in the chip's coordinates. A whole tile fits on
/// none.
pub fn aoi_fits_chip(full_tile: bool, corners: &Vec<Pair>, chip: &Chip) -> (r: bool)
    ensures
        r == fits_chip(full_tile, corners@, *chip),
        r <==> !full_tile && (forall|k: int|
            0 <= k < corners@.len() ==> on_chip(#[trigger] corners@[k], *chip)),
{
    if full_tile {
        return false;
    }
    let east = chip.min_x.plus(Real::whole(chip.width as u64 * 10));
    let south = chip.max_y.minus(Real::whole(chip.height as u64 * 10));
    for i in 0..corners.len()
        invariant
            east == chip.min_x.sum(Real::of_count((chip.width * 10) as nat)),
            south == chip.max_y.sum(Real::of_count((chip.height * 10) as nat).negated()),
            forall|k: int| 0 <= k < i ==> on_chip(#[trigger] corners@[k], *chip),
    {
        let p = corners[i];
        if !(chip.min_x.le(p.x) && p.x.le(east) && p.y.le(chip.max_y) && south.le(p.y)) {
            proof {
                assert(!on_chip(corners@[i as int], *chip));
            }
            return false;
        }
    }
    true
}

/// The envelope of a geometry is no larger than its positions: each of its bounds is a number of
/// one of them.
pub proof fn an_envelope_touches_its_positions(p: Seq<(Real, Option<Real>)>)
    requires
        p.len() > 0,
        all_whole(p),
        forall|i: int| 0 <= i < p.len() ==> (#[trigger] p[i]).0.is_finite() && p[i].1->0.is_finite(),
    ensures
        exists|i: int| 0 <= i < p.len() && (#[trigger] p[i]).0 == extent_of(p).west,
        exists|i: int| 0 <= i < p.len() && (#[trigger] p[i]).0 == extent_of(p).east,
        exists|i: int| 0 <= i < p.len() && (#[trigger] p[i]).1 == Some(extent_of(p).south),
        exists|i: int| 0 <= i < p.len() && (#[trigger] p[i]).1 == Some(extent_of(p).north),
    decreases p.len(),
{
    let front = p.drop_last();
    let (e, all) = (extent_of(front), extent_of(p));
    let last = p[p.len() - 1];
    assert(last.0.is_finite() && last.1->0.is_finite() && last.1 is Some);
    if front.len() == 0 {
        assert(all.west == last.0 && all.east == last.0);
        assert(all.south == last.1->0 && all.north == last.1->0);
    } else {
        assert forall|i: int| 0 <= i < front.len() implies front[i] == #[trigger] p[i] by {}
        assert forall|i: int| 0 <= i < front.len() implies (#[trigger] front[i]).1 is Some by {
            assert(front[i] == p[i]);
        }
        assert forall|i: int| 0 <= i < front.len() implies (#[trigger] front[i]).0.is_finite()
            && front[i].1->0.is_finite() by {
            assert(front[i] == p[i]);
        }
        an_envelope_touches_its_positions(front);
        let w = choose|i: int| 0 <= i < front.len() && (#[trigger] front[i]).0 == e.west;
        let x = choose|i: int| 0 <= i < front.len() && (#[trigger] front[i]).0 == e.east;
        let y = choose|i: int| 0 <= i < front.len() && (#[trigger] front[i]).1 == Some(e.south);
        let n = choose|i: int| 0 <= i < front.len() && (#[trigger] front[i]).1 == Some(e.north);
        assert(p[w].0 == e.west && p[x].0 == e.east);
        assert(p[y].1 == Some(e.south) && p[n].1 == Some(e.north));
        assert(all.west == e.west || all.west == last.0);
        assert(all.east == e.east || all.east == last.0);
        assert(all.south == e.south || all.south == last.1->0);
        assert(all.north == e.north || all.north == last.1->0);
    }
}

/// A run over features has an area for each of them, in their order: with its own geometry and its
/// own properties, the box around it and the key of its records, called by its own name, else by
/// its project's, else by its place, and never detected over whole tiles.
pub proof fn each_feature_is_an_area(
    drawn: Tree,
    features: Seq<(int, Tree)>,
    boxes: Seq<Envelope>,
    keys: Seq<Seq<char>>,
    k: int,
)
    requires
        0 <= k < features.len(),
    ensures
        ({
            let areas = areas_of(None, None, drawn, features, boxes, keys);
            let a = areas[k];
            let f = features[k].1;
            let p = f.field("properties"@);
            let (id, project) = (p.field("id"@).as_text(), p.field("ProjectID"@).as_text());
            let (name, terminal) = (p.field("name"@).as_text(), p.field("TerminalName"@).as_text());
            &&& areas.len() == features.len()
            &&& id matches Some(x) ==> a.id == x
            &&& id is None ==> (project matches Some(x) ==> a.id == x)
            &&& id is None && project is None ==> a.id == decimal(features[k].0 as nat)
            &&& name matches Some(x) ==> a.name == x
            &&& name is None ==> (terminal matches Some(x) ==> a.name == x)
            &&& name is None && terminal is None ==> a.name.len() == 0
            &&& a.geometry == f.field("geometry"@)
            &&& p is Object ==> a.properties == p
            &&& !(p is Object) ==> a.properties == Tree::Object(Seq::empty())
            &&& !a.full_tile
            &&& a.bbox == boxes[k]
            &&& a.key == keys[k]
        }),
{
}

/// A run over a box has that box as its one area, whatever features there are, and a region goes
/// before any other box. Only a region is detected over whole tiles.
pub proof fn a_box_is_the_only_area(
    region: Option<Envelope>,
    bbox: Option<Envelope>,
    drawn: Tree,
    features: Seq<(int, Tree)>,
    boxes: Seq<Envelope>,
    keys: Seq<Seq<char>>,
)
    requires
        region is Some || bbox is Some,
    ensures
        ({
            let areas = areas_of(region, bbox, drawn, features, boxes, keys);
            let a = areas[0];
            &&& areas.len() == 1
            &&& region matches Some(b) ==> a.bbox == b && a.full_tile && a.id == "region"@
            &&& region is None ==> bbox == Some(a.bbox) && !a.full_tile && a.id == "aoi"@
            &&& a.geometry == drawn
            &&& a.properties == Tree::Object(Seq::empty())
            &&& a.name.len() == 0
            &&& a.key == keys[0]
        }),
{
}

/// A shard is read back from its own notation: member I of N, just where I is less than N.
pub proof fn a_shard_is_read_back(i: nat, n: nat)
    requires
        i <= usize::MAX,
        n <= usize::MAX,
    ensures
        shard_of(decimal(i) + seq!['/'] + decimal(n)) == if i < n {
            Ok::<(nat, nat), Seq<char>>((i, n))
        } else {
            Err("expected 0 <= I < N"@)
        },
{
    let (a, b) = (decimal(i), decimal(n));
    let s = a + seq!['/'] + b;
    a_number_is_read_back(i, usize::MAX as nat);
    a_number_is_read_back(n, usize::MAX as nat);
    assert forall|k: int| 0 <= k < a.len() implies #[trigger] s[k] != '/' by {
        assert(is_digit(a[k]));
    }
    lemma_place_at(s, '/', a.len() as int);
    assert(s.take(a.len() as int) =~= a);
    assert(s.skip(a.len() as int + 1) =~= b);
}

proof fn lemma_place_at(s: Seq<char>, c: char, n: int)
    requires
        0 <= n < s.len(),
        s[n] == c,
        forall|k: int| 0 <= k < n ==> #[trigger] s[k] != c,
    ensures
        place(s, c) == n,
    decreases n,
{
    if n > 0 {
        assert(s[0] != c);
        let t = s.drop_first();
        assert forall|k: int| 0 <= k < n - 1 implies #[trigger] t[k] != c by {
            assert(t[k] == s[k + 1]);
        }
        lemma_place_at(t, c, n - 1);
    }
}

/// A box is its four numbers from west to north, and there is none where one of them cannot be read
/// or where they are not four.
pub proof fn a_box_is_its_four_numbers(v: Seq<Result<Real, String>>)
    ensures
        box_of(v) is Ok <==> v.len() == 4 && forall|k: int| 0 <= k < v.len() ==> (#[trigger] v[k]) is Ok,
        box_of(v) matches Ok(b) ==> v[0] == Ok::<Real, String>(b.west) && v[1] == Ok::<Real, String>(
            b.south,
        ) && v[2] == Ok::<Real, String>(b.east) && v[3] == Ok::<Real, String>(b.north),
{
    lemma_unreadable_bounds(v);
    let n = unreadable(v) as int;
    if n >= v.len() && v.len() == 4 {
        assert(v[0] is Ok && v[1] is Ok && v[2] is Ok && v[3] is Ok);
    }
}

proof fn lemma_unreadable_bounds(v: Seq<Result<Real, String>>)
    ensures
        unreadable(v) <= v.len(),
        unreadable(v) < v.len() ==> v[unreadable(v) as int] is Err,
        forall|k: int| 0 <= k < unreadable(v) ==> (#[trigger] v[k]) is Ok,
    decreases v.len(),
{
    if v.len() > 0 && v[0] is Ok {
        let t = v.drop_first();
        lemma_unreadable_bounds(t);
        assert forall|k: int| 0 <= k < unreadable(v) implies (#[trigger] v[k]) is Ok by {
            if k > 0 {
                assert(v[k] == t[k - 1]);
            }
        }
    }
}

/// The positions of some coordinates are those of their parts, and nothing else: an array that
/// begins with a number and has another value is one position, and any other array has the
/// positions of its elements.
pub proof fn positions_are_those_of_the_parts(a: Seq<Tree>, p: (Real, Option<Real>))
    ensures
        a.len() >= 2 && a[0].as_real() is Some ==> positions(Tree::Array(a)) == seq![
            (a[0].as_real()->0, a[1].as_real()),
        ],
        a.len() < 2 || a[0].as_real() is None ==> (positions(Tree::Array(a)).contains(p)
            <==> exists|k: int| 0 <= k < a.len() && (#[trigger] positions(a[k])).contains(p)),
{
    if a.len() < 2 || a[0].as_real() is None {
        lemma_positions_among(a, a.len(), p);
    }
}

proof fn lemma_positions_among(a: Seq<Tree>, n: nat, p: (Real, Option<Real>))
    requires
        n <= a.len(),
    ensures
        positions_among(a, n).contains(p) <==> exists|k: int|
            0 <= k < n && (#[trigger] positions(a[k])).contains(p),
    decreases n,
{
    if n > 0 {
        let before = positions_among(a, (n - 1) as nat);
        let here = positions(a[n - 1]);
        lemma_positions_among(a, (n - 1) as nat, p);
        let all = before + here;
        if before.contains(p) {
            let k = choose|k: int| 0 <= k < before.len() && before[k] == p;
            assert(all[k] == p);
        }
        if here.contains(p) {
            let k = choose|k: int| 0 <= k < here.len() && here[k] == p;
            assert(all[before.len() + k] == p);
        }
        if all.contains(p) {
            let k = choose|k: int| 0 <= k < all.len() && all[k] == p;
            if k < before.len() {
                assert(before[k] == p);
            } else {
                assert(here[k - before.len()] == p);
            }
        }
    }
}

/// A point is on a chip just where it is within ten metres for every pixel of its upper left
/// corner, to the east and to the south.
pub proof fn a_chip_reaches_ten_metres_a_pixel(p: Pair, chip: Chip)
    ensures
        on_chip(p, chip) <==> {
            let east = chip.min_x.sum(Real::of_count((10 * chip.width) as nat));
            let south = chip.max_y.sum(Real::of_count((10 * chip.height) as nat).negated());
            &&& chip.min_x.is_le(p.x) && p.x.is_le(east)
            &&& south.is_le(p.y) && p.y.is_le(chip.max_y)
        },
{
}

/// The texts of a box are what stands between its commas, without the spaces around it.
pub open spec fn box_texts(s: Seq<char>) -> Seq<Seq<char>> {
    parts(s, ',').map_values(|t: Seq<char>| trimmed(t))
}

/// The numbers of a box are read back from a list of them, whatever spaces stand around each.
pub proof fn the_texts_of_a_box_are_read_back(
    list: Seq<Seq<char>>,
    before: Seq<char>,
    after: Seq<char>,
    k: int,
)
    requires
        list.len() > 0,
        forall|i: int|
            0 <= i < list.len() ==> !(#[trigger] list[i]).contains(',') && list[i].len() > 0 && !is_space(
                list[i][0],
            ) && !is_space(list[i].last()),
        forall|i: int| 0 <= i < before.len() ==> is_space(#[trigger] before[i]),
        forall|i: int| 0 <= i < after.len() ==> is_space(#[trigger] after[i]),
        0 <= k < list.len(),
    ensures
        ({
            let spaced = list.map_values(|t: Seq<char>| before + t + after);
            let texts = box_texts(joined(spaced, seq![',']));
            texts.len() == list.len() && texts[k] == list[k]
        }),
{
    let spaced = list.map_values(|t: Seq<char>| before + t + after);
    assert forall|i: int| 0 <= i < spaced.len() implies !(#[trigger] spaced[i]).contains(',') by {
        let t = list[i];
        assert forall|j: int| 0 <= j < spaced[i].len() implies spaced[i][j] != ',' by {
            if j < before.len() {
                assert(is_space(before[j]));
            } else if j < before.len() + t.len() {
                assert(t.contains(t[j - before.len()]));
            } else {
                assert(is_space(after[j - before.len() - t.len()]));
            }
        }
    }
    joined_texts_are_taken_apart(spaced, ',');
    assert(!list[k].contains(',') && list[k].len() > 0);
    lemma_trimmed(before, list[k], after);
}

proof fn lemma_trimmed(before: Seq<char>, t: Seq<char>, after: Seq<char>)
    requires
        t.len() > 0,
        !is_space(t[0]),
        !is_space(t.last()),
        forall|i: int| 0 <= i < before.len() ==> is_space(#[trigger] before[i]),
        forall|i: int| 0 <= i < after.len() ==> is_space(#[trigger] after[i]),
    ensures
        trimmed(before + t + after) == t,
    decreases before.len() + after.len(),
{
    let p = |c: char| is_space(c);
    let s = before + t + after;
    if before.len() > 0 {
        let rest = before.drop_first();
        assert(is_space(before[0]));
        assert forall|i: int| 0 <= i < rest.len() implies is_space(#[trigger] rest[i]) by {
            assert(rest[i] == before[i + 1]);
        }
        assert(s.drop_first() =~= rest + t + after);
        lemma_trimmed(rest, t, after);
        assert(after_leading(s, p) == after_leading(s.drop_first(), p));
    } else {
        assert(s =~= t + after);
        assert(after_leading(s, p) == s);
        if after.len() > 0 {
            let rest = after.drop_last();
            assert(is_space(after[after.len() - 1]));
            assert forall|i: int| 0 <= i < rest.len() implies is_space(#[trigger] rest[i]) by {
                assert(rest[i] == after[i]);
            }
            lemma_trimmed(before, t, rest);
            assert(s.drop_last() =~= before + t + rest);
            assert(after_leading(s.drop_last(), p) == s.drop_last());
            assert(before_trailing(s, p) == before_trailing(s.drop_last(), p));
        } else {
            assert(s =~= t);
        }
    }
}

/// Whether an area fits on a chip, from its corners.
pub open spec fn fits_chip(full_tile: bool, corners: Seq<Pair>, chip: Chip) -> bool {
    !full_tile && forall|k: int| 0 <= k < corners.len() ==> on_chip(#[trigger] corners[k], chip)
}

/// One corner beyond a chip is enough for an area not to fit on it, and an area whose corners are
/// all on it fits; a whole tile fits on none.
pub proof fn an_area_fits_with_all_its_corners(corners: Seq<Pair>, chip: Chip, p: Pair)
    ensures
        !fits_chip(true, corners, chip),
        !on_chip(p, chip) ==> !fits_chip(false, corners.push(p), chip),
        on_chip(p, chip) ==> fits_chip(false, corners.push(p), chip) == fits_chip(
            false,
            corners,
            chip,
        ),
        fits_chip(false, Seq::empty(), chip),
{
    let more = corners.push(p);
    assert(more[corners.len() as int] == p);
    if on_chip(p, chip) && fits_chip(false, more, chip) {
        assert forall|k: int| 0 <= k < corners.len() implies on_chip(#[trigger] corners[k], chip) by {
            assert(more[k] == corners[k]);
        }
    }
}

/// Whether an envelope is that of a geometry.
pub open spec fn is_extent(r: Option<Envelope>, geometry: Tree) -> bool {
    let p = positions(geometry.field("coordinates"@));
    if all_whole(p) {
        r == Some(extent_of(p))
    } else {
        r is None
    }
}

/// A geometry with a position that lacks its second number has no envelope; any other one has an
/// envelope that holds each of its positions.
pub proof fn a_geometry_is_held_by_its_envelope(r: Option<Envelope>, geometry: Tree, k: int)
    requires
        is_extent(r, geometry),
        0 <= k < positions(geometry.field("coordinates"@)).len(),
        forall|i: int|
            #![trigger positions(geometry.field("coordinates"@))[i]]
            0 <= i < positions(geometry.field("coordinates"@)).len() ==> !positions(
                geometry.field("coordinates"@),
            )[i].0.is_nan() && (positions(geometry.field("coordinates"@))[i].1 matches Some(y)
                ==> !y.is_nan()),
    ensures
        positions(geometry.field("coordinates"@))[k].1 is None ==> r is None,
        r is None ==> exists|i: int|
            0 <= i < positions(geometry.field("coordinates"@)).len() && (#[trigger] positions(
                geometry.field("coordinates"@),
            )[i]).1 is None,
        r matches Some(e) ==> (positions(geometry.field("coordinates"@))[k].1 matches Some(y) && holds(
            e,
            positions(geometry.field("coordinates"@))[k].0,
            y,
        )),
{
    let p = positions(geometry.field("coordinates"@));
    if all_whole(p) {
        assert(p[k].1 is Some);
        assert forall|i: int| 0 <= i < p.len() implies !(#[trigger] p[i]).0.is_nan()
            && !p[i].1->0.is_nan() by {
            assert(p[i].1 is Some);
        }
        an_envelope_holds_its_positions(p, k);
    }
}

/// The corners of an envelope.
pub open spec fn corners_of(e: Envelope) -> Seq<Pair> {
    seq![
        Pair { x: e.west, y: e.south },
        Pair { x: e.west, y: e.north },
        Pair { x: e.east, y: e.south },
        Pair { x: e.east, y: e.north },
    ]
}

/// A point is a corner of an envelope just where it is on one of its sides in either direction.
pub proof fn corners_are_on_two_sides(e: Envelope, p: Pair)
    ensures
        corners_of(e).contains(p) <==> (p.x == e.west || p.x == e.east) && (p.y == e.south || p.y
            == e.north),
        corners_of(e).len() == 4,
{
    let c = corners_of(e);
    assert(c[0] == (Pair { x: e.west, y: e.south }));
    assert(c[1] == (Pair { x: e.west, y: e.north }));
    assert(c[2] == (Pair { x: e.east, y: e.south }));
    assert(c[3] == (Pair { x: e.east, y: e.north }));
}

/// The window of a scene that the detection of an area looks at.
pub open spec fn window_of(aoi: AoiView, tile: Envelope) -> Envelope {
    if aoi.full_tile {
        tile
    } else {
        aoi.bbox
    }
}

/// A region is looked at over the whole of each tile, and any other area over its own box.
pub proof fn a_region_is_looked_at_over_whole_tiles(
    region: Envelope,
    bbox: Envelope,
    drawn: Tree,
    features: Seq<(int, Tree)>,
    boxes: Seq<Envelope>,
    keys: Seq<Seq<char>>,
    tile: Envelope,
    k: int,
)
    requires
        0 <= k < features.len(),
    ensures
        window_of(areas_of(Some(region), Some(bbox), drawn, features, boxes, keys)[0], tile) == tile,
        window_of(areas_of(None, Some(bbox), drawn, features, boxes, keys)[0], tile) == bbox,
        window_of(areas_of(None, None, drawn, features, boxes, keys)[k], tile) == boxes[k],
{
}

} // verus!
