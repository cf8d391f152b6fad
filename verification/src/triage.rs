//! Deterministic triage of plume candidates.
//!
//! Every candidate is rejected on certain grounds, flagged on others, and scored by its flags; the
//! survivors come first, the best first. The probability of a detection is a floor only, never a
//! weight: artefacts score as high as the real thing.
use crate::number::{
    a_ratio_is_encoded, a_sum_is_rounded_past_no_number, order_is_order_of_sizes,
    sum_keeps_direction, sum_moves, the_next_exponent_doubles, Pair, Real, IMPLICIT,
};
use crate::text::{is_before, precedes, same};
use vstd::arithmetic::power2::{
    lemma2_to64, lemma2_to64_rest, lemma_pow2_adds, lemma_pow2_pos, lemma_pow2_strictly_increases,
    pow2,
};
use vstd::prelude::*;

verus! {

/// The probability under which nothing is a plume: 0.6.
pub const P_FLOOR: u64 = 0x3fe3_3333_3333_3333;

/// The rate at which quantification has collapsed: 1 kg/h.
pub const FLUX_ZERO_KG_H: u64 = 0x3ff0_0000_0000_0000;

/// The rate above which a source is implausible: 20,000 kg/h.
pub const FLUX_CAP_KG_H: u64 = 0x40d3_8800_0000_0000;

/// How near the facility a plume must set on: 500 m.
pub const ANCHOR_MAX_M: u64 = 0x407f_4000_0000_0000;

/// How far a plume may turn from the wind: 60 degrees.
pub const TAIL_MAX_DEG: u64 = 0x404e_0000_0000_0000;

/// The displacement below which a plume has no direction: 30 m.
pub const MIN_DISP_M: u64 = 0x403e_0000_0000_0000;

/// The wind under which a plume must be displaced: 5 m/s.
pub const STRONG_WIND_MS: u64 = 0x4014_0000_0000_0000;

/// How near to each other two masks are at the same place: 250 m.
pub const RECUR_RADIUS_M: u64 = 0x406f_4000_0000_0000;

/// By how much two winds differ at least for the same place to tell: 45 degrees.
pub const RECUR_WIND_DEG: u64 = 0x4046_8000_0000_0000;

/// The sun elevation of the winter regime: 20 degrees.
pub const SUN_FLOOR_DEG: u64 = 0x4034_0000_0000_0000;

/// How clear a scene must be: 40 %.
pub const CLEAR_FLOOR_PCT: u64 = 0x4044_0000_0000_0000;

/// The share of a mask along a linear feature that rejects it: 0.5.
pub const COLLINEAR_REJECT: u64 = 0x3fe0_0000_0000_0000;

/// The share of a mask along a linear feature that flags it: 0.25.
pub const COLLINEAR_FLAG: u64 = 0x3fd0_0000_0000_0000;

/// The score of a candidate without a flag.
pub const ONE: u64 = 0x3ff0_0000_0000_0000;

/// A weight of 0.25.
pub const QUARTER: u64 = 0x3fd0_0000_0000_0000;

/// A weight of 0.2.
pub const FIFTH: u64 = 0x3fc9_9999_9999_999a;

/// A weight of 0.15.
pub const THREE_TWENTIETHS: u64 = 0x3fc3_3333_3333_3333;

/// A weight of 0.1.
pub const TENTH: u64 = 0x3fb9_9999_9999_999a;

/// One detected plume.
#[derive(Clone, Debug)]
pub struct PlumeCandidate {
    /// Target, date and plume, the key that curation goes by.
    pub key: String,
    pub target: String,
    pub date: String,
    /// The centroid of the mask, weighted by probability (longitude, latitude).
    pub centre: Pair,
    /// The point of the mask that is nearest to the facility: where the plume sets on.
    pub origin: Pair,
    /// From the onset to the facility, in metres.
    pub anchor_m: Real,
    /// The wind, to the east and to the north, in metres a second.
    pub wind: Pair,
    pub max_p: Real,
    pub flux_kg_h: Real,
    pub clear_percent: Real,
    pub sun_elevation: Option<Real>,
    pub swath_edge: bool,
    /// Whether the background scene is of another relative orbit than the scene, and so views the
    /// surface from another angle.
    pub cross_orbit_bg: bool,
    /// How much of the mask follows a linear feature; nothing where that could not be told.
    pub collinearity: Option<Real>,
}

/// What is measured of one candidate: the speed of its wind, how far its centre is from its onset,
/// and by how many degrees that displacement turns from the wind, where both have a direction.
#[derive(Clone, Copy, Debug)]
pub struct Drift {
    pub speed: Real,
    pub displacement_m: Real,
    pub turn_deg: Option<Real>,
}

/// What is measured of two candidates, by their places: how far apart their centres are, and by how
/// many degrees their winds differ, where both blow.
#[derive(Clone, Copy, Debug)]
pub struct Apart {
    pub a: usize,
    pub b: usize,
    pub distance_m: Real,
    pub turn_deg: Option<Real>,
}

/// What triage says of a candidate.
#[derive(Debug)]
pub struct Verdict {
    /// The place of the candidate among all of them.
    pub idx: usize,
    pub key: String,
    /// From zero to one; zero for rejects.
    pub score: Real,
    pub rejects: Vec<&'static str>,
    pub flags: Vec<&'static str>,
}

/// [`Verdict`], as mathematics.
pub ghost struct VerdictView {
    pub idx: int,
    pub key: Seq<char>,
    pub score: Real,
    pub rejects: Seq<Seq<char>>,
    pub flags: Seq<Seq<char>>,
}

/// Words, as mathematics.
pub open spec fn word_views(v: Seq<&'static str>) -> Seq<Seq<char>> {
    v.map_values(|s: &'static str| s@)
}

impl View for Verdict {
    type V = VerdictView;

    open spec fn view(&self) -> VerdictView {
        VerdictView {
            idx: self.idx as int,
            key: self.key@,
            score: self.score,
            rejects: word_views(self.rejects@),
            flags: word_views(self.flags@),
        }
    }
}

/// `a < b`, for a threshold by its encoding.
pub open spec fn below(a: Real, b: u64) -> bool {
    a.is_lt(Real { bits: b })
}

/// `a > b`, for a threshold by its encoding.
pub open spec fn above(a: Real, b: u64) -> bool {
    (Real { bits: b }).is_lt(a)
}

/// `a >= b`, for a threshold by its encoding.
pub open spec fn reaches(a: Real, b: u64) -> bool {
    (Real { bits: b }).is_le(a)
}

/// A word, where it applies.
pub open spec fn word(applies: bool, w: Seq<char>) -> Seq<Seq<char>> {
    if applies {
        seq![w]
    } else {
        Seq::empty()
    }
}

/// A flag and its weight, where it applies.
pub open spec fn flag(applies: bool, w: Seq<char>, weight: u64) -> Seq<(Seq<char>, Real)> {
    if applies {
        seq![(w, Real { bits: weight })]
    } else {
        Seq::empty()
    }
}

/// Whether two candidates are of the same target on different days.
pub open spec fn comparable(c: Seq<PlumeCandidate>, a: int, b: int) -> bool {
    &&& 0 <= a < c.len()
    &&& 0 <= b < c.len()
    &&& c[a].target@ == c[b].target@
    &&& c[a].date@ != c[b].date@
}

/// Whether two masks are at the same place under winds that blow elsewhere.
pub open spec fn pinned(m: Apart) -> bool {
    below(m.distance_m, RECUR_RADIUS_M) && (m.turn_deg matches Some(d) && above(d, RECUR_WIND_DEG))
}

/// Whether the mask of a candidate is at the same place on another day under another wind: then it
/// is a fixed feature, and no plume.
pub open spec fn recurs(c: Seq<PlumeCandidate>, i: int, apart: Seq<Apart>) -> bool {
    exists|k: int|
        0 <= k < apart.len() && (#[trigger] apart[k]).a == i && comparable(
            c,
            i,
            apart[k].b as int,
        ) && pinned(apart[k])
}

/// Whether the candidates of one day are of more than one target.
pub open spec fn in_regime(c: Seq<PlumeCandidate>, i: int) -> bool {
    exists|j: int|
        0 <= j < c.len() && (#[trigger] c[j]).date@ == c[i].date@ && c[j].target@ != c[i].target@
}

/// The grounds on which a candidate is rejected.
#[verifier::opaque]
pub open spec fn rejects_of(x: PlumeCandidate, recurrent: bool) -> Seq<Seq<char>> {
    word(below(x.max_p, P_FLOOR), "p-floor"@) + word(
        x.flux_kg_h.is_le(Real { bits: FLUX_ZERO_KG_H }),
        "zero-flux"@,
    ) + word(recurrent, "recurrent"@) + word(
        x.collinearity matches Some(v) && reaches(v, COLLINEAR_REJECT),
        "collinear"@,
    )
}

/// The grounds on which a candidate is flagged, each with its weight.
#[verifier::opaque]
pub open spec fn flags_of(x: PlumeCandidate, d: Drift, regime: bool) -> Seq<(Seq<char>, Real)> {
    flag(
        x.collinearity matches Some(v) && !reaches(v, COLLINEAR_REJECT) && reaches(
            v,
            COLLINEAR_FLAG,
        ),
        "boundary"@,
        QUARTER,
    ) + flag(above(x.anchor_m, ANCHOR_MAX_M), "unanchored"@, QUARTER) + flag(
        reaches(d.displacement_m, MIN_DISP_M) && (d.turn_deg matches Some(t) && above(
            t,
            TAIL_MAX_DEG,
        )),
        "crosswind"@,
        QUARTER,
    ) + flag(
        below(d.displacement_m, MIN_DISP_M) && reaches(d.speed, STRONG_WIND_MS),
        "static"@,
        FIFTH,
    ) + flag(regime, "scene-regime"@, FIFTH) + flag(
        above(x.flux_kg_h, FLUX_CAP_KG_H),
        "magnitude"@,
        FIFTH,
    ) + flag(
        x.sun_elevation matches Some(s) && below(s, SUN_FLOOR_DEG),
        "low-sun"@,
        THREE_TWENTIETHS,
    ) + flag(below(x.clear_percent, CLEAR_FLOOR_PCT), "cloud-residue"@, TENTH) + flag(
        x.swath_edge,
        "swath-edge"@,
        TENTH,
    ) + flag(x.cross_orbit_bg, "cross-orbit-bg"@, QUARTER)
}

/// The weights of some flags, added one after the other.
pub open spec fn weight_of(flags: Seq<(Seq<char>, Real)>) -> Real
    decreases flags.len(),
{
    if flags.len() == 0 {
        Real { bits: 0 }
    } else {
        weight_of(flags.drop_last()).sum(flags.last().1)
    }
}

/// One less the weight of its flags, and not less than zero; zero for a reject.
pub open spec fn score_of(rejected: bool, flags: Seq<(Seq<char>, Real)>) -> Real {
    if rejected {
        Real { bits: 0 }
    } else {
        (Real { bits: ONE }).sum(weight_of(flags).negated()).larger(Real { bits: 0 })
    }
}

/// What triage says of one candidate among all of them.
pub open spec fn judged(
    c: Seq<PlumeCandidate>,
    drift: Seq<Drift>,
    apart: Seq<Apart>,
    i: int,
) -> VerdictView {
    let rejects = rejects_of(c[i], recurs(c, i, apart));
    let flags = flags_of(c[i], drift[i], in_regime(c, i));
    VerdictView {
        idx: i,
        key: c[i].key@,
        score: score_of(rejects.len() > 0, flags),
        rejects,
        flags: flags.map_values(|f: (Seq<char>, Real)| f.0),
    }
}

/// Whether one verdict comes before another: survivors before rejects, then the higher score, then
/// the key, then the place among the candidates.
pub open spec fn ahead(a: VerdictView, b: VerdictView) -> bool {
    let (ra, rb) = (a.rejects.len() > 0, b.rejects.len() > 0);
    if ra != rb {
        rb
    } else if b.score.is_lt(a.score) {
        true
    } else if a.score.is_lt(b.score) {
        false
    } else if a.key != b.key {
        precedes(a.key, b.key)
    } else {
        a.idx < b.idx
    }
}

/// Whether one pair of places comes before another.
pub open spec fn pair_before(p: (usize, usize), q: (usize, usize)) -> bool {
    p.0 < q.0 || (p.0 == q.0 && p.1 < q.1)
}

/// The places of the candidates that are to be compared with each other, pair by pair, in order.
pub fn comparisons(c: &Vec<PlumeCandidate>) -> (r: Vec<(usize, usize)>)
    ensures
        forall|k: int, m: int|
            0 <= k < m < r@.len() ==> pair_before(#[trigger] r@[k], #[trigger] r@[m]),
        forall|k: int|
            0 <= k < r@.len() ==> comparable(c@, (#[trigger] r@[k]).0 as int, r@[k].1 as int),
        forall|a: int, b: int|
            #[trigger] comparable(c@, a, b) ==> r@.contains((a as usize, b as usize)),
{
    let mut out: Vec<(usize, usize)> = Vec::new();
    for i in 0..c.len()
        invariant
            forall|k: int, m: int|
                0 <= k < m < out@.len() ==> pair_before(#[trigger] out@[k], #[trigger] out@[m]),
            forall|k: int| 0 <= k < out@.len() ==> (#[trigger] out@[k]).0 < i,
            forall|k: int|
                0 <= k < out@.len() ==> comparable(
                    c@,
                    (#[trigger] out@[k]).0 as int,
                    out@[k].1 as int,
                ),
            forall|a: int, b: int|
                a < i && #[trigger] comparable(c@, a, b) ==> out@.contains((a as usize, b as usize)),
    {
        for j in 0..c.len()
            invariant
                i < c@.len(),
                forall|k: int, m: int|
                    0 <= k < m < out@.len() ==> pair_before(#[trigger] out@[k], #[trigger] out@[m]),
                forall|k: int| 0 <= k < out@.len() ==> pair_before(#[trigger] out@[k], (i, j)),
                forall|k: int|
                    0 <= k < out@.len() ==> comparable(
                        c@,
                        (#[trigger] out@[k]).0 as int,
                        out@[k].1 as int,
                    ),
                forall|a: int, b: int|
                    (a < i || (a == i && b < j)) && #[trigger] comparable(c@, a, b)
                        ==> out@.contains((a as usize, b as usize)),
        {
            if same(c[i].target.as_str(), c[j].target.as_str()) && !same(
                c[i].date.as_str(),
                c[j].date.as_str(),
            ) {
                let ghost before = out@;
                out.push((i, j));
                proof {
                    assert forall|a: int, b: int|
                        (a < i || (a == i && b <= j)) && #[trigger] comparable(
                            c@,
                            a,
                            b,
                        ) implies out@.contains((a as usize, b as usize)) by {
                        if a == i && b == j {
                            assert(out@[before.len() as int] == (a as usize, b as usize));
                        } else {
                            assert(before.contains((a as usize, b as usize)));
                            let k = choose|k: int|
                                0 <= k < before.len() && before[k] == (a as usize, b as usize);
                            assert(out@[k] == (a as usize, b as usize));
                        }
                    }
                }
            }
        }
    }
    out
}

fn is_recurrent(c: &Vec<PlumeCandidate>, i: usize, apart: &Vec<Apart>) -> (r: bool)
    requires
        i < c@.len(),
    ensures
        r == recurs(c@, i as int, apart@),
{
    for k in 0..apart.len()
        invariant
            i < c@.len(),
            forall|m: int|
                0 <= m < k ==> !((#[trigger] apart@[m]).a == i && comparable(
                    c@,
                    i as int,
                    apart@[m].b as int,
                ) && pinned(apart@[m])),
    {
        let m = apart[k];
        let turned = match m.turn_deg {
            Some(d) => (Real { bits: RECUR_WIND_DEG }).lt(d),
            None => false,
        };
        if m.a == i && m.b < c.len() && turned && m.distance_m.lt(Real { bits: RECUR_RADIUS_M })
            && same(c[i].target.as_str(), c[m.b].target.as_str()) && !same(
            c[i].date.as_str(),
            c[m.b].date.as_str(),
        ) {
            return true;
        }
    }
    false
}

fn is_in_regime(c: &Vec<PlumeCandidate>, i: usize) -> (r: bool)
    requires
        i < c@.len(),
    ensures
        r == in_regime(c@, i as int),
{
    for j in 0..c.len()
        invariant
            i < c@.len(),
            forall|m: int|
                0 <= m < j ==> !((#[trigger] c@[m]).date@ == c@[i as int].date@ && c@[m].target@
                    != c@[i as int].target@),
    {
        if same(c[j].date.as_str(), c[i].date.as_str()) && !same(
            c[j].target.as_str(),
            c[i].target.as_str(),
        ) {
            return true;
        }
    }
    false
}

/// The flags raised so far, and what they weigh together.
struct Tally {
    names: Vec<&'static str>,
    weight: Real,
}

impl Tally {
    spec fn holds(self, flags: Seq<(Seq<char>, Real)>) -> bool {
        &&& word_views(self.names@) == flags.map_values(|f: (Seq<char>, Real)| f.0)
        &&& self.weight == weight_of(flags)
    }

    fn raise(
        &mut self,
        applies: bool,
        name: &'static str,
        weight: u64,
        Ghost(flags): Ghost<Seq<(Seq<char>, Real)>>,
    )
        requires
            old(self).holds(flags),
        ensures
            final(self).holds(flags + flag(applies, name@, weight)),
    {
        let ghost more = flags + flag(applies, name@, weight);
        if applies {
            let ghost before = word_views(self.names@);
            self.names.push(name);
            self.weight = self.weight.plus(Real { bits: weight });
            proof {
                assert(word_views(self.names@) =~= before.push(name@));
                assert(more.drop_last() =~= flags);
                assert(more.map_values(|f: (Seq<char>, Real)| f.0) =~= before.push(name@));
            }
        } else {
            proof {
                assert(more =~= flags);
            }
        }
    }
}

fn grounds(x: &PlumeCandidate, recurrent: bool) -> (r: Vec<&'static str>)
    ensures
        word_views(r@) == rejects_of(*x, recurrent),
{
    let faint = x.max_p.lt(Real { bits: P_FLOOR });
    let still = x.flux_kg_h.le(Real { bits: FLUX_ZERO_KG_H });
    let collinear = match x.collinearity {
        Some(v) => (Real { bits: COLLINEAR_REJECT }).le(v),
        None => false,
    };
    let mut rejects: Vec<&'static str> = Vec::new();
    if faint {
        rejects.push("p-floor");
    }
    if still {
        rejects.push("zero-flux");
    }
    if recurrent {
        rejects.push("recurrent");
    }
    if collinear {
        rejects.push("collinear");
    }
    proof {
        reveal(rejects_of);
        assert(word_views(rejects@) =~= word(faint, "p-floor"@) + word(still, "zero-flux"@) + word(
            recurrent,
            "recurrent"@,
        ) + word(collinear, "collinear"@));
    }
    rejects
}

fn raised(x: &PlumeCandidate, d: Drift, regime: bool) -> (r: Tally)
    ensures
        r.holds(flags_of(*x, d, regime)),
{
    let boundary = match x.collinearity {
        Some(v) => !(Real { bits: COLLINEAR_REJECT }).le(v) && (Real { bits: COLLINEAR_FLAG }).le(
            v,
        ),
        None => false,
    };
    let unanchored = (Real { bits: ANCHOR_MAX_M }).lt(x.anchor_m);
    let crosswind = match d.turn_deg {
        Some(t) => (Real { bits: MIN_DISP_M }).le(d.displacement_m) && (Real {
            bits: TAIL_MAX_DEG,
        }).lt(t),
        None => false,
    };
    let fixed = d.displacement_m.lt(Real { bits: MIN_DISP_M }) && (Real {
        bits: STRONG_WIND_MS,
    }).le(d.speed);
    let large = (Real { bits: FLUX_CAP_KG_H }).lt(x.flux_kg_h);
    let low_sun = match x.sun_elevation {
        Some(s) => s.lt(Real { bits: SUN_FLOOR_DEG }),
        None => false,
    };
    let cloudy = x.clear_percent.lt(Real { bits: CLEAR_FLOOR_PCT });
    let mut t = Tally { names: Vec::new(), weight: Real { bits: 0 } };
    let ghost none = Seq::<(Seq<char>, Real)>::empty();
    let ghost f1 = flag(boundary, "boundary"@, QUARTER);
    let ghost f2 = f1 + flag(unanchored, "unanchored"@, QUARTER);
    let ghost f3 = f2 + flag(crosswind, "crosswind"@, QUARTER);
    let ghost f4 = f3 + flag(fixed, "static"@, FIFTH);
    let ghost f5 = f4 + flag(regime, "scene-regime"@, FIFTH);
    let ghost f6 = f5 + flag(large, "magnitude"@, FIFTH);
    let ghost f7 = f6 + flag(low_sun, "low-sun"@, THREE_TWENTIETHS);
    let ghost f8 = f7 + flag(cloudy, "cloud-residue"@, TENTH);
    let ghost f9 = f8 + flag(x.swath_edge, "swath-edge"@, TENTH);
    proof {
        reveal(flags_of);
        assert(word_views(t.names@) =~= none.map_values(|f: (Seq<char>, Real)| f.0));
        assert(none + f1 =~= f1);
    }
    t.raise(boundary, "boundary", QUARTER, Ghost(none));
    t.raise(unanchored, "unanchored", QUARTER, Ghost(f1));
    t.raise(crosswind, "crosswind", QUARTER, Ghost(f2));
    t.raise(fixed, "static", FIFTH, Ghost(f3));
    t.raise(regime, "scene-regime", FIFTH, Ghost(f4));
    t.raise(large, "magnitude", FIFTH, Ghost(f5));
    t.raise(low_sun, "low-sun", THREE_TWENTIETHS, Ghost(f6));
    t.raise(cloudy, "cloud-residue", TENTH, Ghost(f7));
    t.raise(x.swath_edge, "swath-edge", TENTH, Ghost(f8));
    t.raise(x.cross_orbit_bg, "cross-orbit-bg", QUARTER, Ghost(f9));
    t
}

fn judge(c: &Vec<PlumeCandidate>, drift: &Vec<Drift>, apart: &Vec<Apart>, i: usize) -> (r: Verdict)
    requires
        i < c@.len(),
        drift@.len() == c@.len(),
    ensures
        r@ == judged(c@, drift@, apart@, i as int),
{
    let rejects = grounds(&c[i], is_recurrent(c, i, apart));
    let tally = raised(&c[i], drift[i], is_in_regime(c, i));
    let score = if rejects.len() > 0 {
        Real { bits: 0 }
    } else {
        (Real { bits: ONE }).minus(tally.weight).max(Real { bits: 0 })
    };
    Verdict { idx: i, key: c[i].key.clone(), score, rejects, flags: tally.names }
}

fn is_ahead(a: &Verdict, b: &Verdict) -> (r: bool)
    ensures
        r == ahead(a@, b@),
{
    let (ra, rb) = (a.rejects.len() > 0, b.rejects.len() > 0);
    if ra != rb {
        rb
    } else if b.score.lt(a.score) {
        true
    } else if a.score.lt(b.score) {
        false
    } else if !same(a.key.as_str(), b.key.as_str()) {
        is_before(a.key.as_str(), b.key.as_str())
    } else {
        a.idx < b.idx
    }
}

proof fn lemma_precedes_trans(a: Seq<char>, b: Seq<char>, c: Seq<char>)
    requires
        precedes(a, b),
        precedes(b, c),
    ensures
        precedes(a, c),
    decreases a.len(),
{
    if a.len() > 0 && a[0] == b[0] && b[0] == c[0] {
        lemma_precedes_trans(a.drop_first(), b.drop_first(), c.drop_first());
    }
}

proof fn lemma_precedes_total(a: Seq<char>, b: Seq<char>)
    ensures
        a != b ==> precedes(a, b) || precedes(b, a),
        !(precedes(a, b) && precedes(b, a)),
        !precedes(a, a),
    decreases a.len(),
{
    if a.len() > 0 && b.len() > 0 && a[0] == b[0] {
        if a.drop_first() == b.drop_first() {
            assert(a =~= seq![a[0]] + a.drop_first());
            assert(b =~= seq![b[0]] + b.drop_first());
        }
        lemma_precedes_total(a.drop_first(), b.drop_first());
    } else if a.len() == 0 && b.len() == 0 {
        assert(a =~= b);
    } else if a.len() > 0 {
        lemma_precedes_total(a.drop_first(), a.drop_first());
    }
}

/// Verdicts of different candidates are ordered, one way only, and the order is transitive.
pub proof fn the_ranking_is_total(a: VerdictView, b: VerdictView, c: VerdictView)
    requires
        !a.score.is_nan(),
        !b.score.is_nan(),
        !c.score.is_nan(),
    ensures
        a.idx != b.idx ==> (ahead(a, b) <==> !ahead(b, a)),
        !ahead(a, a),
        ahead(a, b) && ahead(b, c) ==> ahead(a, c),
{
    lemma_precedes_total(a.key, b.key);
    if ahead(a, b) && ahead(b, c) && precedes(a.key, b.key) && precedes(b.key, c.key) {
        lemma_precedes_trans(a.key, b.key, c.key);
        if a.key == c.key {
            lemma_precedes_total(a.key, b.key);
        }
    }
}

/// Whether there is a verdict on a candidate.
pub open spec fn is_judged(verdicts: Seq<Verdict>, i: int) -> bool {
    exists|k: int| 0 <= k < verdicts.len() && (#[trigger] verdicts[k])@.idx == i
}

/// Whether each verdict comes before all that follow it.
pub open spec fn ranked(verdicts: Seq<Verdict>) -> bool {
    forall|k: int, m: int|
        0 <= k < m < verdicts.len() ==> ahead(#[trigger] verdicts[k]@, #[trigger] verdicts[m]@)
}

fn place(out: &mut Vec<Verdict>, v: Verdict) -> (p: usize)
    requires
        ranked(old(out)@),
        !v.score.is_nan(),
        forall|k: int|
            0 <= k < old(out)@.len() ==> (#[trigger] old(out)@[k]).idx != v.idx && !old(
                out,
            )@[k].score.is_nan(),
    ensures
        p <= old(out)@.len(),
        final(out)@ == old(out)@.insert(p as int, v),
        ranked(final(out)@),
{
    let mut p: usize = 0;
    while p < out.len() && !is_ahead(&v, &out[p])
        invariant
            out@ == old(out)@,
            p <= out@.len(),
            forall|k: int| 0 <= k < p ==> !ahead(v@, (#[trigger] out@[k])@),
        ensures
            out@ == old(out)@,
            p <= out@.len(),
            forall|k: int| 0 <= k < p ==> !ahead(v@, (#[trigger] out@[k])@),
            p < out@.len() ==> ahead(v@, out@[p as int]@),
        decreases out@.len() - p,
    {
        p += 1;
    }
    let ghost before = out@;
    let ghost view = v@;
    out.insert(p, v);
    proof {
        assert forall|k: int, m: int| 0 <= k < m < out@.len() implies ahead(
            #[trigger] out@[k]@,
            #[trigger] out@[m]@,
        ) by {
            if k == p {
                assert(out@[m] == before[m - 1]);
                the_ranking_is_total(view, before[p as int]@, before[m - 1]@);
            } else if m == p {
                assert(out@[k] == before[k]);
                the_ranking_is_total(view, before[k]@, view);
            } else {
                let old_k = if k < p {
                    k
                } else {
                    k - 1
                };
                let old_m = if m < p {
                    m
                } else {
                    m - 1
                };
                assert(out@[k] == before[old_k]);
                assert(out@[m] == before[old_m]);
            }
        }
    }
    p
}

/// Scores every candidate and ranks them: survivors by score, the highest first, then rejects; ties
/// break on the key. Recurrence at a fixed place, and days on which several targets fire, are seen
/// over the whole set.
pub fn triage(c: &Vec<PlumeCandidate>, drift: &Vec<Drift>, apart: &Vec<Apart>) -> (r: Vec<Verdict>)
    requires
        drift@.len() == c@.len(),
    ensures
        is_triage(r@, c@, drift@, apart@),
        r@.len() == c@.len(),
        forall|k: int|
            0 <= k < r@.len() ==> 0 <= (#[trigger] r@[k])@.idx < c@.len() && r@[k]@ == judged(
                c@,
                drift@,
                apart@,
                r@[k]@.idx,
            ),
        forall|i: int| 0 <= i < c@.len() ==> #[trigger] is_judged(r@, i),
        ranked(r@),
{
    let mut out: Vec<Verdict> = Vec::new();
    for i in 0..c.len()
        invariant
            drift@.len() == c@.len(),
            out@.len() == i,
            forall|k: int|
                0 <= k < out@.len() ==> 0 <= (#[trigger] out@[k])@.idx < i && out@[k]@ == judged(
                    c@,
                    drift@,
                    apart@,
                    out@[k]@.idx,
                ) && !out@[k].score.is_nan(),
            forall|j: int| 0 <= j < i ==> #[trigger] is_judged(out@, j),
            ranked(out@),
    {
        let v = judge(c, drift, apart, i);
        let ghost before = out@;
        let p = place(&mut out, v);
        proof {
            assert forall|k: int| 0 <= k < out@.len() implies 0 <= (#[trigger] out@[k])@.idx < i + 1
                && out@[k]@ == judged(c@, drift@, apart@, out@[k]@.idx)
                && !out@[k].score.is_nan() by {
                if k < p {
                    assert(out@[k] == before[k]);
                } else if k > p {
                    assert(out@[k] == before[k - 1]);
                }
            }
            assert forall|j: int| 0 <= j < i + 1 implies #[trigger] is_judged(out@, j) by {
                if j == i {
                    assert(out@[p as int]@.idx == j);
                } else {
                    assert(is_judged(before, j));
                    let k = choose|k: int| 0 <= k < before.len() && (#[trigger] before[k])@.idx == j;
                    if k < p {
                        assert(out@[k]@.idx == j);
                    } else {
                        assert(out@[k + 1]@.idx == j);
                    }
                }
            }
        }
    }
    out
}

/// Whether there are at most so many flags, and each of them weighs from a tenth to a quarter.
spec fn light(flags: Seq<(Seq<char>, Real)>, most: int) -> bool {
    &&& flags.len() <= most
    &&& forall|k: int|
        0 <= k < flags.len() ==> TENTH <= (#[trigger] flags[k]).1.rank() <= QUARTER
            && !flags[k].1.is_negative()
}

proof fn lemma_light_more(flags: Seq<(Seq<char>, Real)>, most: int, applies: bool, w: Seq<char>, weight: u64)
    requires
        light(flags, most),
        TENTH <= weight <= QUARTER,
    ensures
        light(flags + flag(applies, w, weight), most + 1),
{
    let more = flags + flag(applies, w, weight);
    assert forall|k: int| 0 <= k < more.len() implies TENTH <= (#[trigger] more[k]).1.rank()
        <= QUARTER && !more[k].1.is_negative() by {
        if k < flags.len() {
            assert(more[k] == flags[k]);
        }
    }
}

proof fn lemma_flags_light(x: PlumeCandidate, d: Drift, regime: bool)
    ensures
        light(flags_of(x, d, regime), 10),
{
    reveal(flags_of);
    let boundary = x.collinearity matches Some(v) && !reaches(v, COLLINEAR_REJECT) && reaches(
        v,
        COLLINEAR_FLAG,
    );
    let crosswind = reaches(d.displacement_m, MIN_DISP_M) && (d.turn_deg matches Some(t) && above(
        t,
        TAIL_MAX_DEG,
    ));
    let fixed = below(d.displacement_m, MIN_DISP_M) && reaches(d.speed, STRONG_WIND_MS);
    let low_sun = x.sun_elevation matches Some(s) && below(s, SUN_FLOOR_DEG);
    let f1 = flag(boundary, "boundary"@, QUARTER);
    let f2 = f1 + flag(above(x.anchor_m, ANCHOR_MAX_M), "unanchored"@, QUARTER);
    let f3 = f2 + flag(crosswind, "crosswind"@, QUARTER);
    let f4 = f3 + flag(fixed, "static"@, FIFTH);
    let f5 = f4 + flag(regime, "scene-regime"@, FIFTH);
    let f6 = f5 + flag(above(x.flux_kg_h, FLUX_CAP_KG_H), "magnitude"@, FIFTH);
    let f7 = f6 + flag(low_sun, "low-sun"@, THREE_TWENTIETHS);
    let f8 = f7 + flag(below(x.clear_percent, CLEAR_FLOOR_PCT), "cloud-residue"@, TENTH);
    let f9 = f8 + flag(x.swath_edge, "swath-edge"@, TENTH);
    lemma_light_more(f1, 1, above(x.anchor_m, ANCHOR_MAX_M), "unanchored"@, QUARTER);
    lemma_light_more(f2, 2, crosswind, "crosswind"@, QUARTER);
    lemma_light_more(f3, 3, fixed, "static"@, FIFTH);
    lemma_light_more(f4, 4, regime, "scene-regime"@, FIFTH);
    lemma_light_more(f5, 5, above(x.flux_kg_h, FLUX_CAP_KG_H), "magnitude"@, FIFTH);
    lemma_light_more(f6, 6, low_sun, "low-sun"@, THREE_TWENTIETHS);
    lemma_light_more(f7, 7, below(x.clear_percent, CLEAR_FLOOR_PCT), "cloud-residue"@, TENTH);
    lemma_light_more(f8, 8, x.swath_edge, "swath-edge"@, TENTH);
    lemma_light_more(f9, 9, x.cross_orbit_bg, "cross-orbit-bg"@, QUARTER);
}

proof fn lemma_weight(flags: Seq<(Seq<char>, Real)>, most: int)
    requires
        light(flags, most),
        0 <= most <= 10,
    ensures
        weight_of(flags).is_finite(),
        weight_of(flags).rank() >= 0,
        weight_of(flags).rank() <= QUARTER + flags.len() * IMPLICIT,
        flags.len() > 0 ==> flags[0].1.is_le(weight_of(flags)),
    decreases flags.len(),
{
    if flags.len() > 0 {
        let front = flags.drop_last();
        let n = front.len();
        assert(light(front, most - 1)) by {
            assert forall|k: int| 0 <= k < front.len() implies TENTH <= (#[trigger] front[k]).1.rank()
                <= QUARTER && !front[k].1.is_negative() by {
                assert(front[k] == flags[k]);
            }
        }
        lemma_weight(front, most - 1);
        let w = weight_of(front);
        let x = flags[flags.len() - 1].1;
        let bound = Real { bits: (QUARTER + n * IMPLICIT) as u64 };
        let twice = Real { bits: (bound.bits + IMPLICIT) as u64 };
        let zero = Real { bits: 0 };
        the_next_exponent_doubles(bound);
        order_is_order_of_sizes(w, bound);
        order_is_order_of_sizes(x, bound);
        a_sum_is_rounded_past_no_number(w, x, twice);
        order_is_order_of_sizes(zero, w);
        order_is_order_of_sizes(zero, x);
        a_sum_is_rounded_past_no_number(w, x, zero);
        sum_keeps_direction(w, x);
        assert(zero.units() == 0);
        a_sum_is_rounded_past_no_number(w, x, x);
    }
}

proof fn lemma_tenth()
    ensures
        (Real { bits: TENTH }).units() >= pow2(1023),
{
    let f = (IMPLICIT + (TENTH as nat) % (IMPLICIT as nat)) as nat;
    assert((TENTH as nat) / (IMPLICIT as nat) == 1019);
    lemma_pow2_pos(1018);
    lemma_pow2_strictly_increases(5, 52);
    lemma2_to64();
    lemma_pow2_adds(5, 1018);
    assert(f * pow2(1018) >= pow2(5) * pow2(1018)) by (nonlinear_arith)
        requires
            f >= pow2(5),
            pow2(1018) > 0,
    ;
}

/// A score is from zero to one. A reject scores zero, a candidate without a flag scores one, and
/// one with a flag scores less than one.
pub proof fn scores_are_from_zero_to_one(
    c: Seq<PlumeCandidate>,
    drift: Seq<Drift>,
    apart: Seq<Apart>,
    i: int,
)
    ensures
        ({
            let v = judged(c, drift, apart, i);
            let one = Real { bits: ONE };
            &&& (Real { bits: 0 }).is_le(v.score)
            &&& v.score.is_le(one)
            &&& v.rejects.len() > 0 ==> v.score == (Real { bits: 0 })
            &&& v.rejects.len() == 0 && v.flags.len() == 0 ==> v.score == one
            &&& v.flags.len() > 0 ==> v.score.is_lt(one)
        }),
{
    let flags = flags_of(c[i], drift[i], in_regime(c, i));
    lemma_flags_light(c[i], drift[i], in_regime(c, i));
    lemma_score(flags);
}

proof fn lemma_score(flags: Seq<(Seq<char>, Real)>)
    requires
        light(flags, 10),
    ensures
        (Real { bits: 0 }).is_le(score_of(false, flags)),
        score_of(false, flags).is_le(Real { bits: ONE }),
        flags.len() == 0 ==> score_of(false, flags) == (Real { bits: ONE }),
        flags.len() > 0 ==> score_of(false, flags).is_lt(Real { bits: ONE }),
{
    let one = Real { bits: ONE };
    lemma_weight(flags, 10);
    let w = weight_of(flags);
    sum_keeps_direction(one, w.negated());
    if flags.len() == 0 {
        assert(one.units() + w.negated().units() == one.units());
        a_sum_is_rounded_past_no_number(one, w.negated(), one);
    } else {
        let tenth = Real { bits: TENTH };
        assert(TENTH <= flags[0].1.rank());
        order_is_order_of_sizes(tenth, w);
        lemma_tenth();
        sum_moves(one, w, 1023);
    }
}

/// The survivors come first, the higher scores before the lower.
pub proof fn survivors_come_first(
    c: Seq<PlumeCandidate>,
    drift: Seq<Drift>,
    apart: Seq<Apart>,
    i: int,
    j: int,
)
    requires
        ahead(judged(c, drift, apart, i), judged(c, drift, apart, j)),
    ensures
        judged(c, drift, apart, i).rejects.len() > 0 ==> judged(c, drift, apart, j).rejects.len()
            > 0,
        judged(c, drift, apart, j).score.is_le(judged(c, drift, apart, i).score),
{
    scores_are_from_zero_to_one(c, drift, apart, i);
    scores_are_from_zero_to_one(c, drift, apart, j);
}

/// The probability of a detection is a floor and never a weight: two lists of candidates that
/// differ in probabilities alone are judged alike, each candidate whose probability is below the
/// floor in both or in neither.
pub proof fn probability_is_only_a_floor(
    c: Seq<PlumeCandidate>,
    d: Seq<PlumeCandidate>,
    drift: Seq<Drift>,
    apart: Seq<Apart>,
    i: int,
)
    requires
        c.len() == d.len(),
        forall|k: int|
            #![trigger c[k]]
            #![trigger d[k]]
            0 <= k < c.len() ==> d[k] == (PlumeCandidate { max_p: d[k].max_p, ..c[k] }),
        0 <= i < c.len(),
        below(c[i].max_p, P_FLOOR) == below(d[i].max_p, P_FLOOR),
    ensures
        judged(c, drift, apart, i) == judged(d, drift, apart, i),
{
    reveal(rejects_of);
    reveal(flags_of);
    assert(recurs(c, i, apart) == recurs(d, i, apart)) by {
        assert forall|b: int| comparable(c, i, b) == #[trigger] comparable(d, i, b) by {
            if 0 <= b < c.len() {
                assert(d[b].target == c[b].target && d[b].date == c[b].date);
            }
        }
    }
    assert(in_regime(c, i) == in_regime(d, i)) by {
        assert(d[i].target == c[i].target && d[i].date == c[i].date);
        if in_regime(c, i) {
            let j = choose|j: int|
                0 <= j < c.len() && (#[trigger] c[j]).date@ == c[i].date@ && c[j].target@
                    != c[i].target@;
            assert(d[j].date@ == d[i].date@);
        }
        if in_regime(d, i) {
            let j = choose|j: int|
                0 <= j < d.len() && (#[trigger] d[j]).date@ == d[i].date@ && d[j].target@
                    != d[i].target@;
            assert(c[j].date@ == c[i].date@);
        }
    }
}

/// A day on which more than one target fires flags all the candidates of that day.
pub proof fn a_regime_takes_in_its_day(c: Seq<PlumeCandidate>, i: int, j: int)
    requires
        0 <= i < c.len(),
        0 <= j < c.len(),
        c[i].date@ == c[j].date@,
        in_regime(c, i),
    ensures
        in_regime(c, j),
{
    let m = choose|m: int|
        0 <= m < c.len() && (#[trigger] c[m]).date@ == c[i].date@ && c[m].target@ != c[i].target@;
    if c[m].target@ == c[j].target@ {
        assert(c[i].date@ == c[j].date@ && c[i].target@ != c[j].target@);
    }
}

/// Whether each of some verdicts comes before all that follow it, and has a score.
pub open spec fn in_order(s: Seq<VerdictView>) -> bool {
    &&& forall|k: int, m: int| 0 <= k < m < s.len() ==> ahead(#[trigger] s[k], #[trigger] s[m])
    &&& forall|k: int| 0 <= k < s.len() ==> !(#[trigger] s[k]).score.is_nan()
}

proof fn lemma_tail(s: Seq<VerdictView>, v: VerdictView)
    requires
        s.len() > 0,
        in_order(s),
    ensures
        in_order(s.drop_first()),
        s.drop_first().contains(v) <==> s.contains(v) && v != s[0],
{
    let t = s.drop_first();
    assert forall|k: int, m: int| 0 <= k < m < t.len() implies ahead(
        #[trigger] t[k],
        #[trigger] t[m],
    ) by {
        assert(t[k] == s[k + 1] && t[m] == s[m + 1]);
    }
    assert forall|k: int| 0 <= k < t.len() implies !(#[trigger] t[k]).score.is_nan() by {
        assert(t[k] == s[k + 1]);
    }
    if t.contains(v) {
        let k = choose|k: int| 0 <= k < t.len() && t[k] == v;
        assert(s[k + 1] == v);
        assert(ahead(s[0], s[k + 1]));
        the_ranking_is_total(s[0], s[0], s[0]);
    }
    if s.contains(v) && v != s[0] {
        let k = choose|k: int| 0 <= k < s.len() && s[k] == v;
        assert(t[k - 1] == v);
    }
}

/// There is one way to rank some verdicts: two lists of the same verdicts, each in order, are the
/// same list.
pub proof fn a_ranking_is_unique(s: Seq<VerdictView>, t: Seq<VerdictView>)
    requires
        in_order(s),
        in_order(t),
        forall|v: VerdictView| #![trigger s.contains(v)] #![trigger t.contains(v)]
            s.contains(v) <==> t.contains(v),
    ensures
        s == t,
    decreases s.len(),
{
    if s.len() == 0 {
        if t.len() > 0 {
            assert(t.contains(t[0]));
            assert(s.contains(t[0]));
        }
        assert(s =~= t);
    } else {
        assert(s.contains(s[0]));
        assert(t.contains(s[0]));
        let k = choose|k: int| 0 <= k < t.len() && t[k] == s[0];
        assert(t.contains(t[0]));
        assert(s.contains(t[0]));
        let m = choose|m: int| 0 <= m < s.len() && s[m] == t[0];
        if k > 0 {
            assert(ahead(t[0], t[k]));
            the_ranking_is_total(t[0], s[0], t[0]);
            if m > 0 {
                assert(ahead(s[0], s[m]));
            }
        }
        assert(s[0] == t[0]);
        let (a, b) = (s.drop_first(), t.drop_first());
        assert forall|v: VerdictView| #![trigger a.contains(v)] #![trigger b.contains(v)]
            a.contains(v) <==> b.contains(v) by {
            lemma_tail(s, v);
            lemma_tail(t, v);
            assert(s.contains(v) <==> t.contains(v));
        }
        lemma_tail(s, s[0]);
        lemma_tail(t, t[0]);
        a_ranking_is_unique(a, b);
        assert(s =~= seq![s[0]] + a);
        assert(t =~= seq![t[0]] + b);
    }
}

/// Every threshold and every weight is the number that it is said to be.
#[verifier::spinoff_prover]
#[verifier::rlimit(60)]
pub proof fn thresholds_are_what_they_say()
    ensures
        Real::of_ratio(3, 5) == (Real { bits: P_FLOOR }),
        Real::of_count(1) == (Real { bits: FLUX_ZERO_KG_H }),
        Real::of_count(20000) == (Real { bits: FLUX_CAP_KG_H }),
        Real::of_count(500) == (Real { bits: ANCHOR_MAX_M }),
        Real::of_count(60) == (Real { bits: TAIL_MAX_DEG }),
        Real::of_count(30) == (Real { bits: MIN_DISP_M }),
        Real::of_count(5) == (Real { bits: STRONG_WIND_MS }),
        Real::of_count(250) == (Real { bits: RECUR_RADIUS_M }),
        Real::of_count(45) == (Real { bits: RECUR_WIND_DEG }),
        Real::of_count(20) == (Real { bits: SUN_FLOOR_DEG }),
        Real::of_count(40) == (Real { bits: CLEAR_FLOOR_PCT }),
        Real::of_ratio(1, 2) == (Real { bits: COLLINEAR_REJECT }),
        Real::of_ratio(1, 4) == (Real { bits: COLLINEAR_FLAG }),
        Real::of_count(1) == (Real { bits: ONE }),
        Real::of_ratio(1, 4) == (Real { bits: QUARTER }),
        Real::of_ratio(1, 5) == (Real { bits: FIFTH }),
        Real::of_ratio(3, 20) == (Real { bits: THREE_TWENTIETHS }),
        Real::of_ratio(1, 10) == (Real { bits: TENTH }),
{
    lemma2_to64();
    lemma2_to64_rest();
    assert(Real::of_ratio(3, 5) == (Real { bits: P_FLOOR })) by {
        lemma_pow2_strictly_increases(6, 1021);
        a_ratio_is_encoded(3, 5, Real { bits: P_FLOOR }, 1021, 53);
    }
    assert(Real::of_count(1) == (Real { bits: FLUX_ZERO_KG_H })) by {
        lemma_pow2_strictly_increases(6, 1022);
        a_ratio_is_encoded(1, 1, Real { bits: FLUX_ZERO_KG_H }, 1022, 52);
    }
    assert(Real::of_count(20000) == (Real { bits: FLUX_CAP_KG_H })) by {
        lemma_pow2_strictly_increases(6, 1036);
        a_ratio_is_encoded(20000, 1, Real { bits: FLUX_CAP_KG_H }, 1036, 38);
    }
    assert(Real::of_count(500) == (Real { bits: ANCHOR_MAX_M })) by {
        lemma_pow2_strictly_increases(6, 1030);
        a_ratio_is_encoded(500, 1, Real { bits: ANCHOR_MAX_M }, 1030, 44);
    }
    assert(Real::of_count(60) == (Real { bits: TAIL_MAX_DEG })) by {
        lemma_pow2_strictly_increases(6, 1027);
        a_ratio_is_encoded(60, 1, Real { bits: TAIL_MAX_DEG }, 1027, 47);
    }
    assert(Real::of_count(30) == (Real { bits: MIN_DISP_M })) by {
        lemma_pow2_strictly_increases(6, 1026);
        a_ratio_is_encoded(30, 1, Real { bits: MIN_DISP_M }, 1026, 48);
    }
    assert(Real::of_count(5) == (Real { bits: STRONG_WIND_MS })) by {
        lemma_pow2_strictly_increases(6, 1024);
        a_ratio_is_encoded(5, 1, Real { bits: STRONG_WIND_MS }, 1024, 50);
    }
    assert(Real::of_count(250) == (Real { bits: RECUR_RADIUS_M })) by {
        lemma_pow2_strictly_increases(6, 1029);
        a_ratio_is_encoded(250, 1, Real { bits: RECUR_RADIUS_M }, 1029, 45);
    }
    assert(Real::of_count(45) == (Real { bits: RECUR_WIND_DEG })) by {
        lemma_pow2_strictly_increases(6, 1027);
        a_ratio_is_encoded(45, 1, Real { bits: RECUR_WIND_DEG }, 1027, 47);
    }
    assert(Real::of_count(20) == (Real { bits: SUN_FLOOR_DEG })) by {
        lemma_pow2_strictly_increases(6, 1026);
        a_ratio_is_encoded(20, 1, Real { bits: SUN_FLOOR_DEG }, 1026, 48);
    }
    assert(Real::of_count(40) == (Real { bits: CLEAR_FLOOR_PCT })) by {
        lemma_pow2_strictly_increases(6, 1027);
        a_ratio_is_encoded(40, 1, Real { bits: CLEAR_FLOOR_PCT }, 1027, 47);
    }
    assert(Real::of_ratio(1, 2) == (Real { bits: COLLINEAR_REJECT })) by {
        lemma_pow2_strictly_increases(6, 1021);
        a_ratio_is_encoded(1, 2, Real { bits: COLLINEAR_REJECT }, 1021, 53);
    }
    assert(Real::of_ratio(1, 4) == (Real { bits: COLLINEAR_FLAG })) by {
        lemma_pow2_strictly_increases(6, 1020);
        a_ratio_is_encoded(1, 4, Real { bits: COLLINEAR_FLAG }, 1020, 54);
    }
    assert(Real::of_count(1) == (Real { bits: ONE })) by {
        lemma_pow2_strictly_increases(6, 1022);
        a_ratio_is_encoded(1, 1, Real { bits: ONE }, 1022, 52);
    }
    assert(Real::of_ratio(1, 4) == (Real { bits: QUARTER })) by {
        lemma_pow2_strictly_increases(6, 1020);
        a_ratio_is_encoded(1, 4, Real { bits: QUARTER }, 1020, 54);
    }
    assert(Real::of_ratio(1, 5) == (Real { bits: FIFTH })) by {
        lemma_pow2_strictly_increases(6, 1019);
        a_ratio_is_encoded(1, 5, Real { bits: FIFTH }, 1019, 55);
    }
    assert(Real::of_ratio(3, 20) == (Real { bits: THREE_TWENTIETHS })) by {
        lemma_pow2_strictly_increases(6, 1019);
        a_ratio_is_encoded(3, 20, Real { bits: THREE_TWENTIETHS }, 1019, 55);
    }
    assert(Real::of_ratio(1, 10) == (Real { bits: TENTH })) by {
        lemma_pow2_strictly_increases(6, 1018);
        a_ratio_is_encoded(1, 10, Real { bits: TENTH }, 1018, 56);
    }
}

proof fn lemma_word(s: Seq<Seq<char>>, applies: bool, w: Seq<char>, v: Seq<char>)
    ensures
        (s + word(applies, w)).contains(v) <==> s.contains(v) || (applies && v == w),
{
    let more = s + word(applies, w);
    if s.contains(v) {
        let k = choose|k: int| 0 <= k < s.len() && s[k] == v;
        assert(more[k] == v);
    }
    if applies && v == w {
        assert(more[s.len() as int] == v);
    }
    if more.contains(v) {
        let k = choose|k: int| 0 <= k < more.len() && more[k] == v;
        if k < s.len() {
            assert(s[k] == v);
        }
    }
}

proof fn lemma_rejects(x: PlumeCandidate, recurrent: bool, v: Seq<char>)
    ensures
        rejects_of(x, recurrent).contains(v) <==> {
            ||| v == "p-floor"@ && below(x.max_p, P_FLOOR)
            ||| v == "zero-flux"@ && x.flux_kg_h.is_le(Real { bits: FLUX_ZERO_KG_H })
            ||| v == "recurrent"@ && recurrent
            ||| v == "collinear"@ && (x.collinearity matches Some(s) && reaches(
                s,
                COLLINEAR_REJECT,
            ))
        },
{
    reveal(rejects_of);
    let none = Seq::<Seq<char>>::empty();
    let r1 = word(below(x.max_p, P_FLOOR), "p-floor"@);
    let still = x.flux_kg_h.is_le(Real { bits: FLUX_ZERO_KG_H });
    let r2 = r1 + word(still, "zero-flux"@);
    let r3 = r2 + word(recurrent, "recurrent"@);
    let collinear = x.collinearity matches Some(s) && reaches(s, COLLINEAR_REJECT);
    assert(none + r1 =~= r1);
    lemma_word(none, below(x.max_p, P_FLOOR), "p-floor"@, v);
    lemma_word(r1, still, "zero-flux"@, v);
    lemma_word(r2, recurrent, "recurrent"@, v);
    lemma_word(r3, collinear, "collinear"@, v);
}

proof fn lemma_reject_words()
    ensures
        "p-floor"@ != "zero-flux"@ && "p-floor"@ != "recurrent"@ && "p-floor"@ != "collinear"@,
        "zero-flux"@ != "recurrent"@ && "zero-flux"@ != "collinear"@,
        "recurrent"@ != "collinear"@,
{
    reveal_strlit("p-floor");
    reveal_strlit("zero-flux");
    reveal_strlit("recurrent");
    reveal_strlit("collinear");
    assert("p-floor"@.len() == 7 && "zero-flux"@.len() == 9);
    assert("zero-flux"@[0] == 'z' && "recurrent"@[0] == 'r' && "collinear"@[0] == 'c');
}

/// A candidate is rejected on four grounds and no other: its probability is below three fifths, its
/// rate is no more than one kilogram an hour, half of its mask or more follows a linear feature, or
/// on another day of the same target the mask was measured less than 250 metres away under a wind
/// that turned by more than 45 degrees.
pub proof fn a_candidate_is_rejected_on_its_grounds(
    c: Seq<PlumeCandidate>,
    drift: Seq<Drift>,
    apart: Seq<Apart>,
    i: int,
)
    requires
        0 <= i < c.len(),
    ensures
        ({
            let rejects = judged(c, drift, apart, i).rejects;
            let x = c[i];
            &&& rejects.contains("p-floor"@) <==> x.max_p.is_lt(Real::of_ratio(3, 5))
            &&& rejects.contains("zero-flux"@) <==> x.flux_kg_h.is_le(Real::of_count(1))
            &&& rejects.contains("collinear"@) <==> (x.collinearity matches Some(s)
                && Real::of_ratio(1, 2).is_le(s))
            &&& rejects.contains("recurrent"@) <==> exists|k: int|
                0 <= k < apart.len() && (#[trigger] apart[k]).a == i && apart[k].b < c.len()
                    && c[apart[k].b as int].target@ == x.target@ && c[apart[k].b as int].date@
                    != x.date@ && apart[k].distance_m.is_lt(Real::of_count(250)) && (
                apart[k].turn_deg matches Some(t) && Real::of_count(45).is_lt(t))
            &&& forall|w: Seq<char>| #[trigger]
                rejects.contains(w) ==> w == "p-floor"@ || w == "zero-flux"@ || w == "collinear"@
                    || w == "recurrent"@
        }),
{
    let x = c[i];
    let recurrent = recurs(c, i, apart);
    thresholds_are_what_they_say();
    lemma_reject_words();
    lemma_rejects(x, recurrent, "p-floor"@);
    lemma_rejects(x, recurrent, "zero-flux"@);
    lemma_rejects(x, recurrent, "collinear"@);
    lemma_rejects(x, recurrent, "recurrent"@);
    assert forall|w: Seq<char>| #[trigger]
        rejects_of(x, recurrent).contains(w) implies w == "p-floor"@ || w == "zero-flux"@ || w
        == "collinear"@ || w == "recurrent"@ by {
        lemma_rejects(x, recurrent, w);
    }
}

/// A mask that stays away is no fixed feature: a candidate is not rejected as recurrent where no
/// mask of another day was measured less than 250 metres from its own, nor where no wind turned by
/// more than 45 degrees.
pub proof fn a_mask_that_moves_is_not_recurrent(
    c: Seq<PlumeCandidate>,
    drift: Seq<Drift>,
    apart: Seq<Apart>,
    i: int,
)
    requires
        0 <= i < c.len(),
        (forall|k: int|
            0 <= k < apart.len() && (#[trigger] apart[k]).a == i ==> Real::of_count(250).is_le(
                apart[k].distance_m,
            )) || (forall|k: int|
            0 <= k < apart.len() && (#[trigger] apart[k]).a == i ==> (apart[k].turn_deg matches Some(
                t,
            ) ==> t.is_le(Real::of_count(45)))),
    ensures
        !judged(c, drift, apart, i).rejects.contains("recurrent"@),
{
    a_candidate_is_rejected_on_its_grounds(c, drift, apart, i);
}

proof fn lemma_flag(
    f: Seq<(Seq<char>, Real)>,
    applies: bool,
    w: Seq<char>,
    weight: u64,
    v: (Seq<char>, Real),
)
    ensures
        (f + flag(applies, w, weight)).contains(v) <==> f.contains(v) || (applies && v == (
            w,
            Real { bits: weight },
        )),
{
    let more = f + flag(applies, w, weight);
    if f.contains(v) {
        let k = choose|k: int| 0 <= k < f.len() && f[k] == v;
        assert(more[k] == v);
    }
    if applies && v == (w, Real { bits: weight }) {
        assert(more[f.len() as int] == v);
    }
    if more.contains(v) {
        let k = choose|k: int| 0 <= k < more.len() && more[k] == v;
        if k < f.len() {
            assert(f[k] == v);
        }
    }
}

proof fn lemma_flags(x: PlumeCandidate, d: Drift, regime: bool, v: (Seq<char>, Real))
    ensures
        ({
            let boundary = x.collinearity matches Some(v) && !reaches(v, COLLINEAR_REJECT) && reaches(
                v,
                COLLINEAR_FLAG,
            );
            let crosswind = reaches(d.displacement_m, MIN_DISP_M) && (d.turn_deg matches Some(t) && above(
                t,
                TAIL_MAX_DEG,
            ));
            let fixed = below(d.displacement_m, MIN_DISP_M) && reaches(d.speed, STRONG_WIND_MS);
            let low_sun = x.sun_elevation matches Some(s) && below(s, SUN_FLOOR_DEG);
            flags_of(x, d, regime).contains(v) <==> {
                ||| boundary && v == ("boundary"@, Real { bits: QUARTER })
                ||| above(x.anchor_m, ANCHOR_MAX_M) && v == ("unanchored"@, Real { bits: QUARTER })
                ||| crosswind && v == ("crosswind"@, Real { bits: QUARTER })
                ||| fixed && v == ("static"@, Real { bits: FIFTH })
                ||| regime && v == ("scene-regime"@, Real { bits: FIFTH })
                ||| above(x.flux_kg_h, FLUX_CAP_KG_H) && v == ("magnitude"@, Real { bits: FIFTH })
                ||| low_sun && v == ("low-sun"@, Real { bits: THREE_TWENTIETHS })
                ||| below(x.clear_percent, CLEAR_FLOOR_PCT) && v == ("cloud-residue"@, Real { bits: TENTH })
                ||| x.swath_edge && v == ("swath-edge"@, Real { bits: TENTH })
                ||| x.cross_orbit_bg && v == ("cross-orbit-bg"@, Real { bits: QUARTER })
            }
        }),
{
    reveal(flags_of);
    let boundary = x.collinearity matches Some(v) && !reaches(v, COLLINEAR_REJECT) && reaches(
        v,
        COLLINEAR_FLAG,
    );
    let crosswind = reaches(d.displacement_m, MIN_DISP_M) && (d.turn_deg matches Some(t) && above(
        t,
        TAIL_MAX_DEG,
    ));
    let fixed = below(d.displacement_m, MIN_DISP_M) && reaches(d.speed, STRONG_WIND_MS);
    let low_sun = x.sun_elevation matches Some(s) && below(s, SUN_FLOOR_DEG);
    let f0 = Seq::<(Seq<char>, Real)>::empty();
    let f1 = f0 + flag(boundary, "boundary"@, QUARTER);
    let f2 = f1 + flag(above(x.anchor_m, ANCHOR_MAX_M), "unanchored"@, QUARTER);
    let f3 = f2 + flag(crosswind, "crosswind"@, QUARTER);
    let f4 = f3 + flag(fixed, "static"@, FIFTH);
    let f5 = f4 + flag(regime, "scene-regime"@, FIFTH);
    let f6 = f5 + flag(above(x.flux_kg_h, FLUX_CAP_KG_H), "magnitude"@, FIFTH);
    let f7 = f6 + flag(low_sun, "low-sun"@, THREE_TWENTIETHS);
    let f8 = f7 + flag(below(x.clear_percent, CLEAR_FLOOR_PCT), "cloud-residue"@, TENTH);
    let f9 = f8 + flag(x.swath_edge, "swath-edge"@, TENTH);
    let f10 = f9 + flag(x.cross_orbit_bg, "cross-orbit-bg"@, QUARTER);
    assert(f1 =~= flag(boundary, "boundary"@, QUARTER));
    lemma_flag(f0, boundary, "boundary"@, QUARTER, v);
    lemma_flag(f1, above(x.anchor_m, ANCHOR_MAX_M), "unanchored"@, QUARTER, v);
    lemma_flag(f2, crosswind, "crosswind"@, QUARTER, v);
    lemma_flag(f3, fixed, "static"@, FIFTH, v);
    lemma_flag(f4, regime, "scene-regime"@, FIFTH, v);
    lemma_flag(f5, above(x.flux_kg_h, FLUX_CAP_KG_H), "magnitude"@, FIFTH, v);
    lemma_flag(f6, low_sun, "low-sun"@, THREE_TWENTIETHS, v);
    lemma_flag(f7, below(x.clear_percent, CLEAR_FLOOR_PCT), "cloud-residue"@, TENTH, v);
    lemma_flag(f8, x.swath_edge, "swath-edge"@, TENTH, v);
    lemma_flag(f9, x.cross_orbit_bg, "cross-orbit-bg"@, QUARTER, v);
}

proof fn lemma_flag_words()
    ensures
        "boundary"@ != "unanchored"@,
        "boundary"@ != "crosswind"@,
        "boundary"@ != "static"@,
        "boundary"@ != "scene-regime"@,
        "boundary"@ != "magnitude"@,
        "boundary"@ != "low-sun"@,
        "boundary"@ != "cloud-residue"@,
        "boundary"@ != "swath-edge"@,
        "boundary"@ != "cross-orbit-bg"@,
        "unanchored"@ != "crosswind"@,
        "unanchored"@ != "static"@,
        "unanchored"@ != "scene-regime"@,
        "unanchored"@ != "magnitude"@,
        "unanchored"@ != "low-sun"@,
        "unanchored"@ != "cloud-residue"@,
        "unanchored"@ != "swath-edge"@,
        "unanchored"@ != "cross-orbit-bg"@,
        "crosswind"@ != "static"@,
        "crosswind"@ != "scene-regime"@,
        "crosswind"@ != "magnitude"@,
        "crosswind"@ != "low-sun"@,
        "crosswind"@ != "cloud-residue"@,
        "crosswind"@ != "swath-edge"@,
        "crosswind"@ != "cross-orbit-bg"@,
        "static"@ != "scene-regime"@,
        "static"@ != "magnitude"@,
        "static"@ != "low-sun"@,
        "static"@ != "cloud-residue"@,
        "static"@ != "swath-edge"@,
        "static"@ != "cross-orbit-bg"@,
        "scene-regime"@ != "magnitude"@,
        "scene-regime"@ != "low-sun"@,
        "scene-regime"@ != "cloud-residue"@,
        "scene-regime"@ != "swath-edge"@,
        "scene-regime"@ != "cross-orbit-bg"@,
        "magnitude"@ != "low-sun"@,
        "magnitude"@ != "cloud-residue"@,
        "magnitude"@ != "swath-edge"@,
        "magnitude"@ != "cross-orbit-bg"@,
        "low-sun"@ != "cloud-residue"@,
        "low-sun"@ != "swath-edge"@,
        "low-sun"@ != "cross-orbit-bg"@,
        "cloud-residue"@ != "swath-edge"@,
        "cloud-residue"@ != "cross-orbit-bg"@,
        "swath-edge"@ != "cross-orbit-bg"@,
{
    reveal_strlit("boundary");
    reveal_strlit("unanchored");
    reveal_strlit("crosswind");
    reveal_strlit("static");
    reveal_strlit("scene-regime");
    reveal_strlit("magnitude");
    reveal_strlit("low-sun");
    reveal_strlit("cloud-residue");
    reveal_strlit("swath-edge");
    reveal_strlit("cross-orbit-bg");
    assert("boundary"@.len() == 8 && "boundary"@[0] == 'b');
    assert("unanchored"@.len() == 10 && "unanchored"@[0] == 'u');
    assert("crosswind"@.len() == 9 && "crosswind"@[0] == 'c');
    assert("static"@.len() == 6 && "static"@[0] == 's');
    assert("scene-regime"@.len() == 12 && "scene-regime"@[0] == 's');
    assert("magnitude"@.len() == 9 && "magnitude"@[0] == 'm');
    assert("low-sun"@.len() == 7 && "low-sun"@[0] == 'l');
    assert("cloud-residue"@.len() == 13 && "cloud-residue"@[0] == 'c');
    assert("swath-edge"@.len() == 10 && "swath-edge"@[0] == 's');
    assert("cross-orbit-bg"@.len() == 14 && "cross-orbit-bg"@[0] == 'c');
}

proof fn lemma_flag_names(f: Seq<(Seq<char>, Real)>, w: Seq<char>)
    ensures
        f.map_values(|p: (Seq<char>, Real)| p.0).contains(w) <==> exists|r: Real| #[trigger]
            f.contains((w, r)),
{
    let names = f.map_values(|p: (Seq<char>, Real)| p.0);
    if names.contains(w) {
        let k = choose|k: int| 0 <= k < names.len() && names[k] == w;
        assert(f[k] == (w, f[k].1));
        assert(f.contains((w, f[k].1)));
    }
    if exists|r: Real| #[trigger] f.contains((w, r)) {
        let r = choose|r: Real| #[trigger] f.contains((w, r));
        let k = choose|k: int| 0 <= k < f.len() && f[k] == (w, r);
        assert(names[k] == w);
    }
}

/// A candidate is flagged on ten grounds and no other: a quarter of its mask or more, and less than
/// half, follows a linear feature; it sets on more than 500 metres from its facility; it is
/// displaced by 30 metres or more and turns from the wind by more than 60 degrees; it is displaced
/// by less under a wind of five metres a second or more; another target fires on the same day; its
/// rate is above 20,000 kilograms an hour; the sun is below 20 degrees; less than 40 percent of the
/// scene is clear; it is at the edge of the swath; or its background is of another orbit.
pub proof fn a_candidate_is_flagged_on_its_grounds(
    c: Seq<PlumeCandidate>,
    drift: Seq<Drift>,
    apart: Seq<Apart>,
    i: int,
)
    requires
        0 <= i < c.len(),
    ensures
        ({
            let flags = judged(c, drift, apart, i).flags;
            let (x, d) = (c[i], drift[i]);
            &&& flags.contains("boundary"@) <==> (x.collinearity matches Some(s)
                && Real::of_ratio(1, 4).is_le(s) && !Real::of_ratio(1, 2).is_le(s))
            &&& flags.contains("unanchored"@) <==> Real::of_count(500).is_lt(x.anchor_m)
            &&& flags.contains("crosswind"@) <==> Real::of_count(30).is_le(d.displacement_m) && (
            d.turn_deg matches Some(t) && Real::of_count(60).is_lt(t))
            &&& flags.contains("static"@) <==> d.displacement_m.is_lt(Real::of_count(30))
                && Real::of_count(5).is_le(d.speed)
            &&& flags.contains("scene-regime"@) <==> exists|j: int|
                0 <= j < c.len() && (#[trigger] c[j]).date@ == x.date@ && c[j].target@ != x.target@
            &&& flags.contains("magnitude"@) <==> Real::of_count(20000).is_lt(x.flux_kg_h)
            &&& flags.contains("low-sun"@) <==> (x.sun_elevation matches Some(s) && s.is_lt(
                Real::of_count(20),
            ))
            &&& flags.contains("cloud-residue"@) <==> x.clear_percent.is_lt(Real::of_count(40))
            &&& flags.contains("swath-edge"@) <==> x.swath_edge
            &&& flags.contains("cross-orbit-bg"@) <==> x.cross_orbit_bg
        }),
{
    let (x, d) = (c[i], drift[i]);
    let regime = in_regime(c, i);
    thresholds_are_what_they_say();
    lemma_flag_words();
    lemma_flag_is_named(x, d, regime, "boundary"@);
    lemma_flag_is_named(x, d, regime, "unanchored"@);
    lemma_flag_is_named(x, d, regime, "crosswind"@);
    lemma_flag_is_named(x, d, regime, "static"@);
    lemma_flag_is_named(x, d, regime, "scene-regime"@);
    lemma_flag_is_named(x, d, regime, "magnitude"@);
    lemma_flag_is_named(x, d, regime, "low-sun"@);
    lemma_flag_is_named(x, d, regime, "cloud-residue"@);
    lemma_flag_is_named(x, d, regime, "swath-edge"@);
    lemma_flag_is_named(x, d, regime, "cross-orbit-bg"@);
}

proof fn lemma_flag_is_named(x: PlumeCandidate, d: Drift, regime: bool, w: Seq<char>)
    ensures
        ({
            let boundary = x.collinearity matches Some(v) && !reaches(v, COLLINEAR_REJECT) && reaches(
                v,
                COLLINEAR_FLAG,
            );
            let crosswind = reaches(d.displacement_m, MIN_DISP_M) && (d.turn_deg matches Some(t) && above(
                t,
                TAIL_MAX_DEG,
            ));
            let fixed = below(d.displacement_m, MIN_DISP_M) && reaches(d.speed, STRONG_WIND_MS);
            let low_sun = x.sun_elevation matches Some(s) && below(s, SUN_FLOOR_DEG);
            flags_of(x, d, regime).map_values(|p: (Seq<char>, Real)| p.0).contains(w) <==> {
                ||| boundary && w == "boundary"@
                ||| above(x.anchor_m, ANCHOR_MAX_M) && w == "unanchored"@
                ||| crosswind && w == "crosswind"@
                ||| fixed && w == "static"@
                ||| regime && w == "scene-regime"@
                ||| above(x.flux_kg_h, FLUX_CAP_KG_H) && w == "magnitude"@
                ||| low_sun && w == "low-sun"@
                ||| below(x.clear_percent, CLEAR_FLOOR_PCT) && w == "cloud-residue"@
                ||| x.swath_edge && w == "swath-edge"@
                ||| x.cross_orbit_bg && w == "cross-orbit-bg"@
            }
        }),
{
    let boundary = x.collinearity matches Some(v) && !reaches(v, COLLINEAR_REJECT) && reaches(
        v,
        COLLINEAR_FLAG,
    );
    let crosswind = reaches(d.displacement_m, MIN_DISP_M) && (d.turn_deg matches Some(t) && above(
        t,
        TAIL_MAX_DEG,
    ));
    let fixed = below(d.displacement_m, MIN_DISP_M) && reaches(d.speed, STRONG_WIND_MS);
    let low_sun = x.sun_elevation matches Some(s) && below(s, SUN_FLOOR_DEG);
    let f = flags_of(x, d, regime);
    lemma_flag_names(f, w);
    if exists|r: Real| #[trigger] f.contains((w, r)) {
        let r = choose|r: Real| #[trigger] f.contains((w, r));
        lemma_flags(x, d, regime, (w, r));
    }
    lemma_flags(x, d, regime, ("boundary"@, Real { bits: QUARTER }));
    lemma_flags(x, d, regime, ("unanchored"@, Real { bits: QUARTER }));
    lemma_flags(x, d, regime, ("crosswind"@, Real { bits: QUARTER }));
    lemma_flags(x, d, regime, ("static"@, Real { bits: FIFTH }));
    lemma_flags(x, d, regime, ("scene-regime"@, Real { bits: FIFTH }));
    lemma_flags(x, d, regime, ("magnitude"@, Real { bits: FIFTH }));
    lemma_flags(x, d, regime, ("low-sun"@, Real { bits: THREE_TWENTIETHS }));
    lemma_flags(x, d, regime, ("cloud-residue"@, Real { bits: TENTH }));
    lemma_flags(x, d, regime, ("swath-edge"@, Real { bits: TENTH }));
    lemma_flags(x, d, regime, ("cross-orbit-bg"@, Real { bits: QUARTER }));
}

/// What a flag weighs goes by its name: a tenth for the hygiene of the scene, three twentieths for
/// a low sun, a fifth for what speaks against a plume, and a quarter for what speaks for an
/// artefact.
pub open spec fn weight_named(w: Seq<char>) -> Real {
    if w == "cloud-residue"@ || w == "swath-edge"@ {
        Real::of_ratio(1, 10)
    } else if w == "low-sun"@ {
        Real::of_ratio(3, 20)
    } else if w == "static"@ || w == "scene-regime"@ || w == "magnitude"@ {
        Real::of_ratio(1, 5)
    } else {
        Real::of_ratio(1, 4)
    }
}

/// The weights of some flags by their names, added one after the other.
pub open spec fn named_weight(names: Seq<Seq<char>>) -> Real
    decreases names.len(),
{
    if names.len() == 0 {
        Real { bits: 0 }
    } else {
        named_weight(names.drop_last()).sum(weight_named(names.last()))
    }
}

proof fn lemma_named_weight(f: Seq<(Seq<char>, Real)>)
    requires
        forall|k: int| 0 <= k < f.len() ==> (#[trigger] f[k]).1 == weight_named(f[k].0),
    ensures
        named_weight(f.map_values(|p: (Seq<char>, Real)| p.0)) == weight_of(f),
    decreases f.len(),
{
    let names = f.map_values(|p: (Seq<char>, Real)| p.0);
    if f.len() > 0 {
        let front = f.drop_last();
        assert forall|k: int| 0 <= k < front.len() implies (#[trigger] front[k]).1 == weight_named(
            front[k].0,
        ) by {
            assert(front[k] == f[k]);
        }
        lemma_named_weight(front);
        assert(names.drop_last() =~= front.map_values(|p: (Seq<char>, Real)| p.0));
        assert(f[f.len() - 1].1 == weight_named(f[f.len() - 1].0));
    }
}

/// The score of a survivor follows from the names of its flags alone: one less what they weigh, and
/// not less than zero.
pub proof fn a_score_follows_from_the_flags(
    c: Seq<PlumeCandidate>,
    drift: Seq<Drift>,
    apart: Seq<Apart>,
    i: int,
)
    requires
        judged(c, drift, apart, i).rejects.len() == 0,
    ensures
        ({
            let v = judged(c, drift, apart, i);
            let left = Real::of_count(1).sum(named_weight(v.flags).negated());
            v.score == if left.is_lt(Real { bits: 0 }) {
                Real { bits: 0 }
            } else {
                left
            }
        }),
{
    let (x, d, regime) = (c[i], drift[i], in_regime(c, i));
    let f = flags_of(x, d, regime);
    thresholds_are_what_they_say();
    lemma_flag_words();
    assert forall|k: int| 0 <= k < f.len() implies (#[trigger] f[k]).1 == weight_named(f[k].0) by {
        assert(f.contains(f[k]));
        lemma_flags(x, d, regime, f[k]);
    }
    lemma_named_weight(f);
    lemma_flags_light(x, d, regime);
    lemma_weight(f, 10);
    sum_keeps_direction(Real { bits: ONE }, weight_of(f).negated());
}

/// A candidate is flagged on no other grounds than those ten, and a verdict goes by the key and the
/// place of its candidate.
pub proof fn a_verdict_is_on_its_candidate(
    c: Seq<PlumeCandidate>,
    drift: Seq<Drift>,
    apart: Seq<Apart>,
    i: int,
)
    requires
        0 <= i < c.len(),
    ensures
        judged(c, drift, apart, i).idx == i,
        judged(c, drift, apart, i).key == c[i].key@,
        forall|w: Seq<char>| #[trigger]
            judged(c, drift, apart, i).flags.contains(w) ==> w == "boundary"@ || w == "unanchored"@ || w
                == "crosswind"@ || w == "static"@ || w == "scene-regime"@ || w == "magnitude"@ || w
                == "low-sun"@ || w == "cloud-residue"@ || w == "swath-edge"@ || w
                == "cross-orbit-bg"@,
{
    assert forall|w: Seq<char>| #[trigger]
        judged(c, drift, apart, i).flags.contains(w) implies w == "boundary"@ || w == "unanchored"@ || w
        == "crosswind"@ || w == "static"@ || w == "scene-regime"@ || w == "magnitude"@ || w
        == "low-sun"@ || w == "cloud-residue"@ || w == "swath-edge"@ || w == "cross-orbit-bg"@ by {
        lemma_flag_is_named(c[i], drift[i], in_regime(c, i), w);
    }
}

/// The ranking goes by what the verdicts say: a survivor stands before a reject; of two survivors
/// or two rejects, the higher score stands first, then the key that comes first in a dictionary,
/// then the candidate that was given first.
pub proof fn the_ranking_goes_by_score_and_key(
    c: Seq<PlumeCandidate>,
    drift: Seq<Drift>,
    apart: Seq<Apart>,
    i: int,
    j: int,
)
    requires
        0 <= i < c.len(),
        0 <= j < c.len(),
    ensures
        ({
            let (a, b) = (judged(c, drift, apart, i), judged(c, drift, apart, j));
            let alike = (a.rejects.len() == 0) == (b.rejects.len() == 0);
            let level = alike && !a.score.is_lt(b.score) && !b.score.is_lt(a.score);
            &&& a.rejects.len() == 0 && b.rejects.len() > 0 ==> ahead(a, b) && !ahead(b, a)
            &&& alike && b.score.is_lt(a.score) ==> ahead(a, b) && !ahead(b, a)
            &&& level && precedes(c[i].key@, c[j].key@) ==> ahead(a, b) && !ahead(b, a)
            &&& level && c[i].key@ == c[j].key@ ==> (ahead(a, b) <==> i < j)
        }),
{
    scores_are_from_zero_to_one(c, drift, apart, i);
    scores_are_from_zero_to_one(c, drift, apart, j);
    lemma_precedes_total(c[i].key@, c[j].key@);
}

/// Two candidates are compared just where they are of the same target on different days, whichever
/// of them comes first.
pub proof fn candidates_are_compared_across_days(c: Seq<PlumeCandidate>, a: int, b: int)
    ensures
        comparable(c, a, b) == comparable(c, b, a),
        !comparable(c, a, a),
        0 <= a < c.len() && 0 <= b < c.len() ==> (comparable(c, a, b) <==> c[a].target@
            == c[b].target@ && c[a].date@ != c[b].date@),
{
}

/// Whether verdicts are what triage says of some candidates: one on each of them, ranked.
pub open spec fn is_triage(
    r: Seq<Verdict>,
    c: Seq<PlumeCandidate>,
    drift: Seq<Drift>,
    apart: Seq<Apart>,
) -> bool {
    &&& r.len() == c.len()
    &&& forall|k: int|
        0 <= k < r.len() ==> 0 <= (#[trigger] r[k])@.idx < c.len() && r[k]@ == judged(
            c,
            drift,
            apart,
            r[k]@.idx,
        )
    &&& forall|i: int| 0 <= i < c.len() ==> #[trigger] is_judged(r, i)
    &&& ranked(r)
}

/// Triage says of every candidate what there is to say of it, once, under its own key; and in the
/// ranking a survivor stands before every reject, and a higher score before every lower one among
/// them.
pub proof fn triage_ranks_every_candidate(
    r: Seq<Verdict>,
    c: Seq<PlumeCandidate>,
    drift: Seq<Drift>,
    apart: Seq<Apart>,
    k: int,
    m: int,
    i: int,
)
    requires
        is_triage(r, c, drift, apart),
        0 <= k < m < r.len(),
        0 <= i < c.len(),
    ensures
        r.len() == c.len(),
        r[k]@ == judged(c, drift, apart, r[k].idx as int),
        r[k].idx != r[m].idx,
        r[k].key@ == c[r[k].idx as int].key@,
        r[k].rejects@.len() > 0 ==> r[m].rejects@.len() > 0,
        !r[k].score.is_lt(r[m].score),
        (r[k].rejects@.len() == 0) == (r[m].rejects@.len() == 0) && !r[m].score.is_lt(r[k].score)
            ==> !precedes(r[m].key@, r[k].key@),
        exists|n: int| 0 <= n < r.len() && (#[trigger] r[n]).idx == i,
{
    let (a, b) = (r[k]@.idx, r[m]@.idx);
    assert(ahead(r[k]@, r[m]@));
    scores_are_from_zero_to_one(c, drift, apart, a);
    scores_are_from_zero_to_one(c, drift, apart, b);
    survivors_come_first(c, drift, apart, a, b);
    the_ranking_goes_by_score_and_key(c, drift, apart, a, b);
    the_ranking_goes_by_score_and_key(c, drift, apart, b, a);
    the_ranking_is_total(r[k]@, r[m]@, r[k]@);
    assert(word_views(r[k].rejects@).len() == r[k].rejects@.len());
    assert(word_views(r[m].rejects@).len() == r[m].rejects@.len());
    assert(is_judged(r, i));
    let n = choose|n: int| 0 <= n < r.len() && (#[trigger] r[n])@.idx == i;
    assert(r[n].idx == i);
}

} // verus!
