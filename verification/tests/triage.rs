use s2e::number::{Pair, Real};
use s2e::triage::{comparisons, Apart, Drift, PlumeCandidate, Verdict};

fn num(x: f64) -> Real {
    Real { bits: x.to_bits() }
}

fn number(x: Real) -> f64 {
    f64::from_bits(x.bits)
}

fn pair(x: f64, y: f64) -> Pair {
    Pair { x: num(x), y: num(y) }
}

fn local_m(from: Pair, to: Pair) -> [f64; 2] {
    let lat = ((number(from.y) + number(to.y)) / 2.0).to_radians();
    [
        (number(to.x) - number(from.x)) * 111_320.0 * lat.cos(),
        (number(to.y) - number(from.y)) * 110_540.0,
    ]
}

fn angle_deg(a: [f64; 2], b: [f64; 2]) -> Option<f64> {
    let (na, nb) = (a[0].hypot(a[1]), b[0].hypot(b[1]));
    if na > 0.0 && nb > 0.0 {
        Some(((a[0] * b[0] + a[1] * b[1]) / (na * nb)).clamp(-1.0, 1.0).acos().to_degrees())
    } else {
        None
    }
}

fn wind(x: &PlumeCandidate) -> [f64; 2] {
    [number(x.wind.x), number(x.wind.y)]
}

fn triage(c: &[PlumeCandidate]) -> Vec<Verdict> {
    let c = c.to_vec();
    let drift: Vec<Drift> = c
        .iter()
        .map(|x| {
            let d = local_m(x.origin, x.centre);
            Drift {
                speed: num(wind(x)[0].hypot(wind(x)[1])),
                displacement_m: num(d[0].hypot(d[1])),
                turn_deg: angle_deg(d, wind(x)).map(num),
            }
        })
        .collect();
    let apart: Vec<Apart> = comparisons(&c)
        .into_iter()
        .map(|(a, b)| {
            let d = local_m(c[a].centre, c[b].centre);
            Apart {
                a,
                b,
                distance_m: num(d[0].hypot(d[1])),
                turn_deg: angle_deg(wind(&c[a]), wind(&c[b])).map(num),
            }
        })
        .collect();
    s2e::triage::triage(&c, &drift, &apart)
}

// a barrow-like clean candidate: anchored on the facility, tail downwind,
// compact, plausible flux, clear high-sun scene, non-repeating.
fn clean(key: &str, date: &str) -> PlumeCandidate {
    PlumeCandidate {
        key: key.into(),
        target: key.split(':').next().unwrap().into(),
        date: date.into(),
        centre: pair(-3.230, 54.096), // ~330 m east of origin
        origin: pair(-3.235, 54.096),
        anchor_m: num(40.0),
        wind: pair(8.0, 0.0), // toward east — aligned with the tail
        max_p: num(0.97),
        flux_kg_h: num(4700.0),
        clear_percent: num(100.0),
        sun_elevation: Some(num(35.0)),
        swath_edge: false,
        cross_orbit_bg: false,
        collinearity: Some(num(0.05)),
    }
}

#[test]
fn clean_candidate_scores_one() {
    let v = triage(&[clean("barrow:2026-03-14:plume-1", "2026-03-14")]);
    assert!(v[0].rejects.is_empty() && v[0].flags.is_empty());
    assert_eq!(number(v[0].score), 1.0);
}

#[test]
fn probability_is_a_floor_not_a_weight() {
    let mut low = clean("a:d:p", "2026-01-01");
    low.max_p = num(0.59);
    let mut mid = clean("b:d:p", "2026-01-02");
    mid.max_p = num(0.7); // credible-vent territory
    let v = triage(&[low, mid]);
    assert_eq!(v[0].key, "b:d:p");
    assert_eq!(number(v[0].score), 1.0); // 0.7 ranks no lower than 0.97 would
    assert_eq!(v[1].rejects, ["p-floor"]);
}

#[test]
fn below_the_floor_probability_says_no_more_either() {
    let judge = |p: f64| {
        let mut c = clean("a:d:p", "2026-01-01");
        c.max_p = num(p);
        format!("{:?}", triage(&[c])[0])
    };
    assert_eq!(judge(0.59), judge(0.01));
    assert_eq!(judge(0.6), judge(0.99));
    assert_ne!(judge(0.59), judge(0.6));
}

#[test]
fn magnitude_prior() {
    let mut zero = clean("z:d:p", "2026-01-01");
    zero.flux_kg_h = num(0.0);
    let mut huge = clean("h:d:p", "2026-01-02");
    huge.flux_kg_h = num(54_000.0);
    let v = triage(&[zero, huge]);
    assert_eq!(v[0].flags, ["magnitude"]);
    assert_eq!(v[1].rejects, ["zero-flux"]);
}

#[test]
fn wind_terms() {
    let mut upwind = clean("u:d:p", "2026-01-01");
    upwind.wind = pair(-8.0, 0.0); // tail points east, wind blows west
    let mut pinned = clean("s:d:p", "2026-01-02");
    pinned.centre = pinned.origin; // undisplaced under 8 m/s
    let mut far = clean("f:d:p", "2026-01-03");
    far.anchor_m = num(900.0); // alrewas: 900 m from the station
    let v = triage(&[upwind, pinned, far]);
    let by = |k: &str| v.iter().find(|x| x.key.starts_with(k)).unwrap();
    assert_eq!(by("u").flags, ["crosswind"]);
    assert_eq!(by("s").flags, ["static"]);
    assert_eq!(by("f").flags, ["unanchored"]);
}

#[test]
fn recurrence_needs_different_winds() {
    let mut a = clean("churchover:2026-03-18:plume-1", "2026-03-18");
    let mut b = clean("churchover:2026-04-30:plume-1", "2026-04-30");
    b.wind = pair(0.0, 8.0); // 90° apart, mask pinned at the same offset
    a.target = "churchover".into();
    b.target = "churchover".into();
    let v = triage(&[a.clone(), b.clone()]);
    assert!(v.iter().all(|x| x.rejects == ["recurrent"]));
    b.wind = a.wind; // same wind → could be a continuous source
    let v = triage(&[a, b]);
    assert!(v.iter().all(|x| x.rejects.is_empty()));
}

#[test]
fn scene_day_regime_flags_all_sites() {
    let mut a = clean("wooler:2026-01-10:plume-1", "2026-01-10");
    let mut b = clean("holford:2026-01-10:plume-1", "2026-01-10");
    a.target = "wooler".into();
    b.target = "holford".into();
    let v = triage(&[a, b]);
    assert!(v.iter().all(|x| x.flags == ["scene-regime"]));
}

#[test]
fn cross_orbit_background_is_flagged() {
    let mut x = clean("barrow:2026-03-14:plume-1", "2026-03-14");
    x.cross_orbit_bg = true; // r080 scene differenced against an r037 look
    let v = triage(&[x]);
    assert_eq!(v[0].flags, ["cross-orbit-bg"]);
    assert!(v[0].rejects.is_empty()); // flag, not veto: barrow itself is real
}

#[test]
fn collinear_and_hygiene() {
    let mut road = clean("r:d:p", "2026-01-01");
    road.collinearity = Some(num(0.8));
    let mut winter = clean("w:d:p", "2026-01-02");
    winter.sun_elevation = Some(num(12.0));
    winter.clear_percent = num(30.0);
    winter.swath_edge = true;
    let v = triage(&[road, winter]);
    assert_eq!(v[0].flags, ["low-sun", "cloud-residue", "swath-edge"]);
    assert!((number(v[0].score) - 0.65).abs() < 1e-9);
    assert_eq!(v[1].rejects, ["collinear"]);
    assert_eq!(number(v[1].score), 0.0);
}

#[test]
fn every_flag_has_its_weight() {
    let score = |change: fn(&mut PlumeCandidate)| {
        let mut x = clean("a:d:p", "2026-01-01");
        change(&mut x);
        number(triage(&[x])[0].score)
    };
    assert_eq!(score(|x| x.collinearity = Some(num(0.25))), 0.75);
    assert_eq!(score(|x| x.anchor_m = num(501.0)), 0.75);
    assert_eq!(score(|x| x.wind = pair(0.0, 8.0)), 0.75);
    assert_eq!(score(|x| x.centre = x.origin), 0.8);
    assert_eq!(score(|x| x.flux_kg_h = num(20_001.0)), 0.8);
    assert_eq!(score(|x| x.sun_elevation = Some(num(19.9))), 0.85);
    assert_eq!(score(|x| x.clear_percent = num(39.9)), 0.9);
    assert_eq!(score(|x| x.swath_edge = true), 0.9);
    assert_eq!(score(|x| x.cross_orbit_bg = true), 0.75);
    // at the thresholds themselves nothing is flagged
    assert_eq!(score(|x| x.anchor_m = num(500.0)), 1.0);
    assert_eq!(score(|x| x.flux_kg_h = num(20_000.0)), 1.0);
    assert_eq!(score(|x| x.sun_elevation = Some(num(20.0))), 1.0);
    assert_eq!(score(|x| x.clear_percent = num(40.0)), 1.0);
    assert_eq!(score(|x| x.max_p = num(0.6)), 1.0);
    assert_eq!(score(|x| x.flux_kg_h = num(1.0)), 0.0);
    assert_eq!(score(|x| x.collinearity = Some(num(0.5))), 0.0);
}

#[test]
fn a_score_is_not_less_than_zero() {
    let mut x = clean("a:d:p", "2026-01-01");
    x.collinearity = Some(num(0.3));
    x.anchor_m = num(900.0);
    x.wind = pair(-8.0, 0.0);
    x.cross_orbit_bg = true;
    x.flux_kg_h = num(54_000.0);
    let v = triage(&[x]);
    assert_eq!(
        v[0].flags,
        ["boundary", "unanchored", "crosswind", "magnitude", "cross-orbit-bg"]
    );
    assert_eq!(v[0].score, num(0.0));
}

#[test]
fn survivors_come_first_and_ties_break_on_the_key() {
    let mut reject = clean("a:d:p", "2026-01-01");
    reject.max_p = num(0.1);
    let mut flagged = clean("b:d:p", "2026-01-02");
    flagged.swath_edge = true;
    let c = [
        reject,
        clean("d:d:p", "2026-01-03"),
        flagged,
        clean("c:d:p", "2026-01-04"),
        clean("c:d:p", "2026-01-05"),
    ];
    let v = triage(&c);
    let order: Vec<usize> = v.iter().map(|x| x.idx).collect();
    assert_eq!(order, [3, 4, 1, 2, 0]);
    let other: Vec<PlumeCandidate> = c.iter().rev().cloned().collect();
    let keys: Vec<String> = triage(&other).into_iter().map(|x| x.key).collect();
    assert_eq!(keys, ["c:d:p", "c:d:p", "d:d:p", "b:d:p", "a:d:p"]);
}

#[test]
fn only_other_days_of_the_same_target_are_compared() {
    let c = vec![clean("a:1:p", "1"), clean("a:1:q", "1"), clean("a:2:p", "2"), clean("b:2:p", "2")];
    assert_eq!(comparisons(&c), [(0, 2), (1, 2), (2, 0), (2, 1)]);
    assert!(triage(&[]).is_empty());
}
