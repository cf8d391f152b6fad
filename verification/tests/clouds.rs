use s2e::clouds::{Anchor, ClearSky};
use s2e::number::Real;

fn num(x: f64) -> Real {
    Real { bits: x.to_bits() }
}

fn list(v: &[&str]) -> Vec<String> {
    v.iter().map(|s| s.to_string()).collect()
}

fn anchor(own: &str, around: &[&str], dates: &[&str]) -> Anchor {
    Anchor { own: own.to_string(), around: list(around), dates: list(dates) }
}

#[test]
fn a_site_is_observed_on_clear_days_and_on_its_own() {
    let sites = vec![anchor("b", &["a", "b", "c"], &["d1", "d1", "d2"])];
    let mut sky = ClearSky::new(&sites, num(0.2));
    sky.note("b", "d2", num(0.1));
    sky.note("b", "d3", num(0.2));
    sky.note("b", "d3", num(0.0));
    sky.note("b", "d4", num(0.3));
    sky.note("a", "d9", num(0.0));
    assert_eq!(sky.observed(&sites[0]), Some(3));
}

#[test]
fn the_cells_around_stand_in_for_a_cell_without_a_look() {
    let sites = vec![anchor("b", &["a", "b", "c"], &["d1"])];
    let mut sky = ClearSky::new(&sites, num(0.2));
    sky.note("a", "d1", num(0.1));
    sky.note("a", "d2", num(0.1));
    sky.note("c", "d3", num(0.1));
    sky.note("c", "d4", num(0.9));
    assert_eq!(sky.observed(&sites[0]), Some(3));
}

#[test]
fn a_cell_that_was_never_clear_still_speaks_for_its_site() {
    let sites = vec![anchor("b", &["a", "b", "c"], &["d1"])];
    let mut sky = ClearSky::new(&sites, num(0.2));
    sky.note("b", "d4", num(0.9));
    sky.note("a", "d2", num(0.1));
    assert_eq!(sky.observed(&sites[0]), Some(1));
    sky.note("b", "d5", num(0.1));
    assert_eq!(sky.observed(&sites[0]), Some(2));
    // overcast looks around a cell without one are looks too
    let mut edge = ClearSky::new(&sites, num(0.2));
    edge.note("c", "d9", num(1.0));
    assert_eq!(edge.observed(&sites[0]), Some(1));
}

#[test]
fn a_site_that_was_never_looked_at_is_left_alone() {
    let sites = vec![anchor("b", &["a", "b"], &["d1"])];
    let mut sky = ClearSky::new(&sites, num(0.2));
    assert_eq!(sky.observed(&sites[0]), None);
    // a cell that no site needs is not kept
    sky.note("z", "d1", num(0.0));
    assert_eq!(sky.observed(&sites[0]), None);
    assert_eq!(sky.observed(&anchor("z", &["z"], &[])), None);
    // an unreadable look is a look, and not a clear one
    sky.note("a", "d2", num(f64::NAN));
    assert_eq!(sky.observed(&sites[0]), Some(1));
}
