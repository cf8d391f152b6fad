//! What a detection run does: which pass it makes, which scenes it reads and which window of them it
//! needs.
use crate::calendar::{date_on, date_read, in_calendar, long_iso, unread, ShiftError};
use crate::discover::padded_window;
use crate::manifest::Header;
use crate::stac::{a_filter_keeps_what_passes, is_l1c, item_views, Item, ItemView};
use crate::text::{decimal, ends_with, same, to_decimal, views};
use vstd::prelude::*;

verus! {

/// Which signals a run detects.
#[derive(Clone, Copy, Debug, PartialEq, Eq, Structural)]
pub enum DetectorMode {
    Both,
    Flares,
    Plumes,
}

/// The pass that a run makes: flares over whatever it reads, or each target's chip for the signals
/// of its mode.
#[derive(Clone, Copy, Debug, PartialEq, Eq, Structural)]
pub enum Pass {
    Flares,
    Targeted,
}

/// Whether a run is told where to look.
pub fn has_area(bbox: bool, aoi: bool, region: bool) -> (r: Result<(), String>)
    ensures
        is_told(r, bbox, aoi, region),
        r is Ok <==> bbox || aoi || region,
        r matches Err(m) ==> m@ == "detect: provide --bbox, --aoi, or --region"@,
{
    if !bbox && !aoi && !region {
        Err("detect: provide --bbox, --aoi, or --region".to_owned())
    } else {
        Ok(())
    }
}

/// The pass that a run makes. Whole tiles are scanned for flares alone, and plumes are detected in
/// top-of-atmosphere radiometry alone.
pub open spec fn pass_of(region: bool, mode: DetectorMode, source: Seq<char>) -> Result<
    Pass,
    Seq<char>,
> {
    if region {
        if mode == DetectorMode::Flares {
            Ok(Pass::Flares)
        } else {
            Err(
                "detect --mode both/plumes needs point or AOI targets; use --mode flares for a whole-tile --region scan"@,
            )
        }
    } else if is_l1c(source) {
        Ok(Pass::Targeted)
    } else if mode == DetectorMode::Flares {
        Ok(Pass::Flares)
    } else {
        Err("methane plume detection requires an L1C --source"@)
    }
}

/// The pass that a run makes.
pub fn dispatch(region: bool, mode: DetectorMode, source: &str) -> (r: Result<Pass, String>)
    ensures
        match pass_of(region, mode, source@) {
            Ok(p) => r == Ok::<Pass, String>(p),
            Err(m) => r is Err && r->Err_0@ == m,
        },
{
    if region {
        if mode == DetectorMode::Flares {
            Ok(Pass::Flares)
        } else {
            Err(
                "detect --mode both/plumes needs point or AOI targets; use --mode flares for a whole-tile --region scan".to_owned(),
            )
        }
    } else if ends_with(source, "l1c") {
        Ok(Pass::Targeted)
    } else if mode == DetectorMode::Flares {
        Ok(Pass::Flares)
    } else {
        Err("methane plume detection requires an L1C --source".to_owned())
    }
}

/// The window that a manifest must cover for a run: the run's own, and for plumes also the days
/// either side that their background is selected from.
pub fn needed_window(mode: DetectorMode, start: &str, end: &str, pad: i64) -> (r: Result<
    (String, String),
    ShiftError,
>)
    requires
        pad > i64::MIN,
    ensures
        mode == DetectorMode::Flares ==> (r matches Ok(w) && w.0@ == start@ && w.1@ == end@),
        mode != DetectorMode::Flares ==> match (date_read(start@), date_read(end@)) {
            (Err(e), _) => r matches Err(ShiftError::Unread(m)) && m@ == unread(start@, e),
            (Ok(a), Err(e)) => if in_calendar(a - 719163 - pad) {
                r matches Err(ShiftError::Unread(m)) && m@ == unread(end@, e)
            } else {
                r matches Err(ShiftError::OutOfRange)
            },
            (Ok(a), Ok(b)) => if in_calendar(a - 719163 - pad) && in_calendar(b - 719163 + pad) {
                r matches Ok(w) && w.0@ == long_iso(date_on(a - 719163 - pad)) && w.1@ == long_iso(
                    date_on(b - 719163 + pad),
                )
            } else {
                r matches Err(ShiftError::OutOfRange)
            },
        },
{
    if mode == DetectorMode::Flares {
        Ok((start.to_owned(), end.to_owned()))
    } else {
        padded_window(start, end, pad)
    }
}

/// What is said of a manifest that a run cannot use: it stops the run rather than being ignored.
pub fn manifest_refused(error: &str) -> (r: String)
    ensures
        r@ == "detect --scenes: "@ + error@,
{
    let mut s = "detect --scenes: ".to_owned();
    s.append(error);
    s
}

/// What is said of a manifest that a run uses.
pub fn manifest_used(h: &Header, scenes: usize, path: &str) -> (r: String)
    ensures
        r@ == "scenes: "@ + decimal(scenes as nat) + " from "@ + path@ + " · "@ + h.start@ + " -> "@
            + h.end@ + " · built "@ + h.created@ + " in "@ + decimal(h.requests as nat)
            + " requests"@,
{
    let mut s = "scenes: ".to_owned();
    s.append(to_decimal(scenes as u64).as_str());
    s.append(" from ");
    s.append(path);
    s.append(" · ");
    s.append(h.start.as_str());
    s.append(" -> ");
    s.append(h.end.as_str());
    s.append(" · built ");
    s.append(h.created.as_str());
    s.append(" in ");
    s.append(to_decimal(h.requests as u64).as_str());
    s.append(" requests");
    s
}

fn is_among(tiles: &Vec<String>, tile: &str) -> (r: bool)
    ensures
        r == views(tiles@).contains(tile@),
{
    for i in 0..tiles.len()
        invariant
            forall|k: int| 0 <= k < i ==> views(tiles@)[k] != tile@,
    {
        if same(tiles[i].as_str(), tile) {
            proof {
                assert(views(tiles@)[i as int] == tile@);
            }
            return true;
        }
    }
    false
}

/// The scenes of the tiles that a run is restricted to; all of them where it is not.
pub fn filter_tiles(tiles: &Vec<String>, items: Vec<Item>) -> (r: Vec<Item>)
    ensures
        are_of_tiles(item_views(r@), views(tiles@), item_views(items@)),
        item_views(r@) == if tiles@.len() == 0 {
            item_views(items@)
        } else {
            item_views(items@).filter(|it: ItemView| views(tiles@).contains(it.mgrs))
        },
{
    if tiles.len() == 0 {
        return items;
    }
    let ghost given = items@;
    let ghost all = item_views(items@);
    let ghost keep = |it: ItemView| views(tiles@).contains(it.mgrs);
    let mut out: Vec<Item> = Vec::new();
    proof {
        reveal(Seq::filter);
        assert(item_views(out@) =~= Seq::empty());
        assert(all.take(0).filter(keep) =~= Seq::empty());
    }
    for it in iter: items
        invariant
            iter.seq() == given,
            all == item_views(given),
            keep == (|it: ItemView| views(tiles@).contains(it.mgrs)),
            item_views(out@) == all.take(iter.index()).filter(keep),
    {
        let ghost i = iter.index();
        let ghost before = item_views(out@);
        proof {
            reveal(Seq::filter);
            assert(all.take(i + 1).drop_last() =~= all.take(i));
            assert(all.take(i + 1).last() == it@);
        }
        if is_among(tiles, it.mgrs.as_str()) {
            let ghost view = it@;
            out.push(it);
            proof {
                assert(item_views(out@) =~= before.push(view));
            }
        }
    }
    proof {
        assert(all.take(given.len() as int) =~= all);
    }
    out
}

/// Whole tiles are scanned for flares alone, and plumes are looked for in top-of-atmosphere scenes
/// alone; whatever a run may do it does, and each target of such scenes gets a pass of its own.
pub proof fn plumes_need_targets_and_radiance(region: bool, mode: DetectorMode, source: Seq<char>)
    ensures
        pass_of(region, mode, source) is Ok <==> mode == DetectorMode::Flares || (!region
            && "l1c"@.is_suffix_of(source)),
        pass_of(region, mode, source) matches Ok(p) ==> (p == Pass::Targeted <==> !region
            && "l1c"@.is_suffix_of(source)),
{
}

/// A run that is restricted to tiles reads just the scenes of those tiles, and one that is not
/// reads all of them.
pub proof fn a_run_reads_the_tiles_asked_for(
    r: Seq<ItemView>,
    tiles: Seq<Seq<char>>,
    items: Seq<ItemView>,
    it: ItemView,
)
    requires
        are_of_tiles(r, tiles, items),
    ensures
        tiles.len() == 0 ==> r == items,
        tiles.len() > 0 ==> (r.contains(it) <==> items.contains(it) && tiles.contains(it.mgrs)),
{
    let p = |it: ItemView| tiles.contains(it.mgrs);
    a_filter_keeps_what_passes(items, p, it);
}

/// Whether scenes are those of some tiles among others.
pub open spec fn are_of_tiles(
    r: Seq<ItemView>,
    tiles: Seq<Seq<char>>,
    items: Seq<ItemView>,
) -> bool {
    r == if tiles.len() == 0 {
        items
    } else {
        items.filter(|it: ItemView| tiles.contains(it.mgrs))
    }
}

/// Whether a run is told where to look: by a box, an area file or a region.
pub open spec fn is_told(r: Result<(), String>, bbox: bool, aoi: bool, region: bool) -> bool {
    r is Ok <==> bbox || aoi || region
}

/// Any one of a box, an area file and a region is enough to look, and without any of them there is
/// nowhere to.
pub proof fn any_area_is_enough(r: Result<(), String>, bbox: bool, aoi: bool, region: bool)
    requires
        is_told(r, bbox, aoi, region),
    ensures
        bbox ==> r is Ok,
        aoi ==> r is Ok,
        region ==> r is Ok,
        !bbox && !aoi && !region ==> r is Err,
{
}

} // verus!
