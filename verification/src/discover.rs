//! Building the scene list of a campaign in as few catalogue requests as the catalogue will take: a
//! batch of areas is one request rather than one each.
use crate::calendar::{
    date_on, date_read, day_number, day_written, in_calendar, long_iso, shift_date, unread,
    ShiftError,
};
use crate::envelope::Envelope;
use crate::manifest::{Header, HeaderView, VERSION};
use crate::stac::{item_views, Item, ItemView};
use crate::text::{decimal, to_decimal};
use vstd::hash_set::StringHashSet;
use vstd::prelude::*;
use vstd::seq_lib::lemma_seq_contains_after_push;

verus! {

/// The names of some scenes.
pub open spec fn ids_of(scenes: Seq<ItemView>) -> Seq<Seq<char>> {
    scenes.map_values(|it: ItemView| it.id)
}

/// A scene list with the scenes of one more batch: those whose name is not on it yet.
pub open spec fn merged(scenes: Seq<ItemView>, got: Seq<ItemView>) -> Seq<ItemView>
    decreases got.len(),
{
    if got.len() == 0 {
        scenes
    } else {
        let before = merged(scenes, got.drop_last());
        if ids_of(before).contains(got.last().id) {
            before
        } else {
            before.push(got.last())
        }
    }
}

/// The scenes of a campaign, each of them once.
pub struct Campaign {
    scenes: Vec<Item>,
    seen: StringHashSet,
}

impl View for Campaign {
    type V = Seq<ItemView>;

    closed spec fn view(&self) -> Seq<ItemView> {
        item_views(self.scenes@)
    }
}

impl Campaign {
    /// What is remembered are the names of the scenes, and no two scenes share one.
    pub closed spec fn is_valid(self) -> bool {
        &&& forall|id: Seq<char>| #[trigger]
            self.seen@.contains(id) <==> ids_of(item_views(self.scenes@)).contains(id)
        &&& ids_of(item_views(self.scenes@)).no_duplicates()
    }

    /// Nothing found yet.
    pub fn new() -> (r: Campaign)
        ensures
            r.is_valid(),
            r@ == Seq::<ItemView>::empty(),
    {
        let r = Campaign { scenes: Vec::new(), seen: StringHashSet::new() };
        proof {
            assert(r@ =~= Seq::empty());
        }
        r
    }

    /// How many scenes there are.
    pub fn len(&self) -> (r: usize)
        ensures
            r == self@.len(),
    {
        self.scenes.len()
    }

    /// The scenes, in the order in which they were found.
    pub fn scenes(&self) -> (r: &Vec<Item>)
        ensures
            item_views(r@) == self@,
    {
        &self.scenes
    }

    /// Takes the scenes of one more batch. Scenes that two batches share arrive twice, and are kept
    /// once.
    pub fn merge(&mut self, got: Vec<Item>)
        requires
            old(self).is_valid(),
        ensures
            final(self).is_valid(),
            final(self)@ == merged(old(self)@, item_views(got@)),
    {
        let ghost start = item_views(self.scenes@);
        let ghost all = item_views(got@);
        let ghost given = got@;
        proof {
            assert(all.take(0) =~= Seq::empty());
        }
        for it in iter: got
            invariant
                iter.seq() == given,
                all == item_views(given),
                self.is_valid(),
                item_views(self.scenes@) == merged(start, all.take(iter.index())),
        {
            let ghost i = iter.index();
            let ghost before = item_views(self.scenes@);
            let ghost was = *self;
            proof {
                assert(all.take(i + 1).drop_last() =~= all.take(i));
                assert(all.take(i + 1).last() == it@);
            }
            if self.seen.insert(it.id.clone()) {
                let ghost view = it@;
                self.scenes.push(it);
                proof {
                    let after = item_views(self.scenes@);
                    assert(after =~= before.push(view));
                    assert(ids_of(after) =~= ids_of(before).push(view.id));
                    assert forall|id: Seq<char>| #[trigger]
                        self.seen@.contains(id) <==> ids_of(after).contains(id) by {
                        assert(was.seen@.contains(id) <==> ids_of(before).contains(id));
                        if ids_of(before).contains(id) {
                            let k = choose|k: int|
                                0 <= k < ids_of(before).len() && ids_of(before)[k] == id;
                            assert(ids_of(after)[k] == id);
                        }
                        if id == view.id {
                            assert(ids_of(after)[before.len() as int] == id);
                        }
                    }
                    assert(!ids_of(before).contains(view.id));
                }
            } else {
                proof {
                    assert(self.seen@ =~= was.seen@);
                }
            }
        }
        proof {
            assert(all.take(given.len() as int) =~= all);
        }
    }
}

proof fn lemma_merged(scenes: Seq<ItemView>, got: Seq<ItemView>, id: Seq<char>)
    ensures
        scenes.is_prefix_of(merged(scenes, got)),
        ids_of(merged(scenes, got)).contains(id) <==> ids_of(scenes).contains(id) || ids_of(
            got,
        ).contains(id),
        ids_of(scenes).no_duplicates() ==> ids_of(merged(scenes, got)).no_duplicates(),
    decreases got.len(),
{
    if got.len() == 0 {
        assert(scenes =~= scenes.subrange(0, scenes.len() as int));
    } else {
        let front = got.drop_last();
        let last = got.last();
        lemma_merged(scenes, front, id);
        lemma_merged(scenes, front, last.id);
        let before = merged(scenes, front);
        assert(ids_of(got) =~= ids_of(front).push(last.id));
        lemma_seq_contains_after_push(ids_of(front), last.id, id);
        if !ids_of(before).contains(last.id) {
            let after = before.push(last);
            assert(ids_of(after) =~= ids_of(before).push(last.id));
            lemma_seq_contains_after_push(ids_of(before), last.id, id);
            assert(scenes =~= after.subrange(0, scenes.len() as int)) by {
                assert(scenes =~= before.subrange(0, scenes.len() as int));
            }
        }
    }
}

/// A scene list keeps every scene once: one more batch takes nothing off it, brings every scene of
/// the batch onto it, and never brings a name twice.
pub proof fn every_scene_is_kept_once(scenes: Seq<ItemView>, got: Seq<ItemView>)
    ensures
        scenes.is_prefix_of(merged(scenes, got)),
        forall|id: Seq<char>| #[trigger]
            ids_of(merged(scenes, got)).contains(id) <==> ids_of(scenes).contains(id) || ids_of(
                got,
            ).contains(id),
        ids_of(scenes).no_duplicates() ==> ids_of(merged(scenes, got)).no_duplicates(),
{
    lemma_merged(scenes, got, Seq::empty());
    assert forall|id: Seq<char>| #[trigger]
        ids_of(merged(scenes, got)).contains(id) <==> ids_of(scenes).contains(id) || ids_of(
            got,
        ).contains(id) by {
        lemma_merged(scenes, got, id);
    }
}

/// A batch that was taken adds nothing when it is taken again, whatever came between.
pub proof fn a_batch_counts_once(scenes: Seq<ItemView>, got: Seq<ItemView>)
    requires
        forall|k: int| 0 <= k < got.len() ==> ids_of(scenes).contains((#[trigger] got[k]).id),
    ensures
        merged(scenes, got) == scenes,
    decreases got.len(),
{
    if got.len() > 0 {
        let front = got.drop_last();
        assert forall|k: int| 0 <= k < front.len() implies ids_of(scenes).contains(
            (#[trigger] front[k]).id,
        ) by {
            assert(front[k] == got[k]);
        }
        a_batch_counts_once(scenes, front);
        assert(ids_of(scenes).contains(got[got.len() - 1].id));
    }
}

/// Why a campaign's scene list cannot be built.
pub open spec fn refusal(aoi: bool, shard: bool, batch: usize) -> Option<Seq<char>> {
    if !aoi {
        Some(
            "discover: --aoi is what there is to discover; --bbox and --region search as they run"@,
        )
    } else if shard {
        Some(
            "discover: a manifest covers the whole AOI and every member reads the same one — drop --shard"@,
        )
    } else if batch == 0 {
        Some("discover: --batch must be at least 1"@)
    } else {
        None
    }
}

/// Whether a campaign's scene list can be built: for a whole area file, in batches of one at least.
pub fn request(aoi: bool, shard: bool, batch: usize) -> (r: Result<(), String>)
    ensures
        match refusal(aoi, shard, batch) {
            Some(m) => r is Err && r->Err_0@ == m,
            None => r is Ok,
        },
{
    if !aoi {
        Err(
            "discover: --aoi is what there is to discover; --bbox and --region search as they run".to_owned(),
        )
    } else if shard {
        Err(
            "discover: a manifest covers the whole AOI and every member reads the same one — drop --shard".to_owned(),
        )
    } else if batch == 0 {
        Err("discover: --batch must be at least 1".to_owned())
    } else {
        Ok(())
    }
}

/// The window of a campaign: so many days wider at either end, for the background that a plume run
/// selects from the scenes around the dates asked for.
pub fn padded_window(start: &str, end: &str, pad: i64) -> (r: Result<(String, String), ShiftError>)
    requires
        pad > i64::MIN,
    ensures
        match (date_read(start@), date_read(end@)) {
            (Err(e), _) => r matches Err(ShiftError::Unread(m)) && m@ == unread(start@, e),
            (Ok(a), Err(e)) => if in_calendar(a - 719163 - pad) {
                r matches Err(ShiftError::Unread(m)) && m@ == unread(end@, e)
            } else {
                r matches Err(ShiftError::OutOfRange)
            },
            (Ok(a), Ok(b)) => if in_calendar(a - 719163 - pad) && in_calendar(b - 719163 + pad) {
                r matches Ok(w) && w.0@ == long_iso(date_on(a - 719163 - pad)) && w.1@ == long_iso(
                    date_on(b - 719163 + pad),
                )
            } else {
                r matches Err(ShiftError::OutOfRange)
            },
        },
{
    let from = match shift_date(start, -pad) {
        Ok(d) => d,
        Err(e) => return Err(e),
    };
    let to = match shift_date(end, pad) {
        Ok(d) => d,
        Err(e) => return Err(e),
    };
    Ok((from, to))
}

/// How many batches some areas make.
pub open spec fn batch_count(len: nat, batch: nat) -> nat {
    if batch == 0 {
        0
    } else {
        ((len + batch - 1) / batch as int) as nat
    }
}

/// One of the batches: so many areas from its start, or those that are left.
pub open spec fn batch_at(area: Seq<Envelope>, batch: nat, k: int) -> Seq<Envelope> {
    area.subrange(
        k * batch,
        if (k + 1) * batch <= area.len() {
            (k + 1) * batch
        } else {
            area.len() as int
        },
    )
}

/// The areas in batches, in order; an error where there are none.
pub fn batches(area: &Vec<Envelope>, batch: usize) -> (r: Result<Vec<Vec<Envelope>>, String>)
    requires
        batch > 0,
    ensures
        area@.len() == 0 ==> r is Err && r->Err_0@ == "discover: the AOI has no features"@,
        area@.len() > 0 ==> r is Ok && {
            let v = r->Ok_0@;
            &&& v.len() == batch_count(area@.len(), batch as nat)
            &&& forall|k: int|
                0 <= k < v.len() ==> (#[trigger] v[k])@ == batch_at(area@, batch as nat, k)
        },
{
    if area.len() == 0 {
        return Err("discover: the AOI has no features".to_owned());
    }
    let mut out: Vec<Vec<Envelope>> = Vec::new();
    let mut at: usize = 0;
    let ghost k: int = 0;
    let ghost n = batch as int;
    proof {
        assert(0 * n == 0);
    }
    while at < area.len()
        invariant
            n == batch,
            n > 0,
            0 <= k,
            out@.len() == k,
            at == if k * n <= area@.len() {
                k * n
            } else {
                area@.len() as int
            },
            k > 0 ==> (k - 1) * n < area@.len(),
            forall|m: int| 0 <= m < k ==> (#[trigger] out@[m])@ == batch_at(area@, n as nat, m),
        decreases area@.len() - at,
    {
        let end: usize = if area.len() - at > batch {
            at + batch
        } else {
            area.len()
        };
        let mut part: Vec<Envelope> = Vec::new();
        for i in at..end
            invariant
                at <= end <= area@.len(),
                part@ =~= area@.subrange(at as int, i as int),
        {
            part.push(area[i]);
        }
        out.push(part);
        proof {
            assert((k + 1) * n == k * n + n) by (nonlinear_arith);
            assert(at == k * n);
            assert(part@ =~= batch_at(area@, n as nat, k));
            k = k + 1;
            assert((k - 1) * n < area@.len());
        }
        at = end;
    }
    proof {
        let len = area@.len() as int;
        assert(k * n >= len && (k - 1) * n < len);
        assert(k * n == (k - 1) * n + n) by (nonlinear_arith);
        assert(k == (len + n - 1) / n) by {
            let r = len + n - 1 - k * n;
            vstd::arithmetic::div_mod::lemma_fundamental_div_mod_converse(len + n - 1, n, k, r);
        }
    }
    Ok(out)
}

proof fn lemma_batches(area: Seq<Envelope>, batch: nat, k: nat)
    requires
        batch > 0,
        k <= batch_count(area.len(), batch),
    ensures
        Seq::new(k, |m: int| batch_at(area, batch, m)).flatten() == area.take(
            if k * batch <= area.len() {
                (k * batch) as int
            } else {
                area.len() as int
            },
        ),
    decreases k,
{
    let all = Seq::new(k, |m: int| batch_at(area, batch, m));
    let n = batch as int;
    if k == 0 {
        assert(all =~= Seq::empty());
        assert(0 * batch == 0);
        assert(area.take(0) =~= Seq::empty());
    } else {
        let j = (k - 1) as nat;
        lemma_batches(area, batch, j);
        let front = Seq::new(j, |m: int| batch_at(area, batch, m));
        assert(all =~= front.push(batch_at(area, batch, j as int)));
        front.lemma_flatten_push(batch_at(area, batch, j as int));
        assert(k * batch == j * batch + batch) by (nonlinear_arith)
            requires
                k == j + 1,
        ;
        lemma_batch_start(area.len() as int, n, j as int);
        assert(all.flatten() =~= area.take(
            if k * batch <= area.len() {
                (k * batch) as int
            } else {
                area.len() as int
            },
        ));
    }
}

proof fn lemma_batch_start(len: int, n: int, j: int)
    requires
        0 < n,
        0 <= len,
        0 <= j < (len + n - 1) / n,
    ensures
        0 <= j * n < len,
{
    let m = len + n - 1;
    vstd::arithmetic::div_mod::lemma_fundamental_div_mod(m, n);
    let q = m / n;
    assert(0 <= j * n < len) by (nonlinear_arith)
        requires
            m == n * q + m % n,
            0 <= m % n < n,
            m == len + n - 1,
            0 <= j < q,
            0 < n,
    ;
}

/// The batches take in every area once and in order, and each of them holds one area at least and
/// no more than a batch takes.
pub proof fn batches_take_in_every_area(area: Seq<Envelope>, batch: nat)
    requires
        batch > 0,
    ensures
        Seq::new(
            batch_count(area.len(), batch),
            |k: int| batch_at(area, batch, k),
        ).flatten() == area,
        forall|k: int|
            0 <= k < batch_count(area.len(), batch) ==> 0 < (#[trigger] batch_at(
                area,
                batch,
                k,
            )).len() <= batch,
{
    let count = batch_count(area.len(), batch);
    let n = batch as int;
    let len = area.len() as int;
    lemma_batches(area, batch, count);
    vstd::arithmetic::div_mod::lemma_fundamental_div_mod(len + n - 1, n);
    vstd::arithmetic::div_mod::lemma_div_pos_is_pos(len + n - 1, n);
    assert(count * batch >= area.len()) by (nonlinear_arith)
        requires
            len + n - 1 == n * ((len + n - 1) / n) + (len + n - 1) % n,
            (len + n - 1) % n < n,
            count == (len + n - 1) / n,
            n == batch,
            len == area.len(),
    ;
    assert(area.take(area.len() as int) =~= area);
    assert forall|k: int| 0 <= k < count implies 0 < (#[trigger] batch_at(area, batch, k)).len()
        <= batch by {
        lemma_batch_start(len, n, k);
        assert((k + 1) * n == k * n + n) by (nonlinear_arith);
    }
}

/// The start of one of the parts of a window of so many days.
pub open spec fn part_start(first: int, days: int, parts: int, k: int) -> int {
    first + days * k / parts
}

/// How many parts a window of so many days is split into: as many as asked for, but no more than it
/// has days, and one at least.
pub open spec fn part_count(days: int, jobs: int) -> int {
    if jobs < 1 || days < 1 {
        1
    } else if jobs > days {
        days
    } else {
        jobs
    }
}

/// The parts of a window, by the numbers of their first and last days. They can be searched at the
/// same time.
pub fn sub_windows(first: i64, last: i64, jobs: usize) -> (r: Vec<(i64, i64)>)
    requires
        -100_000_000 < first < 100_000_000,
        -100_000_000 < last < 100_000_000,
    ensures
        ({
            let days = last - first + 1;
            let n = part_count(days, jobs as int);
            &&& r@.len() == n
            &&& n == 1 ==> r@ == seq![(first, last)]
            &&& n > 1 ==> forall|k: int|
                0 <= k < n ==> (#[trigger] r@[k]).0 == part_start(first as int, days, n, k)
                    && r@[k].1 == part_start(first as int, days, n, k + 1) - 1
        }),
{
    let days: i64 = last - first + 1;
    let mut out: Vec<(i64, i64)> = Vec::new();
    if jobs <= 1 || days <= 1 {
        out.push((first, last));
        proof {
            assert(out@ =~= seq![(first, last)]);
        }
        return out;
    }
    let n: i64 = if jobs as u64 > days as u64 {
        days
    } else {
        jobs as i64
    };
    let mut k: i64 = 0;
    let mut from: i64 = first;
    proof {
        assert(days * 0 == 0);
    }
    while k < n
        invariant
            -100_000_000 < first < 100_000_000,
            1 < days <= 200_000_000,
            1 < n <= days,
            0 <= k <= n,
            out@.len() == k,
            from == part_start(first as int, days as int, n as int, k as int),
            forall|m: int|
                0 <= m < k ==> (#[trigger] out@[m]).0 == part_start(
                    first as int,
                    days as int,
                    n as int,
                    m,
                ) && out@[m].1 == part_start(first as int, days as int, n as int, m + 1) - 1,
        decreases n - k,
    {
        assert(0 <= days * (k + 1) <= days * n && days * n <= 40_000_000_000_000_000)
            by (nonlinear_arith)
            requires
                0 <= k < n,
                1 < n <= days,
                days <= 200_000_000,
        ;
        assert(days * (k + 1) / (n as int) <= days) by {
            vstd::arithmetic::div_mod::lemma_div_is_ordered(
                days * (k + 1),
                days * n,
                n as int,
            );
            vstd::arithmetic::div_mod::lemma_div_by_multiple(days as int, n as int);
        }
        assert(0 <= days * (k + 1) / (n as int)) by {
            vstd::arithmetic::div_mod::lemma_div_pos_is_pos(days * (k + 1), n as int);
        }
        let next = first + days * (k + 1) / n;
        out.push((from, next - 1));
        from = next;
        k += 1;
    }
    out
}

/// The parts of a window follow each other without a gap, from its first day to its last, and each
/// has a day at least.
pub proof fn parts_make_up_the_window(first: int, days: int, n: int, k: int)
    requires
        1 <= n <= days,
        0 <= k < n,
    ensures
        part_start(first, days, n, 0) == first,
        part_start(first, days, n, n) == first + days,
        part_start(first, days, n, k) < part_start(first, days, n, k + 1),
{
    assert(days * 0 == 0);
    vstd::arithmetic::div_mod::lemma_div_by_multiple(days, n);
    vstd::arithmetic::div_mod::lemma_basic_div(0, n);
    assert(days * (k + 1) == days * k + days) by (nonlinear_arith);
    vstd::arithmetic::div_mod::lemma_div_is_ordered(days * k + n, days * k + days, n);
    vstd::arithmetic::div_mod::lemma_div_plus_one(days * k, n);
}

/// A window in writing, split into parts that can be searched at the same time; the window itself
/// where no more than one part is asked for.
pub fn split_window(start: &str, end: &str, jobs: usize) -> (r: Result<
    Vec<(String, String)>,
    ShiftError,
>)
    ensures
        jobs <= 1 ==> (r matches Ok(v) && v@.len() == 1 && v@[0].0@ == start@ && v@[0].1@ == end@),
        jobs > 1 ==> match (date_read(start@), date_read(end@)) {
            (Err(e), _) => r matches Err(ShiftError::Unread(m)) && m@ == unread(start@, e),
            (Ok(_), Err(e)) => r matches Err(ShiftError::Unread(m)) && m@ == unread(end@, e),
            (Ok(a), Ok(b)) => {
                let (first, last) = (a - 719163, b - 719163);
                let n = part_count(last - first + 1, jobs as int);
                &&& r is Ok
                &&& r->Ok_0@.len() == n
                &&& n == 1 ==> r->Ok_0@[0].0@ == long_iso(date_on(first)) && r->Ok_0@[0].1@
                    == long_iso(date_on(last))
                &&& n > 1 ==> forall|k: int|
                    0 <= k < n ==> (#[trigger] r->Ok_0@[k]).0@ == long_iso(
                        date_on(part_start(first, last - first + 1, n, k)),
                    ) && r->Ok_0@[k].1@ == long_iso(
                        date_on(part_start(first, last - first + 1, n, k + 1) - 1),
                    )
            },
        },
{
    let mut out: Vec<(String, String)> = Vec::new();
    if jobs <= 1 {
        out.push((start.to_owned(), end.to_owned()));
        return Ok(out);
    }
    let first = match day_number(start) {
        Ok(n) => n,
        Err(e) => return Err(ShiftError::Unread(e)),
    };
    let last = match day_number(end) {
        Ok(n) => n,
        Err(e) => return Err(ShiftError::Unread(e)),
    };
    let windows = sub_windows(first, last, jobs);
    let ghost days = last - first + 1;
    let ghost n = part_count(days, jobs as int);
    for i in 0..windows.len()
        invariant
            windows@.len() == n,
            n == part_count(days, jobs as int),
            days == last - first + 1,
            in_calendar(first as int),
            in_calendar(last as int),
            n == 1 ==> windows@ == seq![(first, last)],
            n > 1 ==> forall|k: int|
                0 <= k < n ==> (#[trigger] windows@[k]).0 == part_start(first as int, days, n, k)
                    && windows@[k].1 == part_start(first as int, days, n, k + 1) - 1,
            out@.len() == i,
            forall|k: int|
                0 <= k < i ==> (#[trigger] out@[k]).0@ == long_iso(date_on(windows@[k].0 as int))
                    && out@[k].1@ == long_iso(date_on(windows@[k].1 as int)),
    {
        proof {
            if n > 1 {
                lemma_part_inside(first as int, days, n, i as int);
            }
        }
        match (day_written(windows[i].0), day_written(windows[i].1)) {
            (Some(from), Some(to)) => {
                out.push((from, to));
            },
            _ => {
                return Err(ShiftError::OutOfRange);
            },
        }
    }
    Ok(out)
}

proof fn lemma_part_inside(first: int, days: int, n: int, k: int)
    requires
        1 <= n <= days,
        0 <= k < n,
    ensures
        first <= part_start(first, days, n, k) <= part_start(first, days, n, k + 1) - 1 < first
            + days,
{
    parts_make_up_the_window(first, days, n, k);
    assert(0 <= days * k) by (nonlinear_arith)
        requires
            0 <= k,
            1 <= days,
    ;
    vstd::arithmetic::div_mod::lemma_div_pos_is_pos(days * k, n);
    assert(days * (k + 1) <= days * n) by (nonlinear_arith)
        requires
            k + 1 <= n,
            1 <= days,
    ;
    vstd::arithmetic::div_mod::lemma_div_is_ordered(days * (k + 1), days * n, n);
}

/// What a manifest says of itself when a campaign writes it.
pub fn header(
    source: &str,
    start: &str,
    end: &str,
    aoi: &str,
    aoi_sha256: &str,
    version: &str,
    created: &str,
    campaign: &Campaign,
    requests: usize,
) -> (r: Header)
    ensures
        r@ == (HeaderView {
            manifest: VERSION,
            source: source@,
            start: start@,
            end: end@,
            aoi: aoi@,
            aoi_sha256: aoi_sha256@,
            s2e: version@,
            created: created@,
            scenes: campaign@.len() as usize,
            requests,
        }),
{
    Header {
        manifest: VERSION,
        source: source.to_owned(),
        start: start.to_owned(),
        end: end.to_owned(),
        aoi: aoi.to_owned(),
        aoi_sha256: aoi_sha256.to_owned(),
        s2e: version.to_owned(),
        created: created.to_owned(),
        scenes: campaign.len(),
        requests,
    }
}

/// What is said when a batch cannot be searched. It leaves a hole in every feature that it covers,
/// and a hole in a manifest is invisible to the run that reads it, so nothing is written.
pub fn failure(n: usize, batches: usize, error: &str, features: usize) -> (r: String)
    ensures
        r@ == "discover: batch "@ + decimal(n as nat) + "/"@ + decimal(batches as nat)
            + " failed: "@ + error@
            + "\nnothing written — the manifest would have been short by every scene for "@ + decimal(
            features as nat,
        ) + " of the AOI's features"@,
{
    let mut s = "discover: batch ".to_owned();
    s.append(to_decimal(n as u64).as_str());
    s.append("/");
    s.append(to_decimal(batches as u64).as_str());
    s.append(" failed: ");
    s.append(error);
    s.append("\nnothing written — the manifest would have been short by every scene for ");
    s.append(to_decimal(features as u64).as_str());
    s.append(" of the AOI's features");
    s
}

/// No scene is invented: each one on a list after a batch was on it before, or is the first of its
/// name in the batch.
pub proof fn no_scene_is_invented(scenes: Seq<ItemView>, got: Seq<ItemView>, k: int)
    requires
        0 <= k < merged(scenes, got).len(),
    ensures
        k < scenes.len() ==> merged(scenes, got)[k] == scenes[k],
        k >= scenes.len() ==> exists|i: int|
            0 <= i < got.len() && merged(scenes, got)[k] == #[trigger] got[i] && forall|j: int|
                0 <= j < i ==> (#[trigger] got[j]).id != got[i].id,
    decreases got.len(),
{
    if got.len() > 0 {
        let front = got.drop_last();
        let before = merged(scenes, front);
        let last = got[got.len() - 1];
        if k < before.len() {
            no_scene_is_invented(scenes, front, k);
            assert(merged(scenes, got)[k] == before[k]);
            if k >= scenes.len() {
                let i = choose|i: int|
                    0 <= i < front.len() && before[k] == #[trigger] front[i] && forall|j: int|
                        0 <= j < i ==> (#[trigger] front[j]).id != front[i].id;
                assert(got[i] == front[i]);
                assert forall|j: int| 0 <= j < i implies (#[trigger] got[j]).id != got[i].id by {
                    assert(got[j] == front[j]);
                }
            }
        } else {
            lemma_merged(scenes, front, last.id);
            assert forall|j: int| 0 <= j < got.len() - 1 implies (#[trigger] got[j]).id
                != last.id by {
                assert(ids_of(front)[j] == got[j].id);
                assert(ids_of(front).contains(got[j].id));
            }
            assert(merged(scenes, got)[k] == got[got.len() - 1]);
            every_scene_is_kept_once(scenes, front);
        }
    }
}

/// The parts of a window are as even as days allow: no two of them differ by more than one day.
pub proof fn parts_are_even(first: int, days: int, n: int, k: int)
    requires
        1 <= n <= days,
        0 <= k < n,
    ensures
        ({
            let len = part_start(first, days, n, k + 1) - part_start(first, days, n, k);
            len == days / n || len == days / n + 1
        }),
{
    let (a, b) = (days * k, days * (k + 1));
    assert(b == a + days) by (nonlinear_arith)
        requires
            a == days * k,
            b == days * (k + 1),
    ;
    vstd::arithmetic::div_mod::lemma_fundamental_div_mod(a, n);
    vstd::arithmetic::div_mod::lemma_fundamental_div_mod(b, n);
    vstd::arithmetic::div_mod::lemma_fundamental_div_mod(days, n);
    let (q, r, d) = (a / n, b / n, days / n);
    assert(r - q - d == 0 || r - q - d == 1) by (nonlinear_arith)
        requires
            a == n * q + a % n,
            b == n * r + b % n,
            days == n * d + days % n,
            b == a + days,
            0 <= a % n < n,
            0 <= b % n < n,
            0 <= days % n < n,
            1 <= n,
    ;
}

/// A window is split into as many parts as were asked for, but never into more than it has days,
/// and always into one at least.
pub proof fn parts_are_as_many_as_asked_for(days: int, jobs: int)
    ensures
        1 <= part_count(days, jobs),
        1 <= jobs <= days ==> part_count(days, jobs) == jobs,
        1 <= days < jobs ==> part_count(days, jobs) == days,
        days < 1 || jobs < 1 ==> part_count(days, jobs) == 1,
{
}

/// Every batch but the last takes as many areas as a batch may.
pub proof fn batches_are_full(area: Seq<Envelope>, batch: nat, k: int)
    requires
        batch > 0,
        0 <= k < batch_count(area.len(), batch) - 1,
    ensures
        batch_at(area, batch, k).len() == batch,
{
    let n = batch as int;
    lemma_batch_start(area.len() as int, n, k + 1);
    assert((k + 1) * n == k * n + n) by (nonlinear_arith);
    lemma_batch_start(area.len() as int, n, k);
}

/// A scene list is built for a whole area file, in batches of one area at least, and for nothing
/// else; what is missing first is what is said.
pub proof fn a_list_is_built_for_a_whole_area_file(aoi: bool, shard: bool, batch: usize)
    ensures
        refusal(aoi, shard, batch) is None <==> aoi && !shard && batch > 0,
        !aoi ==> refusal(aoi, shard, batch) == refusal(false, true, 0),
        aoi && shard ==> refusal(aoi, shard, batch) == refusal(true, true, 0),
{
}

/// Scenes that are new to a list come behind those on it, in the order in which they were found.
pub proof fn new_scenes_come_in_their_order(scenes: Seq<ItemView>, got: Seq<ItemView>)
    requires
        (ids_of(scenes) + ids_of(got)).no_duplicates(),
    ensures
        merged(scenes, got) == scenes + got,
    decreases got.len(),
{
    if got.len() > 0 {
        let front = got.drop_last();
        let (all, some) = (ids_of(scenes) + ids_of(got), ids_of(scenes) + ids_of(front));
        assert forall|i: int, j: int|
            0 <= i < some.len() && 0 <= j < some.len() && i != j implies some[i] != some[j] by {
            assert(some[i] == all[i] && some[j] == all[j]);
        }
        new_scenes_come_in_their_order(scenes, front);
        let before = scenes + front;
        let last = got[got.len() - 1];
        if ids_of(before).contains(last.id) {
            let i = choose|i: int| 0 <= i < ids_of(before).len() && ids_of(before)[i] == last.id;
            assert(all[i] == last.id);
            assert(all[all.len() - 1] == last.id);
        }
        assert(before.push(last) =~= scenes + got);
    } else {
        assert(scenes + got =~= scenes);
    }
}

} // verus!
