//! Clear-sky persistence: on how many days a site could have been seen, from the cloud mask over its
//! grid cell.
use crate::number::Real;
use crate::text::views;
use vstd::hash_map::StringHashMap;
use vstd::hash_set::StringHashSet;
use vstd::prelude::*;
use vstd::seq_lib::lemma_seq_contains_after_push;

verus! {

/// A site to count clear days for: the key of its own grid cell, the keys of the cells around it
/// and of its own, and the days on which it was detected.
#[derive(Debug)]
pub struct Anchor {
    pub own: String,
    pub around: Vec<String>,
    pub dates: Vec<String>,
}

/// Whether one of some sites is counted over a cell.
pub open spec fn is_needed(anchors: Seq<Anchor>, key: Seq<char>) -> bool {
    exists|i: int| 0 <= i < anchors.len() && #[trigger] views(anchors[i].around@).contains(key)
}

/// One look of the cloud mask: the key of its cell, its day, and its cloud fraction.
pub ghost struct LookView {
    pub key: Seq<char>,
    pub date: Seq<char>,
    pub cloud: Real,
}

/// The days on which each cell was seen clear, after one more look. A cell that is needed is on
/// record from its first look on, clear or not.
pub open spec fn noted(
    sky: Map<Seq<char>, Set<Seq<char>>>,
    look: LookView,
    anchors: Seq<Anchor>,
    clear_max: Real,
) -> Map<Seq<char>, Set<Seq<char>>> {
    if is_needed(anchors, look.key) {
        let days = if sky.contains_key(look.key) {
            sky[look.key]
        } else {
            Set::empty()
        };
        sky.insert(
            look.key,
            if look.cloud.is_le(clear_max) {
                days.insert(look.date)
            } else {
                days
            },
        )
    } else {
        sky
    }
}

/// The cells that some sites need, of those that were looked at, and the days on which each of them
/// was seen clear.
pub struct ClearSky {
    index: StringHashMap<usize>,
    days: Vec<Vec<String>>,
    needed: StringHashSet,
    anchors: Ghost<Seq<Anchor>>,
    clear_max: Real,
}

impl View for ClearSky {
    type V = Map<Seq<char>, Set<Seq<char>>>;

    closed spec fn view(&self) -> Map<Seq<char>, Set<Seq<char>>> {
        self.index@.map_values(|i: usize| views(self.days@[i as int]@).to_set())
    }
}

impl ClearSky {
    /// Each cell that was looked at has a list of days to itself, and the cells that are remembered
    /// as needed are those that the sites need.
    pub closed spec fn is_valid(self) -> bool {
        &&& forall|key: Seq<char>| #[trigger]
            self.index@.contains_key(key) ==> self.index@[key] < self.days@.len()
        &&& forall|a: Seq<char>, b: Seq<char>|
            #![trigger self.index@[a], self.index@[b]]
            self.index@.contains_key(a) && self.index@.contains_key(b) && self.index@[a]
                == self.index@[b] ==> a == b
        &&& forall|key: Seq<char>| #[trigger]
            self.needed@.contains(key) <==> is_needed(self.anchors@, key)
    }

    /// The sites that the looks are counted for.
    pub closed spec fn sites(self) -> Seq<Anchor> {
        self.anchors@
    }

    /// The cloud fraction up to which a look is clear.
    pub closed spec fn threshold(self) -> Real {
        self.clear_max
    }

    /// Nothing seen yet. Only the cells that the sites need will be kept, so that what is held
    /// grows with the sites and not with the mask.
    pub fn new(anchors: &Vec<Anchor>, clear_max: Real) -> (r: ClearSky)
        ensures
            r.is_valid(),
            r@ == Map::<Seq<char>, Set<Seq<char>>>::empty(),
            r.sites() == anchors@,
            r.threshold() == clear_max,
    {
        let mut needed = StringHashSet::new();
        for i in 0..anchors.len()
            invariant
                forall|key: Seq<char>| #[trigger]
                    needed@.contains(key) <==> is_needed(anchors@.take(i as int), key),
        {
            let ghost before = needed@;
            let n: usize = anchors[i].around.len();
            let ghost keys = views(anchors@[i as int].around@);
            for j in 0..n
                invariant
                    i < anchors@.len(),
                    n == anchors@[i as int].around@.len(),
                    keys == views(anchors@[i as int].around@),
                    forall|key: Seq<char>| #[trigger]
                        needed@.contains(key) <==> before.contains(key) || keys.take(
                            j as int,
                        ).contains(key),
            {
                let ghost held = needed@;
                needed.insert(anchors[i].around[j].clone());
                proof {
                    let key_j = keys[j as int];
                    assert(keys.take(j + 1) =~= keys.take(j as int).push(key_j));
                    assert forall|key: Seq<char>| #[trigger]
                        needed@.contains(key) <==> before.contains(key) || keys.take(
                            j + 1,
                        ).contains(key) by {
                        assert(held.contains(key) <==> before.contains(key) || keys.take(
                            j as int,
                        ).contains(key));
                        lemma_seq_contains_after_push(keys.take(j as int), key_j, key);
                    }
                }
            }
            proof {
                assert(keys.take(n as int) =~= keys);
                assert forall|key: Seq<char>| #[trigger]
                    needed@.contains(key) <==> is_needed(anchors@.take(i + 1), key) by {
                    assert(before.contains(key) <==> is_needed(anchors@.take(i as int), key));
                    lemma_needed_more(anchors@, i as int, key);
                }
            }
        }
        proof {
            assert(anchors@.take(anchors@.len() as int) =~= anchors@);
        }
        let r = ClearSky {
            index: StringHashMap::new(),
            days: Vec::new(),
            needed,
            anchors: Ghost(anchors@),
            clear_max,
        };
        proof {
            assert(r@ =~= Map::<Seq<char>, Set<Seq<char>>>::empty());
        }
        r
    }
}

proof fn lemma_needed_more(anchors: Seq<Anchor>, i: int, key: Seq<char>)
    requires
        0 <= i < anchors.len(),
    ensures
        is_needed(anchors.take(i + 1), key) <==> is_needed(anchors.take(i), key) || views(
            anchors[i].around@,
        ).contains(key),
{
    let (was, now) = (anchors.take(i), anchors.take(i + 1));
    if is_needed(was, key) {
        let k = choose|k: int| 0 <= k < was.len() && #[trigger] views(was[k].around@).contains(key);
        assert(views(now[k].around@).contains(key));
    }
    if views(anchors[i].around@).contains(key) {
        assert(views(now[i].around@).contains(key));
    }
    if is_needed(now, key) {
        let k = choose|k: int| 0 <= k < now.len() && #[trigger] views(now[k].around@).contains(key);
        if k < i {
            assert(views(was[k].around@).contains(key));
        }
    }
}

impl ClearSky {
    /// Takes in one more look.
    pub fn note(&mut self, key: &str, date: &str, cloud: Real)
        requires
            old(self).is_valid(),
        ensures
            final(self).is_valid(),
            final(self).sites() == old(self).sites(),
            final(self).threshold() == old(self).threshold(),
            final(self)@ == noted(
                old(self)@,
                LookView { key: key@, date: date@, cloud },
                old(self).sites(),
                old(self).threshold(),
            ),
    {
        if !self.needed.contains(key) {
            return;
        }
        let clear = cloud.le(self.clear_max);
        let ghost was = *self;
        let ghost look = LookView { key: key@, date: date@, cloud };
        let ghost want = noted(was@, look, was.sites(), was.threshold());
        match self.index.get(key) {
            Some(found) => {
                let i: usize = *found;
                let ghost held = self.days@[i as int]@;
                if clear {
                    self.days[i].push(date.to_owned());
                    proof {
                        assert(views(self.days@[i as int]@) =~= views(held).push(date@));
                        lemma_push_set(views(held), date@);
                    }
                }
                proof {
                    assert forall|k: Seq<char>| self@.contains_key(k) implies #[trigger] self@[k]
                        == want[k] by {
                        if k != key@ {
                            assert(was.index@[k] != was.index@[key@]);
                            assert(self.days@[was.index@[k] as int]
                                == was.days@[was.index@[k] as int]);
                        }
                    }
                    assert(self@ =~= want);
                }
            },
            None => {
                let mut list: Vec<String> = Vec::new();
                proof {
                    assert(views(list@) =~= Seq::empty());
                    assert(views(list@).to_set() =~= Set::empty());
                }
                if clear {
                    list.push(date.to_owned());
                    proof {
                        let none = Seq::<Seq<char>>::empty();
                        assert(views(list@) =~= none.push(date@));
                        lemma_push_set(none, date@);
                        assert(none.to_set() =~= Set::empty());
                    }
                }
                let n: usize = self.days.len();
                self.days.push(list);
                self.index.insert(key.to_owned(), n);
                proof {
                    assert forall|k: Seq<char>| self@.contains_key(k) implies #[trigger] self@[k]
                        == want[k] by {
                        if k != key@ {
                            assert(was.index@.contains_key(k));
                            assert(self.days@[was.index@[k] as int]
                                == was.days@[was.index@[k] as int]);
                        }
                    }
                    assert(self@ =~= want);
                }
            },
        }
    }
}

proof fn lemma_push_set(s: Seq<Seq<char>>, x: Seq<char>)
    ensures
        s.push(x).to_set() == s.to_set().insert(x),
{
    assert forall|e: Seq<char>| s.push(x).to_set().contains(e) <==> s.to_set().insert(x).contains(
        e,
    ) by {
        lemma_seq_contains_after_push(s, x, e);
    }
    assert(s.push(x).to_set() =~= s.to_set().insert(x));
}

/// The days on which any of some cells was seen clear.
pub open spec fn gathered(sky: Map<Seq<char>, Set<Seq<char>>>, keys: Seq<Seq<char>>) -> Set<Seq<char>>
    decreases keys.len(),
{
    if keys.len() == 0 {
        Set::empty()
    } else {
        let before = gathered(sky, keys.drop_last());
        if sky.contains_key(keys.last()) {
            before.union(sky[keys.last()])
        } else {
            before
        }
    }
}

/// Whether any of some cells was looked at.
pub open spec fn any_seen(sky: Map<Seq<char>, Set<Seq<char>>>, keys: Seq<Seq<char>>) -> bool {
    exists|k: int| 0 <= k < keys.len() && sky.contains_key(#[trigger] keys[k])
}

/// The days on which a site was observed: those on which it was detected, for a lit look is a look,
/// and those on which its own cell was seen clear, if any. Only where its own cell has no look at
/// all, as for a site at the edge of a cell, the cells around it stand in. Nothing where none of
/// them has a look either.
pub open spec fn observed_on(sky: Map<Seq<char>, Set<Seq<char>>>, a: Anchor) -> Option<
    Set<Seq<char>>,
> {
    let dates = views(a.dates@).to_set();
    if sky.contains_key(a.own@) {
        Some(dates.union(sky[a.own@]))
    } else if any_seen(sky, views(a.around@)) {
        Some(dates.union(gathered(sky, views(a.around@))))
    } else {
        None
    }
}

fn take_all(set: &mut StringHashSet, list: &Vec<String>)
    ensures
        final(set)@ == old(set)@.union(views(list@).to_set()),
{
    let ghost start = set@;
    let ghost all = views(list@);
    proof {
        assert(all.take(0).to_set() =~= Set::empty());
        assert(start.union(Set::empty()) =~= start);
    }
    for i in 0..list.len()
        invariant
            all == views(list@),
            set@ == start.union(all.take(i as int).to_set()),
    {
        set.insert(list[i].clone());
        proof {
            assert(all.take(i + 1) =~= all.take(i as int).push(list@[i as int]@));
            lemma_push_set(all.take(i as int), list@[i as int]@);
            assert(set@ =~= start.union(all.take(i + 1).to_set()));
        }
    }
    proof {
        assert(all.take(list@.len() as int) =~= all);
    }
}

impl ClearSky {
    /// On how many days a site was observed; nothing where the mask has no look at it, and its
    /// persistence is left as it is rather than measured against an invented number of looks.
    pub fn observed(&self, a: &Anchor) -> (r: Option<usize>)
        requires
            self.is_valid(),
        ensures
            match observed_on(self@, *a) {
                Some(days) => r is Some && r->0 == days.len(),
                None => r is None,
            },
    {
        let mut days = StringHashSet::new();
        take_all(&mut days, &a.dates);
        let ghost dates = views(a.dates@).to_set();
        proof {
            assert(Set::empty().union(dates) =~= dates);
        }
        match self.index.get(a.own.as_str()) {
            Some(i) => {
                take_all(&mut days, &self.days[*i]);
                return Some(days.len());
            },
            None => {},
        }
        let mut any = false;
        let ghost keys = views(a.around@);
        proof {
            assert(keys.take(0) =~= Seq::empty());
            assert(dates.union(Set::empty()) =~= dates);
        }
        for j in 0..a.around.len()
            invariant
                self.is_valid(),
                keys == views(a.around@),
                any == any_seen(self@, keys.take(j as int)),
                days@ == dates.union(gathered(self@, keys.take(j as int))),
        {
            let ghost key = keys[j as int];
            let ghost (was, now) = (keys.take(j as int), keys.take(j + 1));
            proof {
                assert(now.drop_last() =~= was);
                assert(now.last() == key);
                if any_seen(self@, was) {
                    let k = choose|k: int|
                        0 <= k < was.len() && self@.contains_key(#[trigger] was[k]);
                    assert(self@.contains_key(now[k]));
                }
                if any_seen(self@, now) && !self@.contains_key(key) {
                    let k = choose|k: int|
                        0 <= k < now.len() && self@.contains_key(#[trigger] now[k]);
                    assert(self@.contains_key(was[k]));
                }
            }
            match self.index.get(a.around[j].as_str()) {
                Some(i) => {
                    take_all(&mut days, &self.days[*i]);
                    any = true;
                    proof {
                        assert(self@.contains_key(now[j as int]));
                        assert(days@ =~= dates.union(gathered(self@, now)));
                    }
                },
                None => {},
            }
        }
        proof {
            assert(keys.take(a.around@.len() as int) =~= keys);
        }
        if any {
            Some(days.len())
        } else {
            None
        }
    }
}

/// The days on which each cell was seen clear, after all of some looks.
pub open spec fn noted_all(looks: Seq<LookView>, anchors: Seq<Anchor>, clear_max: Real) -> Map<
    Seq<char>,
    Set<Seq<char>>,
>
    decreases looks.len(),
{
    if looks.len() == 0 {
        Map::empty()
    } else {
        noted(noted_all(looks.drop_last(), anchors, clear_max), looks.last(), anchors, clear_max)
    }
}

/// A cell is on record exactly where it is needed and was looked at, and a day counts for it
/// exactly where some look at it on that day was clear.
pub proof fn a_day_counts_where_a_look_was_clear(
    looks: Seq<LookView>,
    anchors: Seq<Anchor>,
    clear_max: Real,
    key: Seq<char>,
    date: Seq<char>,
)
    ensures
        ({
            let sky = noted_all(looks, anchors, clear_max);
            &&& sky.contains_key(key) <==> is_needed(anchors, key) && exists|k: int|
                0 <= k < looks.len() && (#[trigger] looks[k]).key == key
            &&& sky.contains_key(key) && sky[key].contains(date) <==> is_needed(anchors, key)
                && exists|k: int|
                0 <= k < looks.len() && (#[trigger] looks[k]).key == key && looks[k].date == date
                    && looks[k].cloud.is_le(clear_max)
        }),
    decreases looks.len(),
{
    if looks.len() > 0 {
        let front = looks.drop_last();
        let last = looks[looks.len() - 1];
        a_day_counts_where_a_look_was_clear(front, anchors, clear_max, key, date);
        let was = noted_all(front, anchors, clear_max);
        if was.contains_key(key) {
            let k = choose|k: int| 0 <= k < front.len() && (#[trigger] front[k]).key == key;
            assert(looks[k].key == key);
            if was[key].contains(date) {
                let j = choose|j: int|
                    0 <= j < front.len() && (#[trigger] front[j]).key == key && front[j].date
                        == date && front[j].cloud.is_le(clear_max);
                assert(looks[j].key == key);
            }
        }
        assert forall|k: int| 0 <= k < front.len() implies #[trigger] looks[k] == front[k] by {}
        assert(last.key == key ==> looks[looks.len() - 1].key == key);
    }
}

/// A site keeps to its own cell: where that was looked at, however cloudy it was, the cells around
/// it play no part.
pub proof fn a_site_keeps_to_its_own_cell(sky: Map<Seq<char>, Set<Seq<char>>>, a: Anchor)
    requires
        sky.contains_key(a.own@),
    ensures
        observed_on(sky, a) == Some(views(a.dates@).to_set().union(sky[a.own@])),
{
}

proof fn lemma_sky_finite(
    looks: Seq<LookView>,
    anchors: Seq<Anchor>,
    clear_max: Real,
    key: Seq<char>,
)
    ensures
        noted_all(looks, anchors, clear_max).contains_key(key) ==> noted_all(
            looks,
            anchors,
            clear_max,
        )[key].finite(),
    decreases looks.len(),
{
    if looks.len() > 0 {
        lemma_sky_finite(looks.drop_last(), anchors, clear_max, key);
    }
}

proof fn lemma_gathered_finite(sky: Map<Seq<char>, Set<Seq<char>>>, keys: Seq<Seq<char>>)
    requires
        forall|key: Seq<char>| sky.contains_key(key) ==> (#[trigger] sky[key]).finite(),
    ensures
        gathered(sky, keys).finite(),
    decreases keys.len(),
{
    if keys.len() > 0 {
        lemma_gathered_finite(sky, keys.drop_last());
        if sky.contains_key(keys.last()) {
            assert(sky[keys.last()].finite());
        }
    }
}

/// A site is observed on every day on which it is detected, so its days of detection never
/// outnumber its days of observation.
pub proof fn detections_are_observations(
    looks: Seq<LookView>,
    anchors: Seq<Anchor>,
    clear_max: Real,
    a: Anchor,
)
    requires
        observed_on(noted_all(looks, anchors, clear_max), a) is Some,
    ensures
        ({
            let days = observed_on(noted_all(looks, anchors, clear_max), a)->0;
            &&& views(a.dates@).to_set().subset_of(days)
            &&& views(a.dates@).to_set().len() <= days.len()
        }),
{
    let sky = noted_all(looks, anchors, clear_max);
    assert forall|key: Seq<char>| sky.contains_key(key) implies (#[trigger] sky[key]).finite() by {
        lemma_sky_finite(looks, anchors, clear_max, key);
    }
    lemma_gathered_finite(sky, views(a.around@));
    vstd::seq_lib::seq_to_set_is_finite(views(a.dates@));
    vstd::set_lib::lemma_len_subset(views(a.dates@).to_set(), observed_on(sky, a)->0);
}

/// The cells around a site stand in for its own where that was never looked at: the site is then
/// observed on the days on which it is detected and on those on which any of them was clear. It is
/// left alone just where none of the cells was looked at.
pub proof fn the_cells_around_stand_in(
    sky: Map<Seq<char>, Set<Seq<char>>>,
    a: Anchor,
    date: Seq<char>,
)
    requires
        !sky.contains_key(a.own@),
    ensures
        observed_on(sky, a) is Some <==> exists|k: int|
            0 <= k < a.around@.len() && sky.contains_key((#[trigger] a.around@[k])@),
        observed_on(sky, a) matches Some(days) ==> (days.contains(date) <==> views(
            a.dates@,
        ).contains(date) || exists|k: int|
            0 <= k < a.around@.len() && sky.contains_key((#[trigger] a.around@[k])@)
                && sky[a.around@[k]@].contains(date)),
{
    let keys = views(a.around@);
    lemma_gathered(sky, keys, date);
    assert forall|k: int| 0 <= k < keys.len() implies #[trigger] keys[k] == a.around@[k]@ by {}
    if any_seen(sky, keys) {
        let k = choose|k: int| 0 <= k < keys.len() && sky.contains_key(#[trigger] keys[k]);
        assert(sky.contains_key(a.around@[k]@));
    }
    if exists|k: int| 0 <= k < a.around@.len() && sky.contains_key((#[trigger] a.around@[k])@) {
        let k = choose|k: int|
            0 <= k < a.around@.len() && sky.contains_key((#[trigger] a.around@[k])@);
        assert(sky.contains_key(keys[k]));
    }
    if gathered(sky, keys).contains(date) {
        let k = choose|k: int|
            0 <= k < keys.len() && sky.contains_key(#[trigger] keys[k]) && sky[keys[k]].contains(
                date,
            );
        assert(sky.contains_key(a.around@[k]@));
    }
    if exists|k: int|
        0 <= k < a.around@.len() && sky.contains_key((#[trigger] a.around@[k])@)
            && sky[a.around@[k]@].contains(date) {
        let k = choose|k: int|
            0 <= k < a.around@.len() && sky.contains_key((#[trigger] a.around@[k])@)
                && sky[a.around@[k]@].contains(date);
        assert(sky.contains_key(keys[k]));
    }
}

proof fn lemma_gathered(sky: Map<Seq<char>, Set<Seq<char>>>, keys: Seq<Seq<char>>, date: Seq<char>)
    ensures
        gathered(sky, keys).contains(date) <==> exists|k: int|
            0 <= k < keys.len() && sky.contains_key(#[trigger] keys[k]) && sky[keys[k]].contains(
                date,
            ),
    decreases keys.len(),
{
    if keys.len() > 0 {
        let front = keys.drop_last();
        lemma_gathered(sky, front, date);
        if gathered(sky, front).contains(date) {
            let k = choose|k: int|
                0 <= k < front.len() && sky.contains_key(#[trigger] front[k])
                    && sky[front[k]].contains(date);
            assert(keys[k] == front[k]);
        }
        assert forall|k: int| 0 <= k < front.len() implies front[k] == #[trigger] keys[k] by {}
        assert(keys.last() == keys[keys.len() - 1]);
    }
}

} // verus!
