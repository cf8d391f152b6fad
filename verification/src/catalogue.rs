//! Requests to a catalogue: what is asked, how a reply is followed, when a request is made again
//! and how far apart requests are kept.
use crate::envelope::{
    bounded, disjoint, held, inside, merged, merged_parts_cover_the_area, pass, settled, widen_all,
    widened, widened_all, widened_holds_the_envelope, widened_point_has_an_extent, Envelope,
    FULL_TURN, MICRODEGREE,
};
use crate::json::{
    a_member_is_found_by_its_name, array_value, count_tree, count_value, document, members_of,
    object_value, parse, real_tree, real_value, text_value, trees, Json, Tree,
};
use crate::stac::{api, api_of, is_l1c, level, level_of};
use crate::number::{sum_keeps_direction, Real};
use crate::text::{
    decimal, joined, joined_texts_are_taken_apart, number, opt, parse_number, parts, same,
    to_decimal, trim, trimmed,
};
use vstd::arithmetic::power2::{lemma2_to64, pow2};
use vstd::prelude::*;

verus! {

/// The most items that the catalogue serves on one page of a source's collection. Items of surface
/// reflectance are much larger, and the catalogue refuses a larger page of them.
pub open spec fn page_size(source: Seq<char>) -> u64 {
    if is_l1c(source) {
        1000
    } else {
        200
    }
}

/// The number of items to ask for on one page.
pub fn page_limit(source: &str) -> (r: u64)
    ensures
        r == page_size(source@),
{
    proof {
        reveal_strlit("l1c");
        reveal_strlit("l2a");
        assert("l1c"@[1] != "l2a"@[1]);
    }
    if same(level(source), "l1c") {
        1000
    } else {
        200
    }
}

/// A position, longitude first.
pub open spec fn position(e: Envelope, east: bool, north: bool) -> Tree {
    Tree::Array(
        seq![
            real_tree(if east {
                e.east
            } else {
                e.west
            }),
            real_tree(if north {
                e.north
            } else {
                e.south
            }),
        ],
    )
}

/// A polygon of one ring: the corners of the envelope, counter-clockwise from the south-west, with
/// the first one again at the end.
pub open spec fn polygon(e: Envelope) -> Tree {
    Tree::Array(
        seq![
            Tree::Array(
                seq![
                    position(e, false, false),
                    position(e, true, false),
                    position(e, true, true),
                    position(e, false, true),
                    position(e, false, false),
                ],
            ),
        ],
    )
}

/// Where to search: a box for one envelope, and a multipolygon of their disjoint parts for any
/// other number of them.
pub open spec fn place_asked(area: Seq<Envelope>) -> (Seq<char>, Tree) {
    if area.len() == 1 {
        (
            "bbox"@,
            Tree::Array(
                seq![
                    real_tree(area[0].west),
                    real_tree(area[0].south),
                    real_tree(area[0].east),
                    real_tree(area[0].north),
                ],
            ),
        )
    } else {
        (
            "intersects"@,
            Tree::Object(
                seq![
                    ("type"@, Tree::Text("MultiPolygon"@)),
                    ("coordinates"@, Tree::Array(area.map_values(|e: Envelope| polygon(e)))),
                ],
            ),
        )
    }
}

/// The search for the scenes of a source that meet an area, from the start of one day to the end
/// of another.
pub open spec fn request(
    area: Seq<Envelope>,
    start: Seq<char>,
    end: Seq<char>,
    source: Seq<char>,
) -> Tree {
    Tree::Object(
        seq![
            (
                "collections"@,
                Tree::Array(seq![Tree::Text("sentinel-2-"@ + level_of(source))]),
            ),
            ("datetime"@, Tree::Text(start + "T00:00:00Z/"@ + end + "T23:59:59Z"@)),
            ("limit"@, count_tree(page_size(source))),
            place_asked(merged(area)),
        ],
    )
}

fn corner(e: &Envelope, east: bool, north: bool) -> (r: Json)
    ensures
        r@ == position(*e, east, north),
{
    let x = if east {
        e.east
    } else {
        e.west
    };
    let y = if north {
        e.north
    } else {
        e.south
    };
    let v = vec![real_value(x), real_value(y)];
    let r = array_value(v);
    proof {
        assert(trees(v@) =~= seq![real_tree(x), real_tree(y)]);
    }
    r
}

fn ring(e: &Envelope) -> (r: Json)
    ensures
        r@ == polygon(*e),
{
    let v = vec![
        corner(e, false, false),
        corner(e, true, false),
        corner(e, true, true),
        corner(e, false, true),
        corner(e, false, false),
    ];
    let ghost corners = trees(v@);
    proof {
        assert(corners =~= seq![
            position(*e, false, false),
            position(*e, true, false),
            position(*e, true, true),
            position(*e, false, true),
            position(*e, false, false),
        ]);
    }
    let outer = vec![array_value(v)];
    proof {
        assert(trees(outer@) =~= seq![Tree::Array(corners)]);
    }
    array_value(outer)
}

fn extent(e: &Envelope) -> (r: Json)
    ensures
        r@ == place_asked(seq![*e]).1,
{
    let v = vec![real_value(e.west), real_value(e.south), real_value(e.east), real_value(e.north)];
    proof {
        assert(trees(v@) =~= seq![
            real_tree(e.west),
            real_tree(e.south),
            real_tree(e.east),
            real_tree(e.north),
        ]);
    }
    array_value(v)
}

fn polygons(area: &Vec<Envelope>) -> (r: Json)
    ensures
        r@ == Tree::Array(area@.map_values(|e: Envelope| polygon(e))),
{
    let mut rings: Vec<Json> = Vec::new();
    for i in 0..area.len()
        invariant
            rings@.len() == i,
            forall|k: int| 0 <= k < i ==> (#[trigger] rings@[k])@ == polygon(area@[k]),
    {
        rings.push(ring(&area[i]));
    }
    proof {
        assert(trees(rings@) =~= area@.map_values(|e: Envelope| polygon(e)));
    }
    array_value(rings)
}

/// The body of a search. Several envelopes go as one multipolygon, which the catalogue answers in
/// a single request, so a batch of areas costs one round trip instead of one each.
pub fn payload(area: &Vec<Envelope>, start: &str, end: &str, source: &str) -> (r: Json)
    ensures
        r@ == request(area@, start@, end@, source@),
{
    let mut collection = "sentinel-2-".to_owned();
    collection.append(level(source));
    let collections = vec![text_value(collection.as_str())];
    proof {
        assert(trees(collections@) =~= seq![Tree::Text("sentinel-2-"@ + level_of(source@))]);
    }
    let mut datetime = start.to_owned();
    datetime.append("T00:00:00Z/");
    datetime.append(end);
    datetime.append("T23:59:59Z");
    let asked = disjoint(area);
    let mut body: Vec<(String, Json)> = Vec::new();
    body.push(("collections".to_owned(), array_value(collections)));
    body.push(("datetime".to_owned(), text_value(datetime.as_str())));
    body.push(("limit".to_owned(), count_value(page_limit(source))));
    if asked.len() == 1 {
        proof {
            assert(asked@ =~= seq![asked@[0]]);
        }
        body.push(("bbox".to_owned(), extent(&asked[0])));
    } else {
        let mut shape: Vec<(String, Json)> = Vec::new();
        shape.push(("type".to_owned(), text_value("MultiPolygon")));
        shape.push(("coordinates".to_owned(), polygons(&asked)));
        proof {
            assert(members_of(shape@) =~= seq![
                ("type"@, Tree::Text("MultiPolygon"@)),
                ("coordinates"@, Tree::Array(asked@.map_values(|e: Envelope| polygon(e)))),
            ]);
        }
        body.push(("intersects".to_owned(), object_value(shape)));
    }
    proof {
        assert(members_of(body@) =~= seq![
            (
                "collections"@,
                Tree::Array(seq![Tree::Text("sentinel-2-"@ + level_of(source@))]),
            ),
            ("datetime"@, Tree::Text(start@ + "T00:00:00Z/"@ + end@ + "T23:59:59Z"@)),
            ("limit"@, count_tree(page_size(source@))),
            place_asked(merged(area@)),
        ]);
    }
    object_value(body)
}

/// The first link of a page that leads to the next one.
pub open spec fn next_of(links: Seq<Tree>) -> Option<Tree>
    decreases links.len(),
{
    if links.len() == 0 {
        None
    } else if links[0].field("rel"@).as_text() == Some("next"@) {
        Some(links[0])
    } else {
        next_of(links.drop_first())
    }
}

/// Where the next page is asked for, and with which body; nothing where the page is the last one.
pub open spec fn following(page: Tree) -> Option<(Seq<char>, Tree)> {
    match next_of(page.field("links"@).elements()) {
        Some(link) => match link.field("href"@).as_text() {
            Some(url) => if link.has("body"@) {
                Some((url, link.field("body"@)))
            } else {
                None
            },
            None => None,
        },
        None => None,
    }
}

/// A search that is being paged through: the request to make next, where one is left to make, and
/// the features of the pages so far.
#[derive(Debug)]
pub struct Paging {
    pub next: Option<(String, Json)>,
    pub features: Vec<Json>,
}

/// [`Paging`], as mathematics.
pub ghost struct PagingView {
    pub next: Option<(Seq<char>, Tree)>,
    pub features: Seq<Tree>,
}

impl View for Paging {
    type V = PagingView;

    open spec fn view(&self) -> PagingView {
        PagingView {
            next: match self.next {
                Some(n) => Some((n.0@, n.1@)),
                None => None,
            },
            features: trees(self.features@),
        }
    }
}

/// A search before its first page: for the scenes that meet an area, of which each envelope has an
/// extent.
pub open spec fn unpaged(
    area: Seq<Envelope>,
    start: Seq<char>,
    end: Seq<char>,
    source: Seq<char>,
) -> PagingView {
    PagingView {
        next: Some(
            (api_of(source) + "/search"@, request(widened_all(area), start, end, source)),
        ),
        features: Seq::empty(),
    }
}

/// A search after one more page.
pub open spec fn turned(p: PagingView, page: Tree) -> PagingView {
    PagingView {
        next: following(page),
        features: p.features + page.field("features"@).elements(),
    }
}

/// A search after each of some pages.
pub open spec fn turned_all(p: PagingView, pages: Seq<Tree>) -> PagingView
    decreases pages.len(),
{
    if pages.len() == 0 {
        p
    } else {
        turned(turned_all(p, pages.drop_last()), pages.last())
    }
}

/// The features of all of some pages, in their order.
pub open spec fn features_of(pages: Seq<Tree>) -> Seq<Tree> {
    pages.map_values(|page: Tree| page.field("features"@).elements()).flatten()
}

fn next_link(links: &Vec<Json>) -> (r: Option<usize>)
    ensures
        match r {
            Some(i) => i < links@.len() && next_of(trees(links@)) == Some(links@[i as int]@),
            None => next_of(trees(links@)) is None,
        },
{
    proof {
        assert(trees(links@).skip(0) =~= trees(links@));
    }
    for i in 0..links.len()
        invariant
            next_of(trees(links@)) == next_of(trees(links@).skip(i as int)),
    {
        let ghost rest = trees(links@).skip(i as int);
        proof {
            assert(rest[0] == links@[i as int]@);
            assert(rest.drop_first() =~= trees(links@).skip(i + 1));
        }
        match links[i].text_field("rel") {
            Some(rel) => {
                if same(rel.as_str(), "next") {
                    return Some(i);
                }
            },
            None => {},
        }
    }
    proof {
        assert(trees(links@).skip(links@.len() as int) =~= Seq::empty());
    }
    None
}

fn next_request(page: &Json) -> (r: Option<(String, Json)>)
    ensures
        match r {
            Some(n) => following(page@) == Some((n.0@, n.1@)),
            None => following(page@) is None,
        },
{
    match page.field("links") {
        Some(Json::Array(links)) => {
            proof {
                assert(page@.field("links"@).elements() =~= trees(links@));
            }
            match next_link(links) {
                Some(i) => {
                    let link = &links[i];
                    match link.text_field("href") {
                        Some(url) => match link.field("body") {
                            Some(body) => Some((url.clone(), body.copy())),
                            None => None,
                        },
                        None => None,
                    }
                },
                None => None,
            }
        },
        _ => {
            proof {
                assert(page@.field("links"@).elements() =~= Seq::empty());
            }
            None
        },
    }
}

impl Paging {
    /// A search before its first page. The catalogue is asked for the area with an extent to each
    /// of its envelopes, for it rejects a point.
    pub fn query(area: &Vec<Envelope>, start: &str, end: &str, source: &str) -> (r: Paging)
        ensures
            r@ == unpaged(area@, start@, end@, source@),
    {
        let mut url = api(source).to_owned();
        url.append("/search");
        let features: Vec<Json> = Vec::new();
        proof {
            assert(trees(features@) =~= Seq::empty());
        }
        let wide = widen_all(area);
        Paging { next: Some((url, payload(&wide, start, end, source))), features }
    }

    /// Takes the features of one more page, and follows its link to the next one.
    pub fn turn(&mut self, page: &Json)
        ensures
            final(self)@ == turned(old(self)@, page@),
    {
        let ghost before = self@;
        match page.field("features") {
            Some(Json::Array(found)) => {
                for i in 0..found.len()
                    invariant
                        trees(self.features@) == before.features + trees(found@).take(i as int),
                {
                    let ghost held = trees(self.features@);
                    let f = found[i].copy();
                    self.features.push(f);
                    proof {
                        assert(trees(self.features@) =~= held.push(found@[i as int]@));
                        assert(trees(found@).take(i + 1) =~= trees(found@).take(i as int).push(
                            found@[i as int]@,
                        ));
                    }
                }
                proof {
                    assert(trees(found@).take(found@.len() as int) =~= trees(found@));
                    assert(page@.field("features"@).elements() =~= trees(found@));
                }
            },
            _ => {
                proof {
                    assert(page@.field("features"@).elements() =~= Seq::empty());
                    assert(before.features + Seq::<Tree>::empty() =~= before.features);
                }
            },
        }
        self.next = next_request(page);
    }
}

/// A search keeps the features of every page that it was given, in the order of the pages, and
/// goes on exactly where the last of them leads.
pub proof fn a_search_keeps_every_page(p: PagingView, pages: Seq<Tree>)
    ensures
        turned_all(p, pages).features == p.features + features_of(pages),
        pages.len() > 0 ==> turned_all(p, pages).next == following(pages.last()),
    decreases pages.len(),
{
    let of = |page: Tree| page.field("features"@).elements();
    if pages.len() == 0 {
        assert(pages.map_values(of) =~= Seq::empty());
        assert(p.features + features_of(pages) =~= p.features);
    } else {
        a_search_keeps_every_page(p, pages.drop_last());
        let front = pages.drop_last().map_values(of);
        assert(pages.map_values(of) =~= front.push(of(pages.last())));
        front.lemma_flatten_push(of(pages.last()));
        assert(turned_all(p, pages).features =~= p.features + features_of(pages));
    }
}

/// How often one page is asked for before a search is given up.
pub const STAC_ATTEMPTS: u64 = 7;

/// The least time from one request to the next, in nanoseconds: a quarter of a second. The
/// catalogue sheds a burst of requests, and pages asked for back to back are one.
pub const PACE: u64 = 250_000_000;

/// Whether a status says that the same request may be answered later.
pub open spec fn transient(code: u16) -> bool {
    code == 408 || code == 429 || code >= 500
}

/// Whether a status says that the same request may be answered later.
pub fn retryable(code: u16) -> (r: bool)
    ensures
        r == transient(code),
{
    code == 408 || code == 429 || code >= 500
}

/// What came of one request.
#[derive(Debug)]
pub enum Reply {
    /// The text that the endpoint answered with.
    Body(String),
    /// An answer that could not be read to its end, and what went wrong.
    Unread(String),
    /// A status that reports an error, the endpoint's `Retry-After`, and the error in words.
    Status { code: u16, retry_after: Option<String>, message: String },
    /// No answer, and what went wrong.
    Transport(String),
}

/// [`Reply`], as mathematics.
pub ghost enum ReplyView {
    Body(Seq<char>),
    Unread(Seq<char>),
    Status { code: u16, retry_after: Option<Seq<char>>, message: Seq<char> },
    Transport(Seq<char>),
}

impl View for Reply {
    type V = ReplyView;

    open spec fn view(&self) -> ReplyView {
        match self {
            Reply::Body(s) => ReplyView::Body(s@),
            Reply::Unread(s) => ReplyView::Unread(s@),
            Reply::Status { code, retry_after, message } => ReplyView::Status {
                code: *code,
                retry_after: opt(*retry_after),
                message: message@,
            },
            Reply::Transport(s) => ReplyView::Transport(s@),
        }
    }
}

/// What to do after a request.
#[derive(Debug)]
pub enum Step {
    /// The page is here.
    Done(Json),
    /// The search has failed.
    Fail(String),
    /// Ask again after a wait, and say so.
    Retry { seconds: u64, notice: String },
}

/// [`Step`], as mathematics.
pub ghost enum StepView {
    Done(Tree),
    Fail(Seq<char>),
    Retry { seconds: u64, notice: Seq<char> },
}

impl View for Step {
    type V = StepView;

    open spec fn view(&self) -> StepView {
        match self {
            Step::Done(page) => StepView::Done(page@),
            Step::Fail(message) => StepView::Fail(message@),
            Step::Retry { seconds, notice } => StepView::Retry {
                seconds: *seconds,
                notice: notice@,
            },
        }
    }
}

/// The wait that the endpoint states, in seconds, where it states one.
pub open spec fn stated(retry_after: Option<Seq<char>>) -> Option<u64> {
    match retry_after {
        Some(s) => match number(trimmed(s), u64::MAX as nat) {
            Ok(n) => Some(n as u64),
            Err(_) => None,
        },
        None => None,
    }
}

/// The wait after an attempt where the endpoint states none: 1, 2, 4, 8, and then 16 seconds.
pub open spec fn backoff(attempt: u64) -> nat {
    pow2(
        if attempt >= 5 {
            4
        } else {
            (attempt - 1) as nat
        },
    )
}

/// What a search says of an answer that holds no document. Such an answer is the endpoint's own
/// rejection, and asking again would only spend what made it reject the request.
pub open spec fn rejection(complaint: Seq<char>) -> Seq<char> {
    "stac: response was not json ("@ + complaint
        + ") — the endpoint rejected the request rather than answering it, so the query itself has to change"@
}

/// Another attempt after the wait that is stated, else after the wait of its own, as long as one is
/// left.
pub open spec fn again(attempt: u64, error: Seq<char>, wait: Option<u64>) -> StepView {
    if attempt >= STAC_ATTEMPTS {
        StepView::Fail(error + " after "@ + decimal(STAC_ATTEMPTS as nat) + " attempts"@)
    } else {
        let seconds = match wait {
            Some(s) => s,
            None => backoff(attempt) as u64,
        };
        StepView::Retry {
            seconds,
            notice: "  stac transient failure; retry "@ + decimal((attempt + 1) as nat) + "/"@
                + decimal(STAC_ATTEMPTS as nat) + " in "@ + decimal(seconds as nat) + "s: "@ + error,
        }
    }
}

/// What to do after the reply to an attempt.
pub open spec fn after(attempt: u64, reply: ReplyView) -> StepView {
    match reply {
        ReplyView::Body(text) => answer_step(document(text)),
        ReplyView::Unread(complaint) => StepView::Fail(rejection(complaint)),
        ReplyView::Status { code, retry_after, message } => if transient(code) {
            again(attempt, "stac http: status "@ + decimal(code as nat), stated(retry_after))
        } else {
            StepView::Fail("stac http: "@ + message)
        },
        ReplyView::Transport(message) => again(attempt, "stac http: "@ + message, None),
    }
}

fn stated_wait(retry_after: &Option<String>) -> (r: Option<u64>)
    ensures
        r == stated(opt(*retry_after)),
{
    match retry_after {
        Some(s) => {
            let t = trim(s.as_str());
            match parse_number(t.as_str(), u64::MAX) {
                Ok(n) => Some(n),
                Err(_) => None,
            }
        },
        None => None,
    }
}

fn own_wait(attempt: u64) -> (r: u64)
    requires
        1 <= attempt,
    ensures
        r == backoff(attempt),
        1 <= r <= 16,
{
    proof {
        lemma2_to64();
    }
    if attempt == 1 {
        1
    } else if attempt == 2 {
        2
    } else if attempt == 3 {
        4
    } else if attempt == 4 {
        8
    } else {
        16
    }
}

fn not_json(complaint: &str) -> (r: Step)
    ensures
        r@ == StepView::Fail(rejection(complaint@)),
{
    let mut message = "stac: response was not json (".to_owned();
    message.append(complaint);
    message.append(
        ") — the endpoint rejected the request rather than answering it, so the query itself has to change",
    );
    Step::Fail(message)
}

fn retry(attempt: u64, error: &str, wait: Option<u64>) -> (r: Step)
    requires
        1 <= attempt <= STAC_ATTEMPTS,
    ensures
        r@ == again(attempt, error@, wait),
{
    if attempt >= STAC_ATTEMPTS {
        let mut message = error.to_owned();
        message.append(" after ");
        message.append(to_decimal(STAC_ATTEMPTS).as_str());
        message.append(" attempts");
        return Step::Fail(message);
    }
    let seconds = match wait {
        Some(s) => s,
        None => own_wait(attempt),
    };
    let mut notice = "  stac transient failure; retry ".to_owned();
    notice.append(to_decimal(attempt + 1).as_str());
    notice.append("/");
    notice.append(to_decimal(STAC_ATTEMPTS).as_str());
    notice.append(" in ");
    notice.append(to_decimal(seconds).as_str());
    notice.append("s: ");
    notice.append(error);
    Step::Retry { seconds, notice }
}

/// What to do after an answer, from what its text reads as.
pub open spec fn answer_step(read: Result<Tree, Seq<char>>) -> StepView {
    match read {
        Ok(page) => StepView::Done(page),
        Err(complaint) => StepView::Fail(rejection("Failed to read JSON: "@ + complaint)),
    }
}

/// What to do after an answer, from what its text reads as.
pub fn answered(read: Result<Json, String>) -> (r: Step)
    ensures
        r@ == match read {
            Ok(page) => answer_step(Ok(page@)),
            Err(complaint) => answer_step(Err(complaint@)),
        },
{
    match read {
        Ok(page) => Step::Done(page),
        Err(complaint) => {
            let mut unread = "Failed to read JSON: ".to_owned();
            unread.append(complaint.as_str());
            not_json(unread.as_str())
        },
    }
}

/// What to do after the reply to an attempt at one page. A failed search silently omits its area,
/// so what may pass is tried again in place; an answer that is no document, and a status that will
/// not change, are final.
pub fn post_page(attempt: u64, reply: Reply) -> (r: Step)
    requires
        1 <= attempt <= STAC_ATTEMPTS,
    ensures
        r@ == after(attempt, reply@),
{
    match reply {
        Reply::Body(text) => answered(parse(text.as_str())),
        Reply::Unread(complaint) => not_json(complaint.as_str()),
        Reply::Status { code, retry_after, message } => {
            if retryable(code) {
                let mut error = "stac http: status ".to_owned();
                error.append(to_decimal(code as u64).as_str());
                let wait = stated_wait(&retry_after);
                retry(attempt, error.as_str(), wait)
            } else {
                let mut error = "stac http: ".to_owned();
                error.append(message.as_str());
                Step::Fail(error)
            }
        },
        Reply::Transport(message) => {
            let mut error = "stac http: ".to_owned();
            error.append(message.as_str());
            retry(attempt, error.as_str(), None)
        },
    }
}

/// When the last request was made, in nanoseconds of a clock that does not go back, and how many
/// were made.
#[derive(Clone, Copy, Debug)]
pub struct Pacer {
    pub last: Option<u64>,
    pub requests: usize,
}

impl Pacer {
    /// How long to wait before the next request.
    pub open spec fn wait(self, now: u64) -> u64 {
        match self.last {
            Some(t) => {
                let since = if now >= t {
                    (now - t) as u64
                } else {
                    0
                };
                if since < PACE {
                    (PACE - since) as u64
                } else {
                    0
                }
            },
            None => 0,
        }
    }

    /// Nothing requested yet.
    pub fn new() -> (r: Pacer)
        ensures
            r.last is None,
            r.requests == 0,
    {
        Pacer { last: None, requests: 0 }
    }

    /// How long to wait before the next request.
    pub fn pace(&self, now: u64) -> (r: u64)
        ensures
            r == self.wait(now),
    {
        match self.last {
            Some(t) => {
                let since = if now >= t {
                    now - t
                } else {
                    0
                };
                if since < PACE {
                    PACE - since
                } else {
                    0
                }
            },
            None => 0,
        }
    }

    /// Counts a request made now.
    pub fn note(&mut self, now: u64)
        ensures
            final(self).last == Some(now),
            final(self).requests == if old(self).requests == usize::MAX {
                0
            } else {
                old(self).requests + 1
            },
    {
        self.last = Some(now);
        self.requests = self.requests.wrapping_add(1);
    }
}

/// How many catalogue requests were made, for the header of a manifest.
pub fn requests(pacer: &Pacer) -> (r: usize)
    ensures
        r == pacer.requests,
{
    pacer.requests
}

/// Requests keep their distance: one that waits as it is told is made no sooner than the pace
/// after the one before it.
pub proof fn requests_keep_their_distance(pacer: Pacer, last: u64, now: u64, made: u64)
    requires
        pacer.last == Some(last),
        last <= now,
        made >= now + pacer.wait(now),
    ensures
        made - last >= PACE,
{
}

/// A page is asked for no more often than the number of attempts, and between two of them the
/// search waits as long as the endpoint states, or else at least a second and at most sixteen.
pub proof fn attempts_end_and_waits_are_honoured(attempt: u64, reply: ReplyView)
    requires
        1 <= attempt <= STAC_ATTEMPTS,
    ensures
        attempt == STAC_ATTEMPTS ==> !(after(attempt, reply) is Retry),
        after(attempt, reply) matches StepView::Retry { seconds, notice } ==> match reply {
            ReplyView::Status { code, retry_after, message } => stated(retry_after) == Some(seconds)
                || (stated(retry_after) is None && 1 <= seconds <= 16),
            _ => 1 <= seconds <= 16,
        },
{
    lemma2_to64();
}

/// What will not pass is never tried again: an answer that is no document, and a status that
/// reports an error of the request.
pub proof fn a_final_reply_ends_the_search(attempt: u64, reply: ReplyView)
    requires
        match reply {
            ReplyView::Body(_) | ReplyView::Unread(_) => true,
            ReplyView::Status { code, retry_after, message } => !transient(code),
            ReplyView::Transport(_) => false,
        },
    ensures
        after(attempt, reply) is Done || after(attempt, reply) is Fail,
        after(attempt, reply) is Done <==> (reply matches ReplyView::Body(text) && document(
            text,
        ) is Ok),
{
}

/// Whether a list of four numbers draws a box: its bounds from west to north.
pub open spec fn draws_a_box(t: Tree, e: Envelope) -> bool {
    t.elements() == seq![
        real_tree(e.west),
        real_tree(e.south),
        real_tree(e.east),
        real_tree(e.north),
    ]
}

/// Whether the one ring of a polygon runs round a box and closes: each of its five positions is a
/// longitude and a latitude.
pub open spec fn draws_a_ring(t: Tree, e: Envelope) -> bool {
    let ring = t.elements()[0].elements();
    &&& t.elements().len() == 1
    &&& ring.len() == 5
    &&& ring[0].elements() == seq![real_tree(e.west), real_tree(e.south)]
    &&& ring[1].elements() == seq![real_tree(e.east), real_tree(e.south)]
    &&& ring[2].elements() == seq![real_tree(e.east), real_tree(e.north)]
    &&& ring[3].elements() == seq![real_tree(e.west), real_tree(e.north)]
    &&& ring[4] == ring[0]
}

/// Whether a body asks for a box: it is the one box of the body, or one of its polygons runs round
/// it.
pub open spec fn asks_for(body: Tree, e: Envelope) -> bool {
    let rings = body.field("intersects"@).field("coordinates"@).elements();
    ||| draws_a_box(body.field("bbox"@), e)
    ||| exists|k: int| 0 <= k < rings.len() && draws_a_ring(#[trigger] rings[k], e)
}

/// A search asks the catalogue of its source, for the collection of its source and no other, from
/// the start of its first day to the end of its last, page by page.
pub proof fn a_search_asks_for_its_source_and_its_days(
    area: Seq<Envelope>,
    start: Seq<char>,
    end: Seq<char>,
    source: Seq<char>,
)
    ensures
        unpaged(area, start, end, source).features.len() == 0,
        unpaged(area, start, end, source).next matches Some(n) && {
            let cdse = "cdse"@.is_prefix_of(source);
            let l1c = "l1c"@.is_suffix_of(source);
            let collections = n.1.field("collections"@).elements();
            let days = n.1.field("datetime"@).as_text();
            &&& cdse ==> n.0 == "https://stac.dataspace.copernicus.eu/v1"@ + "/search"@
            &&& !cdse ==> n.0 == "https://earth-search.aws.element84.com/v1"@ + "/search"@
            &&& collections.len() == 1
            &&& l1c ==> collections[0].as_text() == Some("sentinel-2-l1c"@)
            &&& !l1c ==> collections[0].as_text() == Some("sentinel-2-l2a"@)
            &&& l1c ==> n.1.field("limit"@) == count_tree(1000)
            &&& !l1c ==> n.1.field("limit"@) == count_tree(200)
            &&& !start.contains('/') && !end.contains('/') && days is Some ==> parts(days->0, '/')
                == seq![start + "T00:00:00Z"@, end + "T23:59:59Z"@]
            &&& days is Some
        },
{
    lemma_members_asked(widened_all(area), start, end, source);
    reveal_strlit("sentinel-2-");
    reveal_strlit("l1c");
    reveal_strlit("l2a");
    reveal_strlit("sentinel-2-l1c");
    reveal_strlit("sentinel-2-l2a");
    assert("sentinel-2-"@ + "l1c"@ =~= "sentinel-2-l1c"@);
    assert("sentinel-2-"@ + "l2a"@ =~= "sentinel-2-l2a"@);
    reveal_strlit("T00:00:00Z/");
    reveal_strlit("T00:00:00Z");
    reveal_strlit("T23:59:59Z");
    if !start.contains('/') && !end.contains('/') {
        let list = seq![start + "T00:00:00Z"@, end + "T23:59:59Z"@];
        assert forall|i: int| 0 <= i < list.len() implies !(#[trigger] list[i]).contains('/') by {
            assert forall|k: int| 0 <= k < list[i].len() implies list[i][k] != '/' by {
                if i == 0 && k < start.len() {
                    assert(start.contains(start[k]));
                }
                if i == 1 && k < end.len() {
                    assert(end.contains(end[k]));
                }
            }
        }
        joined_texts_are_taken_apart(list, '/');
        reveal_with_fuel(joined, 2);
        assert(list.drop_last() =~= seq![start + "T00:00:00Z"@]);
        assert(joined(list, seq!['/']) =~= start + "T00:00:00Z/"@ + end + "T23:59:59Z"@);
    }
}

proof fn lemma_members_asked(
    area: Seq<Envelope>,
    start: Seq<char>,
    end: Seq<char>,
    source: Seq<char>,
)
    ensures
        ({
            let r = request(area, start, end, source);
            let place = place_asked(merged(area));
            &&& r.field("collections"@) == Tree::Array(
                seq![Tree::Text("sentinel-2-"@ + level_of(source))],
            )
            &&& r.field("datetime"@) == Tree::Text(start + "T00:00:00Z/"@ + end + "T23:59:59Z"@)
            &&& r.field("limit"@) == count_tree(page_size(source))
            &&& r.field(place.0) == place.1
        }),
{
    reveal_strlit("collections");
    reveal_strlit("datetime");
    reveal_strlit("limit");
    reveal_strlit("bbox");
    reveal_strlit("intersects");
    assert("collections"@.len() == 11 && "datetime"@.len() == 8 && "limit"@.len() == 5);
    assert("bbox"@.len() == 4 && "intersects"@.len() == 10);
    let m = request(area, start, end, source)->Object_0;
    a_member_is_found_by_its_name(m, 0);
    a_member_is_found_by_its_name(m, 1);
    a_member_is_found_by_its_name(m, 2);
    a_member_is_found_by_its_name(m, 3);
}

/// A search asks for all of its area: every envelope of it lies inside a box that is asked for.
pub proof fn a_search_asks_for_all_of_its_area(
    area: Seq<Envelope>,
    start: Seq<char>,
    end: Seq<char>,
    source: Seq<char>,
    i: int,
)
    requires
        0 <= i < area.len(),
        forall|k: int| 0 <= k < area.len() ==> is_bounded_box(#[trigger] area[k]),
    ensures
        unpaged(area, start, end, source).next matches Some(n) && exists|e: Envelope|
            inside(area[i], e) && #[trigger] asks_for(n.1, e),
{
    let wide = widened_all(area);
    let boxes = merged(wide);
    let micro = Real { bits: MICRODEGREE };
    assert forall|k: int| 0 <= k < wide.len() implies bounded(#[trigger] wide[k]) by {
        assert(is_bounded_box(area[k]));
        sum_keeps_direction(area[k].west, micro.negated());
        sum_keeps_direction(area[k].south, micro.negated());
        sum_keeps_direction(area[k].east, micro);
        sum_keeps_direction(area[k].north, micro);
    }
    merged_parts_cover_the_area(wide);
    assert(held(wide[i], boxes));
    let k = choose|k: int| 0 <= k < boxes.len() && inside(wide[i], #[trigger] boxes[k]);
    assert(is_bounded_box(area[i]));
    widened_holds_the_envelope(area[i]);
    assert(inside(area[i], boxes[k]));
    let body = request(wide, start, end, source);
    lemma_members_asked(wide, start, end, source);
    if boxes.len() == 1 {
        assert(draws_a_box(body.field("bbox"@), boxes[k]));
    } else {
        reveal_strlit("type");
        reveal_strlit("coordinates");
        assert("type"@.len() == 4 && "coordinates"@.len() == 11);
        let shape = place_asked(boxes).1->Object_0;
        a_member_is_found_by_its_name(shape, 1);
        let rings = body.field("intersects"@).field("coordinates"@).elements();
        assert(rings[k] == polygon(boxes[k]));
        assert(draws_a_ring(rings[k], boxes[k]));
    }
    let n = unpaged(area, start, end, source).next->0;
    assert(inside(area[i], boxes[k]) && asks_for(n.1, boxes[k]));
}

/// Whether all four bounds of a box are finite.
pub open spec fn is_bounded_box(e: Envelope) -> bool {
    e.west.is_finite() && e.south.is_finite() && e.east.is_finite() && e.north.is_finite()
}

/// A search for a point asks for a box that has an extent, for the catalogue rejects a point.
pub proof fn a_search_for_a_point_asks_for_a_box(
    b: Envelope,
    start: Seq<char>,
    end: Seq<char>,
    source: Seq<char>,
)
    requires
        b.west == b.east,
        b.south == b.north,
        b.west.mag() <= FULL_TURN,
        b.south.mag() <= FULL_TURN,
    ensures
        unpaged(seq![b], start, end, source).next matches Some(n) && exists|e: Envelope|
            e.west.is_lt(e.east) && e.south.is_lt(e.north) && inside(b, e) && #[trigger] draws_a_box(
                n.1.field("bbox"@),
                e,
            ),
{
    let wide = widened_all(seq![b]);
    let e = widened(b);
    widened_point_has_an_extent(b);
    widened_holds_the_envelope(b);
    assert(wide =~= seq![e]);
    assert(wide.drop_last() =~= Seq::empty());
    reveal_with_fuel(merged, 2);
    reveal_with_fuel(settled, 2);
    reveal_with_fuel(pass, 2);
    assert(merged(wide) =~= seq![e]);
    lemma_members_asked(wide, start, end, source);
    assert(draws_a_box(request(wide, start, end, source).field("bbox"@), e));
}

/// A search goes on with the first link of a page that is named as the next one, at its address and
/// with its body, and ends where no link is, or where that one has no address or no body.
pub proof fn the_first_next_link_is_followed(page: Tree)
    ensures
        ({
            let links = page.field("links"@).elements();
            let is_next = |t: Tree| t.field("rel"@).as_text() == Some("next"@);
            &&& following(page) matches Some(n) ==> exists|i: int|
                {
                    &&& 0 <= i < links.len()
                    &&& is_next(#[trigger] links[i])
                    &&& links[i].field("href"@).as_text() == Some(n.0)
                    &&& links[i].has("body"@) && links[i].field("body"@) == n.1
                    &&& forall|j: int| 0 <= j < i ==> !is_next(#[trigger] links[j])
                }
            &&& following(page) is None ==> forall|i: int|
                0 <= i < links.len() && is_next(#[trigger] links[i]) && (forall|j: int|
                    0 <= j < i ==> !is_next(#[trigger] links[j])) ==> links[i].field(
                    "href"@,
                ).as_text() is None || !links[i].has("body"@)
        }),
{
    lemma_next_of(page.field("links"@).elements());
}

proof fn lemma_next_of(links: Seq<Tree>)
    ensures
        match next_of(links) {
            Some(link) => exists|i: int|
                {
                    &&& 0 <= i < links.len()
                    &&& #[trigger] links[i] == link
                    &&& link.field("rel"@).as_text() == Some("next"@)
                    &&& forall|j: int|
                        0 <= j < i ==> (#[trigger] links[j]).field("rel"@).as_text() != Some(
                            "next"@,
                        )
                },
            None => forall|i: int|
                0 <= i < links.len() ==> (#[trigger] links[i]).field("rel"@).as_text() != Some(
                    "next"@,
                ),
        },
    decreases links.len(),
{
    if links.len() > 0 && links[0].field("rel"@).as_text() != Some("next"@) {
        let rest = links.drop_first();
        lemma_next_of(rest);
        match next_of(links) {
            Some(link) => {
                let i = choose|i: int|
                    {
                        &&& 0 <= i < rest.len()
                        &&& #[trigger] rest[i] == link
                        &&& link.field("rel"@).as_text() == Some("next"@)
                        &&& forall|j: int|
                            0 <= j < i ==> (#[trigger] rest[j]).field("rel"@).as_text() != Some(
                                "next"@,
                            )
                    };
                assert(links[i + 1] == link);
                assert forall|j: int| 0 <= j < i + 1 implies (#[trigger] links[j]).field(
                    "rel"@,
                ).as_text() != Some("next"@) by {
                    if j > 0 {
                        assert(rest[j - 1] == links[j]);
                    }
                }
            },
            None => {
                assert forall|i: int| 0 <= i < links.len() implies (#[trigger] links[i]).field(
                    "rel"@,
                ).as_text() != Some("next"@) by {
                    if i > 0 {
                        assert(rest[i - 1] == links[i]);
                    }
                }
            },
        }
    }
}

/// A failure that may pass is tried again six times and no more: no answer, too slow or too many
/// requests, or an error of the endpoint's own. Any other status ends the search at once.
pub proof fn a_passing_failure_is_tried_again(
    attempt: u64,
    code: u16,
    retry_after: Option<Seq<char>>,
    message: Seq<char>,
)
    requires
        1 <= attempt <= STAC_ATTEMPTS,
    ensures
        after(attempt, ReplyView::Status { code, retry_after, message }) is Retry <==> attempt < 7
            && (code == 408 || code == 429 || code >= 500),
        after(attempt, ReplyView::Transport(message)) is Retry <==> attempt < 7,
        after(attempt, ReplyView::Status { code, retry_after, message }) is Retry || after(
            attempt,
            ReplyView::Status { code, retry_after, message },
        ) is Fail,
{
}

/// Where the endpoint states no wait, a search waits a second after its first attempt and twice as
/// long after each further one, up to sixteen seconds.
pub proof fn waits_double(attempt: u64, message: Seq<char>)
    requires
        1 <= attempt < 6,
    ensures
        after(1, ReplyView::Transport(message)) matches StepView::Retry { seconds, notice }
            && seconds == 1,
        after(attempt, ReplyView::Transport(message)) matches StepView::Retry {
            seconds: a,
            notice: x,
        } && (after((attempt + 1) as u64, ReplyView::Transport(message)) matches StepView::Retry {
            seconds: b,
            notice: y,
        } && b == if 2 * a < 16 {
            2 * a
        } else {
            16
        }),
{
    lemma2_to64();
}

/// Requests are kept a quarter of a second apart, and no further: the wait is just what is left of
/// that time, none for the first request, and none where it has gone by.
pub proof fn a_wait_is_what_is_left_of_the_pace(pacer: Pacer, last: u64, now: u64)
    requires
        last <= now,
    ensures
        pacer.last is None ==> pacer.wait(now) == 0,
        pacer.last == Some(last) && now - last < 250_000_000 ==> now + pacer.wait(now) - last
            == 250_000_000,
        pacer.last == Some(last) && now - last >= 250_000_000 ==> pacer.wait(now) == 0,
{
}

/// A notice says which attempt comes next and how long until then, in this order, and a search that
/// is given up says how often it was tried.
pub proof fn a_notice_counts_the_attempt_and_the_wait(attempt: u64, message: Seq<char>)
    requires
        1 <= attempt <= STAC_ATTEMPTS,
    ensures
        attempt < 7 ==> (after(attempt, ReplyView::Transport(message)) matches StepView::Retry {
            seconds,
            notice,
        } && notice == "  stac transient failure; retry "@ + decimal((attempt + 1) as nat) + "/"@
            + decimal(7) + " in "@ + decimal(seconds as nat) + "s: "@ + ("stac http: "@ + message)),
        attempt == 7 ==> after(attempt, ReplyView::Transport(message)) == StepView::Fail(
            "stac http: "@ + message + " after "@ + decimal(7) + " attempts"@,
        ),
{
}

} // verus!
