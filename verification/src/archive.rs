//! Publishing detection records unchanged, and the overlay of the areas that were scanned.
use crate::json::{
    a_member_is_found_by_its_name, array_value, document, member, members_of, object_value, parse,
    text_value, trees, Json, Tree,
};
use crate::paths::{
    a_name_without_a_dot_has_no_extension, an_extension_stands_behind_the_last_dot, child, entry,
    extension, extension_of, is_object, is_remote, join, same_path, same_place, under,
};
use crate::text::{after_leading, before_trailing, opt, or_empty, same, starts_with, views};
use vstd::hash_map::StringHashMap;
use vstd::prelude::*;
use vstd::seq_lib::lemma_seq_contains_after_push;

verus! {

/// What to do with an entry of a directory that is copied.
#[derive(Clone, Copy, Debug, PartialEq, Eq, Structural)]
pub enum Entry {
    /// Copy what is in it.
    Enter,
    Copy,
    Skip,
}

/// Directories are entered and files are copied, but for the leavings of a run: the errors that it
/// may retry, and files that are not whole.
pub open spec fn treatment(name: Seq<char>, is_dir: bool) -> Entry {
    if is_dir {
        Entry::Enter
    } else if extension_of(name) == Some("err"@) || extension_of(name) == Some("part"@) {
        Entry::Skip
    } else {
        Entry::Copy
    }
}

/// What to do with an entry of a directory that is copied.
pub fn copy_entry(name: &str, is_dir: bool) -> (r: Entry)
    ensures
        r == treatment(name@, is_dir),
{
    if is_dir {
        return Entry::Enter;
    }
    match extension(name) {
        Some(e) => {
            if same(e.as_str(), "err") || same(e.as_str(), "part") {
                Entry::Skip
            } else {
                Entry::Copy
            }
        },
        None => Entry::Copy,
    }
}

/// How the store is reached: the arguments that come first, and the environment.
#[derive(Debug)]
pub struct Access {
    pub args: Vec<String>,
    pub env: Vec<(String, String)>,
}

/// The address of an endpoint, over HTTPS where it names no scheme.
pub open spec fn endpoint_url(endpoint: Seq<char>) -> Seq<char> {
    if "http"@.is_prefix_of(endpoint) {
        endpoint
    } else {
        "https://"@ + endpoint
    }
}

/// A setting under its name, where it is set.
pub open spec fn setting(name: Seq<char>, value: Option<Seq<char>>) -> Seq<(Seq<char>, Seq<char>)> {
    match value {
        Some(v) => seq![(name, v)],
        None => Seq::empty(),
    }
}

/// Settings, as mathematics.
pub open spec fn setting_views(v: Seq<(String, String)>) -> Seq<(Seq<char>, Seq<char>)> {
    v.map_values(|s: (String, String)| (s.0@, s.1@))
}

fn put(env: &mut Vec<(String, String)>, name: &str, value: &Option<String>)
    ensures
        setting_views(final(env)@) == setting_views(old(env)@) + setting(name@, opt(*value)),
{
    let ghost before = setting_views(env@);
    match value {
        Some(v) => {
            env.push((name.to_owned(), v.clone()));
            proof {
                assert(setting_views(env@) =~= before + setting(name@, opt(*value)));
            }
        },
        None => {
            proof {
                assert(before + setting(name@, opt(*value)) =~= before);
            }
        },
    }
}

/// Whether the store is reached as an endpoint, two keys and a region say.
pub open spec fn is_access(
    r: Access,
    endpoint: Option<Seq<char>>,
    access_key: Option<Seq<char>>,
    secret_key: Option<Seq<char>>,
    region: Option<Seq<char>>,
) -> bool {
    &&& views(r.args@) == match endpoint {
        Some(e) => seq!["--endpoint-url"@, endpoint_url(e)],
        None => Seq::empty(),
    }
    &&& setting_views(r.env@) == setting("AWS_ACCESS_KEY_ID"@, access_key) + setting(
        "AWS_SECRET_ACCESS_KEY"@,
        secret_key,
    ) + setting("AWS_DEFAULT_REGION"@, region)
}

/// How the archive's store is reached. Its credentials are kept apart from those that the imagery
/// is read with, so that one process can use both.
pub fn aws(
    endpoint: &Option<String>,
    access_key: &Option<String>,
    secret_key: &Option<String>,
    region: &Option<String>,
) -> (r: Access)
    ensures
        is_access(r, opt(*endpoint), opt(*access_key), opt(*secret_key), opt(*region)),
        views(r.args@) == match opt(*endpoint) {
            Some(e) => seq!["--endpoint-url"@, endpoint_url(e)],
            None => Seq::empty(),
        },
        setting_views(r.env@) == setting("AWS_ACCESS_KEY_ID"@, opt(*access_key)) + setting(
            "AWS_SECRET_ACCESS_KEY"@,
            opt(*secret_key),
        ) + setting("AWS_DEFAULT_REGION"@, opt(*region)),
{
    let mut args: Vec<String> = Vec::new();
    match endpoint {
        Some(e) => {
            let url = if starts_with(e.as_str(), "http") {
                e.clone()
            } else {
                let mut s = "https://".to_owned();
                s.append(e.as_str());
                s
            };
            args.push("--endpoint-url".to_owned());
            args.push(url);
            proof {
                assert(views(args@) =~= seq!["--endpoint-url"@, endpoint_url(e@)]);
            }
        },
        None => {
            proof {
                assert(views(args@) =~= Seq::empty());
            }
        },
    }
    let mut env: Vec<(String, String)> = Vec::new();
    put(&mut env, "AWS_ACCESS_KEY_ID", access_key);
    put(&mut env, "AWS_SECRET_ACCESS_KEY", secret_key);
    put(&mut env, "AWS_DEFAULT_REGION", region);
    proof {
        assert(setting_views(env@) =~= setting("AWS_ACCESS_KEY_ID"@, opt(*access_key)) + setting(
            "AWS_SECRET_ACCESS_KEY"@,
            opt(*secret_key),
        ) + setting("AWS_DEFAULT_REGION"@, opt(*region)));
    }
    Access { args, env }
}

/// The arguments that copy a directory into the store, without the leavings of a run.
pub fn aws_sync(source: &str, destination: &str) -> (r: Vec<String>)
    ensures
        views(r@) == seq![
            "s3"@,
            "sync"@,
            source@,
            destination@,
            "--exclude"@,
            "*.err"@,
            "--exclude"@,
            "*.part"@,
            "--only-show-errors"@,
        ],
{
    let r = vec![
        "s3".to_owned(),
        "sync".to_owned(),
        source.to_owned(),
        destination.to_owned(),
        "--exclude".to_owned(),
        "*.err".to_owned(),
        "--exclude".to_owned(),
        "*.part".to_owned(),
        "--only-show-errors".to_owned(),
    ];
    proof {
        assert(views(r@) =~= seq![
            "s3"@,
            "sync"@,
            source@,
            destination@,
            "--exclude"@,
            "*.err"@,
            "--exclude"@,
            "*.part"@,
            "--only-show-errors"@,
        ]);
    }
    r
}

/// The arguments that copy one object, out of the store or into it.
pub fn aws_copy(from: &str, to: &str) -> (r: Vec<String>)
    ensures
        views(r@) == seq!["s3"@, "cp"@, from@, to@, "--only-show-errors"@],
{
    let r = vec![
        "s3".to_owned(),
        "cp".to_owned(),
        from.to_owned(),
        to.to_owned(),
        "--only-show-errors".to_owned(),
    ];
    proof {
        assert(views(r@) =~= seq!["s3"@, "cp"@, from@, to@, "--only-show-errors"@]);
    }
    r
}

/// A directory to publish.
#[derive(Debug)]
pub enum Transfer {
    /// Into the store.
    Sync { from: String, to: String },
    /// Into another local directory.
    Copy { from: String, to: String },
}

/// [`Transfer`], as mathematics.
pub ghost enum TransferView {
    Sync { from: Seq<char>, to: Seq<char> },
    Copy { from: Seq<char>, to: Seq<char> },
}

impl View for Transfer {
    type V = TransferView;

    open spec fn view(&self) -> TransferView {
        match self {
            Transfer::Sync { from, to } => TransferView::Sync { from: from@, to: to@ },
            Transfer::Copy { from, to } => TransferView::Copy { from: from@, to: to@ },
        }
    }
}

/// What is published, in order: the records and then their assets. Nothing is left to do where the
/// destination is the directory that they are in.
pub open spec fn transfers(input: Seq<char>, destination: Seq<char>) -> Seq<TransferView> {
    if is_object(destination) {
        seq![
            TransferView::Sync {
                from: entry(input, "observations"@),
                to: under(destination, "observations"@),
            },
            TransferView::Sync {
                from: entry(input, "assets"@),
                to: under(destination, "assets"@),
            },
        ]
    } else if same_place(input, destination) {
        Seq::empty()
    } else {
        seq![
            TransferView::Copy {
                from: entry(input, "observations"@),
                to: entry(destination, "observations"@),
            },
            TransferView::Copy {
                from: entry(input, "assets"@),
                to: entry(destination, "assets"@),
            },
        ]
    }
}

/// What is to be transferred to publish the output of a run.
pub fn publish(input: &str, destination: &str) -> (r: Vec<Transfer>)
    ensures
        r@.map_values(|t: Transfer| t@) == transfers(input@, destination@),
{
    let mut r: Vec<Transfer> = Vec::new();
    if is_remote(destination) {
        r.push(
            Transfer::Sync {
                from: child(input, "observations"),
                to: join(destination, "observations"),
            },
        );
        r.push(Transfer::Sync { from: child(input, "assets"), to: join(destination, "assets") });
    } else if !same_path(input, destination) {
        r.push(
            Transfer::Copy {
                from: child(input, "observations"),
                to: child(destination, "observations"),
            },
        );
        r.push(Transfer::Copy { from: child(input, "assets"), to: child(destination, "assets") });
    }
    proof {
        assert(r@.map_values(|t: Transfer| t@) =~= transfers(input@, destination@));
    }
    r
}

/// The name that an entry of the overlay goes by.
pub open spec fn id_of(feature: Tree) -> Option<Seq<char>> {
    feature.field("properties"@).field("id"@).as_text()
}

/// The entries of an overlay that go by a name, each with its name.
pub open spec fn published(features: Seq<Tree>) -> Seq<(Seq<char>, Tree)>
    decreases features.len(),
{
    if features.len() == 0 {
        Seq::empty()
    } else {
        let before = published(features.drop_last());
        match id_of(features.last()) {
            Some(id) => before.push((id, features.last())),
            None => before,
        }
    }
}

/// The window that an area was scanned over, and the day on which it was.
pub ghost struct Stamp {
    pub start: Seq<char>,
    pub end: Seq<char>,
    pub scanned: Seq<char>,
}

/// What the overlay holds of a scanned area: its geometry, stamped with the window that scanned it.
pub open spec fn stamped(id: Seq<char>, feature: Tree, stamp: Stamp) -> Tree {
    Tree::Object(
        seq![
            ("geometry"@, feature.field("geometry"@)),
            (
                "properties"@,
                Tree::Object(
                    seq![
                        ("end"@, Tree::Text(stamp.end)),
                        ("id"@, Tree::Text(id)),
                        (
                            "name"@,
                            Tree::Text(
                                or_empty(feature.field("properties"@).field("name"@).as_text()),
                            ),
                        ),
                        ("scanned"@, Tree::Text(stamp.scanned)),
                        ("start"@, Tree::Text(stamp.start)),
                    ],
                ),
            ),
            ("type"@, Tree::Text("Feature"@)),
        ],
    )
}

/// The entries of the scanned areas that have a geometry, each with its name.
pub open spec fn scans(features: Seq<(Seq<char>, Tree)>, stamp: Stamp) -> Seq<(Seq<char>, Tree)>
    decreases features.len(),
{
    if features.len() == 0 {
        Seq::empty()
    } else {
        let before = scans(features.drop_last(), stamp);
        let (id, feature) = features.last();
        if feature.field("geometry"@) is Null {
            before
        } else {
            before.push((id, stamped(id, feature, stamp)))
        }
    }
}

/// The names of some entries.
pub open spec fn names_of(log: Seq<(Seq<char>, Tree)>) -> Seq<Seq<char>> {
    log.map_values(|e: (Seq<char>, Tree)| e.0)
}

/// The last entry that goes by a name.
pub open spec fn latest(log: Seq<(Seq<char>, Tree)>, id: Seq<char>) -> Option<Tree>
    decreases log.len(),
{
    if log.len() == 0 {
        None
    } else if log.last().0 == id {
        Some(log.last().1)
    } else {
        latest(log.drop_last(), id)
    }
}

/// The names that an overlay and a scan go by, in order: those on the overlay, and then the new
/// ones.
pub open spec fn order_of(old: Seq<(Seq<char>, Tree)>, new: Seq<(Seq<char>, Tree)>) -> Seq<Seq<char>>
    decreases new.len(),
{
    if new.len() == 0 {
        names_of(old)
    } else {
        let before = order_of(old, new.drop_last());
        if before.contains(new.last().0) {
            before
        } else {
            before.push(new.last().0)
        }
    }
}

/// The names that a scan adds to an overlay, in the order in which they come.
pub open spec fn added(old: Seq<Tree>, new: Seq<(Seq<char>, Tree)>) -> Seq<Seq<char>> {
    order_of(published(old), new).skip(published(old).len() as int)
}

/// The last entry that goes by a name, on an overlay or in a scan of it.
pub open spec fn entry_of(old: Seq<Tree>, new: Seq<(Seq<char>, Tree)>, id: Seq<char>) -> Tree {
    latest(published(old) + new, id)->0
}

/// What stands in the place of a feature after a scan: the last entry that goes by its name, and
/// the feature itself where it goes by none.
pub open spec fn standing(f: Tree, old: Seq<Tree>, new: Seq<(Seq<char>, Tree)>) -> Tree {
    match id_of(f) {
        Some(id) => entry_of(old, new, id),
        None => f,
    }
}

/// The overlay after a scan: everything that was on it, each in its place, and then the new areas.
pub open spec fn overlay(old: Seq<Tree>, new: Seq<(Seq<char>, Tree)>) -> Seq<Tree> {
    old.map_values(|f: Tree| standing(f, old, new)) + added(old, new).map_values(
        |id: Seq<char>| entry_of(old, new, id),
    )
}

/// A collection of features.
pub open spec fn collection(features: Seq<Tree>) -> Tree {
    Tree::Object(
        seq![("features"@, Tree::Array(features)), ("type"@, Tree::Text("FeatureCollection"@))],
    )
}

/// The overlay that is published: an empty one, where none is or what is there is no document.
pub open spec fn overlay_read(body: Option<Seq<char>>) -> Tree {
    match body {
        Some(text) => match document(text) {
            Ok(tree) => tree,
            Err(_) => collection(Seq::empty()),
        },
        None => collection(Seq::empty()),
    }
}

/// What a scan makes of the overlay: how many areas it puts on it, how many are then on it, and the
/// overlay to publish, where it changes.
#[derive(Debug)]
pub struct Coverage {
    pub merged: usize,
    pub total: usize,
    pub overlay: Option<Json>,
}

fn stamp_feature(id: &str, feature: &Json, start: &str, end: &str, scanned: &str) -> (r: Option<Json>)
    ensures
        r is None <==> feature@.field("geometry"@) is Null,
        r matches Some(e) ==> e@ == stamped(
            id@,
            feature@,
            Stamp { start: start@, end: end@, scanned: scanned@ },
        ),
{
    let geometry = match feature.field("geometry") {
        Some(Json::Null) => return None,
        Some(g) => g.copy(),
        None => return None,
    };
    let name = match feature.field("properties") {
        Some(p) => match p.text_field("name") {
            Some(n) => n.clone(),
            None => String::new(),
        },
        None => String::new(),
    };
    let mut properties: Vec<(String, Json)> = Vec::new();
    properties.push(("end".to_owned(), text_value(end)));
    properties.push(("id".to_owned(), text_value(id)));
    properties.push(("name".to_owned(), text_value(name.as_str())));
    properties.push(("scanned".to_owned(), text_value(scanned)));
    properties.push(("start".to_owned(), text_value(start)));
    let ghost held = members_of(properties@);
    let mut members: Vec<(String, Json)> = Vec::new();
    members.push(("geometry".to_owned(), geometry));
    members.push(("properties".to_owned(), object_value(properties)));
    members.push(("type".to_owned(), text_value("Feature")));
    proof {
        assert(held =~= seq![
            ("end"@, Tree::Text(end@)),
            ("id"@, Tree::Text(id@)),
            (
                "name"@,
                Tree::Text(or_empty(feature@.field("properties"@).field("name"@).as_text())),
            ),
            ("scanned"@, Tree::Text(scanned@)),
            ("start"@, Tree::Text(start@)),
        ]);
        assert(members_of(members@) =~= seq![
            ("geometry"@, feature@.field("geometry"@)),
            ("properties"@, Tree::Object(held)),
            ("type"@, Tree::Text("Feature"@)),
        ]);
    }
    Some(object_value(members))
}

proof fn lemma_latest(log: Seq<(Seq<char>, Tree)>, id: Seq<char>)
    ensures
        latest(log, id) is Some <==> names_of(log).contains(id),
    decreases log.len(),
{
    if log.len() > 0 {
        let front = log.drop_last();
        lemma_latest(front, id);
        assert(names_of(log) =~= names_of(front).push(log.last().0));
        if names_of(front).contains(id) {
            let k = choose|k: int| 0 <= k < names_of(front).len() && names_of(front)[k] == id;
            assert(names_of(log)[k] == id);
        }
        if log.last().0 == id {
            assert(names_of(log)[log.len() - 1] == id);
        }
    }
}

proof fn lemma_order_names(old: Seq<(Seq<char>, Tree)>, new: Seq<(Seq<char>, Tree)>, id: Seq<char>)
    ensures
        order_of(old, new).contains(id) <==> names_of(old + new).contains(id),
    decreases new.len(),
{
    if new.len() == 0 {
        assert(old + new =~= old);
    } else {
        let front = new.drop_last();
        lemma_order_names(old, front, id);
        lemma_order_names(old, front, new.last().0);
        let before = order_of(old, front);
        assert(names_of(old + new) =~= names_of(old + front).push(new.last().0));
        lemma_seq_contains_after_push(names_of(old + front), new.last().0, id);
        lemma_seq_contains_after_push(before, new.last().0, id);
    }
}

fn published_entries(overlay: &Json) -> (r: Vec<(String, Json)>)
    ensures
        members_of(r@) == published(overlay@.field("features"@).elements()),
{
    let mut out: Vec<(String, Json)> = Vec::new();
    let ghost features = overlay@.field("features"@).elements();
    proof {
        assert(members_of(out@) =~= Seq::empty());
    }
    match overlay.field("features") {
        Some(Json::Array(v)) => {
            proof {
                assert(features =~= trees(v@));
                assert(features.take(0) =~= Seq::empty());
            }
            for i in 0..v.len()
                invariant
                    features == trees(v@),
                    members_of(out@) == published(features.take(i as int)),
            {
                let ghost before = members_of(out@);
                proof {
                    assert(features.take(i + 1).drop_last() =~= features.take(i as int));
                    assert(features.take(i + 1).last() == v@[i as int]@);
                }
                match v[i].field("properties") {
                    Some(p) => match p.text_field("id") {
                        Some(id) => {
                            out.push((id.clone(), v[i].copy()));
                            proof {
                                assert(members_of(out@) =~= before.push((id@, v@[i as int]@)));
                            }
                        },
                        None => {},
                    },
                    None => {},
                }
            }
            proof {
                assert(features.take(v@.len() as int) =~= features);
            }
        },
        _ => {
            proof {
                assert(features =~= Seq::empty());
            }
        },
    }
    out
}

/// Whether an index gives the place of the last entry under each name.
spec fn names_indexed(index: Map<Seq<char>, usize>, log: Seq<(Seq<char>, Tree)>) -> bool {
    forall|id: Seq<char>|
        #![trigger index.contains_key(id)]
        #![trigger latest(log, id)]
        (index.contains_key(id) <==> latest(log, id) is Some) && (index.contains_key(id)
            ==> index[id] < log.len() && latest(log, id) == Some(log[index[id] as int].1))
}

proof fn lemma_index_push(
    index: Map<Seq<char>, usize>,
    log: Seq<(Seq<char>, Tree)>,
    e: (Seq<char>, Tree),
)
    requires
        names_indexed(index, log),
        log.len() <= usize::MAX,
    ensures
        names_indexed(index.insert(e.0, log.len() as usize), log.push(e)),
{
    let (now, more) = (index.insert(e.0, log.len() as usize), log.push(e));
    assert(more.drop_last() =~= log);
    assert forall|id: Seq<char>|
        #![trigger now.contains_key(id)]
        #![trigger latest(more, id)]
        (now.contains_key(id) <==> latest(more, id) is Some) && (now.contains_key(id) ==> now[id]
            < more.len() && latest(more, id) == Some(more[now[id] as int].1)) by {
        assert(index.contains_key(id) <==> latest(log, id) is Some);
    }
}

proof fn lemma_published(features: Seq<Tree>, k: int)
    requires
        0 <= k < features.len(),
    ensures
        id_of(features[k]) matches Some(id) ==> {
            &&& names_of(published(features)).contains(id)
            &&& (forall|j: int| k < j < features.len() ==> id_of(#[trigger] features[j]) != Some(id))
                ==> latest(published(features), id) == Some(features[k])
        },
    decreases features.len(),
{
    let front = features.drop_last();
    let (was, now) = (published(front), published(features));
    if id_of(features.last()) is Some {
        assert(names_of(now) =~= names_of(was).push(id_of(features.last())->0));
        assert(now.drop_last() =~= was);
    }
    if id_of(features[k]) is Some {
        let id = id_of(features[k])->0;
        if k < front.len() {
            lemma_published(front, k);
            if id_of(features.last()) is Some {
                lemma_seq_contains_after_push(names_of(was), id_of(features.last())->0, id);
            }
            if forall|j: int| k < j < features.len() ==> id_of(#[trigger] features[j]) != Some(id) {
                assert(id_of(features[features.len() - 1]) != Some(id));
                assert forall|j: int| k < j < front.len() implies id_of(#[trigger] front[j]) != Some(
                    id,
                ) by {
                    assert(front[j] == features[j]);
                }
            }
        } else {
            assert(features[k] == features.last());
            lemma_seq_contains_after_push(names_of(was), id, id);
        }
    }
}

proof fn lemma_named_standing(old: Seq<Tree>, new: Seq<(Seq<char>, Tree)>, k: int)
    requires
        0 <= k < old.len(),
    ensures
        id_of(old[k]) matches Some(id) ==> latest(published(old) + new, id) is Some,
{
    if id_of(old[k]) is Some {
        let id = id_of(old[k])->0;
        lemma_published(old, k);
        lemma_latest(published(old), id);
        lemma_latest_concat(published(old), new, id);
    }
}

fn standing_entries(
    overlay_now: &Json,
    index: &StringHashMap<usize>,
    log: &Vec<(String, Json)>,
    Ghost(new_log): Ghost<Seq<(Seq<char>, Tree)>>,
) -> (r: Vec<Json>)
    requires
        members_of(log@) == published(overlay_now@.field("features"@).elements()) + new_log,
        names_indexed(index@, members_of(log@)),
    ensures
        ({
            let old = overlay_now@.field("features"@).elements();
            trees(r@) == old.map_values(|f: Tree| standing(f, old, new_log))
        }),
{
    let mut out: Vec<Json> = Vec::new();
    let ghost old = overlay_now@.field("features"@).elements();
    let ghost put = |f: Tree| standing(f, old, new_log);
    match overlay_now.field("features") {
        Some(Json::Array(v)) => {
            proof {
                assert(old =~= trees(v@));
            }
            for i in 0..v.len()
                invariant
                    old == trees(v@),
                    put == (|f: Tree| standing(f, old, new_log)),
                    members_of(log@) == published(old) + new_log,
                    names_indexed(index@, members_of(log@)),
                    trees(out@) =~= old.take(i as int).map_values(put),
            {
                let ghost before = trees(out@);
                let ghost f = old[i as int];
                proof {
                    assert(f == v@[i as int]@);
                    lemma_named_standing(old, new_log, i as int);
                }
                let mut entry = v[i].copy();
                match v[i].field("properties") {
                    Some(p) => match p.text_field("id") {
                        Some(id) => match index.get(id.as_str()) {
                            Some(k) => {
                                entry = log[*k].1.copy();
                            },
                            None => {},
                        },
                        None => {},
                    },
                    None => {},
                }
                out.push(entry);
                proof {
                    assert(entry@ == put(f));
                    assert(trees(out@) =~= before.push(put(f)));
                }
            }
            proof {
                assert(old.take(v@.len() as int) =~= old);
            }
        },
        _ => {
            proof {
                assert(old =~= Seq::empty());
                assert(trees(out@) =~= old.map_values(put));
            }
        },
    }
    out
}

/// What a scan of some areas makes of an overlay. It is keyed by name, so a scan of an area that is
/// on it replaces its own entry, and a new area comes after all others. What goes by no name stays
/// as it is. An area without a geometry is passed over.
pub fn merge(
    overlay_now: &Json,
    features: &Vec<(String, Json)>,
    start: &str,
    end: &str,
    scanned: &str,
) -> (r: Coverage)
    ensures
        is_merge(
            r,
            overlay_now@.field("features"@).elements(),
            members_of(features@),
            Stamp { start: start@, end: end@, scanned: scanned@ },
        ),
        ({
            let old = overlay_now@.field("features"@).elements();
            let new = scans(
                members_of(features@),
                Stamp { start: start@, end: end@, scanned: scanned@ },
            );
            &&& r.merged == new.len()
            &&& r.total == overlay(old, new).len()
            &&& r.overlay is None <==> new.len() == 0
            &&& r.overlay matches Some(d) ==> d@ == collection(overlay(old, new))
        }),
{
    let mut log = published_entries(overlay_now);
    let named: usize = log.len();
    let ghost old = overlay_now@.field("features"@).elements();
    let ghost old_log = members_of(log@);
    let ghost stamp = Stamp { start: start@, end: end@, scanned: scanned@ };
    let ghost all = members_of(features@);
    let mut order: Vec<String> = Vec::new();
    let mut index: StringHashMap<usize> = StringHashMap::new();
    for i in 0..log.len()
        invariant
            old_log == members_of(log@),
            views(order@) =~= names_of(old_log).take(i as int),
            names_indexed(index@, old_log.take(i as int)),
    {
        let ghost before = views(order@);
        proof {
            assert(old_log[i as int].0 == log@[i as int].0@);
            lemma_index_push(index@, old_log.take(i as int), old_log[i as int]);
            assert(old_log.take(i + 1) =~= old_log.take(i as int).push(old_log[i as int]));
        }
        order.push(log[i].0.clone());
        index.insert(log[i].0.clone(), i);
        proof {
            assert(views(order@) =~= before.push(log@[i as int].0@));
        }
    }
    proof {
        assert(old_log.take(old_log.len() as int) =~= old_log);
        assert(names_of(old_log).take(old_log.len() as int) =~= names_of(old_log));
        assert(all.take(0) =~= Seq::empty());
        assert(old_log + Seq::<(Seq<char>, Tree)>::empty() =~= old_log);
    }
    let mut merged: usize = 0;
    for i in 0..features.len()
        invariant
            all == members_of(features@),
            stamp == (Stamp { start: start@, end: end@, scanned: scanned@ }),
            merged == scans(all.take(i as int), stamp).len(),
            merged <= i,
            members_of(log@) == old_log + scans(all.take(i as int), stamp),
            names_indexed(index@, members_of(log@)),
            views(order@) == order_of(old_log, scans(all.take(i as int), stamp)),
    {
        let ghost log_before = members_of(log@);
        let ghost order_before = views(order@);
        let ghost new_before = scans(all.take(i as int), stamp);
        proof {
            assert(all.take(i + 1).drop_last() =~= all.take(i as int));
            assert(all.take(i + 1).last() == (features@[i as int].0@, features@[i as int].1@));
        }
        let id = features[i].0.as_str();
        match stamp_feature(id, &features[i].1, start, end, scanned) {
            Some(e) => {
                let ghost new_after = new_before.push((id@, e@));
                proof {
                    assert(scans(all.take(i + 1), stamp) == new_after);
                    assert(new_after.drop_last() =~= new_before);
                }
                let at: usize = log.len();
                proof {
                    lemma_order_names(old_log, new_before, id@);
                    lemma_latest(log_before, id@);
                    lemma_index_push(index@, log_before, (id@, e@));
                }
                if !index.contains_key(id) {
                    order.push(id.to_owned());
                    proof {
                        assert(views(order@) =~= order_before.push(id@));
                    }
                }
                index.insert(id.to_owned(), at);
                log.push((id.to_owned(), e));
                merged += 1;
                proof {
                    assert(members_of(log@) =~= log_before.push((id@, e@)));
                    assert(members_of(log@) =~= old_log + new_after);
                }
            },
            None => {},
        }
    }
    let ghost new_log = scans(all, stamp);
    proof {
        assert(all.take(features@.len() as int) =~= all);
    }
    let mut entries = standing_entries(overlay_now, &index, &log, Ghost(new_log));
    let ghost ids = order_of(old_log, new_log);
    let ghost news = added(old, new_log).map_values(|id: Seq<char>| entry_of(old, new_log, id));
    let ghost held = trees(entries@);
    proof {
        lemma_order_prefix(old_log, new_log);
        assert(held + news.take(0) =~= held);
        if merged == 0 {
            assert(ids.skip(old_log.len() as int) =~= Seq::empty());
        }
    }
    if merged == 0 {
        return Coverage { merged, total: entries.len(), overlay: None };
    }
    for i in named..order.len()
        invariant
            named == old_log.len(),
            named <= i <= order@.len(),
            old_log == published(old),
            ids == order_of(old_log, new_log),
            views(order@) == ids,
            members_of(log@) == old_log + new_log,
            names_indexed(index@, members_of(log@)),
            news == added(old, new_log).map_values(|id: Seq<char>| entry_of(old, new_log, id)),
            trees(entries@) =~= held + news.take(i - named),
    {
        proof {
            assert(ids[i as int] == order@[i as int]@);
            assert(ids.contains(ids[i as int]));
            lemma_order_names(old_log, new_log, ids[i as int]);
            lemma_latest(old_log + new_log, ids[i as int]);
            assert(added(old, new_log)[i - named] == ids[i as int]);
        }
        match index.get(order[i].as_str()) {
            Some(k) => {
                let ghost before = trees(entries@);
                let e = log[*k].1.copy();
                entries.push(e);
                proof {
                    assert(news[i - named] == e@);
                    assert(trees(entries@) =~= before.push(e@));
                }
            },
            None => {},
        }
    }
    let total = entries.len();
    proof {
        assert(news.take(order@.len() - named) =~= news);
    }
    let ghost all_entries = trees(entries@);
    let mut members: Vec<(String, Json)> = Vec::new();
    members.push(("features".to_owned(), array_value(entries)));
    members.push(("type".to_owned(), text_value("FeatureCollection")));
    proof {
        assert(members_of(members@) =~= seq![
            ("features"@, Tree::Array(all_entries)),
            ("type"@, Tree::Text("FeatureCollection"@)),
        ]);
    }
    Coverage { merged, total, overlay: Some(object_value(members)) }
}

fn empty_overlay() -> (r: Json)
    ensures
        r@ == collection(Seq::empty()),
{
    let none: Vec<Json> = Vec::new();
    proof {
        assert(trees(none@) =~= Seq::empty());
    }
    let mut members: Vec<(String, Json)> = Vec::new();
    members.push(("features".to_owned(), array_value(none)));
    members.push(("type".to_owned(), text_value("FeatureCollection")));
    proof {
        assert(members_of(members@) =~= seq![
            ("features"@, Tree::Array(Seq::empty())),
            ("type"@, Tree::Text("FeatureCollection"@)),
        ]);
    }
    object_value(members)
}

/// Merges the areas of a scan into the overlay that is published under [`overlay_path`], which is
/// created by the first run that has something to put on it.
pub fn coverage(
    body: &Option<String>,
    features: &Vec<(String, Json)>,
    start: &str,
    end: &str,
    scanned: &str,
) -> (r: Coverage)
    ensures
        is_merge(
            r,
            overlay_read(opt(*body)).field("features"@).elements(),
            members_of(features@),
            Stamp { start: start@, end: end@, scanned: scanned@ },
        ),
        ({
            let old = overlay_read(opt(*body)).field("features"@).elements();
            let new = scans(
                members_of(features@),
                Stamp { start: start@, end: end@, scanned: scanned@ },
            );
            &&& r.merged == new.len()
            &&& r.total == overlay(old, new).len()
            &&& r.overlay is None <==> new.len() == 0
            &&& r.overlay matches Some(d) ==> d@ == collection(overlay(old, new))
        }),
{
    let now = match body {
        Some(text) => match parse(text.as_str()) {
            Ok(j) => j,
            Err(_) => empty_overlay(),
        },
        None => empty_overlay(),
    };
    merge(&now, features, start, end, scanned)
}

/// Where the overlay is published.
pub fn overlay_path(root: &str) -> (r: String)
    ensures
        r@ == under(root@, "web/coverage.geojson"@),
{
    join(root, "web/coverage.geojson")
}

proof fn lemma_latest_concat(old: Seq<(Seq<char>, Tree)>, new: Seq<(Seq<char>, Tree)>, id: Seq<char>)
    ensures
        latest(old + new, id) == match latest(new, id) {
            Some(e) => Some(e),
            None => latest(old, id),
        },
    decreases new.len(),
{
    if new.len() == 0 {
        assert(old + new =~= old);
    } else {
        assert((old + new).drop_last() =~= old + new.drop_last());
        lemma_latest_concat(old, new.drop_last(), id);
    }
}

proof fn lemma_order_prefix(old: Seq<(Seq<char>, Tree)>, new: Seq<(Seq<char>, Tree)>)
    ensures
        names_of(old).is_prefix_of(order_of(old, new)),
        names_of(old).no_duplicates() ==> order_of(old, new).no_duplicates(),
    decreases new.len(),
{
    if new.len() > 0 {
        let front = new.drop_last();
        lemma_order_prefix(old, front);
        let before = order_of(old, front);
        if !before.contains(new.last().0) {
            let after = before.push(new.last().0);
            assert(names_of(old) =~= after.subrange(0, names_of(old).len() as int)) by {
                assert(names_of(old) =~= before.subrange(0, names_of(old).len() as int));
            }
        }
    } else {
        assert(names_of(old) =~= names_of(old).subrange(0, names_of(old).len() as int));
    }
}

/// Coverage only grows: everything that was on the overlay keeps its place on it. What goes by no
/// name stays as it was; an area goes on by its name, and stays as it was where it was not scanned
/// again and nothing after it goes by the same name.
pub proof fn coverage_only_grows(old: Seq<Tree>, new: Seq<(Seq<char>, Tree)>)
    requires
        own_names(new),
    ensures
        overlay(old, new).len() >= old.len(),
        forall|k: int|
            0 <= k < old.len() ==> id_of(#[trigger] overlay(old, new)[k]) == id_of(old[k]),
        forall|k: int|
            0 <= k < old.len() && id_of(old[k]) is None ==> #[trigger] overlay(old, new)[k]
                == old[k],
        forall|k: int|
            0 <= k < old.len() && is_untouched(old, new, k) ==> #[trigger] overlay(old, new)[k]
                == old[k],
{
    lemma_published_names(old);
    let log = published(old) + new;
    assert(own_names(log));
    assert forall|k: int| 0 <= k < old.len() implies id_of(#[trigger] overlay(old, new)[k]) == id_of(
        old[k],
    ) && (is_untouched(old, new, k) ==> overlay(old, new)[k] == old[k]) by {
        assert(overlay(old, new)[k] == standing(old[k], old, new));
        if id_of(old[k]) is Some {
            let id = id_of(old[k])->0;
            lemma_named_standing(old, new, k);
            lemma_latest_name(log, id);
            if is_untouched(old, new, k) {
                lemma_published(old, k);
                lemma_latest_concat(published(old), new, id);
                lemma_latest(new, id);
            }
        }
    }
}

/// Whether a feature of an overlay goes by a name that was not scanned and that nothing after it
/// goes by.
pub open spec fn is_untouched(old: Seq<Tree>, new: Seq<(Seq<char>, Tree)>, k: int) -> bool {
    &&& id_of(old[k]) is Some
    &&& !names_of(new).contains(id_of(old[k])->0)
    &&& forall|j: int| k < j < old.len() ==> id_of(#[trigger] old[j]) != id_of(old[k])
}

/// A scan puts every area that it was given on the overlay, and each entry there that goes by its
/// name is the one that the scan made last, whatever stood there.
pub proof fn a_scan_replaces_its_own_entries(
    old: Seq<Tree>,
    new: Seq<(Seq<char>, Tree)>,
    id: Seq<char>,
)
    requires
        names_of(new).contains(id),
        own_names(new),
    ensures
        latest(new, id) is Some,
        overlay(old, new).contains(latest(new, id)->0),
        forall|k: int|
            0 <= k < overlay(old, new).len() && id_of(#[trigger] overlay(old, new)[k]) == Some(id)
                ==> Some(overlay(old, new)[k]) == latest(new, id),
{
    let log = published(old) + new;
    let order = order_of(published(old), new);
    let all = overlay(old, new);
    lemma_published_names(old);
    lemma_latest(new, id);
    lemma_latest_concat(published(old), new, id);
    lemma_order_prefix(published(old), new);
    assert(entry_of(old, new, id) == latest(new, id)->0);
    assert forall|k: int| 0 <= k < all.len() implies Some(#[trigger] all[k]) == match id_of(
        all[k],
    ) {
        Some(n) => latest(log, n),
        None => Some(all[k]),
    } by {
        lemma_entry_goes_by_its_name(old, new, k);
    }
    // the area has a place: among those that were there, or among the new ones
    lemma_order_names(published(old), new, id);
    let m = choose|m: int| 0 <= m < names_of(new).len() && names_of(new)[m] == id;
    assert(names_of(log)[published(old).len() + m] == id);
    let at = choose|at: int| 0 <= at < order.len() && order[at] == id;
    if at < published(old).len() {
        assert(order.subrange(0, published(old).len() as int)[at] == names_of(published(old))[at]);
        lemma_published_place(old, id);
        let k = choose|k: int| 0 <= k < old.len() && id_of(#[trigger] old[k]) == Some(id);
        assert(all[k] == entry_of(old, new, id));
    } else {
        let j = at - published(old).len();
        assert(added(old, new)[j] == id);
        assert(all[old.len() + j] == entry_of(old, new, id));
    }
}

proof fn lemma_published_place(features: Seq<Tree>, id: Seq<char>)
    requires
        names_of(published(features)).contains(id),
    ensures
        exists|k: int| 0 <= k < features.len() && id_of(#[trigger] features[k]) == Some(id),
    decreases features.len(),
{
    let front = features.drop_last();
    let was = published(front);
    if id_of(features.last()) is Some {
        let n = id_of(features.last())->0;
        assert(names_of(published(features)) =~= names_of(was).push(n));
        lemma_seq_contains_after_push(names_of(was), n, id);
        if n == id {
            assert(id_of(features[features.len() - 1]) == Some(id));
        } else {
            lemma_published_place(front, id);
            let k = choose|k: int| 0 <= k < front.len() && id_of(#[trigger] front[k]) == Some(id);
            assert(id_of(features[k]) == Some(id));
        }
    } else {
        lemma_published_place(front, id);
        let k = choose|k: int| 0 <= k < front.len() && id_of(#[trigger] front[k]) == Some(id);
        assert(id_of(features[k]) == Some(id));
    }
}

/// Each entry of an overlay is the last one that goes by its name.
proof fn lemma_entry_goes_by_its_name(old: Seq<Tree>, new: Seq<(Seq<char>, Tree)>, k: int)
    requires
        own_names(new),
        0 <= k < overlay(old, new).len(),
    ensures
        id_of(overlay(old, new)[k]) matches Some(n) ==> Some(overlay(old, new)[k]) == latest(
            published(old) + new,
            n,
        ),
        k >= old.len() ==> id_of(overlay(old, new)[k]) == Some(added(old, new)[k - old.len()]),
{
    let log = published(old) + new;
    let order = order_of(published(old), new);
    lemma_published_names(old);
    assert(own_names(log));
    if k < old.len() {
        assert(overlay(old, new)[k] == standing(old[k], old, new));
        if id_of(old[k]) is Some {
            lemma_named_standing(old, new, k);
            lemma_latest_name(log, id_of(old[k])->0);
        }
    } else {
        lemma_order_prefix(published(old), new);
        let j = k - old.len();
        let id = added(old, new)[j];
        assert(order[published(old).len() + j] == id);
        assert(order.contains(id));
        lemma_order_names(published(old), new, id);
        lemma_latest(log, id);
        lemma_latest_name(log, id);
    }
}

proof fn lemma_stamped_id(id: Seq<char>, feature: Tree, stamp: Stamp)
    ensures
        id_of(stamped(id, feature, stamp)) == Some(id),
{
    reveal_strlit("geometry");
    reveal_strlit("properties");
    reveal_strlit("end");
    reveal_strlit("id");
    reveal_with_fuel(member, 3);
    let entry = stamped(id, feature, stamp)->Object_0;
    assert("geometry"@.len() != "properties"@.len());
    assert(entry.drop_first()[0] == entry[1]);
    assert(stamped(id, feature, stamp).field("properties"@) == entry[1].1);
    let inner = entry[1].1->Object_0;
    assert("end"@.len() != "id"@.len());
    assert(inner.drop_first()[0] == inner[1]);
}

/// Whether each entry goes by the name that it is listed under.
pub open spec fn own_names(log: Seq<(Seq<char>, Tree)>) -> bool {
    forall|k: int| 0 <= k < log.len() ==> id_of((#[trigger] log[k]).1) == Some(log[k].0)
}

proof fn lemma_published_names(features: Seq<Tree>)
    ensures
        own_names(published(features)),
    decreases features.len(),
{
    if features.len() > 0 {
        lemma_published_names(features.drop_last());
    }
}

/// Each entry that a scan makes goes by the name of its area.
pub proof fn a_scan_names_its_entries(features: Seq<(Seq<char>, Tree)>, stamp: Stamp)
    ensures
        own_names(scans(features, stamp)),
    decreases features.len(),
{
    if features.len() > 0 {
        a_scan_names_its_entries(features.drop_last(), stamp);
        lemma_stamped_id(features.last().0, features.last().1, stamp);
    }
}

proof fn lemma_latest_name(log: Seq<(Seq<char>, Tree)>, id: Seq<char>)
    requires
        own_names(log),
    ensures
        latest(log, id) matches Some(e) ==> id_of(e) == Some(id),
    decreases log.len(),
{
    if log.len() > 0 {
        assert(own_names(log.drop_last())) by {
            assert forall|k: int| 0 <= k < log.len() - 1 implies id_of(
                (#[trigger] log.drop_last()[k]).1,
            ) == Some(log.drop_last()[k].0) by {
                assert(log.drop_last()[k] == log[k]);
            }
        }
        assert(id_of(log[log.len() - 1].1) == Some(log[log.len() - 1].0));
        lemma_latest_name(log.drop_last(), id);
    }
}

proof fn lemma_latest_published(features: Seq<Tree>, id: Seq<char>)
    ensures
        latest(published(features), id) matches Some(e) ==> exists|k: int|
            0 <= k < features.len() && #[trigger] features[k] == e && id_of(e) == Some(id),
    decreases features.len(),
{
    if features.len() > 0 {
        let front = features.drop_last();
        lemma_latest_published(front, id);
        if id_of(features.last()) is Some {
            assert(published(features).drop_last() =~= published(front));
        }
        if id_of(features.last()) == Some(id) {
            assert(features[features.len() - 1] == features.last());
        } else if latest(published(front), id) is Some {
            let e = latest(published(front), id)->0;
            let k = choose|k: int|
                0 <= k < front.len() && #[trigger] front[k] == e && id_of(e) == Some(id);
            assert(features[k] == e);
        }
    }
}

proof fn lemma_nothing_added(old: Seq<(Seq<char>, Tree)>, new: Seq<(Seq<char>, Tree)>)
    requires
        forall|k: int| 0 <= k < new.len() ==> names_of(old).contains((#[trigger] new[k]).0),
    ensures
        order_of(old, new) == names_of(old),
    decreases new.len(),
{
    if new.len() > 0 {
        let front = new.drop_last();
        assert forall|k: int| 0 <= k < front.len() implies names_of(old).contains(
            (#[trigger] front[k]).0,
        ) by {
            assert(front[k] == new[k]);
        }
        lemma_nothing_added(old, front);
        assert(names_of(old).contains(new[new.len() - 1].0));
    }
}

/// An overlay is read back as it was written, and a scan that is merged into it again changes
/// nothing.
pub proof fn a_repeated_scan_changes_nothing(old: Seq<Tree>, new: Seq<(Seq<char>, Tree)>)
    requires
        own_names(new),
    ensures
        collection(overlay(old, new)).field("features"@).elements() == overlay(old, new),
        overlay(overlay(old, new), new) == overlay(old, new),
{
    let all = overlay(old, new);
    let again = overlay(all, new);
    assert forall|k: int| 0 <= k < all.len() implies #[trigger] again[k] == all[k] by {
        lemma_entry_goes_by_its_name(old, new, k);
        assert(again[k] == standing(all[k], all, new));
        if id_of(all[k]) is Some {
            let id = id_of(all[k])->0;
            lemma_latest_concat(published(all), new, id);
            lemma_latest_concat(published(old), new, id);
            lemma_named_standing(all, new, k);
            lemma_latest_published(all, id);
            if latest(new, id) is None {
                let m = choose|m: int|
                    0 <= m < all.len() && #[trigger] all[m] == latest(published(all), id)->0
                        && id_of(all[m]) == Some(id);
                lemma_entry_goes_by_its_name(old, new, m);
            }
        }
    }
    assert forall|k: int| 0 <= k < new.len() implies names_of(published(all)).contains(
        (#[trigger] new[k]).0,
    ) by {
        let id = new[k].0;
        assert(names_of(new)[k] == id);
        a_scan_replaces_its_own_entries(old, new, id);
        lemma_latest_name(new, id);
        let m = choose|m: int| 0 <= m < all.len() && all[m] == latest(new, id)->0;
        lemma_published(all, m);
    }
    lemma_nothing_added(published(all), new);
    assert(names_of(published(all)).len() == published(all).len());
    assert(added(all, new) =~= Seq::empty());
    assert(again =~= all);
}

/// The entry of a scanned area reads back the window that it was scanned over, the day on which it
/// was, and the area itself: its name, its title and its geometry.
pub proof fn an_entry_reads_back_its_scan(id: Seq<char>, feature: Tree, stamp: Stamp)
    ensures
        ({
            let e = stamped(id, feature, stamp);
            let p = e.field("properties"@);
            let title = feature.field("properties"@).field("name"@).as_text();
            &&& p.field("start"@).as_text() == Some(stamp.start)
            &&& p.field("end"@).as_text() == Some(stamp.end)
            &&& p.field("scanned"@).as_text() == Some(stamp.scanned)
            &&& p.field("id"@).as_text() == Some(id)
            &&& title is Some ==> p.field("name"@).as_text() == title
            &&& title is None ==> p.field("name"@).as_text() == Some(Seq::<char>::empty())
            &&& e.field("geometry"@) == feature.field("geometry"@)
            &&& e.field("type"@).as_text() == Some("Feature"@)
        }),
{
    reveal_strlit("geometry");
    reveal_strlit("properties");
    reveal_strlit("type");
    reveal_strlit("end");
    reveal_strlit("id");
    reveal_strlit("name");
    reveal_strlit("scanned");
    reveal_strlit("start");
    let e = stamped(id, feature, stamp)->Object_0;
    assert("geometry"@.len() == 8 && "properties"@.len() == 10 && "type"@.len() == 4);
    a_member_is_found_by_its_name(e, 0);
    a_member_is_found_by_its_name(e, 1);
    a_member_is_found_by_its_name(e, 2);
    let p = e[1].1->Object_0;
    assert("end"@.len() == 3 && "id"@.len() == 2 && "name"@.len() == 4);
    assert("scanned"@.len() == 7 && "start"@.len() == 5);
    a_member_is_found_by_its_name(p, 0);
    a_member_is_found_by_its_name(p, 1);
    a_member_is_found_by_its_name(p, 2);
    a_member_is_found_by_its_name(p, 3);
    a_member_is_found_by_its_name(p, 4);
}

/// Whether an entry under its name is that of a scanned area: it goes by the name of the area and
/// has its geometry, and it is stamped with the window.
pub open spec fn is_scan_of(e: (Seq<char>, Tree), area: (Seq<char>, Tree), stamp: Stamp) -> bool {
    let p = e.1.field("properties"@);
    &&& e.0 == area.0
    &&& p.field("id"@).as_text() == Some(area.0)
    &&& p.field("start"@).as_text() == Some(stamp.start)
    &&& p.field("end"@).as_text() == Some(stamp.end)
    &&& p.field("scanned"@).as_text() == Some(stamp.scanned)
    &&& e.1.field("geometry"@) == area.1.field("geometry"@)
    &&& !(area.1.field("geometry"@) is Null)
}

/// A scan makes an entry of every area that has a geometry, and none of any other.
#[verifier::spinoff_prover]
#[verifier::rlimit(60)]
pub proof fn a_scan_makes_an_entry_of_each_area(features: Seq<(Seq<char>, Tree)>, stamp: Stamp)
    ensures
        forall|i: int|
            0 <= i < features.len() && !((#[trigger] features[i]).1.field("geometry"@) is Null)
                ==> exists|k: int|
                0 <= k < scans(features, stamp).len() && is_scan_of(
                    #[trigger] scans(features, stamp)[k],
                    features[i],
                    stamp,
                ),
        forall|k: int|
            0 <= k < scans(features, stamp).len() ==> exists|i: int|
                0 <= i < features.len() && is_scan_of(
                    #[trigger] scans(features, stamp)[k],
                    #[trigger] features[i],
                    stamp,
                ),
    decreases features.len(),
{
    if features.len() > 0 {
        let was = features.drop_last();
        let (before, now) = (scans(was, stamp), scans(features, stamp));
        let last = features.last();
        a_scan_makes_an_entry_of_each_area(was, stamp);
        an_entry_reads_back_its_scan(last.0, last.1, stamp);
        assert forall|i: int|
            0 <= i < features.len() && !((#[trigger] features[i]).1.field(
                "geometry"@,
            ) is Null) implies exists|k: int|
            0 <= k < now.len() && is_scan_of(#[trigger] now[k], features[i], stamp) by {
            if i < was.len() {
                assert(was[i] == features[i]);
                let k = choose|k: int|
                    0 <= k < before.len() && is_scan_of(#[trigger] before[k], was[i], stamp);
                assert(now[k] == before[k]);
            } else {
                assert(is_scan_of(now[now.len() - 1], features[i], stamp));
            }
        }
        assert forall|k: int| 0 <= k < now.len() implies exists|i: int|
            0 <= i < features.len() && is_scan_of(
                #[trigger] now[k],
                #[trigger] features[i],
                stamp,
            ) by {
            if k < before.len() {
                assert(now[k] == before[k]);
                let i = choose|i: int|
                    0 <= i < was.len() && is_scan_of(before[k], #[trigger] was[i], stamp);
                assert(was[i] == features[i]);
            } else {
                assert(is_scan_of(now[k], features[features.len() - 1], stamp));
            }
        }
    }
}

/// The credentials of the store go under their own names, each of them just where it is given, and
/// the endpoint is asked for as it is written, over HTTPS where it names no scheme.
pub proof fn credentials_go_under_their_names(
    r: Access,
    endpoint: Option<Seq<char>>,
    access_key: Option<Seq<char>>,
    secret_key: Option<Seq<char>>,
    region: Option<Seq<char>>,
    value: Seq<char>,
)
    requires
        is_access(r, endpoint, access_key, secret_key, region),
    ensures
        ({
            let env = setting_views(r.env@);
            let args = views(r.args@);
            &&& env.contains(("AWS_ACCESS_KEY_ID"@, value)) <==> access_key == Some(value)
            &&& env.contains(("AWS_SECRET_ACCESS_KEY"@, value)) <==> secret_key == Some(value)
            &&& env.contains(("AWS_DEFAULT_REGION"@, value)) <==> region == Some(value)
            &&& endpoint is None <==> args.len() == 0
            &&& endpoint matches Some(e) ==> {
                &&& args.len() == 2 && args[0] == "--endpoint-url"@
                &&& "http"@.is_prefix_of(args[1])
                &&& "http"@.is_prefix_of(e) ==> args[1] == e
                &&& !"http"@.is_prefix_of(e) ==> args[1] == "https://"@ + e
            }
        }),
{
    reveal_strlit("AWS_ACCESS_KEY_ID");
    reveal_strlit("AWS_SECRET_ACCESS_KEY");
    reveal_strlit("AWS_DEFAULT_REGION");
    reveal_strlit("http");
    reveal_strlit("https://");
    assert("AWS_ACCESS_KEY_ID"@.len() == 17 && "AWS_SECRET_ACCESS_KEY"@.len() == 21);
    assert("AWS_DEFAULT_REGION"@.len() == 18);
    let env = setting_views(r.env@);
    let a: int = if access_key is Some {
        1
    } else {
        0
    };
    let b: int = a + if secret_key is Some {
        1int
    } else {
        0
    };
    if access_key == Some(value) {
        assert(env[0] == ("AWS_ACCESS_KEY_ID"@, value));
    }
    if secret_key == Some(value) {
        assert(env[a] == ("AWS_SECRET_ACCESS_KEY"@, value));
    }
    if region == Some(value) {
        assert(env[b] == ("AWS_DEFAULT_REGION"@, value));
    }
}

/// What a transfer moves, and where to.
pub open spec fn ends_of(t: TransferView) -> (Seq<char>, Seq<char>) {
    match t {
        TransferView::Sync { from, to } => (from, to),
        TransferView::Copy { from, to } => (from, to),
    }
}

/// What is published keeps its name: a directory of the output goes to the directory of the same
/// name at the destination, the records before the assets. It goes into the store just where the
/// destination is in one, and nothing is to be done just where a local destination is the output
/// itself.
pub proof fn what_is_published_keeps_its_name(input: Seq<char>, destination: Seq<char>)
    ensures
        ({
            let t = transfers(input, destination);
            let remote = "s3://"@.is_prefix_of(destination);
            &&& t.len() == if !remote && same_place(input, destination) {
                0int
            } else {
                2
            }
            &&& t.len() == 2 ==> {
                let (a, b) = (ends_of(t[0]), ends_of(t[1]));
                &&& t[0] is Sync <==> remote
                &&& t[1] is Sync <==> remote
                &&& "observations"@.is_suffix_of(a.0) && "observations"@.is_suffix_of(a.1)
                &&& "assets"@.is_suffix_of(b.0) && "assets"@.is_suffix_of(b.1)
                &&& input.is_prefix_of(a.0) && input.is_prefix_of(b.0)
                &&& !remote ==> destination.is_prefix_of(a.1) && destination.is_prefix_of(b.1)
                &&& remote ==> before_trailing(destination, |c: char| c == '/').is_prefix_of(a.1)
                &&& remote ==> before_trailing(destination, |c: char| c == '/').is_prefix_of(b.1)
            }
        }),
{
    reveal_strlit("observations");
    reveal_strlit("assets");
    assert(after_leading("observations"@, |c: char| c == '/') == "observations"@);
    assert(after_leading("assets"@, |c: char| c == '/') == "assets"@);
}

/// What a run leaves behind is skipped, by the ending of its name, and any other file is copied;
/// directories are entered whatever they are called.
pub proof fn leavings_are_told_by_their_endings(stem: Seq<char>, ext: Seq<char>, name: Seq<char>)
    requires
        stem.len() > 0,
        !ext.contains('.'),
        ext.len() > 0,
        !name.contains('.'),
    ensures
        treatment(stem + seq!['.'] + ext, false) == if ext == "err"@ || ext == "part"@ {
            Entry::Skip
        } else {
            Entry::Copy
        },
        treatment(name, false) == Entry::Copy,
        treatment(seq!['.'] + name, false) == Entry::Copy,
        treatment(stem, true) == Entry::Enter,
{
    reveal_strlit("..");
    assert((stem + seq!['.'] + ext).len() > ".."@.len());
    an_extension_stands_behind_the_last_dot(stem, ext);
    a_name_without_a_dot_has_no_extension(name);
}

/// Whether what a scan made of an overlay is the merge of its areas into the features there.
pub open spec fn is_merge(
    r: Coverage,
    old: Seq<Tree>,
    features: Seq<(Seq<char>, Tree)>,
    stamp: Stamp,
) -> bool {
    let new = scans(features, stamp);
    &&& r.merged == new.len()
    &&& r.total == overlay(old, new).len()
    &&& r.overlay is None <==> new.len() == 0
    &&& r.overlay matches Some(d) ==> d@ == collection(overlay(old, new))
}

/// A scan publishes just where one of its areas has a geometry. What it publishes holds as many
/// features as it says, everything that was there before in its place, and an entry of every area
/// that has a geometry.
pub proof fn a_scan_publishes_its_areas(
    r: Coverage,
    old: Seq<Tree>,
    features: Seq<(Seq<char>, Tree)>,
    stamp: Stamp,
    i: int,
)
    requires
        is_merge(r, old, features, stamp),
        0 <= i < features.len(),
        !(features[i].1.field("geometry"@) is Null),
    ensures
        r.overlay is Some,
        r.merged > 0,
        r.total >= old.len(),
        r.overlay matches Some(d) ==> {
            let all = d@.field("features"@).elements();
            &&& all.len() == r.total
            &&& forall|k: int| 0 <= k < old.len() ==> id_of(#[trigger] all[k]) == id_of(old[k])
            &&& exists|k: int| 0 <= k < all.len() && is_entry_of(#[trigger] all[k], features[i].0, stamp)
        },
{
    let new = scans(features, stamp);
    let id = features[i].0;
    a_scan_makes_an_entry_of_each_area(features, stamp);
    a_scan_names_its_entries(features, stamp);
    let n = choose|n: int| 0 <= n < new.len() && is_scan_of(#[trigger] new[n], features[i], stamp);
    assert(names_of(new)[n] == id);
    a_scan_replaces_its_own_entries(old, new, id);
    coverage_only_grows(old, new);
    a_repeated_scan_changes_nothing(old, new);
    let all = overlay(old, new);
    let entry = latest(new, id)->0;
    let k = choose|k: int| 0 <= k < all.len() && all[k] == entry;
    lemma_latest_among(new, id);
    let m = choose|m: int| 0 <= m < new.len() && new[m] == (id, entry);
    let j = choose|j: int| 0 <= j < features.len() && is_scan_of(new[m], #[trigger] features[j], stamp);
    assert(is_entry_of(all[k], id, stamp));
}

/// Whether a feature of the overlay is an entry that goes by a name and was stamped with a window.
pub open spec fn is_entry_of(e: Tree, id: Seq<char>, stamp: Stamp) -> bool {
    let p = e.field("properties"@);
    &&& p.field("id"@).as_text() == Some(id)
    &&& p.field("start"@).as_text() == Some(stamp.start)
    &&& p.field("end"@).as_text() == Some(stamp.end)
    &&& p.field("scanned"@).as_text() == Some(stamp.scanned)
    &&& !(e.field("geometry"@) is Null)
}

proof fn lemma_latest_among(log: Seq<(Seq<char>, Tree)>, id: Seq<char>)
    requires
        latest(log, id) is Some,
    ensures
        exists|m: int| 0 <= m < log.len() && log[m] == (id, latest(log, id)->0),
    decreases log.len(),
{
    if log.last().0 == id {
        assert(log[log.len() - 1] == (id, latest(log, id)->0));
    } else {
        lemma_latest_among(log.drop_last(), id);
        let m = choose|m: int|
            0 <= m < log.len() - 1 && log.drop_last()[m] == (id, latest(log, id)->0);
        assert(log[m] == log.drop_last()[m]);
    }
}

/// Of several entries that go by a name the last one stands, and an entry that goes by another name
/// changes nothing.
pub proof fn the_last_entry_of_a_name_stands(
    log: Seq<(Seq<char>, Tree)>,
    id: Seq<char>,
    other: Seq<char>,
    e: Tree,
)
    requires
        other != id,
    ensures
        latest(Seq::empty(), id) is None,
        latest(log.push((id, e)), id) == Some(e),
        latest(log.push((other, e)), id) == latest(log, id),
{
    assert(log.push((id, e)).drop_last() =~= log);
    assert(log.push((other, e)).drop_last() =~= log);
}

/// Areas that are new to an overlay come behind all that was on it, in the order in which they were
/// scanned.
pub proof fn new_areas_come_in_the_order_of_the_scan(
    old: Seq<Tree>,
    new: Seq<(Seq<char>, Tree)>,
    k: int,
)
    requires
        names_of(new).no_duplicates(),
        forall|i: int|
            0 <= i < new.len() ==> !names_of(published(old)).contains((#[trigger] new[i]).0),
        0 <= k < new.len(),
    ensures
        overlay(old, new).len() == old.len() + new.len(),
        overlay(old, new)[old.len() + k] == new[k].1,
{
    let log = published(old);
    lemma_order_of_new(log, new);
    assert(added(old, new) =~= names_of(new));
    let id = new[k].0;
    lemma_latest_concat(log, new, id);
    lemma_latest_of_one(new, k);
    assert(overlay(old, new)[old.len() + k] == entry_of(old, new, id));
}

proof fn lemma_order_of_new(old: Seq<(Seq<char>, Tree)>, new: Seq<(Seq<char>, Tree)>)
    requires
        names_of(new).no_duplicates(),
        forall|i: int| 0 <= i < new.len() ==> !names_of(old).contains((#[trigger] new[i]).0),
    ensures
        order_of(old, new) == names_of(old) + names_of(new),
    decreases new.len(),
{
    if new.len() > 0 {
        let front = new.drop_last();
        assert forall|i: int, j: int|
            0 <= i < front.len() && 0 <= j < front.len() && i != j implies names_of(front)[i]
            != names_of(front)[j] by {
            assert(names_of(new)[i] != names_of(new)[j]);
        }
        assert forall|i: int| 0 <= i < front.len() implies !names_of(old).contains(
            (#[trigger] front[i]).0,
        ) by {
            assert(front[i] == new[i]);
        }
        lemma_order_of_new(old, front);
        let before = names_of(old) + names_of(front);
        let last = new[new.len() - 1].0;
        if before.contains(last) {
            let i = choose|i: int| 0 <= i < before.len() && before[i] == last;
            if i < names_of(old).len() {
                assert(names_of(old)[i] == last);
            } else {
                let j = i - names_of(old).len();
                assert(names_of(new)[j] == last);
                assert(names_of(new)[new.len() - 1] == last);
            }
        }
        assert(order_of(old, new) =~= names_of(old) + names_of(new));
    } else {
        assert(names_of(old) + names_of(new) =~= names_of(old));
    }
}

proof fn lemma_latest_of_one(log: Seq<(Seq<char>, Tree)>, k: int)
    requires
        names_of(log).no_duplicates(),
        0 <= k < log.len(),
    ensures
        latest(log, log[k].0) == Some(log[k].1),
    decreases log.len(),
{
    if k < log.len() - 1 {
        let front = log.drop_last();
        assert(names_of(log)[k] != names_of(log)[log.len() - 1]);
        assert forall|i: int, j: int|
            0 <= i < front.len() && 0 <= j < front.len() && i != j implies names_of(front)[i]
            != names_of(front)[j] by {
            assert(names_of(log)[i] != names_of(log)[j]);
        }
        lemma_latest_of_one(front, k);
        assert(front[k] == log[k]);
    }
}

} // verus!
