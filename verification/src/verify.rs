//! Whether a run is complete: every requested feature has a durable record, and no error that may
//! be retried is left behind.
use crate::json::{document, parse, Json, Tree};
use crate::paths::{an_extension_stands_behind_the_last_dot, extension_of, has_extension};
use crate::text::{decimal, opt, to_decimal, views};
use vstd::hash_set::StringHashSet;
use vstd::prelude::*;

verus! {

/// A file of a run's output: its path, its name, and the feature that it names as its target, where
/// it is a record that names one.
#[derive(Debug)]
pub struct Found {
    pub path: String,
    pub name: String,
    pub target: Option<String>,
}

/// The feature that a record names as its target.
pub open spec fn target_in(record: Tree) -> Option<Seq<char>> {
    record.field("analysis"@).field("target"@).field("id"@).as_text()
}

/// The feature that the record in a text names as its target.
pub open spec fn target_of(text: Option<Seq<char>>) -> Option<Seq<char>> {
    match text {
        Some(t) => match document(t) {
            Ok(record) => target_in(record),
            Err(_) => None,
        },
        None => None,
    }
}

/// The feature that a record names as its target.
pub fn named_target(record: &Json) -> (r: Option<String>)
    ensures
        opt(r) == target_in(record@),
{
    match record.field("analysis") {
        Some(a) => match a.field("target") {
            Some(t) => match t.text_field("id") {
                Some(id) => Some(id.clone()),
                None => None,
            },
            None => None,
        },
        None => None,
    }
}

/// The feature that the record in a text names as its target; nothing of a file that could not be
/// read or holds no document.
pub fn target_id(text: &Option<String>) -> (r: Option<String>)
    ensures
        opt(r) == target_of(opt(*text)),
{
    match text {
        Some(t) => match parse(t.as_str()) {
            Ok(record) => named_target(&record),
            Err(_) => None,
        },
        None => None,
    }
}

/// Whether a file is an error that may be retried.
pub open spec fn is_error(f: Found) -> bool {
    extension_of(f.name@) == Some("err"@)
}

/// Whether a file is a record of a feature.
pub open spec fn records(f: Found, id: Seq<char>) -> bool {
    extension_of(f.name@) == Some("geojson"@) && opt(f.target) == Some(id)
}

/// Whether some file is a record of a feature.
pub open spec fn is_scanned(files: Seq<Found>, id: Seq<char>) -> bool {
    exists|k: int| 0 <= k < files.len() && #[trigger] records(files[k], id)
}

/// The features without a record, as they were asked for.
pub open spec fn gaps(files: Seq<Found>, expected: Seq<Seq<char>>) -> Seq<Seq<char>> {
    expected.filter(|id: Seq<char>| !is_scanned(files, id))
}

/// The errors among the files, as they were found.
pub open spec fn errors(files: Seq<Found>) -> Seq<Found> {
    files.filter(|f: Found| is_error(f))
}

/// The first line of the summary. A run over a box or a region has no features to account for, and
/// is judged on its errors alone.
pub open spec fn summary_of(files: Seq<Found>, expected: Option<Seq<Seq<char>>>) -> Seq<char> {
    match expected {
        Some(ids) => "  "@ + decimal((ids.len() - gaps(files, ids).len()) as nat) + "/"@ + decimal(
            ids.len(),
        ) + " features scanned, "@ + decimal(gaps(files, ids).len()) + " unscanned, "@ + decimal(
            errors(files).len(),
        ) + " errored scenes"@,
        None => "  no --aoi (bbox/region run) — "@ + decimal(errors(files).len())
            + " errored scenes"@,
    }
}

/// The features that were asked for; none where the run had no list of them.
pub open spec fn asked(expected: Option<Seq<Seq<char>>>) -> Seq<Seq<char>> {
    match expected {
        Some(ids) => ids,
        None => Seq::empty(),
    }
}

/// The whole summary: the first line, then a line for each feature without a record, then one for
/// each error.
pub open spec fn report_of(files: Seq<Found>, expected: Option<Seq<Seq<char>>>) -> Seq<Seq<char>> {
    seq![summary_of(files, expected)] + gaps(files, asked(expected)).map_values(
        |id: Seq<char>| "    unscanned: "@ + id,
    ) + errors(files).map_values(|f: Found| "    errored: "@ + f.path@)
}

/// A list of names that may be absent, as mathematics.
pub open spec fn opt_views(v: Option<Vec<String>>) -> Option<Seq<Seq<char>>> {
    match v {
        Some(ids) => Some(views(ids@)),
        None => None,
    }
}

/// Whether a run is complete, and what to say of it.
#[derive(Debug)]
pub struct Report {
    pub complete: bool,
    pub lines: Vec<String>,
}

/// Whether a set holds exactly the features that some file is a record of.
spec fn holds_recorded(set: Set<Seq<char>>, files: Seq<Found>) -> bool {
    forall|id: Seq<char>|
        #![trigger set.contains(id)]
        #![trigger is_scanned(files, id)]
        set.contains(id) <==> is_scanned(files, id)
}

proof fn lemma_scanned_push(files: Seq<Found>, f: Found, id: Seq<char>)
    ensures
        is_scanned(files.push(f), id) <==> is_scanned(files, id) || records(f, id),
{
    let more = files.push(f);
    if is_scanned(files, id) {
        let k = choose|k: int| 0 <= k < files.len() && #[trigger] records(files[k], id);
        assert(records(more[k], id));
    }
    if records(f, id) {
        assert(records(more[files.len() as int], id));
    }
    if is_scanned(more, id) && !records(f, id) {
        let k = choose|k: int| 0 <= k < more.len() && #[trigger] records(more[k], id);
        assert(records(files[k], id));
    }
}

fn recorded(files: &Vec<Found>) -> (r: StringHashSet)
    ensures
        holds_recorded(r@, files@),
{
    let mut out = StringHashSet::new();
    for i in 0..files.len()
        invariant
            holds_recorded(out@, files@.take(i as int)),
    {
        let ghost before = out@;
        let ghost f = files@[i as int];
        let ghost was = files@.take(i as int);
        if has_extension(files[i].name.as_str(), "geojson") {
            match &files[i].target {
                Some(id) => {
                    out.insert(id.clone());
                },
                None => {},
            }
        }
        proof {
            assert(files@.take(i + 1) =~= was.push(f));
            assert forall|id: Seq<char>|
                #![trigger out@.contains(id)]
                #![trigger is_scanned(was.push(f), id)]
                out@.contains(id) <==> is_scanned(was.push(f), id) by {
                lemma_scanned_push(was, f, id);
                assert(before.contains(id) <==> is_scanned(was, id));
            }
        }
    }
    proof {
        assert(files@.take(files@.len() as int) =~= files@);
    }
    out
}

/// Judges the output of a run: it is complete where every feature that was asked for has a record
/// and no error is left, and the lines say what is missing.
pub fn run(files: &Vec<Found>, expected: &Option<Vec<String>>) -> (r: Report)
    ensures
        is_report(r, files@, opt_views(*expected)),
        views(r.lines@) == report_of(files@, opt_views(*expected)),
        r.complete <==> gaps(files@, asked(opt_views(*expected))).len() == 0 && errors(
            files@,
        ).len() == 0,
{
    let scanned = recorded(files);
    let ghost wanted = asked(opt_views(*expected));
    let ghost is_gap = |id: Seq<char>| !is_scanned(files@, id);
    let ghost gap_line = |id: Seq<char>| "    unscanned: "@ + id;
    let ghost error_line = |f: Found| "    errored: "@ + f.path@;
    let mut missing: Vec<String> = Vec::new();
    proof {
        reveal(Seq::filter);
        assert(views(missing@) =~= Seq::empty());
        assert(wanted.take(0).filter(is_gap).map_values(gap_line) =~= Seq::empty());
    }
    match expected {
        Some(ids) => {
            for i in 0..ids.len()
                invariant
                    wanted == views(ids@),
                    holds_recorded(scanned@, files@),
                    is_gap == (|id: Seq<char>| !is_scanned(files@, id)),
                    gap_line == (|id: Seq<char>| "    unscanned: "@ + id),
                    views(missing@) == wanted.take(i as int).filter(is_gap).map_values(gap_line),
                    missing@.len() <= i,
            {
                let ghost before = views(missing@);
                proof {
                    reveal(Seq::filter);
                    assert(wanted.take(i + 1).drop_last() =~= wanted.take(i as int));
                    assert(wanted.take(i + 1).last() == ids@[i as int]@);
                }
                if !scanned.contains(ids[i].as_str()) {
                    let mut line = "    unscanned: ".to_owned();
                    line.append(ids[i].as_str());
                    missing.push(line);
                    proof {
                        assert(views(missing@) =~= before.push(gap_line(ids@[i as int]@)));
                        assert(views(missing@) =~= wanted.take(i + 1).filter(is_gap).map_values(
                            gap_line,
                        ));
                    }
                }
            }
            proof {
                assert(wanted.take(ids@.len() as int) =~= wanted);
            }
        },
        None => {
            proof {
                assert(wanted.take(0) =~= wanted);
            }
        },
    }
    let mut left: Vec<String> = Vec::new();
    let ghost bad = |f: Found| is_error(f);
    proof {
        assert(views(left@) =~= Seq::empty());
        assert(files@.take(0).filter(bad).map_values(error_line) =~= Seq::empty());
    }
    for i in 0..files.len()
        invariant
            bad == (|f: Found| is_error(f)),
            error_line == (|f: Found| "    errored: "@ + f.path@),
            views(left@) == files@.take(i as int).filter(bad).map_values(error_line),
    {
        let ghost before = views(left@);
        proof {
            reveal(Seq::filter);
            assert(files@.take(i + 1).drop_last() =~= files@.take(i as int));
            assert(files@.take(i + 1).last() == files@[i as int]);
        }
        if has_extension(files[i].name.as_str(), "err") {
            let mut line = "    errored: ".to_owned();
            line.append(files[i].path.as_str());
            left.push(line);
            proof {
                assert(views(left@) =~= before.push(error_line(files@[i as int])));
                assert(views(left@) =~= files@.take(i + 1).filter(bad).map_values(error_line));
            }
        }
    }
    proof {
        assert(files@.take(files@.len() as int) =~= files@);
        assert(missing@.len() == gaps(files@, wanted).len());
        assert(left@.len() == errors(files@).len());
    }
    let complete = missing.len() == 0 && left.len() == 0;
    let summary = match expected {
        Some(ids) => {
            let mut s = "  ".to_owned();
            s.append(to_decimal((ids.len() - missing.len()) as u64).as_str());
            s.append("/");
            s.append(to_decimal(ids.len() as u64).as_str());
            s.append(" features scanned, ");
            s.append(to_decimal(missing.len() as u64).as_str());
            s.append(" unscanned, ");
            s.append(to_decimal(left.len() as u64).as_str());
            s.append(" errored scenes");
            s
        },
        None => {
            let mut s = "  no --aoi (bbox/region run) — ".to_owned();
            s.append(to_decimal(left.len() as u64).as_str());
            s.append(" errored scenes");
            s
        },
    };
    let mut lines: Vec<String> = Vec::new();
    lines.push(summary);
    let ghost first = views(missing@);
    let ghost second = views(left@);
    append(&mut lines, &missing);
    append(&mut lines, &left);
    proof {
        assert(views(lines@) =~= seq![summary@] + first + second);
    }
    Report { complete, lines }
}

fn append(list: &mut Vec<String>, more: &Vec<String>)
    ensures
        views(final(list)@) == views(old(list)@) + views(more@),
{
    let ghost before = views(list@);
    proof {
        assert(before + views(more@).take(0) =~= before);
    }
    for i in 0..more.len()
        invariant
            views(list@) =~= before + views(more@).take(i as int),
    {
        let ghost held = views(list@);
        list.push(more[i].clone());
        proof {
            assert(views(list@) =~= held.push(more@[i as int]@));
        }
    }
    proof {
        assert(views(more@).take(more@.len() as int) =~= views(more@));
    }
}

/// A run is complete exactly where every feature that was asked for has a record and no file is an
/// error.
pub proof fn a_complete_run_has_every_record(files: Seq<Found>, wanted: Seq<Seq<char>>)
    ensures
        gaps(files, wanted).len() == 0 && errors(files).len() == 0 <==> (forall|i: int|
            0 <= i < wanted.len() ==> is_scanned(files, #[trigger] wanted[i])) && (forall|k: int|
            0 <= k < files.len() ==> !is_error(#[trigger] files[k])),
{
    let is_gap = |id: Seq<char>| !is_scanned(files, id);
    let bad = |f: Found| is_error(f);
    broadcast use vstd::seq_lib::group_filter_ensures;

    if gaps(files, wanted).len() == 0 {
        assert forall|i: int| 0 <= i < wanted.len() implies is_scanned(
            files,
            #[trigger] wanted[i],
        ) by {
            if is_gap(wanted[i]) {
                assert(wanted.filter(is_gap).contains(wanted[i]));
            }
        }
    } else {
        lemma_kept(wanted, is_gap);
    }
    if errors(files).len() == 0 {
        assert forall|k: int| 0 <= k < files.len() implies !is_error(#[trigger] files[k]) by {
            if bad(files[k]) {
                assert(files.filter(bad).contains(files[k]));
            }
        }
    } else {
        lemma_kept(files, bad);
    }
}

proof fn lemma_kept<T>(s: Seq<T>, p: spec_fn(T) -> bool)
    requires
        s.filter(p).len() > 0,
    ensures
        exists|i: int| 0 <= i < s.len() && p(#[trigger] s[i]),
    decreases s.len(),
{
    reveal(Seq::filter);
    if s.len() > 0 {
        if p(s.last()) {
            assert(p(s[s.len() - 1]));
        } else {
            lemma_kept(s.drop_last(), p);
            let i = choose|i: int| 0 <= i < s.len() - 1 && p(#[trigger] s.drop_last()[i]);
            assert(p(s[i]));
        }
    }
}

/// A file is an error by the ending of its name, and a record by the ending of its name and the
/// feature that it names as its target.
pub proof fn files_are_told_by_their_endings(f: Found, stem: Seq<char>, id: Seq<char>)
    requires
        stem.len() > 0,
    ensures
        f.name@ == stem + ".err"@ ==> is_error(f) && !records(f, id),
        f.name@ == stem + ".geojson"@ ==> !is_error(f) && (records(f, id) <==> (f.target matches Some(
            t,
        ) && t@ == id)),
{
    reveal_strlit(".err");
    reveal_strlit(".geojson");
    reveal_strlit("err");
    reveal_strlit("geojson");
    reveal_strlit("..");
    assert(stem + ".err"@ =~= stem + seq!['.'] + "err"@);
    assert(stem + ".geojson"@ =~= stem + seq!['.'] + "geojson"@);
    assert((stem + seq!['.'] + "err"@).len() > ".."@.len());
    assert((stem + seq!['.'] + "geojson"@).len() > ".."@.len());
    assert("err"@.len() != "geojson"@.len());
    an_extension_stands_behind_the_last_dot(stem, "err"@);
    an_extension_stands_behind_the_last_dot(stem, "geojson"@);
}

/// A run passes just where every feature that was asked for is the target of a record and no file
/// is an error, whether features were asked for or not. What is said has a line for each feature
/// without a record and for each error, after the first.
pub proof fn a_run_passes_where_nothing_is_missing(
    r: Report,
    files: Seq<Found>,
    expected: Option<Seq<Seq<char>>>,
)
    requires
        is_report(r, files, expected),
    ensures
        expected is None ==> (r.complete <==> forall|k: int|
            0 <= k < files.len() ==> extension_of((#[trigger] files[k]).name@) != Some("err"@)),
        expected matches Some(ids) ==> (r.complete <==> (forall|i: int|
            0 <= i < ids.len() ==> is_scanned(files, #[trigger] ids[i])) && (forall|k: int|
            0 <= k < files.len() ==> extension_of((#[trigger] files[k]).name@) != Some("err"@))),
        r.complete ==> r.lines@.len() == 1,
        !r.complete ==> r.lines@.len() > 1,
{
    let ids = asked(expected);
    a_complete_run_has_every_record(files, ids);
    assert(views(r.lines@).len() == r.lines@.len());
    assert forall|k: int| 0 <= k < files.len() implies (is_error(#[trigger] files[k])
        <==> extension_of(files[k].name@) == Some("err"@)) by {}
}

/// Whether a report is the one on a run.
pub open spec fn is_report(r: Report, files: Seq<Found>, expected: Option<Seq<Seq<char>>>) -> bool {
    &&& views(r.lines@) == report_of(files, expected)
    &&& r.complete <==> gaps(files, asked(expected)).len() == 0 && errors(files).len() == 0
}

/// The first line says how many features were scanned, of how many, and how many were not, before
/// it says how many scenes failed; the scanned and the unscanned are all that were asked for.
pub proof fn a_summary_counts_the_scanned(files: Seq<Found>, ids: Seq<Seq<char>>)
    ensures
        ({
            let scanned = ids.filter(|id: Seq<char>| is_scanned(files, id)).len();
            let unscanned = ids.filter(|id: Seq<char>| !is_scanned(files, id)).len();
            let errored = files.filter(
                |f: Found| extension_of(f.name@) == Some("err"@),
            ).len();
            &&& scanned + unscanned == ids.len()
            &&& summary_of(files, Some(ids)) == "  "@ + decimal(scanned) + "/"@ + decimal(ids.len())
                + " features scanned, "@ + decimal(unscanned) + " unscanned, "@ + decimal(errored)
                + " errored scenes"@
            &&& summary_of(files, None) == "  no --aoi (bbox/region run) — "@ + decimal(errored)
                + " errored scenes"@
        }),
{
    let p = |id: Seq<char>| is_scanned(files, id);
    let q = |id: Seq<char>| !is_scanned(files, id);
    lemma_either(ids, p, q);
    let bad = |f: Found| is_error(f);
    let err = |f: Found| extension_of(f.name@) == Some("err"@);
    lemma_same_filter(files, bad, err);
}

proof fn lemma_either<T>(s: Seq<T>, p: spec_fn(T) -> bool, q: spec_fn(T) -> bool)
    requires
        forall|x: T| #[trigger] p(x) <==> !q(x),
    ensures
        s.filter(p).len() + s.filter(q).len() == s.len(),
    decreases s.len(),
{
    reveal(Seq::filter);
    if s.len() > 0 {
        lemma_either(s.drop_last(), p, q);
        assert(p(s.last()) <==> !q(s.last()));
    }
}

proof fn lemma_same_filter<T>(s: Seq<T>, p: spec_fn(T) -> bool, q: spec_fn(T) -> bool)
    requires
        forall|x: T| #[trigger] p(x) == q(x),
    ensures
        s.filter(p) == s.filter(q),
    decreases s.len(),
{
    reveal(Seq::filter);
    if s.len() > 0 {
        lemma_same_filter(s.drop_last(), p, q);
        assert(p(s.last()) == q(s.last()));
    }
}

/// The target of a record is the name under its analysis, and a record that names none has none.
pub proof fn a_record_names_its_target(record: Tree, id: Seq<char>)
    ensures
        record.field("analysis"@).field("target"@).field("id"@) == Tree::Text(id) ==> target_in(record)
            == Some(id),
        record.field("analysis"@).field("target"@).field("id"@) is Null ==> target_in(record) is None,
{
}

} // verus!
