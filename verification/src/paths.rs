//! Paths in writing: of local files, and of objects in a store.
use crate::text::{
    after_leading, before_trailing, ends_with, joined, joined_parts_are_the_text,
    joined_texts_are_taken_apart, parts, same, split, starts_with, trim_end_matches,
    trim_start_matches, views,
};
use vstd::prelude::*;

verus! {

/// Whether a path is one of an object store.
pub open spec fn is_object(path: Seq<char>) -> bool {
    "s3://"@.is_prefix_of(path)
}

/// Whether a path is one of an object store.
pub fn is_remote(path: &str) -> (r: bool)
    ensures
        r == is_object(path@),
{
    starts_with(path, "s3://")
}

/// A path under a root, with one slash between the two.
pub open spec fn under(root: Seq<char>, tail: Seq<char>) -> Seq<char> {
    before_trailing(root, |c: char| c == '/') + "/"@ + after_leading(tail, |c: char| c == '/')
}

/// A path under a root, local or in a store, with one slash between the two.
pub fn join(root: &str, tail: &str) -> (r: String)
    ensures
        r@ == under(root@, tail@),
{
    let mut s = trim_end_matches(root, '/');
    s.append("/");
    s.append(trim_start_matches(tail, '/').as_str());
    s
}

/// The path of an entry of a local directory.
pub open spec fn entry(dir: Seq<char>, name: Seq<char>) -> Seq<char> {
    if dir.len() == 0 {
        name
    } else if dir.last() == '/' {
        dir + name
    } else {
        dir + "/"@ + name
    }
}

/// The path of an entry of a local directory.
pub fn child(dir: &str, name: &str) -> (r: String)
    ensures
        r@ == entry(dir@, name@),
{
    if dir.is_empty() {
        return name.to_owned();
    }
    proof {
        reveal_strlit("/");
        let tail = dir@.subrange(dir@.len() - 1, dir@.len() as int);
        assert(tail[0] == dir@.last());
        if dir@.last() == '/' {
            assert("/"@ =~= tail);
        }
    }
    let mut s = dir.to_owned();
    if !ends_with(dir, "/") {
        s.append("/");
    }
    s.append(name);
    s
}

/// What stands behind the last dot of a file's name, where a name stands before it.
pub open spec fn extension_of(name: Seq<char>) -> Option<Seq<char>> {
    let p = parts(name, '.');
    if p.len() < 2 || (p.len() == 2 && p[0].len() == 0) || name == ".."@ {
        None
    } else {
        Some(p.last())
    }
}

/// What stands behind the last dot of a file's name, where a name stands before it.
pub fn extension(name: &str) -> (r: Option<String>)
    ensures
        match r {
            Some(e) => extension_of(name@) == Some(e@),
            None => extension_of(name@) is None,
        },
{
    let p = split(name, '.');
    proof {
        assert(views(p@).last() == p@[p@.len() - 1]@);
        assert(views(p@)[0] == p@[0]@);
    }
    if p.len() < 2 || (p.len() == 2 && p[0].as_str().is_empty()) || same(name, "..") {
        None
    } else {
        Some(p[p.len() - 1].clone())
    }
}

/// Whether a file's name ends in a dot and `ext`.
pub fn has_extension(name: &str, ext: &str) -> (r: bool)
    ensures
        r == (extension_of(name@) == Some(ext@)),
{
    match extension(name) {
        Some(e) => same(e.as_str(), ext),
        None => false,
    }
}

/// The names on a path: those between its slashes, without the empty ones and without the dots
/// that lead nowhere.
pub open spec fn names_on(path: Seq<char>) -> Seq<Seq<char>> {
    let p = parts(path, '/');
    (if p[0].len() > 0 {
        seq![p[0]]
    } else {
        Seq::empty()
    }) + p.drop_first().filter(|n: Seq<char>| n.len() > 0 && n != "."@)
}

/// Whether two local paths are written from the same place along the same names.
pub open spec fn same_place(a: Seq<char>, b: Seq<char>) -> bool {
    "/"@.is_prefix_of(a) == "/"@.is_prefix_of(b) && names_on(a) == names_on(b)
}

fn names(path: &str) -> (r: Vec<String>)
    ensures
        views(r@) == names_on(path@),
{
    let p = split(path, '/');
    let keep = Ghost(|n: Seq<char>| n.len() > 0 && n != "."@);
    let mut out: Vec<String> = Vec::new();
    proof {
        assert(views(p@)[0] == p@[0]@);
        assert(views(out@) =~= Seq::empty());
    }
    if !p[0].as_str().is_empty() {
        out.push(p[0].clone());
        proof {
            assert(views(out@) =~= seq![p@[0]@]);
        }
    }
    let ghost head = views(out@);
    let ghost rest = views(p@).drop_first();
    proof {
        reveal(Seq::filter);
        assert(rest.take(0).filter(keep@) =~= Seq::empty());
        assert(head + Seq::<Seq<char>>::empty() =~= head);
    }
    for i in 1..p.len()
        invariant
            rest == views(p@).drop_first(),
            1 <= i <= p@.len(),
            views(out@) == head + rest.take(i - 1).filter(keep@),
            keep@ == |n: Seq<char>| n.len() > 0 && n != "."@,
    {
        let ghost before = views(out@);
        proof {
            reveal(Seq::filter);
            assert(rest.take(i as int).drop_last() =~= rest.take(i - 1));
            assert(rest.take(i as int).last() == p@[i as int]@);
        }
        if !p[i].as_str().is_empty() && !same(p[i].as_str(), ".") {
            out.push(p[i].clone());
            proof {
                assert(views(out@) =~= before.push(p@[i as int]@));
                assert(before.push(p@[i as int]@) =~= head + rest.take(i as int).filter(keep@));
            }
        }
    }
    proof {
        assert(rest.take(p@.len() - 1) =~= rest);
    }
    out
}

/// Whether two local paths are written from the same place along the same names.
pub fn same_path(a: &str, b: &str) -> (r: bool)
    ensures
        r == same_place(a@, b@),
{
    if starts_with(a, "/") != starts_with(b, "/") {
        return false;
    }
    let x = names(a);
    let y = names(b);
    if x.len() != y.len() {
        proof {
            assert(views(x@).len() != views(y@).len());
        }
        return false;
    }
    for i in 0..x.len()
        invariant
            x@.len() == y@.len(),
            views(x@) == names_on(a@),
            views(y@) == names_on(b@),
            forall|k: int| 0 <= k < i ==> views(x@)[k] == views(y@)[k],
    {
        if !same(x[i].as_str(), y[i].as_str()) {
            proof {
                assert(views(x@)[i as int] != views(y@)[i as int]);
            }
            return false;
        }
    }
    proof {
        assert(views(x@) =~= views(y@));
    }
    true
}

/// What stands behind the last dot of a name is its extension, where a name stands before that dot.
pub proof fn an_extension_stands_behind_the_last_dot(stem: Seq<char>, ext: Seq<char>)
    requires
        stem.len() > 0,
        !ext.contains('.'),
        stem + seq!['.'] + ext != ".."@,
    ensures
        extension_of(stem + seq!['.'] + ext) == Some(ext),
{
    let p = parts(stem, '.');
    let list = p.push(ext);
    joined_parts_are_the_text(stem, '.');
    assert(p.len() > 0);
    assert forall|i: int| 0 <= i < list.len() implies !(#[trigger] list[i]).contains('.') by {
        if i < p.len() {
            assert(list[i] == p[i]);
        }
    }
    assert(list.drop_last() =~= p);
    assert(joined(list, seq!['.']) == stem + seq!['.'] + ext);
    joined_texts_are_taken_apart(list, '.');
    assert(parts(stem + seq!['.'] + ext, '.') == list);
    if list.len() == 2 {
        assert(joined(p, seq!['.']) == p[0]);
        assert(list[0] == p[0]);
    }
}

/// A name without a dot has no extension, and neither has one with a dot only before it.
pub proof fn a_name_without_a_dot_has_no_extension(name: Seq<char>)
    requires
        !name.contains('.'),
    ensures
        extension_of(name) is None,
        extension_of(seq!['.'] + name) is None,
{
    let one = seq![name];
    let two = seq![Seq::<char>::empty(), name];
    joined_texts_are_taken_apart(one, '.');
    assert(joined(one, seq!['.']) == name);
    assert(two.drop_last() =~= seq![Seq::<char>::empty()]);
    reveal_with_fuel(joined, 2);
    assert(joined(two, seq!['.']) =~= seq!['.'] + name);
    joined_texts_are_taken_apart(two, '.');
}

/// A path stands under a root with one slash between the two, whichever of them brings slashes of
/// its own.
pub proof fn one_slash_stands_under_a_root(root: Seq<char>, tail: Seq<char>)
    ensures
        under(root.push('/'), tail) == under(root, tail),
        under(root, seq!['/'] + tail) == under(root, tail),
        (root.len() == 0 || root.last() != '/') && (tail.len() == 0 || tail[0] != '/') ==> under(
            root,
            tail,
        ) == root + "/"@ + tail,
{
    assert(root.push('/').drop_last() =~= root);
    assert((seq!['/'] + tail).drop_first() =~= tail);
}

proof fn lemma_rooted(path: Seq<char>)
    requires
        path.len() > 0,
    ensures
        "/"@.is_prefix_of(path) <==> path[0] == '/',
{
    reveal_strlit("/");
    assert(path.subrange(0, 1)[0] == path[0]);
    if path[0] == '/' {
        assert("/"@ =~= path.subrange(0, 1));
    }
}

/// A slash at the end of a path leads nowhere else.
pub proof fn a_slash_at_the_end_leads_nowhere_else(path: Seq<char>)
    requires
        path.len() > 0,
    ensures
        same_place(path, path.push('/')),
{
    let p = parts(path, '/');
    let none = Seq::<char>::empty();
    let list = p.push(none);
    joined_parts_are_the_text(path, '/');
    assert forall|i: int| 0 <= i < list.len() implies !(#[trigger] list[i]).contains('/') by {
        if i < p.len() {
            assert(list[i] == p[i]);
        }
    }
    assert(list.drop_last() =~= p);
    assert(joined(list, seq!['/']) =~= path.push('/'));
    joined_texts_are_taken_apart(list, '/');
    let keep = |n: Seq<char>| n.len() > 0 && n != "."@;
    assert(list.drop_first() =~= p.drop_first().push(none));
    assert(list.drop_first().drop_last() =~= p.drop_first());
    reveal(Seq::filter);
    assert(list.drop_first().filter(keep) =~= p.drop_first().filter(keep));
    lemma_rooted(path);
    lemma_rooted(path.push('/'));
}

/// An entry of a directory is one slash below it: a slash at the end of the directory makes no
/// difference, and what stands behind the last slash is the name of the entry.
pub proof fn an_entry_is_one_slash_below(dir: Seq<char>, name: Seq<char>)
    requires
        dir.len() > 0,
        dir.last() != '/',
        !name.contains('/'),
    ensures
        entry(dir, name) == entry(dir.push('/'), name),
        parts(entry(dir, name), '/') == parts(dir, '/').push(name),
        entry(Seq::empty(), name) == name,
{
    reveal_strlit("/");
    assert("/"@ =~= seq!['/']);
    assert(dir.push('/') + name =~= dir + "/"@ + name);
    let p = parts(dir, '/');
    let list = p.push(name);
    joined_parts_are_the_text(dir, '/');
    assert forall|i: int| 0 <= i < list.len() implies !(#[trigger] list[i]).contains('/') by {
        if i < p.len() {
            assert(list[i] == p[i]);
        }
    }
    assert(list.drop_last() =~= p);
    assert(joined(list, seq!['/']) == dir + seq!['/'] + name);
    joined_texts_are_taken_apart(list, '/');
}

/// A path is told by its names: those that are written along it are the names on it, so two paths
/// are the same place just where they have the same names.
pub proof fn a_path_is_told_by_its_names(a: Seq<Seq<char>>, b: Seq<Seq<char>>)
    requires
        are_names(a),
        are_names(b),
    ensures
        names_on(joined(a, seq!['/'])) == a,
        same_place(joined(a, seq!['/']), joined(b, seq!['/'])) <==> a == b,
        !same_place(seq!['/'] + joined(a, seq!['/']), joined(b, seq!['/'])),
{
    lemma_names_on(a);
    lemma_names_on(b);
    let (x, y) = (joined(a, seq!['/']), joined(b, seq!['/']));
    lemma_rooted(x);
    lemma_rooted(y);
    lemma_rooted(seq!['/'] + x);
}

/// Whether names can stand on a path: each of them has a character, none of them has a slash, and
/// none is the dot that leads nowhere.
pub open spec fn are_names(list: Seq<Seq<char>>) -> bool {
    list.len() > 0 && forall|i: int|
        0 <= i < list.len() ==> (#[trigger] list[i]).len() > 0 && !list[i].contains('/') && list[i]
            != "."@
}

proof fn lemma_names_on(list: Seq<Seq<char>>)
    requires
        are_names(list),
    ensures
        names_on(joined(list, seq!['/'])) == list,
        joined(list, seq!['/']).len() > 0,
        joined(list, seq!['/'])[0] != '/',
{
    let keep = |n: Seq<char>| n.len() > 0 && n != "."@;
    assert forall|i: int| 0 <= i < list.len() implies !(#[trigger] list[i]).contains('/') by {}
    joined_texts_are_taken_apart(list, '/');
    let rest = list.drop_first();
    assert forall|i: int| 0 <= i < rest.len() implies keep(#[trigger] rest[i]) by {
        assert(rest[i] == list[i + 1]);
    }
    lemma_all_kept(rest, keep);
    assert(list[0].len() > 0);
    assert(seq![list[0]] + rest =~= list);
    lemma_joined_first(list);
    assert(list[0].contains(list[0][0]));
}

proof fn lemma_all_kept(s: Seq<Seq<char>>, keep: spec_fn(Seq<char>) -> bool)
    requires
        forall|i: int| 0 <= i < s.len() ==> keep(#[trigger] s[i]),
    ensures
        s.filter(keep) == s,
    decreases s.len(),
{
    reveal(Seq::filter);
    if s.len() > 0 {
        let front = s.drop_last();
        assert forall|i: int| 0 <= i < front.len() implies keep(#[trigger] front[i]) by {
            assert(front[i] == s[i]);
        }
        lemma_all_kept(front, keep);
        assert(keep(s[s.len() - 1]));
        assert(front.push(s.last()) =~= s);
    } else {
        assert(s.filter(keep) =~= s);
    }
}

proof fn lemma_joined_first(list: Seq<Seq<char>>)
    requires
        list.len() > 0,
        list[0].len() > 0,
    ensures
        joined(list, seq!['/']).len() > 0,
        joined(list, seq!['/'])[0] == list[0][0],
    decreases list.len(),
{
    if list.len() > 1 {
        assert(list.drop_last()[0] == list[0]);
        lemma_joined_first(list.drop_last());
    }
}

} // verus!
