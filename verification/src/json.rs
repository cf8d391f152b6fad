//! JSON documents: catalogue replies, areas of interest, detection records, the coverage overlay.
use crate::number::Real;
use crate::text::{chars, decimal, hex_digit, joined, padded, same, to_hex_digit};
use vstd::prelude::*;

verus! {

/// A JSON number: the whole number that it is, where it is one in range, and the double-precision
/// number that it stands for.
#[derive(Clone, Copy, Debug, PartialEq, Eq, Structural)]
pub struct JsonNumber {
    pub unsigned: Option<u64>,
    pub signed: Option<i64>,
    pub real: Option<Real>,
}

/// A JSON value, as mathematics.
pub ghost enum Tree {
    Null,
    Bool(bool),
    Number(JsonNumber),
    Text(Seq<char>),
    Array(Seq<Tree>),
    Object(Seq<(Seq<char>, Tree)>),
}

/// A JSON value. The members of an object are in the order of their names where the object was
/// read from a document.
#[derive(Debug)]
pub enum Json {
    Null,
    Bool(bool),
    Number(JsonNumber),
    Text(String),
    Array(Vec<Json>),
    Object(Vec<(String, Json)>),
}

/// The value of the first member named `key`; null where there is none.
pub open spec fn member(members: Seq<(Seq<char>, Tree)>, key: Seq<char>) -> Tree
    decreases members.len(),
{
    if members.len() == 0 {
        Tree::Null
    } else if members[0].0 == key {
        members[0].1
    } else {
        member(members.drop_first(), key)
    }
}

/// Whether there is a member named `key`.
pub open spec fn has_member(members: Seq<(Seq<char>, Tree)>, key: Seq<char>) -> bool {
    exists|i: int| 0 <= i < members.len() && (#[trigger] members[i]).0 == key
}

impl Tree {
    /// Whether the value is an object with a member `key`.
    pub open spec fn has(self, key: Seq<char>) -> bool {
        match self {
            Tree::Object(members) => has_member(members, key),
            _ => false,
        }
    }

    /// The member `key` of an object; null of anything else.
    pub open spec fn field(self, key: Seq<char>) -> Tree {
        match self {
            Tree::Object(members) => member(members, key),
            _ => Tree::Null,
        }
    }

    pub open spec fn as_text(self) -> Option<Seq<char>> {
        match self {
            Tree::Text(s) => Some(s),
            _ => None,
        }
    }

    pub open spec fn as_real(self) -> Option<Real> {
        match self {
            Tree::Number(n) => n.real,
            _ => None,
        }
    }

    pub open spec fn as_signed(self) -> Option<i64> {
        match self {
            Tree::Number(n) => n.signed,
            _ => None,
        }
    }

    /// The elements of an array; none of anything else.
    pub open spec fn elements(self) -> Seq<Tree> {
        match self {
            Tree::Array(a) => a,
            _ => Seq::empty(),
        }
    }
}

impl View for Json {
    type V = Tree;

    open spec fn view(&self) -> Tree {
        self.tree()
    }
}

impl Json {
    pub open spec fn tree(self) -> Tree
        decreases self,
    {
        match self {
            Json::Null => Tree::Null,
            Json::Bool(b) => Tree::Bool(b),
            Json::Number(n) => Tree::Number(n),
            Json::Text(s) => Tree::Text(s@),
            Json::Array(v) => Tree::Array(
                Seq::new(
                    v@.len(),
                    |i: int|
                        if 0 <= i < v@.len() {
                            v@[i].tree()
                        } else {
                            Tree::Null
                        },
                ),
            ),
            Json::Object(v) => Tree::Object(
                Seq::new(
                    v@.len(),
                    |i: int|
                        if 0 <= i < v@.len() {
                            (v@[i].0@, v@[i].1.tree())
                        } else {
                            (Seq::empty(), Tree::Null)
                        },
                ),
            ),
        }
    }

    /// The member `key` of an object, where it has one.
    pub fn field(&self, key: &str) -> (r: Option<&Json>)
        ensures
            r matches Some(j) ==> j@ == self@.field(key@),
            r is None ==> self@.field(key@) is Null,
            r is Some <==> self@.has(key@),
    {
        match self {
            Json::Object(v) => {
                let ghost members = self@->Object_0;
                let mut i: usize = 0;
                assert(members.skip(0) =~= members);
                while i < v.len()
                    invariant
                        i <= v@.len(),
                        members.len() == v@.len(),
                        members == self@->Object_0,
                        self@ is Object,
                        forall|j: int|
                            0 <= j < v@.len() ==> #[trigger] members[j] == (v@[j].0@, v@[j].1@),
                        member(members, key@) == member(members.skip(i as int), key@),
                        forall|j: int| 0 <= j < i ==> (#[trigger] members[j]).0 != key@,
                    decreases v@.len() - i,
                {
                    assert(members.skip(i as int)[0] == members[i as int]);
                    if same(v[i].0.as_str(), key) {
                        return Some(&v[i].1);
                    }
                    assert(members.skip(i as int).drop_first() =~= members.skip(i + 1));
                    i += 1;
                }
                None
            },
            _ => None,
        }
    }

    /// The text that the value is.
    pub fn as_text(&self) -> (r: Option<&String>)
        ensures
            r matches Some(s) ==> self@.as_text() == Some(s@),
            r is None ==> self@.as_text() is None,
    {
        match self {
            Json::Text(s) => Some(s),
            _ => None,
        }
    }

    /// The text that the member `key` is.
    pub fn text_field(&self, key: &str) -> (r: Option<&String>)
        ensures
            r matches Some(s) ==> self@.field(key@).as_text() == Some(s@),
            r is None ==> self@.field(key@).as_text() is None,
    {
        match self.field(key) {
            Some(j) => j.as_text(),
            None => None,
        }
    }

    pub fn as_real(&self) -> (r: Option<Real>)
        ensures
            r == self@.as_real(),
    {
        match self {
            Json::Number(n) => n.real,
            _ => None,
        }
    }

    /// The number that the member `key` is.
    pub fn real_field(&self, key: &str) -> (r: Option<Real>)
        ensures
            r == self@.field(key@).as_real(),
    {
        match self.field(key) {
            Some(j) => j.as_real(),
            None => None,
        }
    }

    pub fn as_signed(&self) -> (r: Option<i64>)
        ensures
            r == self@.as_signed(),
    {
        match self {
            Json::Number(n) => n.signed,
            _ => None,
        }
    }

    /// A copy of the whole value.
    pub fn copy(&self) -> (r: Json)
        ensures
            r@ == self@,
        decreases self,
    {
        match self {
            Json::Null => Json::Null,
            Json::Bool(b) => Json::Bool(*b),
            Json::Number(n) => Json::Number(*n),
            Json::Text(s) => Json::Text(s.clone()),
            Json::Array(v) => {
                let mut out: Vec<Json> = Vec::new();
                let mut i: usize = 0;
                while i < v.len()
                    invariant
                        *self == Json::Array(*v),
                        i <= v@.len(),
                        out@.len() == i,
                        forall|j: int| 0 <= j < i ==> (#[trigger] out@[j])@ == v@[j]@,
                    decreases v@.len() - i,
                {
                    assert(decreases_to!(*self => self->Array_0));
                    assert(decreases_to!(*v => v[i as int]));
                    let c = v[i].copy();
                    out.push(c);
                    i += 1;
                }
                let r = Json::Array(out);
                assert(r@->Array_0 =~= self@->Array_0);
                r
            },
            Json::Object(v) => {
                let mut out: Vec<(String, Json)> = Vec::new();
                let mut i: usize = 0;
                while i < v.len()
                    invariant
                        *self == Json::Object(*v),
                        i <= v@.len(),
                        out@.len() == i,
                        forall|j: int|
                            0 <= j < i ==> (#[trigger] out@[j]).0@ == v@[j].0@ && out@[j].1@
                                == v@[j].1@,
                    decreases v@.len() - i,
                {
                    assert(decreases_to!(*self => self->Object_0));
                    assert(decreases_to!(*v => v[i as int]));
                    assert(decreases_to!(v[i as int] => v[i as int].1));
                    let c = v[i].1.copy();
                    out.push((v[i].0.clone(), c));
                    i += 1;
                }
                let r = Json::Object(out);
                assert(r@->Object_0 =~= self@->Object_0);
                r
            },
        }
    }
}

/// The views of a list of values.
pub open spec fn trees(v: Seq<Json>) -> Seq<Tree> {
    v.map_values(|j: Json| j@)
}

/// A text value.
pub fn text_value(s: &str) -> (r: Json)
    ensures
        r@ == Tree::Text(s@),
{
    Json::Text(s.to_owned())
}

/// A number that is not known to be whole; null where it is no finite number, for which JSON has
/// no notation.
pub open spec fn real_tree(x: Real) -> Tree {
    if x.is_finite() {
        Tree::Number(JsonNumber { unsigned: None, signed: None, real: Some(x) })
    } else {
        Tree::Null
    }
}

/// A whole number.
pub open spec fn count_tree(n: u64) -> Tree {
    Tree::Number(
        JsonNumber {
            unsigned: Some(n),
            signed: if n <= i64::MAX {
                Some(n as i64)
            } else {
                None
            },
            real: Some(Real::of_count(n as nat)),
        },
    )
}

/// A whole number that may be negative.
pub open spec fn signed_tree(n: i64) -> Tree {
    if n >= 0 {
        count_tree(n as u64)
    } else {
        Tree::Number(
            JsonNumber {
                unsigned: None,
                signed: Some(n),
                real: Some(Real::of_count((-n) as nat).negated()),
            },
        )
    }
}

/// A number that is not known to be whole; null where it is no finite number.
pub fn real_value(x: Real) -> (r: Json)
    ensures
        r@ == real_tree(x),
{
    if x.is_bounded() {
        Json::Number(JsonNumber { unsigned: None, signed: None, real: Some(x) })
    } else {
        Json::Null
    }
}

/// A whole number.
pub fn count_value(n: u64) -> (r: Json)
    ensures
        r@ == count_tree(n),
{
    let signed = if n <= 0x7fff_ffff_ffff_ffff {
        Some(n as i64)
    } else {
        None
    };
    Json::Number(JsonNumber { unsigned: Some(n), signed, real: Some(Real::whole(n)) })
}

/// An array of values.
pub fn array_value(v: Vec<Json>) -> (r: Json)
    ensures
        r@ == Tree::Array(trees(v@)),
{
    let r = Json::Array(v);
    assert(r@->Array_0 =~= trees(v@));
    r
}

/// The members of an object under construction.
pub open spec fn members_of(v: Seq<(String, Json)>) -> Seq<(Seq<char>, Tree)> {
    v.map_values(|m: (String, Json)| (m.0@, m.1@))
}

/// An object with the members given.
pub fn object_value(v: Vec<(String, Json)>) -> (r: Json)
    ensures
        r@ == Tree::Object(members_of(v@)),
{
    let r = Json::Object(v);
    assert(r@->Object_0 =~= members_of(v@));
    r
}

/// `serde_json::Value`: what [`read_value`] hands on for [`convert`] to take apart.
#[verifier::external_type_specification]
#[verifier::external_body]
pub struct ExValue(serde_json::Value);

/// The value that a `serde_json::Value` holds.
pub uninterp spec fn value_tree(v: serde_json::Value) -> Tree;

/// A character as it stands between the quotes of a JSON text.
pub open spec fn escape(c: char) -> Seq<char> {
    let n = c as u32;
    if c == '"' || c == '\\' {
        seq!['\\', c]
    } else if n == 8 {
        seq!['\\', 'b']
    } else if n == 9 {
        seq!['\\', 't']
    } else if n == 10 {
        seq!['\\', 'n']
    } else if n == 12 {
        seq!['\\', 'f']
    } else if n == 13 {
        seq!['\\', 'r']
    } else if n < 32 {
        seq!['\\', 'u', '0', '0', hex_digit(n as int / 16), hex_digit(n as int % 16)]
    } else {
        seq![c]
    }
}

/// A text as it stands between quotes.
pub open spec fn escaped(s: Seq<char>) -> Seq<char>
    decreases s.len(),
{
    if s.len() == 0 {
        Seq::empty()
    } else {
        escaped(s.drop_last()) + escape(s.last())
    }
}

/// A text in JSON.
pub open spec fn quoted(s: Seq<char>) -> Seq<char> {
    seq!['"'] + escaped(s) + seq!['"']
}

/// A document in writing: what it holds, in the order in which it is written, a number with a
/// fraction by its decimal.
pub ghost enum Doc {
    Null,
    Text(Seq<char>),
    Count(u64),
    Whole(i64),
    Decimal(Seq<char>),
    Array(Seq<Doc>),
    Object(Seq<(Seq<char>, Doc)>),
}

/// A document in writing, without spaces.
pub open spec fn written(d: Doc) -> Seq<char>
    decreases d,
{
    match d {
        Doc::Null => "null"@,
        Doc::Text(s) => quoted(s),
        Doc::Count(n) => decimal(n as nat),
        Doc::Whole(n) => padded(n as int, 0),
        Doc::Decimal(x) => x,
        Doc::Array(a) => "["@ + joined(element_texts(a), ","@) + "]"@,
        Doc::Object(m) => "{"@ + joined(member_texts(m), ","@) + "}"@,
    }
}

/// The elements of an array in writing.
pub open spec fn element_texts(a: Seq<Doc>) -> Seq<Seq<char>>
    decreases a,
{
    Seq::new(
        a.len(),
        |i: int|
            if 0 <= i < a.len() {
                written(a[i])
            } else {
                Seq::empty()
            },
    )
}

/// The members of an object in writing.
pub open spec fn member_texts(m: Seq<(Seq<char>, Doc)>) -> Seq<Seq<char>>
    decreases m,
{
    Seq::new(
        m.len(),
        |i: int|
            if 0 <= i < m.len() {
                member_text(m[i].0, written(m[i].1))
            } else {
                Seq::empty()
            },
    )
}

/// A member of an object in writing, from its name and its value in writing.
pub open spec fn member_text(name: Seq<char>, value: Seq<char>) -> Seq<char> {
    quoted(name) + ":"@ + value
}

/// Whether a value is the one that a document writes down; a decimal stands for what it reads as
/// alone, and the members of an object may come in any order.
pub open spec fn reads(t: Tree, d: Doc) -> bool
    decreases d,
{
    match d {
        Doc::Null => t is Null,
        Doc::Text(s) => t == Tree::Text(s),
        Doc::Count(n) => t == count_tree(n),
        Doc::Whole(n) => t == signed_tree(n),
        Doc::Decimal(x) => document(x) == Ok::<Tree, Seq<char>>(t),
        Doc::Array(a) => t is Array && t.elements().len() == a.len() && forall|i: int|
            0 <= i < a.len() ==> reads(#[trigger] t.elements()[i], a[i]),
        Doc::Object(m) => t is Object && t->Object_0.len() == m.len() && forall|i: int|
            0 <= i < m.len() ==> reads(t.field((#[trigger] m[i]).0), m[i].1),
    }
}

/// Whether a document is one that can be read: the members of an object have names of their own, a
/// decimal reads as a number, and nothing is nested deeper than `room`.
pub open spec fn is_plain(d: Doc, room: nat) -> bool
    decreases d,
{
    match d {
        Doc::Decimal(x) => document(x) is Ok && document(x)->Ok_0 is Number,
        Doc::Array(a) => room > 0 && forall|i: int|
            0 <= i < a.len() ==> is_plain(#[trigger] a[i], (room - 1) as nat),
        Doc::Object(m) => {
            &&& room > 0
            &&& forall|i: int, j: int|
                0 <= i < j < m.len() ==> (#[trigger] m[i]).0 != (#[trigger] m[j]).0
            &&& forall|i: int|
                0 <= i < m.len() ==> is_plain((#[trigger] m[i]).1, (room - 1) as nat)
        },
        _ => true,
    }
}

/// Whether what was read is what the text writes down, where it writes down a document of no more
/// than a hundred levels.
pub open spec fn reads_back(read: Result<Tree, Seq<char>>, text: Seq<char>) -> bool {
    forall|d: Doc|
        text == #[trigger] written(d) && is_plain(d, 100) ==> read is Ok && reads(read->Ok_0, d)
}

/// What `serde_json::from_str` makes of a text: the value that it holds, or what it finds wrong.
pub uninterp spec fn document(text: Seq<char>) -> Result<Tree, Seq<char>>;

/// A reply of [`read_value`], as the value or the complaint that it carries.
pub open spec fn outcome(r: Result<serde_json::Value, String>) -> Result<Tree, Seq<char>> {
    match r {
        Ok(v) => Ok(value_tree(v)),
        Err(e) => Err(e@),
    }
}

/// `serde_json::from_str` to a `serde_json::Value`, and `to_string` of its error: whether the text
/// is a JSON document, which value it holds, and the complaint where it is none, depend on the text
/// alone. A document of no more than a hundred levels, written without spaces and with no name
/// twice in an object, is read as what it says: texts and whole numbers exactly, any other number
/// as it is read alone.
#[verifier::external_body]
fn read_value(text: &str) -> (r: Result<serde_json::Value, String>)
    ensures
        outcome(r) == document(text@),
        reads_back(outcome(r), text@),
{
    serde_json::from_str(text).map_err(|e: serde_json::Error| e.to_string())
}

/// The six kinds of `serde_json::Value`, each taken as the same kind of [`Json`], the elements of
/// an array and the members of an object in the order in which they are stored. A number is taken
/// by `as_u64`, `as_i64` and `as_f64`, the last by its encoding.
#[verifier::external_body]
fn convert(v: serde_json::Value) -> (r: Json)
    ensures
        r@ == value_tree(v),
{
    match v {
        serde_json::Value::Null => Json::Null,
        serde_json::Value::Bool(b) => Json::Bool(b),
        serde_json::Value::Number(n) => {
            let x = n.as_f64().map(|x| Real { bits: x.to_bits() });
            Json::Number(JsonNumber { unsigned: n.as_u64(), signed: n.as_i64(), real: x })
        },
        serde_json::Value::String(s) => Json::Text(s),
        serde_json::Value::Array(a) => Json::Array(a.into_iter().map(convert).collect()),
        serde_json::Value::Object(m) => Json::Object(m.into_iter().map(|(k, x)| (k, convert(x))).collect()),
    }
}

/// Reads a JSON document; where it is none, says what was wrong with it.
pub fn parse(text: &str) -> (r: Result<Json, String>)
    ensures
        match document(text@) {
            Ok(t) => r is Ok && r->Ok_0@ == t,
            Err(m) => r is Err && r->Err_0@ == m,
        },
        reads_back(document(text@), text@),
{
    match read_value(text) {
        Ok(v) => Ok(convert(v)),
        Err(e) => Err(e),
    }
}

fn push_escaped(out: &mut String, c: char)
    ensures
        final(out)@ == old(out)@ + escape(c),
{
    let ghost before = out@;
    let n: u32 = c as u32;
    if n < 32 || c == '"' || c == '\\' {
        out.push('\\');
        if n == 8 {
            out.push('b');
        } else if n == 9 {
            out.push('t');
        } else if n == 10 {
            out.push('n');
        } else if n == 12 {
            out.push('f');
        } else if n == 13 {
            out.push('r');
        } else if n < 32 {
            out.push('u');
            out.push('0');
            out.push('0');
            out.push(to_hex_digit((n / 16) as u8));
            out.push(to_hex_digit((n % 16) as u8));
        } else {
            out.push(c);
        }
    } else {
        out.push(c);
    }
    proof {
        assert(out@ =~= before + escape(c));
    }
}

/// A text in JSON.
pub fn quote(s: &str) -> (r: String)
    ensures
        r@ == quoted(s@),
{
    let v = chars(s);
    let mut out = String::new();
    out.push('"');
    proof {
        assert(v@.take(0) =~= Seq::empty());
        assert(out@ =~= seq!['"'] + escaped(v@.take(0)));
    }
    for i in 0..v.len()
        invariant
            v@ == s@,
            out@ == seq!['"'] + escaped(v@.take(i as int)),
    {
        push_escaped(&mut out, v[i]);
        proof {
            assert(v@.take(i + 1).drop_last() =~= v@.take(i as int));
            assert(out@ =~= seq!['"'] + escaped(v@.take(i + 1)));
        }
    }
    out.push('"');
    proof {
        assert(v@.take(v@.len() as int) =~= v@);
        assert(out@ =~= quoted(s@));
    }
    out
}

/// Whether a text has no line feed in it.
pub open spec fn one_line(s: Seq<char>) -> bool {
    forall|i: int| 0 <= i < s.len() ==> #[trigger] s[i] != '\n'
}

/// Whether no decimal of a document has a line feed in it.
pub open spec fn is_unbroken(d: Doc) -> bool
    decreases d,
{
    match d {
        Doc::Decimal(x) => one_line(x),
        Doc::Array(a) => forall|i: int| 0 <= i < a.len() ==> is_unbroken(#[trigger] a[i]),
        Doc::Object(m) => forall|i: int| 0 <= i < m.len() ==> is_unbroken((#[trigger] m[i]).1),
        _ => true,
    }
}

proof fn lemma_quoted_line(s: Seq<char>)
    ensures
        one_line(escaped(s)),
        one_line(quoted(s)),
    decreases s.len(),
{
    if s.len() > 0 {
        lemma_quoted_line(s.drop_last());
        assert(one_line(escape(s.last())));
    }
}

proof fn lemma_decimal_line(n: nat)
    ensures
        one_line(decimal(n)),
    decreases n,
{
    if n >= 10 {
        lemma_decimal_line(n / 10);
    }
}

proof fn lemma_joined_line(list: Seq<Seq<char>>)
    requires
        forall|i: int| 0 <= i < list.len() ==> one_line(#[trigger] list[i]),
    ensures
        one_line(joined(list, ","@)),
    decreases list.len(),
{
    reveal_strlit(",");
    if list.len() > 1 {
        lemma_joined_line(list.drop_last());
    }
}

/// What is written down stands on one line.
pub proof fn lemma_one_line(d: Doc)
    requires
        is_unbroken(d),
    ensures
        one_line(written(d)),
    decreases d,
{
    match d {
        Doc::Null => {
            reveal_strlit("null");
        },
        Doc::Text(s) => {
            lemma_quoted_line(s);
        },
        Doc::Count(n) => {
            lemma_decimal_line(n as nat);
        },
        Doc::Whole(n) => {
            lemma_decimal_line(if n < 0 {
                -n
            } else {
                n as int
            } as nat);
        },
        Doc::Decimal(_) => {},
        Doc::Array(a) => {
            reveal_strlit("[");
            reveal_strlit("]");
            let texts = element_texts(a);
            assert forall|i: int| 0 <= i < texts.len() implies one_line(#[trigger] texts[i]) by {
                lemma_one_line(a[i]);
            }
            lemma_joined_line(texts);
        },
        Doc::Object(m) => {
            reveal_strlit("{");
            reveal_strlit("}");
            reveal_strlit(":");
            let texts = member_texts(m);
            assert forall|i: int| 0 <= i < texts.len() implies one_line(#[trigger] texts[i]) by {
                lemma_one_line(m[i].1);
                lemma_quoted_line(m[i].0);
            }
            lemma_joined_line(texts);
        },
    }
}

/// A member is found by its name, where no member before it has the same name.
pub proof fn a_member_is_found_by_its_name(members: Seq<(Seq<char>, Tree)>, i: int)
    requires
        0 <= i < members.len(),
        forall|j: int| 0 <= j < i ==> (#[trigger] members[j]).0 != members[i].0,
    ensures
        Tree::Object(members).field(members[i].0) == members[i].1,
    decreases i,
{
    if i > 0 {
        let rest = members.drop_first();
        assert(members[0].0 != members[i].0);
        assert forall|j: int| 0 <= j < i - 1 implies (#[trigger] rest[j]).0 != rest[i - 1].0 by {
            assert(rest[j] == members[j + 1]);
        }
        a_member_is_found_by_its_name(rest, i - 1);
    }
}

} // verus!
