//! Text: the string operations that the rest of the library is stated in.
use vstd::prelude::*;

verus! {

/// `String::push` of std: one character is added at the end.
pub assume_specification[ String::push ](s: &mut String, c: char)
    ensures
        final(s)@ == old(s)@.push(c),
;

/// White space, as Unicode has it.
pub open spec fn is_space(c: char) -> bool {
    ||| 0x09 <= c as u32 <= 0x0d
    ||| c as u32 == 0x20
    ||| c as u32 == 0x85
    ||| c as u32 == 0xa0
    ||| c as u32 == 0x1680
    ||| 0x2000 <= c as u32 <= 0x200a
    ||| c as u32 == 0x2028
    ||| c as u32 == 0x2029
    ||| c as u32 == 0x202f
    ||| c as u32 == 0x205f
    ||| c as u32 == 0x3000
}

/// `s` without the leading characters that `p` holds of.
pub open spec fn after_leading(s: Seq<char>, p: spec_fn(char) -> bool) -> Seq<char>
    decreases s.len(),
{
    if s.len() > 0 && p(s[0]) {
        after_leading(s.drop_first(), p)
    } else {
        s
    }
}

/// `s` without the trailing characters that `p` holds of.
pub open spec fn before_trailing(s: Seq<char>, p: spec_fn(char) -> bool) -> Seq<char>
    decreases s.len(),
{
    if s.len() > 0 && p(s.last()) {
        before_trailing(s.drop_last(), p)
    } else {
        s
    }
}

/// `s` without white space at either end.
pub open spec fn trimmed(s: Seq<char>) -> Seq<char> {
    before_trailing(after_leading(s, |c: char| is_space(c)), |c: char| is_space(c))
}

/// The place of the first `c` in `s`; the length of `s` where there is none.
pub open spec fn place(s: Seq<char>, c: char) -> nat
    decreases s.len(),
{
    if s.len() == 0 || s[0] == c {
        0
    } else {
        1 + place(s.drop_first(), c)
    }
}

/// The parts of `s` between the separators `c`.
pub open spec fn parts(s: Seq<char>, c: char) -> Seq<Seq<char>>
    decreases s.len(),
{
    let i = place(s, c);
    if i >= s.len() {
        seq![s]
    } else {
        seq![s.take(i as int)] + parts(s.skip(i as int + 1), c)
    }
}

/// What stands before the first separator `c`, and what stands behind it.
pub fn split_once(s: &str, c: char) -> (r: Option<(String, String)>)
    ensures
        r is Some <==> place(s@, c) < s@.len(),
        r matches Some(p) ==> p.0@ == s@.take(place(s@, c) as int) && p.1@ == s@.skip(
            place(s@, c) as int + 1,
        ),
{
    let v = chars(s);
    for i in 0..v.len()
        invariant
            v@ == s@,
            forall|k: int| 0 <= k < i ==> v@[k] != c,
    {
        if v[i] == c {
            proof {
                lemma_place(s@, c, i as int);
                assert(v@.subrange(0, i as int) =~= s@.take(i as int));
                assert(v@.subrange(i + 1, v@.len() as int) =~= s@.skip(i + 1));
            }
            return Some((slice(&v, 0, i), slice(&v, i + 1, v.len())));
        }
    }
    proof {
        lemma_place(s@, c, s@.len() as int);
    }
    None
}

/// The texts in `list`, one after the other, with `sep` between each two.
pub open spec fn joined(list: Seq<Seq<char>>, sep: Seq<char>) -> Seq<char>
    decreases list.len(),
{
    if list.len() == 0 {
        Seq::empty()
    } else if list.len() == 1 {
        list[0]
    } else {
        joined(list.drop_last(), sep) + sep + list.last()
    }
}

/// `s` with every `from`, taken from the left and without overlap, replaced by `to`.
pub open spec fn replaced(s: Seq<char>, from: Seq<char>, to: Seq<char>) -> Seq<char>
    decreases s.len(),
{
    if from.len() == 0 || s.len() < from.len() {
        s
    } else if from.is_prefix_of(s) {
        to + replaced(s.skip(from.len() as int), from, to)
    } else {
        seq![s[0]] + replaced(s.drop_first(), from, to)
    }
}

/// Whether `a` comes before `b` in the order of a dictionary.
pub open spec fn precedes(a: Seq<char>, b: Seq<char>) -> bool
    decreases a.len(),
{
    if b.len() == 0 {
        false
    } else if a.len() == 0 {
        true
    } else if a[0] != b[0] {
        a[0] < b[0]
    } else {
        precedes(a.drop_first(), b.drop_first())
    }
}

/// How many bytes `c` takes in UTF-8.
pub open spec fn width(c: char) -> nat {
    if c as u32 <= 0x7f {
        1
    } else if c as u32 <= 0x7ff {
        2
    } else if c as u32 <= 0xffff {
        3
    } else {
        4
    }
}

/// How many bytes `s` takes in UTF-8.
pub open spec fn byte_len(s: Seq<char>) -> nat
    decreases s.len(),
{
    if s.len() == 0 {
        0
    } else {
        byte_len(s.drop_last()) + width(s.last())
    }
}

/// The digit of a number below ten.
pub open spec fn digit(n: nat) -> char {
    (48 + n) as char
}

/// A number in decimal notation.
pub open spec fn decimal(n: nat) -> Seq<char>
    decreases n,
{
    if n < 10 {
        seq![digit(n)]
    } else {
        decimal(n / 10).push(digit(n % 10))
    }
}

/// A number in decimal notation, with zeros in front up to `width` characters, the sign counted.
pub open spec fn padded(n: int, width: nat) -> Seq<char> {
    let sign = if n < 0 {
        seq!['-']
    } else {
        Seq::empty()
    };
    let digits = decimal(if n < 0 {
        -n
    } else {
        n
    } as nat);
    let given = sign.len() + digits.len();
    sign + Seq::new(
        if given < width {
            (width - given) as nat
        } else {
            0
        },
        |i: int| '0',
    ) + digits
}

pub open spec fn is_digit(c: char) -> bool {
    '0' <= c <= '9'
}

/// The value of a text of digits.
pub open spec fn value(s: Seq<char>) -> nat
    decreases s.len(),
{
    if s.len() == 0 {
        0
    } else {
        value(s.drop_last()) * 10 + (s.last() as u32 - 48) as nat
    }
}

/// The digits that `s` begins with.
pub open spec fn leading_digits(s: Seq<char>) -> Seq<char>
    decreases s.len(),
{
    if s.len() > 0 && is_digit(s[0]) {
        seq![s[0]] + leading_digits(s.drop_first())
    } else {
        Seq::empty()
    }
}

/// Why a text is not a whole number.
#[derive(Clone, Copy, Debug, PartialEq, Eq, Structural)]
pub enum NumberError {
    Empty,
    InvalidDigit,
    TooLarge,
}

/// The whole number, at most `max`, that `s` is the decimal notation of. One sign `+` is allowed.
pub open spec fn number(s: Seq<char>, max: nat) -> Result<nat, NumberError> {
    let body = if s.len() > 1 && s[0] == '+' {
        s.drop_first()
    } else {
        s
    };
    let digits = leading_digits(body);
    if s.len() == 0 {
        Err(NumberError::Empty)
    } else if value(digits) > max {
        Err(NumberError::TooLarge)
    } else if digits.len() < body.len() {
        Err(NumberError::InvalidDigit)
    } else {
        Ok(value(digits))
    }
}

/// The characters of `s`.
pub fn chars(s: &str) -> (v: Vec<char>)
    ensures
        v@ == s@,
{
    let mut v: Vec<char> = Vec::new();
    for c in it: s.chars()
        invariant
            v@ == s@.take(it.index() as int),
            it.seq() == s@,
    {
        v.push(c);
    }
    v
}

/// The text made of `v[from..to]`.
pub fn slice(v: &Vec<char>, from: usize, to: usize) -> (s: String)
    requires
        from <= to <= v@.len(),
    ensures
        s@ == v@.subrange(from as int, to as int),
{
    let mut s = String::new();
    let mut i = from;
    while i < to
        invariant
            from <= i <= to <= v@.len(),
            s@ == v@.subrange(from as int, i as int),
        decreases to - i,
    {
        s.push(v[i]);
        i += 1;
    }
    s
}

/// Whether the two texts are the same.
pub fn same(a: &str, b: &str) -> (r: bool)
    ensures
        r == (a@ == b@),
{
    let x = chars(a);
    let y = chars(b);
    if x.len() != y.len() {
        return false;
    }
    let mut i: usize = 0;
    while i < x.len()
        invariant
            i <= x@.len(),
            x@.len() == y@.len(),
            x@ == a@,
            y@ == b@,
            forall|j: int| 0 <= j < i ==> x@[j] == y@[j],
        decreases x@.len() - i,
    {
        if x[i] != y[i] {
            return false;
        }
        i += 1;
    }
    assert(x@ =~= y@);
    true
}

/// Whether `v` holds `p` at `at`.
fn found_at(v: &Vec<char>, at: usize, p: &Vec<char>) -> (r: bool)
    requires
        at + p@.len() <= v@.len(),
    ensures
        r == (v@.subrange(at as int, at + p@.len()) == p@),
{
    let mut i: usize = 0;
    let n = v.len();
    while i < p.len()
        invariant
            i <= p@.len(),
            at + p@.len() <= v@.len() == n,
            forall|j: int| 0 <= j < i ==> v@[at + j] == p@[j],
        decreases p@.len() - i,
    {
        if v[at + i] != p[i] {
            assert(v@.subrange(at as int, at + p@.len())[i as int] != p@[i as int]);
            return false;
        }
        i += 1;
    }
    assert(v@.subrange(at as int, at + p@.len()) =~= p@);
    true
}

/// Whether `s` begins with `p`.
pub fn starts_with(s: &str, p: &str) -> (r: bool)
    ensures
        r == p@.is_prefix_of(s@),
{
    let s = chars(s);
    let p = chars(p);
    p.len() <= s.len() && found_at(&s, 0, &p)
}

/// Whether `s` ends with `p`.
pub fn ends_with(s: &str, p: &str) -> (r: bool)
    ensures
        r == p@.is_suffix_of(s@),
{
    let s = chars(s);
    let p = chars(p);
    p.len() <= s.len() && found_at(&s, s.len() - p.len(), &p)
}

/// What follows `p` in `s`, where `s` begins with it.
pub fn strip_prefix(s: &str, p: &str) -> (r: Option<String>)
    ensures
        r is Some <==> p@.is_prefix_of(s@),
        r matches Some(t) ==> t@ == s@.skip(p@.len() as int),
{
    if starts_with(s, p) {
        let v = chars(s);
        let n = chars(p).len();
        Some(slice(&v, n, v.len()))
    } else {
        None
    }
}

fn is_space_char(c: char) -> (r: bool)
    ensures
        r == is_space(c),
{
    let n = c as u32;
    (0x09 <= n && n <= 0x0d) || n == 0x20 || n == 0x85 || n == 0xa0 || n == 0x1680 || (0x2000 <= n
        && n <= 0x200a) || n == 0x2028 || n == 0x2029 || n == 0x202f || n == 0x205f || n == 0x3000
}

/// `s` without white space at either end.
pub fn trim(s: &str) -> (r: String)
    ensures
        r@ == trimmed(s@),
{
    let v = chars(s);
    let ghost space = |c: char| is_space(c);
    let mut from: usize = 0;
    assert(v@.skip(0) =~= v@);
    while from < v.len() && is_space_char(v[from])
        invariant
            from <= v@.len(),
            after_leading(v@.skip(from as int), space) == after_leading(v@, space),
            space == (|c: char| is_space(c)),
        decreases v@.len() - from,
    {
        assert(v@.skip(from as int).drop_first() =~= v@.skip(from + 1));
        from += 1;
    }
    let mut to: usize = v.len();
    let ghost rest = v@.skip(from as int);
    assert(v@.subrange(from as int, to as int) =~= rest);
    while to > from && is_space_char(v[to - 1])
        invariant
            from <= to <= v@.len(),
            before_trailing(v@.subrange(from as int, to as int), space) == before_trailing(
                rest,
                space,
            ),
            space == (|c: char| is_space(c)),
        decreases to - from,
    {
        assert(v@.subrange(from as int, to as int).drop_last() =~= v@.subrange(
            from as int,
            to - 1,
        ));
        to -= 1;
    }
    slice(&v, from, to)
}

/// `s` without white space at its end.
pub fn trim_end(s: &str) -> (r: String)
    ensures
        r@ == before_trailing(s@, |c: char| is_space(c)),
{
    let v = chars(s);
    let ghost space = |c: char| is_space(c);
    let mut to: usize = v.len();
    assert(v@.take(to as int) =~= v@);
    while to > 0 && is_space_char(v[to - 1])
        invariant
            to <= v@.len(),
            before_trailing(v@.take(to as int), space) == before_trailing(v@, space),
            space == (|c: char| is_space(c)),
        decreases to,
    {
        assert(v@.take(to as int).drop_last() =~= v@.take(to - 1));
        to -= 1;
    }
    slice(&v, 0, to)
}

/// `s` without the characters `c` that it ends with.
pub fn trim_end_matches(s: &str, c: char) -> (r: String)
    ensures
        r@ == before_trailing(s@, |x: char| x == c),
{
    let v = chars(s);
    let ghost p = |x: char| x == c;
    let mut to: usize = v.len();
    assert(v@.take(to as int) =~= v@);
    while to > 0 && v[to - 1] == c
        invariant
            to <= v@.len(),
            before_trailing(v@.take(to as int), p) == before_trailing(v@, p),
            p == (|x: char| x == c),
        decreases to,
    {
        assert(v@.take(to as int).drop_last() =~= v@.take(to - 1));
        to -= 1;
    }
    slice(&v, 0, to)
}

/// `s` without the characters `c` that it begins with.
pub fn trim_start_matches(s: &str, c: char) -> (r: String)
    ensures
        r@ == after_leading(s@, |x: char| x == c),
{
    let v = chars(s);
    let ghost p = |x: char| x == c;
    let mut from: usize = 0;
    assert(v@.skip(0) =~= v@);
    while from < v.len() && v[from] == c
        invariant
            from <= v@.len(),
            after_leading(v@.skip(from as int), p) == after_leading(v@, p),
            p == (|x: char| x == c),
        decreases v@.len() - from,
    {
        assert(v@.skip(from as int).drop_first() =~= v@.skip(from + 1));
        from += 1;
    }
    slice(&v, from, v.len())
}

proof fn lemma_place(s: Seq<char>, c: char, i: int)
    requires
        0 <= i <= s.len(),
        forall|j: int| 0 <= j < i ==> s[j] != c,
        i == s.len() || s[i] == c,
    ensures
        place(s, c) == i,
    decreases s.len(),
{
    if i > 0 {
        lemma_place(s.drop_first(), c, i - 1);
    }
}

/// The views of a list of texts.
pub open spec fn views(v: Seq<String>) -> Seq<Seq<char>> {
    v.map_values(|s: String| s@)
}

/// The parts of `s` between the separators `c`.
pub fn split(s: &str, c: char) -> (r: Vec<String>)
    ensures
        views(r@) == parts(s@, c),
        r@.len() >= 1,
{
    let v = chars(s);
    let mut out: Vec<String> = Vec::new();
    let mut from: usize = 0;
    let mut i: usize = 0;
    assert(v@.skip(0) =~= v@);
    assert(views(out@) =~= Seq::empty());
    while i < v.len()
        invariant
            from <= i <= v@.len(),
            views(out@) + parts(v@.skip(from as int), c) =~= parts(v@, c),
            forall|j: int| from <= j < i ==> v@[j] != c,
        decreases v@.len() - i,
    {
        if v[i] == c {
            proof {
                lemma_place(v@.skip(from as int), c, i - from);
                assert(v@.skip(from as int).take(i - from) =~= v@.subrange(from as int, i as int));
                assert(v@.skip(from as int).skip(i - from + 1) =~= v@.skip(i + 1));
            }
            let part = slice(&v, from, i);
            let ghost before = out@;
            out.push(part);
            assert(views(out@) =~= views(before).push(part@));
            from = i + 1;
        }
        i += 1;
    }
    proof {
        lemma_place(v@.skip(from as int), c, v@.len() - from);
        assert(v@.skip(from as int) =~= v@.subrange(from as int, v@.len() as int));
    }
    let part = slice(&v, from, v.len());
    let ghost before = out@;
    out.push(part);
    assert(views(out@) =~= views(before).push(part@));
    out
}

/// The texts in `list`, one after the other, with `sep` between each two.
pub fn join(list: &Vec<String>, sep: &str) -> (r: String)
    ensures
        r@ == joined(views(list@), sep@),
{
    let mut out = String::new();
    let mut i: usize = 0;
    let ghost all = views(list@);
    assert(all.take(0) =~= Seq::empty());
    while i < list.len()
        invariant
            i <= list@.len(),
            all == views(list@),
            out@ == joined(all.take(i as int), sep@),
        decreases list@.len() - i,
    {
        if i > 0 {
            out.append(sep);
        }
        out.append(list[i].as_str());
        assert(all.take(i + 1).drop_last() =~= all.take(i as int));
        assert(all.take(1)[0] == all[0]);
        assert(out@ =~= joined(all.take(i + 1), sep@));
        i += 1;
    }
    assert(all.take(list@.len() as int) =~= all);
    out
}

/// `s` with every `from` replaced by `to`.
pub fn replace(s: &str, from: &str, to: &str) -> (r: String)
    requires
        from@.len() > 0,
    ensures
        r@ == replaced(s@, from@, to@),
{
    let v = chars(s);
    let p = chars(from);
    let mut out = String::new();
    let mut i: usize = 0;
    assert(v@.skip(0) =~= v@);
    assert(out@ + replaced(v@, p@, to@) =~= replaced(v@, p@, to@));
    while i < v.len() && p.len() <= v.len() - i
        invariant
            i <= v@.len(),
            p@.len() > 0,
            out@ + replaced(v@.skip(i as int), p@, to@) == replaced(v@, p@, to@),
        decreases v@.len() - i,
    {
        let ghost rest = v@.skip(i as int);
        let ghost before = out@;
        if found_at(&v, i, &p) {
            assert(v@.subrange(i as int, i + p@.len()) =~= rest.take(p@.len() as int));
            assert(p@.is_prefix_of(rest));
            out.append(to);
            assert(rest.skip(p@.len() as int) =~= v@.skip(i + p@.len()));
            i += p.len();
            assert(out@ + replaced(v@.skip(i as int), p@, to@) =~= before + replaced(
                rest,
                p@,
                to@,
            ));
        } else {
            assert(v@.subrange(i as int, i + p@.len()) =~= rest.take(p@.len() as int));
            assert(!p@.is_prefix_of(rest));
            out.push(v[i]);
            assert(rest.drop_first() =~= v@.skip(i + 1));
            i += 1;
            assert(out@ + replaced(v@.skip(i as int), p@, to@) =~= before + replaced(
                rest,
                p@,
                to@,
            ));
        }
    }
    out.append(slice(&v, i, v.len()).as_str());
    assert(v@.subrange(i as int, v@.len() as int) =~= v@.skip(i as int));
    out
}

/// Whether `a` comes before `b` in the order of a dictionary.
pub fn is_before(a: &str, b: &str) -> (r: bool)
    ensures
        r == precedes(a@, b@),
{
    let x = chars(a);
    let y = chars(b);
    let mut i: usize = 0;
    assert(x@.skip(0) =~= x@);
    assert(y@.skip(0) =~= y@);
    while i < x.len() && i < y.len()
        invariant
            i <= x@.len(),
            i <= y@.len(),
            x@ == a@,
            y@ == b@,
            precedes(x@.skip(i as int), y@.skip(i as int)) == precedes(x@, y@),
        decreases x@.len() - i,
    {
        if x[i] != y[i] {
            return x[i] < y[i];
        }
        assert(x@.skip(i as int).drop_first() =~= x@.skip(i + 1));
        assert(y@.skip(i as int).drop_first() =~= y@.skip(i + 1));
        i += 1;
    }
    i < y.len()
}

fn digit_char(n: u64) -> (c: char)
    requires
        n < 10,
    ensures
        c == digit(n as nat),
{
    (48 + n as u8) as char
}

/// A number in decimal notation.
pub fn to_decimal(n: u64) -> (r: String)
    ensures
        r@ == decimal(n as nat),
    decreases n,
{
    let mut s = if n < 10 {
        String::new()
    } else {
        to_decimal(n / 10)
    };
    s.push(digit_char(n % 10));
    assert(s@ =~= decimal(n as nat));
    s
}

/// A number in decimal notation, with zeros in front up to `width` characters.
pub fn to_padded(n: i64, width: usize) -> (r: String)
    ensures
        r@ == padded(n as int, width as nat),
{
    let abs: u64 = if n < 0 {
        (-(n + 1)) as u64 + 1
    } else {
        n as u64
    };
    let digits = to_decimal(abs);
    let mut given: usize = chars(digits.as_str()).len();
    let mut s = String::new();
    if n < 0 {
        s.push('-');
        proof {
            lemma_decimal_len(abs as nat);
        }
        given += 1;
    }
    let ghost sign = s@;
    let ghost first = given;
    assert(s@ =~= sign + Seq::new(0, |i: int| '0'));
    while given < width
        invariant
            first <= given,
            given <= width || given == first,
            s@ =~= sign + Seq::new((given - first) as nat, |i: int| '0'),
        decreases width - given,
    {
        s.push('0');
        given += 1;
    }
    s.append(digits.as_str());
    s
}

proof fn lemma_decimal_len(n: nat)
    requires
        n <= u64::MAX,
    ensures
        1 <= decimal(n).len() <= 20,
{
    reveal_with_fuel(decimal, 21);
}

/// The whole number, at most `max`, that `s` is the decimal notation of.
pub fn parse_number(s: &str, max: u64) -> (r: Result<u64, NumberError>)
    ensures
        match number(s@, max as nat) {
            Ok(n) => r == Ok::<u64, NumberError>(n as u64) && n <= max,
            Err(e) => r == Err::<u64, NumberError>(e),
        },
{
    let v = chars(s);
    if v.len() == 0 {
        return Err(NumberError::Empty);
    }
    let start: usize = if v.len() > 1 && v[0] == '+' {
        1
    } else {
        0
    };
    let ghost body = v@.skip(start as int);
    assert(start == 1 ==> body =~= v@.drop_first());
    assert(start == 0 ==> body =~= v@);
    let mut i: usize = start;
    let mut n: u64 = 0;
    assert(body.take(0) =~= Seq::empty());
    assert(body.skip(0) =~= body);
    assert(leading_digits(body) =~= body.take(0) + leading_digits(body.skip(0)));
    while i < v.len() && '0' <= v[i] && v[i] <= '9'
        invariant
            start <= i <= v@.len(),
            body == v@.skip(start as int),
            leading_digits(body) == body.take(i - start) + leading_digits(body.skip(i - start)),
            n == value(body.take(i - start)),
            n <= max,
            v@ == s@,
            s@.len() > 0,
            start == if s@.len() > 1 && s@[0] == '+' { 1int } else { 0int },
            start == 1 ==> body == s@.drop_first(),
            start == 0 ==> body == s@,
        decreases v@.len() - i,
    {
        let d = v[i] as u32 as u64 - 48;
        let ghost k = i - start;
        proof {
            assert(body.skip(k).drop_first() =~= body.skip(k + 1));
            assert(body.take(k + 1).drop_last() =~= body.take(k));
            assert(leading_digits(body) =~= body.take(k + 1) + leading_digits(body.skip(k + 1)));
            assert(value(body.take(k + 1)) == n * 10 + d);
            lemma_leading_digits(body.skip(k + 1));
            lemma_value_grows(body.take(k + 1), leading_digits(body.skip(k + 1)));
        }
        if n as u128 * 10 + d as u128 > max as u128 {
            return Err(NumberError::TooLarge);
        }
        n = n * 10 + d;
        i += 1;
    }
    assert(leading_digits(body.skip(i - start)) =~= Seq::empty());
    assert(leading_digits(body) =~= body.take(i - start));
    if i < v.len() {
        return Err(NumberError::InvalidDigit);
    }
    Ok(n)
}

proof fn lemma_leading_digits(s: Seq<char>)
    ensures
        forall|j: int| 0 <= j < leading_digits(s).len() ==> is_digit(#[trigger] leading_digits(s)[j]),
    decreases s.len(),
{
    if s.len() > 0 && is_digit(s[0]) {
        lemma_leading_digits(s.drop_first());
        let rest = leading_digits(s.drop_first());
        assert forall|j: int| 0 <= j < leading_digits(s).len() implies is_digit(
            #[trigger] leading_digits(s)[j],
        ) by {
            if j > 0 {
                assert(is_digit(rest[j - 1]));
            }
        }
    }
}

proof fn lemma_value_grows(a: Seq<char>, b: Seq<char>)
    requires
        forall|j: int| 0 <= j < b.len() ==> is_digit(#[trigger] b[j]),
    ensures
        value(a + b) >= value(a),
    decreases b.len(),
{
    if b.len() == 0 {
        assert(a + b =~= a);
    } else {
        assert((a + b).drop_last() =~= a + b.drop_last());
        lemma_value_grows(a, b.drop_last());
    }
}

/// The text that the first `n` bytes of `s` are; none where `s` is shorter, or where they end
/// inside a character.
pub open spec fn first_bytes(s: Seq<char>, n: nat) -> Option<Seq<char>>
    decreases s.len(),
{
    if n == 0 {
        Some(Seq::empty())
    } else if s.len() == 0 || width(s[0]) > n {
        None
    } else {
        match first_bytes(s.drop_first(), (n - width(s[0])) as nat) {
            Some(r) => Some(seq![s[0]] + r),
            None => None,
        }
    }
}

fn char_width(c: char) -> (r: usize)
    ensures
        r == width(c),
{
    let n = c as u32;
    if n <= 0x7f {
        1
    } else if n <= 0x7ff {
        2
    } else if n <= 0xffff {
        3
    } else {
        4
    }
}

/// The text that the first `n` bytes of `s` are.
pub fn prefix(s: &str, n: usize) -> (r: Option<String>)
    ensures
        match r {
            Some(t) => first_bytes(s@, n as nat) == Some(t@),
            None => first_bytes(s@, n as nat) is None,
        },
{
    let v = chars(s);
    let mut i: usize = 0;
    let mut left: usize = n;
    assert(v@.skip(0) =~= v@);
    proof {
        if let Some(r) = first_bytes(v@, n as nat) {
            assert(v@.take(0) + r =~= r);
        }
    }
    while left > 0
        invariant
            i <= v@.len(),
            v@ == s@,
            match first_bytes(v@.skip(i as int), left as nat) {
                Some(r) => first_bytes(v@, n as nat) == Some(v@.take(i as int) + r),
                None => first_bytes(v@, n as nat) is None,
            },
        decreases left,
    {
        if i >= v.len() {
            return None;
        }
        let w = char_width(v[i]);
        if w > left {
            return None;
        }
        proof {
            assert(v@.skip(i as int).drop_first() =~= v@.skip(i + 1));
            if let Some(r) = first_bytes(v@.skip(i + 1), (left - w) as nat) {
                assert(v@.take(i as int) + (seq![v@[i as int]] + r) =~= v@.take(i + 1) + r);
            }
        }
        left -= w;
        i += 1;
    }
    let r = slice(&v, 0, i);
    assert(r@ =~= v@.take(i as int) + Seq::<char>::empty());
    Some(r)
}

proof fn lemma_byte_len_grows(s: Seq<char>, i: int)
    requires
        0 <= i <= s.len(),
    ensures
        byte_len(s.take(i)) <= byte_len(s),
    decreases s.len() - i,
{
    if i == s.len() {
        assert(s.take(i) =~= s);
    } else {
        assert(s.take(i + 1).drop_last() =~= s.take(i));
        lemma_byte_len_grows(s, i + 1);
    }
}

/// Whether `s` takes exactly `n` bytes.
pub fn takes_bytes(s: &str, n: usize) -> (r: bool)
    ensures
        r == (byte_len(s@) == n),
{
    let v = chars(s);
    let mut left: usize = n;
    for i in 0..v.len()
        invariant
            v@ == s@,
            left <= n,
            n - left == byte_len(v@.take(i as int)),
    {
        let w: usize = char_width(v[i]);
        proof {
            assert(v@.take(i + 1).drop_last() =~= v@.take(i as int));
            lemma_byte_len_grows(v@, i + 1);
        }
        if w > left {
            return false;
        }
        left -= w;
    }
    assert(v@.take(v@.len() as int) =~= v@);
    left == 0
}

/// The view of an optional text.
pub open spec fn opt(s: Option<String>) -> Option<Seq<char>> {
    match s {
        Some(t) => Some(t@),
        None => None,
    }
}

/// A text, or nothing where there is none.
pub open spec fn or_empty(s: Option<Seq<char>>) -> Seq<char> {
    match s {
        Some(t) => t,
        None => Seq::empty(),
    }
}

/// The first text of the list that `p` holds of.
pub open spec fn first_where(list: Seq<Seq<char>>, p: spec_fn(Seq<char>) -> bool) -> Option<
    Seq<char>,
>
    decreases list.len(),
{
    if list.len() == 0 {
        None
    } else if p(list[0]) {
        Some(list[0])
    } else {
        first_where(list.drop_first(), p)
    }
}

/// A copy of an optional text.
pub fn copy_opt(s: &Option<String>) -> (r: Option<String>)
    ensures
        opt(r) == opt(*s),
{
    match s {
        Some(t) => Some(t.clone()),
        None => None,
    }
}

/// The parts of a text put together again are the text.
pub proof fn joined_parts_are_the_text(s: Seq<char>, c: char)
    ensures
        joined(parts(s, c), seq![c]) == s,
        forall|i: int| 0 <= i < parts(s, c).len() ==> !(#[trigger] parts(s, c)[i]).contains(c),
    decreases s.len(),
{
    let i = place(s, c);
    lemma_place_found(s, c);
    if i < s.len() {
        let rest = s.skip(i as int + 1);
        joined_parts_are_the_text(rest, c);
        lemma_joined_front(s.take(i as int), parts(rest, c), seq![c]);
        assert(s =~= s.take(i as int) + seq![c] + rest);
        assert forall|k: int| 0 <= k < parts(s, c).len() implies !(#[trigger] parts(
            s,
            c,
        )[k]).contains(c) by {
            if k > 0 {
                assert(parts(s, c)[k] == parts(rest, c)[k - 1]);
            }
        }
    } else {
        assert(s.take(i as int) =~= s);
    }
}

proof fn lemma_place_found(s: Seq<char>, c: char)
    ensures
        place(s, c) <= s.len(),
        place(s, c) < s.len() ==> s[place(s, c) as int] == c,
        !s.take(place(s, c) as int).contains(c),
    decreases s.len(),
{
    if s.len() > 0 && s[0] != c {
        let rest = s.drop_first();
        lemma_place_found(rest, c);
        let n = place(s, c) as int;
        assert forall|j: int| 0 <= j < n implies #[trigger] s.take(n)[j] != c by {
            if j > 0 {
                assert(rest.take(n - 1)[j - 1] == s[j]);
            }
        }
    }
}

proof fn lemma_joined_front(first: Seq<char>, rest: Seq<Seq<char>>, sep: Seq<char>)
    requires
        rest.len() >= 1,
    ensures
        joined(seq![first] + rest, sep) == first + sep + joined(rest, sep),
    decreases rest.len(),
{
    let all = seq![first] + rest;
    if rest.len() == 1 {
        assert(all.drop_last() =~= seq![first]);
        assert(joined(seq![first], sep) == first);
    } else {
        lemma_joined_front(first, rest.drop_last(), sep);
        assert(all.drop_last() =~= seq![first] + rest.drop_last());
        assert(joined(all, sep) =~= first + sep + joined(rest, sep));
    }
}

/// A line without a carriage return at its end.
pub open spec fn chomped(line: Seq<char>) -> Seq<char> {
    if line.len() > 0 && line.last() == '\r' {
        line.drop_last()
    } else {
        line
    }
}

/// The lines of a text: each ends in a line feed, or in a carriage return and a line feed, but the
/// last one may go without.
pub open spec fn lines_in(s: Seq<char>) -> Seq<Seq<char>>
    decreases s.len(),
{
    let i = place(s, '\n');
    if i < s.len() {
        seq![chomped(s.take(i as int))] + lines_in(s.skip(i as int + 1))
    } else if s.len() > 0 {
        seq![s]
    } else {
        Seq::empty()
    }
}

/// The lines of a text.
pub fn lines(s: &str) -> (r: Vec<String>)
    ensures
        views(r@) == lines_in(s@),
{
    let v = chars(s);
    let mut out: Vec<String> = Vec::new();
    let mut from: usize = 0;
    proof {
        assert(v@.skip(0) =~= v@);
        assert(views(out@) =~= Seq::empty());
        assert(lines_in(v@) =~= Seq::empty() + lines_in(v@));
    }
    for i in 0..v.len()
        invariant
            v@ == s@,
            from <= i <= v@.len(),
            forall|j: int| from <= j < i ==> #[trigger] v@[j] != '\n',
            lines_in(v@) == views(out@) + lines_in(v@.skip(from as int)),
    {
        if v[i] == '\n' {
            let ghost rest = v@.skip(from as int);
            let ghost before = views(out@);
            proof {
                lemma_place(rest, '\n', i - from);
                assert(rest.take(i - from) =~= v@.subrange(from as int, i as int));
                assert(rest.skip(i - from + 1) =~= v@.skip(i + 1));
                if i > from {
                    assert(v@.subrange(from as int, i as int).drop_last() =~= v@.subrange(
                        from as int,
                        i - 1,
                    ));
                }
            }
            let end = if i > from && v[i - 1] == '\r' {
                i - 1
            } else {
                i
            };
            let line = slice(&v, from, end);
            out.push(line);
            from = i + 1;
            proof {
                assert(views(out@) =~= before.push(chomped(rest.take(place(rest, '\n') as int))));
                assert(views(out@) + lines_in(v@.skip(from as int)) =~= before + lines_in(rest));
            }
        }
    }
    let ghost rest = v@.skip(from as int);
    let ghost before = views(out@);
    proof {
        lemma_place(rest, '\n', rest.len() as int);
        assert(rest =~= v@.subrange(from as int, v@.len() as int));
    }
    if from < v.len() {
        let line = slice(&v, from, v.len());
        out.push(line);
    }
    proof {
        assert(views(out@) =~= before + lines_in(rest));
    }
    out
}

/// A hexadecimal digit.
pub open spec fn hex_digit(n: int) -> char {
    if n < 10 {
        (48 + n) as char
    } else {
        (87 + n) as char
    }
}

/// A hexadecimal digit.
pub fn to_hex_digit(n: u8) -> (r: char)
    requires
        n < 16,
    ensures
        r == hex_digit(n as int),
{
    if n < 10 {
        (48 + n) as char
    } else {
        (87 + n) as char
    }
}

/// Texts that are put together with a separator that none of them holds are taken apart again.
pub proof fn joined_texts_are_taken_apart(list: Seq<Seq<char>>, c: char)
    requires
        list.len() > 0,
        forall|i: int| 0 <= i < list.len() ==> !(#[trigger] list[i]).contains(c),
    ensures
        parts(joined(list, seq![c]), c) == list,
    decreases list.len(),
{
    let s = joined(list, seq![c]);
    let first = list[0];
    assert forall|j: int| 0 <= j < first.len() implies #[trigger] first[j] != c by {
        assert(first.contains(first[j]));
    }
    if list.len() == 1 {
        lemma_place(s, c, s.len() as int);
        assert(parts(s, c) =~= list);
    } else {
        let rest = list.drop_first();
        assert forall|i: int| 0 <= i < rest.len() implies !(#[trigger] rest[i]).contains(c) by {
            assert(rest[i] == list[i + 1]);
        }
        joined_texts_are_taken_apart(rest, c);
        assert(list =~= seq![first] + rest);
        lemma_joined_front(first, rest, seq![c]);
        let n = first.len() as int;
        assert(forall|j: int| 0 <= j < n ==> s[j] == first[j]);
        lemma_place(s, c, n);
        assert(s.take(n) =~= first);
        assert(s.skip(n + 1) =~= joined(rest, seq![c]));
        assert(parts(s, c) =~= list);
    }
}

/// Texts that stand on lines of their own are read back line by line, where none of them holds a
/// line feed or ends in a carriage return.
pub proof fn ended_lines_are_read_back(list: Seq<Seq<char>>)
    requires
        list.len() > 0,
        forall|i: int|
            0 <= i < list.len() ==> !(#[trigger] list[i]).contains('\n') && chomped(list[i])
                == list[i],
    ensures
        lines_in(joined(list, seq!['\n']) + seq!['\n']) == list,
    decreases list.len(),
{
    let s = joined(list, seq!['\n']) + seq!['\n'];
    let first = list[0];
    let n = first.len() as int;
    assert(!first.contains('\n') && chomped(first) == first);
    assert forall|j: int| 0 <= j < n implies #[trigger] first[j] != '\n' by {
        assert(first.contains(first[j]));
    }
    if list.len() == 1 {
        assert(forall|j: int| 0 <= j < n ==> s[j] == first[j]);
        lemma_place(s, '\n', n);
        assert(s.take(n) =~= first);
        assert(s.skip(n + 1) =~= Seq::empty());
        assert(lines_in(s.skip(n + 1)) =~= Seq::empty());
        assert(lines_in(s) =~= list);
    } else {
        let rest = list.drop_first();
        assert forall|i: int| 0 <= i < rest.len() implies !(#[trigger] rest[i]).contains('\n')
            && chomped(rest[i]) == rest[i] by {
            assert(rest[i] == list[i + 1]);
        }
        ended_lines_are_read_back(rest);
        assert(list =~= seq![first] + rest);
        lemma_joined_front(first, rest, seq!['\n']);
        assert(s =~= first + seq!['\n'] + (joined(rest, seq!['\n']) + seq!['\n']));
        assert(forall|j: int| 0 <= j < n ==> s[j] == first[j]);
        lemma_place(s, '\n', n);
        assert(s.take(n) =~= first);
        assert(s.skip(n + 1) =~= joined(rest, seq!['\n']) + seq!['\n']);
        assert(lines_in(s) =~= list);
    }
}

/// What stands at the end of a text and nowhere before is replaced there.
pub proof fn an_ending_is_replaced(stem: Seq<char>, from: Seq<char>, to: Seq<char>)
    requires
        from.len() > 0,
        forall|k: int|
            0 <= k < stem.len() ==> !from.is_prefix_of(#[trigger] (stem + from).skip(k)),
    ensures
        replaced(stem + from, from, to) == stem + to,
    decreases stem.len(),
{
    let s = stem + from;
    if stem.len() == 0 {
        assert(s =~= from);
        assert(from.is_prefix_of(s));
        assert(s.skip(from.len() as int) =~= Seq::empty());
        assert(replaced(Seq::empty(), from, to) == Seq::<char>::empty());
        assert(to + Seq::<char>::empty() =~= stem + to);
    } else {
        let rest = stem.drop_first();
        assert(s.skip(0) =~= s);
        assert(!from.is_prefix_of(s.skip(0)));
        assert(s.drop_first() =~= rest + from);
        assert forall|k: int| 0 <= k < rest.len() implies !from.is_prefix_of(
            #[trigger] (rest + from).skip(k),
        ) by {
            assert((rest + from).skip(k) =~= s.skip(k + 1));
        }
        an_ending_is_replaced(rest, from, to);
        assert(seq![s[0]] + (rest + to) =~= stem + to);
    }
}

/// A text that lacks a character of what is to be replaced stays as it is.
pub proof fn nothing_is_replaced_where_a_character_is_missing(
    s: Seq<char>,
    from: Seq<char>,
    to: Seq<char>,
    c: char,
)
    requires
        from.contains(c),
        !s.contains(c),
    ensures
        replaced(s, from, to) == s,
    decreases s.len(),
{
    if from.len() > 0 && s.len() >= from.len() {
        let k = choose|k: int| 0 <= k < from.len() && from[k] == c;
        assert(s.contains(s[k]));
        assert forall|j: int| 0 <= j < s.drop_first().len() implies s.drop_first()[j] != c by {
            assert(s.contains(s[j + 1]));
        }
        nothing_is_replaced_where_a_character_is_missing(s.drop_first(), from, to, c);
        assert(seq![s[0]] + s.drop_first() =~= s);
    }
}

/// Two texts with a separator between them are told from two others, where neither of the last ones
/// holds it.
pub proof fn a_pair_is_told_by_its_separator(
    a: Seq<char>,
    b: Seq<char>,
    x: Seq<char>,
    y: Seq<char>,
    c: char,
)
    requires
        !b.contains(c),
        !y.contains(c),
    ensures
        a + seq![c] + b == x + seq![c] + y <==> a == x && b == y,
{
    let s = a + seq![c] + b;
    let t = x + seq![c] + y;
    if s == t {
        assert(s.len() == a.len() + 1 + b.len() && t.len() == x.len() + 1 + y.len());
        if a.len() < x.len() {
            assert(s[x.len() as int] == b[x.len() - a.len() - 1]);
            assert(t[x.len() as int] == c);
            assert(b.contains(c));
        }
        if x.len() < a.len() {
            assert(t[a.len() as int] == y[a.len() - x.len() - 1]);
            assert(s[a.len() as int] == c);
            assert(y.contains(c));
        }
        assert(a =~= x) by {
            assert forall|i: int| 0 <= i < a.len() implies a[i] == x[i] by {
                assert(s[i] == a[i] && t[i] == x[i]);
            }
        }
        assert(b =~= y) by {
            assert forall|i: int| 0 <= i < b.len() implies b[i] == y[i] by {
                assert(s[a.len() + 1 + i] == b[i] && t[x.len() + 1 + i] == y[i]);
            }
        }
    }
}

/// The first bytes of a text are a beginning of it, and as many as were asked for.
pub proof fn the_first_bytes_are_a_beginning(s: Seq<char>, n: nat)
    ensures
        first_bytes(s, n) matches Some(r) ==> r.is_prefix_of(s) && byte_len(r) == n,
    decreases s.len(),
{
    if n > 0 && s.len() > 0 && width(s[0]) <= n {
        let left = (n - width(s[0])) as nat;
        the_first_bytes_are_a_beginning(s.drop_first(), left);
        if first_bytes(s.drop_first(), left) is Some {
            let r = first_bytes(s.drop_first(), left)->0;
            let all = seq![s[0]] + r;
            assert forall|i: int| 0 <= i < all.len() implies all[i] == s[i] by {
                if i > 0 {
                    assert(r[i - 1] == s.drop_first()[i - 1]);
                }
            }
            lemma_byte_len_front(s[0], r);
        }
    }
}

proof fn lemma_byte_len_front(c: char, s: Seq<char>)
    ensures
        byte_len(seq![c] + s) == width(c) + byte_len(s),
    decreases s.len(),
{
    let all = seq![c] + s;
    if s.len() == 0 {
        reveal_with_fuel(byte_len, 2);
        assert(all =~= seq![c]);
        assert(all.drop_last() =~= Seq::empty());
    } else {
        lemma_byte_len_front(c, s.drop_last());
        assert(all.drop_last() =~= seq![c] + s.drop_last());
    }
}

/// The first of some texts that meet a test is one of them and meets it, and none before it does.
pub proof fn the_first_comes_before_the_others(
    list: Seq<Seq<char>>,
    p: spec_fn(Seq<char>) -> bool,
)
    ensures
        first_where(list, p) is None <==> forall|i: int| 0 <= i < list.len() ==> !p(#[trigger] list[i]),
        first_where(list, p) matches Some(x) ==> p(x) && exists|i: int|
            0 <= i < list.len() && #[trigger] list[i] == x && forall|j: int|
                0 <= j < i ==> !p(#[trigger] list[j]),
    decreases list.len(),
{
    if list.len() > 0 && !p(list[0]) {
        let rest = list.drop_first();
        the_first_comes_before_the_others(rest, p);
        if first_where(list, p) is None {
            assert forall|i: int| 0 <= i < list.len() implies !p(#[trigger] list[i]) by {
                if i > 0 {
                    assert(rest[i - 1] == list[i]);
                }
            }
        } else {
            let x = first_where(list, p)->0;
            let i = choose|i: int|
                0 <= i < rest.len() && #[trigger] rest[i] == x && forall|j: int|
                    0 <= j < i ==> !p(#[trigger] rest[j]);
            assert(list[i + 1] == x);
            assert forall|j: int| 0 <= j < i + 1 implies !p(#[trigger] list[j]) by {
                if j > 0 {
                    assert(rest[j - 1] == list[j]);
                }
            }
        }
    }
}

/// A whole number is read back from its own notation, where it is no larger than what is allowed.
pub proof fn a_number_is_read_back(n: nat, max: nat)
    ensures
        n <= max ==> number(decimal(n), max) == Ok::<nat, NumberError>(n),
        n > max ==> number(decimal(n), max) == Err::<nat, NumberError>(NumberError::TooLarge),
        trimmed(decimal(n)) == decimal(n),
        forall|i: int| 0 <= i < decimal(n).len() ==> is_digit(#[trigger] decimal(n)[i]),
{
    let d = decimal(n);
    lemma_decimal_digits(n);
    lemma_all_digits(d);
    assert(is_digit(d[0]) && is_digit(d[d.len() - 1]));
}

proof fn lemma_decimal_digits(n: nat)
    ensures
        decimal(n).len() > 0,
        value(decimal(n)) == n,
        forall|i: int| 0 <= i < decimal(n).len() ==> is_digit(#[trigger] decimal(n)[i]),
    decreases n,
{
    let d = decimal(n);
    if n >= 10 {
        lemma_decimal_digits(n / 10);
        assert(d.drop_last() =~= decimal(n / 10));
    } else {
        assert(d.drop_last() =~= Seq::empty());
        reveal_with_fuel(value, 2);
    }
}

proof fn lemma_all_digits(s: Seq<char>)
    requires
        forall|i: int| 0 <= i < s.len() ==> is_digit(#[trigger] s[i]),
    ensures
        leading_digits(s) == s,
    decreases s.len(),
{
    if s.len() > 0 {
        let t = s.drop_first();
        assert forall|i: int| 0 <= i < t.len() implies is_digit(#[trigger] t[i]) by {
            assert(t[i] == s[i + 1]);
        }
        lemma_all_digits(t);
        assert(is_digit(s[0]));
        assert(seq![s[0]] + t =~= s);
    }
}

} // verus!
