//! The scene list that a campaign runs from.
//!
//! A manifest holds every scene of an area once, with the cloud threshold not applied, so one file
//! serves any threshold and any shard. It is compressed text: a header line, then a line for each
//! scene. A manifest is checked rather than trusted: it fits a run where it names the same
//! catalogue and the same area file and covers at least the window asked for, and anything else is
//! an error that says which of those failed.
use crate::calendar::{dates_sort_as_text, iso, Date};
use crate::stac::{item_views, Item, ItemView};
use crate::text::{
    decimal, hex_digit, is_before, opt, precedes, same, to_decimal, to_hex_digit, trim, trimmed,
    views,
};
use vstd::prelude::*;
use vstd::utf8::{
    decode_utf8, encode_scalar, encode_utf8, encode_utf8_decode_utf8, encode_utf8_first_scalar,
    encode_utf8_valid_utf8, valid_utf8,
};

verus! {

/// The version of the layout that this library writes and reads.
pub const VERSION: u32 = 1;

/// What a manifest says of itself.
#[derive(Clone, Debug)]
pub struct Header {
    pub manifest: u32,
    /// The catalogue profile that the scenes came from; a run must ask for the same one.
    pub source: String,
    /// The window that is covered, which is wider than the run's where a plume run needs
    /// background scenes either side of it.
    pub start: String,
    pub end: String,
    pub aoi: String,
    /// The hash of the area file. An edited file is a different run, and this is what notices.
    pub aoi_sha256: String,
    pub s2e: String,
    pub created: String,
    pub scenes: usize,
    /// Catalogue requests that it took to build.
    pub requests: usize,
}

/// [`Header`], as mathematics.
pub ghost struct HeaderView {
    pub manifest: u32,
    pub source: Seq<char>,
    pub start: Seq<char>,
    pub end: Seq<char>,
    pub aoi: Seq<char>,
    pub aoi_sha256: Seq<char>,
    pub s2e: Seq<char>,
    pub created: Seq<char>,
    pub scenes: usize,
    pub requests: usize,
}

impl View for Header {
    type V = HeaderView;

    open spec fn view(&self) -> HeaderView {
        HeaderView {
            manifest: self.manifest,
            source: self.source@,
            start: self.start@,
            end: self.end@,
            aoi: self.aoi@,
            aoi_sha256: self.aoi_sha256@,
            s2e: self.s2e@,
            created: self.created@,
            scenes: self.scenes,
            requests: self.requests,
        }
    }
}

/// What `sha2::Sha256` makes of some bytes.
pub uninterp spec fn digest(bytes: Seq<u8>) -> Seq<u8>;

/// `sha2::Sha256`: `new`, `update` with the bytes, and `finalize`. The hash depends on the bytes
/// alone and is 32 bytes long.
#[verifier::external_body]
fn sha256(bytes: &Vec<u8>) -> (r: Vec<u8>)
    ensures
        r@ == digest(bytes@),
        r@.len() == 32,
{
    let mut hash = <sha2::Sha256 as sha2::Digest>::new();
    sha2::Digest::update(&mut hash, bytes);
    sha2::Digest::finalize(hash).to_vec()
}

/// Bytes in hexadecimal, two lower-case digits for each.
pub open spec fn hex(bytes: Seq<u8>) -> Seq<char> {
    Seq::new(
        2 * bytes.len(),
        |i: int|
            hex_digit(
                if i % 2 == 0 {
                    bytes[i / 2] as int / 16
                } else {
                    bytes[i / 2] as int % 16
                },
            ),
    )
}

/// Bytes in hexadecimal, two lower-case digits for each.
pub fn to_hex(bytes: &Vec<u8>) -> (r: String)
    ensures
        r@ == hex(bytes@),
{
    let mut s = String::new();
    for i in 0..bytes.len()
        invariant
            s@ =~= hex(bytes@.take(i as int)),
    {
        let ghost before = s@;
        s.push(to_hex_digit(bytes[i] / 16));
        s.push(to_hex_digit(bytes[i] % 16));
        proof {
            assert(bytes@.take(i + 1).len() == i + 1);
            assert forall|k: int| 0 <= k < 2 * (i + 1) implies s@[k] == hex(
                bytes@.take(i + 1),
            )[k] by {
                if k < 2 * i {
                    assert(s@[k] == before[k]);
                    assert(bytes@.take(i + 1)[k / 2] == bytes@.take(i as int)[k / 2]);
                }
            }
        }
    }
    proof {
        assert(bytes@.take(bytes@.len() as int) =~= bytes@);
    }
    s
}

/// The hash of an area file, which ties a manifest to the exact features it covers.
pub fn aoi_sha256(bytes: &Vec<u8>) -> (r: String)
    ensures
        r@ == hex(digest(bytes@)),
        r@.len() == 64,
{
    let hash = sha256(bytes);
    to_hex(&hash)
}

/// Whether a manifest is one for a run: of the same catalogue and the same area, with a window
/// that covers what the run needs.
pub open spec fn fits(
    h: HeaderView,
    source: Seq<char>,
    start: Seq<char>,
    end: Seq<char>,
    aoi_sha: Seq<char>,
) -> bool {
    &&& h.source == source
    &&& h.aoi_sha256 == aoi_sha
    &&& !precedes(start, h.start)
    &&& !precedes(h.end, end)
}

/// Why a manifest is not one for a run: the catalogue first, then the area, then the window.
pub open spec fn misfit(
    h: HeaderView,
    source: Seq<char>,
    start: Seq<char>,
    end: Seq<char>,
    aoi_sha: Seq<char>,
) -> Seq<char> {
    if h.source != source {
        "manifest holds "@ + h.source + " scenes and this run asks for "@ + source
            + " — discover again"@
    } else if h.aoi_sha256 != aoi_sha {
        "manifest was built for a different "@ + h.aoi
            + " — the AOI file has changed since, so discover again"@
    } else {
        "manifest covers "@ + h.start + " to "@ + h.end + " and this run needs "@ + start + " to "@
            + end + " — discover again over the wider window"@
    }
}

/// Is this manifest the right one for this run? Covering rather than matching the window is what
/// lets one manifest serve a flare run, the padded window of a plume run, and every shard of both.
pub fn check(h: &Header, source: &str, start: &str, end: &str, aoi_sha: &str) -> (r: Result<
    (),
    String,
>)
    ensures
        is_checked(r, h@, source@, start@, end@, aoi_sha@),
        r is Ok <==> fits(h@, source@, start@, end@, aoi_sha@),
        r matches Err(m) ==> m@ == misfit(h@, source@, start@, end@, aoi_sha@),
{
    if !same(h.source.as_str(), source) {
        let mut m = "manifest holds ".to_owned();
        m.append(h.source.as_str());
        m.append(" scenes and this run asks for ");
        m.append(source);
        m.append(" — discover again");
        return Err(m);
    }
    if !same(h.aoi_sha256.as_str(), aoi_sha) {
        let mut m = "manifest was built for a different ".to_owned();
        m.append(h.aoi.as_str());
        m.append(" — the AOI file has changed since, so discover again");
        return Err(m);
    }
    if is_before(start, h.start.as_str()) || is_before(h.end.as_str(), end) {
        let mut m = "manifest covers ".to_owned();
        m.append(h.start.as_str());
        m.append(" to ");
        m.append(h.end.as_str());
        m.append(" and this run needs ");
        m.append(start);
        m.append(" to ");
        m.append(end);
        m.append(" — discover again over the wider window");
        return Err(m);
    }
    Ok(())
}

/// The name that a manifest is written under until it is whole.
pub fn tmp_name(name: &str) -> (r: String)
    ensures
        r@ == name@ + ".partial"@,
{
    let mut s = name.to_owned();
    s.append(".partial");
    s
}

/// Lines, each with its end.
pub open spec fn ended(lines: Seq<Seq<char>>) -> Seq<char>
    decreases lines.len(),
{
    if lines.len() == 0 {
        Seq::empty()
    } else {
        ended(lines.drop_last()) + lines.last() + seq!['\n']
    }
}

/// The text of a manifest: the header, then each scene, on a line of its own.
pub open spec fn framed(header: Seq<char>, scenes: Seq<Seq<char>>) -> Seq<char> {
    ended(seq![header] + scenes)
}

/// What `flate2::read::GzDecoder` makes of some bytes: all that it reads out of them, or what it
/// finds wrong where it cannot read to the end.
pub uninterp spec fn gunzipped(bytes: Seq<u8>) -> Result<Seq<u8>, Seq<char>>;

/// A reply of [`gunzip`]: the contents, where they are whole, or what was wrong.
pub open spec fn contents(r: (Vec<u8>, Option<String>)) -> Result<Seq<u8>, Seq<char>> {
    match r.1 {
        Some(e) => Err(e@),
        None => Ok(r.0@),
    }
}

/// `flate2::read::GzDecoder` on bytes in memory, with `read_to_end` and `to_string` of its error:
/// whether the bytes can be read to the end, what is then read, and what is wrong otherwise, depend
/// on the bytes alone. How much is read before something goes wrong is left open.
#[verifier::external_body]
fn gunzip(bytes: &Vec<u8>) -> (r: (Vec<u8>, Option<String>))
    ensures
        contents(r) == gunzipped(bytes@),
{
    let mut out = Vec::new();
    let mut decoder = flate2::read::GzDecoder::new(bytes.as_slice());
    match std::io::Read::read_to_end(&mut decoder, &mut out) {
        Ok(_) => (out, None),
        Err(e) => (out, Some(e.to_string())),
    }
}

/// What `flate2::write::GzEncoder` makes of some bytes at its default level: the compressed bytes,
/// or what went wrong.
pub uninterp spec fn gzipped(bytes: Seq<u8>) -> Result<Seq<u8>, Seq<char>>;

/// A reply of [`gzip`], as mathematics.
pub open spec fn packed(r: Result<Vec<u8>, String>) -> Result<Seq<u8>, Seq<char>> {
    match r {
        Ok(b) => Ok(b@),
        Err(e) => Err(e@),
    }
}

/// `flate2::write::GzEncoder` into bytes in memory, with `write_all`, `finish` and `to_string` of
/// its error: what it makes of some bytes depends on them alone, and what it writes is read back
/// whole by `flate2::read::GzDecoder`.
#[verifier::external_body]
fn gzip(bytes: &[u8]) -> (r: Result<Vec<u8>, String>)
    ensures
        packed(r) == gzipped(bytes@),
        r is Ok ==> gunzipped(r->Ok_0@) is Ok,
        r is Ok ==> gunzipped(r->Ok_0@)->Ok_0 == bytes@,
{
    let mut encoder = flate2::write::GzEncoder::new(Vec::new(), flate2::Compression::default());
    match std::io::Write::write_all(&mut encoder, bytes) {
        Ok(()) => encoder.finish().map_err(|e| e.to_string()),
        Err(e) => Err(e.to_string()),
    }
}

/// The text of a manifest: the header, then each scene, on a line of its own.
pub fn frame(header: &str, scenes: &Vec<String>) -> (r: String)
    ensures
        r@ == framed(header@, views(scenes@)),
{
    let mut s = header.to_owned();
    s.push('\n');
    let ghost all = seq![header@] + views(scenes@);
    proof {
        let one = all.take(1);
        assert(one.drop_last() =~= Seq::empty());
        assert(ended(one.drop_last()) =~= Seq::empty());
        assert(one.last() == header@);
        assert(s@ =~= ended(one));
    }
    for i in 0..scenes.len()
        invariant
            all == seq![header@] + views(scenes@),
            s@ == ended(all.take(i + 1)),
    {
        s.append(scenes[i].as_str());
        s.push('\n');
        proof {
            let next = all.take(i + 2);
            assert(next.drop_last() =~= all.take(i + 1));
            assert(next.last() == scenes@[i as int]@);
            assert(s@ =~= ended(next));
        }
    }
    proof {
        assert(all.take(scenes@.len() as int + 1) =~= all);
    }
    s
}

/// The file of a manifest, from its header and its scenes in writing. What reads the file back gets
/// exactly the lines that went in.
pub fn write(header: &str, scenes: &Vec<String>) -> (r: Result<Vec<u8>, String>)
    ensures
        match gzipped(encode_utf8(framed(header@, views(scenes@)))) {
            Ok(b) => r is Ok && r->Ok_0@ == b,
            Err(e) => r is Err && r->Err_0@ == "manifest write: "@ + e,
        },
        r matches Ok(file) ==> gunzipped(file@) == Ok::<Seq<u8>, Seq<char>>(
            encode_utf8(framed(header@, views(scenes@))),
        ),
{
    let text = frame(header, scenes);
    match gzip(text.as_str().as_bytes()) {
        Ok(file) => Ok(file),
        Err(e) => {
            let mut m = "manifest write: ".to_owned();
            m.append(e.as_str());
            Err(m)
        },
    }
}

/// The place of the first line feed; the length where there is none.
pub open spec fn line_end(b: Seq<u8>) -> nat
    decreases b.len(),
{
    if b.len() == 0 || b[0] == 10 {
        0
    } else {
        1 + line_end(b.drop_first())
    }
}

/// A line without a carriage return at its end.
pub open spec fn without_return(line: Seq<u8>) -> Seq<u8> {
    if line.len() > 0 && line.last() == 13 {
        line.drop_last()
    } else {
        line
    }
}

/// A line, as text; what is wrong, where it is none.
pub open spec fn decoded(line: Seq<u8>) -> Result<Seq<char>, Seq<char>> {
    if valid_utf8(line) {
        Ok(decode_utf8(line))
    } else {
        Err("stream did not contain valid UTF-8"@)
    }
}

/// The lines of some bytes, up to where reading them failed. What is left without a line feed is a
/// line too, where nothing failed.
pub open spec fn lines_of(b: Seq<u8>, fault: Option<Seq<char>>) -> Seq<Result<Seq<char>, Seq<char>>>
    decreases b.len(),
{
    let i = line_end(b);
    if i < b.len() {
        seq![decoded(without_return(b.take(i as int)))] + lines_of(b.skip(i as int + 1), fault)
    } else if fault is Some {
        seq![Err(fault->0)]
    } else if b.len() > 0 {
        seq![decoded(b)]
    } else {
        Seq::empty()
    }
}

/// The scenes among the lines after the header, each with the number of its line, up to the first
/// line that could not be read. Blank lines count, and hold no scene.
pub open spec fn scenes_of(lines: Seq<Result<Seq<char>, Seq<char>>>, from: nat) -> Seq<
    (nat, Seq<char>),
>
    decreases lines.len(),
{
    if lines.len() == 0 || lines[0] is Err {
        Seq::empty()
    } else if trimmed(lines[0]->Ok_0).len() == 0 {
        scenes_of(lines.drop_first(), from + 1)
    } else {
        seq![(from, lines[0]->Ok_0)] + scenes_of(lines.drop_first(), from + 1)
    }
}

/// What was wrong with the first line that could not be read.
pub open spec fn fault_of(lines: Seq<Result<Seq<char>, Seq<char>>>) -> Option<Seq<char>>
    decreases lines.len(),
{
    if lines.len() == 0 {
        None
    } else if lines[0] is Err {
        Some("manifest read: "@ + lines[0]->Err_0)
    } else {
        fault_of(lines.drop_first())
    }
}

/// The lines of a manifest: the header, each scene with the number of its line after the header,
/// and what went wrong where the file could not be read to its end.
#[derive(Debug)]
pub struct Listing {
    pub header: String,
    pub scenes: Vec<(usize, String)>,
    pub fault: Option<String>,
}

/// [`Listing`], as mathematics.
pub ghost struct ListingView {
    pub header: Seq<char>,
    pub scenes: Seq<(nat, Seq<char>)>,
    pub fault: Option<Seq<char>>,
}

impl View for Listing {
    type V = ListingView;

    open spec fn view(&self) -> ListingView {
        ListingView {
            header: self.header@,
            scenes: numbered(self.scenes@),
            fault: opt(self.fault),
        }
    }
}

/// Numbered lines, as mathematics.
pub open spec fn numbered(v: Seq<(usize, String)>) -> Seq<(nat, Seq<char>)> {
    v.map_values(|s: (usize, String)| (s.0 as nat, s.1@))
}

/// The lines of a manifest, from all that were read.
pub open spec fn listed(lines: Seq<Result<Seq<char>, Seq<char>>>) -> Result<
    ListingView,
    Seq<char>,
> {
    if lines.len() == 0 {
        Err("manifest is empty"@)
    } else {
        match lines[0] {
            Err(e) => Err("manifest read: "@ + e),
            Ok(header) => Ok(
                ListingView {
                    header,
                    scenes: scenes_of(lines.drop_first(), 1),
                    fault: fault_of(lines.drop_first()),
                },
            ),
        }
    }
}

/// Lines as they are read: each one's text, or what was wrong with it.
pub open spec fn line_views(v: Seq<Result<String, String>>) -> Seq<Result<Seq<char>, Seq<char>>> {
    v.map_values(
        |line: Result<String, String>|
            match line {
                Ok(s) => Ok::<Seq<char>, Seq<char>>(s@),
                Err(e) => Err::<Seq<char>, Seq<char>>(e@),
            },
    )
}

/// `String::from_utf8`: there is a text where the bytes are UTF-8, and it is the one they encode.
#[verifier::external_body]
fn from_utf8(bytes: Vec<u8>) -> (r: Option<String>)
    ensures
        r is Some <==> valid_utf8(bytes@),
        r is Some ==> r->0@ == decode_utf8(bytes@),
{
    String::from_utf8(bytes).ok()
}

fn decode(line: Vec<u8>) -> (r: Result<String, String>)
    ensures
        match decoded(line@) {
            Ok(s) => r is Ok && r->Ok_0@ == s,
            Err(e) => r is Err && r->Err_0@ == e,
        },
{
    match from_utf8(line) {
        Some(s) => Ok(s),
        None => Err("stream did not contain valid UTF-8".to_owned()),
    }
}

fn bytes_between(b: &Vec<u8>, from: usize, to: usize) -> (r: Vec<u8>)
    requires
        from <= to <= b@.len(),
    ensures
        r@ == b@.subrange(from as int, to as int),
{
    let mut v: Vec<u8> = Vec::new();
    for i in from..to
        invariant
            from <= to <= b@.len(),
            v@ =~= b@.subrange(from as int, i as int),
    {
        v.push(b[i]);
    }
    v
}

proof fn lemma_line_end(b: Seq<u8>, i: int)
    requires
        0 <= i <= b.len(),
        forall|k: int| 0 <= k < i ==> #[trigger] b[k] != 10,
        i < b.len() ==> b[i] == 10,
    ensures
        line_end(b) == i,
    decreases i,
{
    if i > 0 {
        let t = b.drop_first();
        assert forall|k: int| 0 <= k < i - 1 implies #[trigger] t[k] != 10 by {
            assert(t[k] == b[k + 1]);
        }
        lemma_line_end(t, i - 1);
    }
}

fn read_lines(b: &Vec<u8>, fault: Option<String>) -> (r: Vec<Result<String, String>>)
    ensures
        line_views(r@) == lines_of(b@, opt(fault)),
{
    let mut out: Vec<Result<String, String>> = Vec::new();
    let mut start: usize = 0;
    let ghost f = opt(fault);
    proof {
        assert(b@.skip(0) =~= b@);
        assert(line_views(out@) =~= Seq::empty());
        assert(lines_of(b@, f) =~= Seq::empty() + lines_of(b@, f));
    }
    for i in 0..b.len()
        invariant
            start <= i <= b@.len(),
            f == opt(fault),
            forall|k: int| start <= k < i ==> #[trigger] b@[k] != 10,
            lines_of(b@, f) == line_views(out@) + lines_of(b@.skip(start as int), f),
    {
        if b[i] == 10 {
            let ghost rest = b@.skip(start as int);
            let ghost before = line_views(out@);
            proof {
                lemma_line_end(rest, i - start);
                assert(rest.take(i - start) =~= b@.subrange(start as int, i as int));
                assert(rest.skip(i - start + 1) =~= b@.skip(i + 1));
                if i > start {
                    assert(b@.subrange(start as int, i as int).last() == b@[i - 1]);
                    assert(b@.subrange(start as int, i as int).drop_last() =~= b@.subrange(
                        start as int,
                        i - 1,
                    ));
                }
            }
            let end = if i > start && b[i - 1] == 13 {
                i - 1
            } else {
                i
            };
            let line = decode(bytes_between(b, start, end));
            out.push(line);
            start = i + 1;
            proof {
                assert(line_views(out@) =~= before.push(decoded(without_return(rest.take(
                    line_end(rest) as int,
                )))));
                assert(line_views(out@) + lines_of(b@.skip(start as int), f) =~= before + lines_of(
                    rest,
                    f,
                ));
            }
        }
    }
    let ghost rest = b@.skip(start as int);
    let ghost before = line_views(out@);
    proof {
        lemma_line_end(rest, rest.len() as int);
        assert(rest =~= b@.subrange(start as int, b@.len() as int));
    }
    match fault {
        Some(e) => {
            out.push(Err(e));
            proof {
                assert(line_views(out@) =~= before + lines_of(rest, f));
            }
        },
        None => {
            if start < b.len() {
                let line = decode(bytes_between(b, start, b.len()));
                out.push(line);
                proof {
                    assert(line_views(out@) =~= before + lines_of(rest, f));
                }
            } else {
                proof {
                    assert(line_views(out@) =~= before + lines_of(rest, f));
                }
            }
        },
    }
    out
}

fn number_scenes(lines: Vec<Result<String, String>>) -> (r: (Vec<(usize, String)>, Option<String>))
    requires
        lines@.len() > 0,
    ensures
        numbered(r.0@) == scenes_of(line_views(lines@).drop_first(), 1),
        opt(r.1) == fault_of(line_views(lines@).drop_first()),
{
    let mut out: Vec<(usize, String)> = Vec::new();
    let ghost all = line_views(lines@);
    proof {
        assert(all.drop_first() =~= all.skip(1));
        assert(numbered(out@) =~= Seq::empty());
        assert(scenes_of(all.skip(1), 1) =~= Seq::empty() + scenes_of(all.skip(1), 1));
    }
    for i in 1..lines.len()
        invariant
            all == line_views(lines@),
            1 <= i <= lines@.len(),
            all.drop_first() == all.skip(1),
            scenes_of(all.skip(1), 1) == numbered(out@) + scenes_of(all.skip(i as int), i as nat),
            fault_of(all.skip(1)) == fault_of(all.skip(i as int)),
    {
        let ghost rest = all.skip(i as int);
        let ghost before = numbered(out@);
        proof {
            assert(rest[0] == all[i as int]);
            assert(rest.drop_first() =~= all.skip(i + 1));
        }
        match &lines[i] {
            Ok(line) => {
                if !trim(line.as_str()).as_str().is_empty() {
                    out.push((i, line.clone()));
                    proof {
                        assert(numbered(out@) =~= before.push((i as nat, line@)));
                        assert(numbered(out@) + scenes_of(all.skip(i + 1), (i + 1) as nat)
                            =~= before + scenes_of(rest, i as nat));
                    }
                }
            },
            Err(e) => {
                let mut m = "manifest read: ".to_owned();
                m.append(e.as_str());
                proof {
                    assert(before + scenes_of(rest, i as nat) =~= before);
                }
                return (out, Some(m));
            },
        }
    }
    proof {
        assert(all.skip(lines@.len() as int) =~= Seq::empty());
        assert(numbered(out@) + Seq::<(nat, Seq<char>)>::empty() =~= numbered(out@));
    }
    (out, None)
}

/// Whether a reply is a certain listing, or a certain error.
pub open spec fn is_listing(
    r: Result<Listing, String>,
    want: Result<ListingView, Seq<char>>,
) -> bool {
    match want {
        Ok(l) => r is Ok && r->Ok_0@ == l,
        Err(e) => r is Err && r->Err_0@ == e,
    }
}

/// Whether a reply lists the lines of some part of a file, and then what went wrong.
pub open spec fn is_partial(r: Result<Listing, String>, e: Seq<char>) -> bool {
    exists|seen: Seq<u8>| is_listing(r, listed(#[trigger] lines_of(seen, Some(e))))
}

/// The lines of a manifest's file. A file without a line is an error, and so is one whose first
/// line cannot be read. A file that cannot be read to its end lists the lines of what was read of
/// it, which may be any part, and then what went wrong.
pub fn lines(file: &Vec<u8>) -> (r: Result<Listing, String>)
    ensures
        gunzipped(file@) matches Ok(bytes) ==> is_listing(r, listed(lines_of(bytes, None))),
        gunzipped(file@) matches Err(e) ==> is_partial(r, e),
        gunzipped(file@) is Err ==> r is Err || r->Ok_0.fault is Some,
{
    let (bytes, fault) = gunzip(file);
    let ghost e = opt(fault);
    proof {
        if e is Some {
            lemma_fault_is_listed(bytes@, e->0);
        }
    }
    let r = listing(&bytes, fault);
    proof {
        if e is Some {
            assert(is_listing(r, listed(lines_of(bytes@, Some(e->0)))));
            assert(is_partial(r, e->0));
            assert(gunzipped(file@) == Err::<Seq<u8>, Seq<char>>(e->0));
        }
    }
    r
}

proof fn lemma_fault_is_listed(b: Seq<u8>, e: Seq<char>)
    ensures
        ({
            let all = lines_of(b, Some(e));
            &&& all.len() > 0
            &&& fault_of(all) is Some
            &&& listed(all) is Err || listed(all)->Ok_0.fault is Some
        }),
    decreases b.len(),
{
    let i = line_end(b);
    let all = lines_of(b, Some(e));
    if i < b.len() {
        lemma_fault_is_listed(b.skip(i as int + 1), e);
        assert(all.drop_first() =~= lines_of(b.skip(i as int + 1), Some(e)));
    }
}

/// The lines of a manifest, from what was read out of its file and what went wrong where that could
/// not be read to its end.
pub fn listing(bytes: &Vec<u8>, fault: Option<String>) -> (r: Result<Listing, String>)
    ensures
        is_listing(r, listed(lines_of(bytes@, opt(fault)))),
{
    let all = read_lines(bytes, fault);
    if all.len() == 0 {
        return Err("manifest is empty".to_owned());
    }
    let header = match &all[0] {
        Ok(s) => s.clone(),
        Err(e) => {
            let mut m = "manifest read: ".to_owned();
            m.append(e.as_str());
            return Err(m);
        },
    };
    let (scenes, broken) = number_scenes(all);
    Ok(Listing { header, scenes, fault: broken })
}

/// What is said of a manifest of another version.
pub open spec fn other_version(version: u32) -> Seq<char> {
    "manifest is version "@ + decimal(version as nat) + " and this s2e reads version "@ + decimal(
        VERSION as nat,
    )
}

/// The first of some replies that is an error.
pub open spec fn first_error(scenes: Seq<Result<Item, String>>) -> nat
    decreases scenes.len(),
{
    if scenes.len() == 0 || scenes[0] is Err {
        0
    } else {
        1 + first_error(scenes.drop_first())
    }
}

/// A manifest read back: its header, where the version is this one, and every scene, where each of
/// them could be read and nothing went wrong with the file. Otherwise what is wrong first.
pub open spec fn assembled(
    l: ListingView,
    header: Result<Header, String>,
    scenes: Seq<Result<Item, String>>,
) -> Result<(HeaderView, Seq<ItemView>), Seq<char>> {
    match header {
        Err(e) => Err("manifest header: "@ + e@),
        Ok(h) => {
            let n = first_error(scenes) as int;
            if h.manifest != VERSION {
                Err(other_version(h.manifest))
            } else if n < scenes.len() {
                Err("manifest scene "@ + decimal(l.scenes[n].0) + ": "@ + scenes[n]->Err_0@)
            } else if l.fault is Some {
                Err(l.fault->0)
            } else {
                Ok((h@, scenes.map_values(|s: Result<Item, String>| s->Ok_0@)))
            }
        },
    }
}

proof fn lemma_first_error(scenes: Seq<Result<Item, String>>, n: int)
    requires
        0 <= n <= scenes.len(),
        forall|k: int| 0 <= k < n ==> (#[trigger] scenes[k]) is Ok,
        n < scenes.len() ==> scenes[n] is Err,
    ensures
        first_error(scenes) == n,
    decreases n,
{
    if n > 0 {
        let t = scenes.drop_first();
        assert(scenes[0] is Ok);
        assert forall|k: int| 0 <= k < n - 1 implies (#[trigger] t[k]) is Ok by {
            assert(t[k] == scenes[k + 1]);
        }
        lemma_first_error(t, n - 1);
    }
}

/// A manifest read back, from its lines and what they hold. A scene that will not parse is fatal: a
/// run that silently skipped scenes would look complete and be short.
pub fn read(
    listing: &Listing,
    header: Result<Header, String>,
    scenes: Vec<Result<Item, String>>,
) -> (r: Result<(Header, Vec<Item>), String>)
    requires
        scenes@.len() == listing.scenes@.len(),
    ensures
        match assembled(listing@, header, scenes@) {
            Ok(m) => r is Ok && r->Ok_0.0@ == m.0 && item_views(r->Ok_0.1@) == m.1,
            Err(e) => r is Err && r->Err_0@ == e,
        },
{
    let h = match header {
        Ok(h) => h,
        Err(e) => {
            let mut m = "manifest header: ".to_owned();
            m.append(e.as_str());
            return Err(m);
        },
    };
    if h.manifest != VERSION {
        let mut m = "manifest is version ".to_owned();
        m.append(to_decimal(h.manifest as u64).as_str());
        m.append(" and this s2e reads version ");
        m.append(to_decimal(VERSION as u64).as_str());
        return Err(m);
    }
    let ghost all = scenes@;
    let mut items: Vec<Item> = Vec::new();
    for scene in it: scenes
        invariant
            it.seq() == all,
            all.len() == listing.scenes@.len(),
            items@.len() == it.index(),
            h.manifest == VERSION,
            header == Ok::<Header, String>(h),
            forall|k: int| 0 <= k < it.index() ==> (#[trigger] all[k]) is Ok,
            forall|k: int|
                0 <= k < it.index() ==> (#[trigger] items@[k])@ == (all[k]->Ok_0)@,
    {
        match scene {
            Ok(item) => {
                items.push(item);
            },
            Err(e) => {
                let n: usize = items.len();
                proof {
                    lemma_first_error(all, n as int);
                }
                let mut m = "manifest scene ".to_owned();
                m.append(to_decimal(listing.scenes[n].0 as u64).as_str());
                m.append(": ");
                m.append(e.as_str());
                return Err(m);
            },
        }
    }
    proof {
        lemma_first_error(all, all.len() as int);
        assert(item_views(items@) =~= all.map_values(|s: Result<Item, String>| s->Ok_0@));
    }
    match &listing.fault {
        Some(e) => Err(e.clone()),
        None => Ok((h, items)),
    }
}

proof fn lemma_char_bytes(c: char)
    ensures
        encode_scalar(c as u32).len() > 0,
        forall|k: int|
            0 <= k < encode_scalar(c as u32).len() ==> (#[trigger] encode_scalar(c as u32)[k] == 10
                ==> c == '\n') && (encode_scalar(c as u32)[k] == 13 ==> c == '\r'),
        c == '\n' ==> encode_scalar(c as u32) == seq![10u8],
{
    let u = c as u32;
    let one = seq![c];
    encode_utf8_first_scalar(one);
    assert(encode_utf8(one.drop_first()) =~= Seq::empty());
    assert(encode_utf8(one) =~= encode_scalar(u));
    if u <= 0x7f {
        assert(u & 0x7f == u) by (bit_vector)
            requires
                u <= 0x7f,
        ;
    }
    if c == '\n' {
        assert(encode_scalar(u) =~= seq![10u8]);
    }
}

proof fn lemma_encode_concat(a: Seq<char>, b: Seq<char>)
    ensures
        encode_utf8(a + b) == encode_utf8(a) + encode_utf8(b),
    decreases a.len(),
{
    if a.len() == 0 {
        assert(a + b =~= b);
        assert(encode_utf8(a) + encode_utf8(b) =~= encode_utf8(b));
    } else {
        assert((a + b).drop_first() =~= a.drop_first() + b);
        lemma_encode_concat(a.drop_first(), b);
        assert(encode_utf8(a + b) =~= encode_utf8(a) + encode_utf8(b));
    }
}

/// Whether a text can stand on a line: it holds no line feed, and no carriage return at its end.
pub open spec fn is_line(s: Seq<char>) -> bool {
    !s.contains('\n') && (s.len() > 0 ==> s.last() != '\r')
}

proof fn lemma_line_bytes(s: Seq<char>)
    requires
        !s.contains('\n'),
    ensures
        forall|k: int| 0 <= k < encode_utf8(s).len() ==> #[trigger] encode_utf8(s)[k] != 10,
        s.len() > 0 ==> encode_utf8(s).len() > 0,
        s.len() > 0 && encode_utf8(s).last() == 13 ==> s.last() == '\r',
    decreases s.len(),
{
    if s.len() > 0 {
        let t = s.drop_first();
        assert forall|c: char| t.contains(c) implies s.contains(c) by {
            let k = choose|k: int| 0 <= k < t.len() && t[k] == c;
            assert(s[k + 1] == c);
        }
        assert(s.contains(s[0]));
        lemma_char_bytes(s[0]);
        lemma_line_bytes(t);
        let head = encode_scalar(s[0] as u32);
        assert forall|k: int| 0 <= k < encode_utf8(s).len() implies #[trigger] encode_utf8(
            s,
        )[k] != 10 by {
            if k < head.len() {
                assert(encode_utf8(s)[k] == head[k]);
            } else {
                assert(encode_utf8(s)[k] == encode_utf8(t)[k - head.len()]);
            }
        }
        if t.len() == 0 {
            assert(encode_utf8(t) =~= Seq::empty());
            assert(encode_utf8(s).last() == head[head.len() - 1]);
        } else {
            assert(encode_utf8(s).last() == encode_utf8(t).last());
        }
    }
}

proof fn lemma_ended_front(lines: Seq<Seq<char>>)
    requires
        lines.len() > 0,
    ensures
        ended(lines) == lines[0] + seq!['\n'] + ended(lines.drop_first()),
    decreases lines.len(),
{
    let front = lines.drop_last();
    let rest = lines.drop_first();
    if lines.len() == 1 {
        assert(ended(front) =~= Seq::empty());
        assert(ended(rest) =~= Seq::empty());
    } else {
        lemma_ended_front(front);
        assert(front.drop_first() =~= rest.drop_last());
    }
    assert(ended(lines) =~= lines[0] + seq!['\n'] + ended(rest));
}

proof fn lemma_lines_of_ended(lines: Seq<Seq<char>>)
    requires
        forall|k: int| 0 <= k < lines.len() ==> is_line(#[trigger] lines[k]),
    ensures
        lines_of(encode_utf8(ended(lines)), None) == lines.map_values(
            |s: Seq<char>| Ok::<Seq<char>, Seq<char>>(s),
        ),
    decreases lines.len(),
{
    let ok = |s: Seq<char>| Ok::<Seq<char>, Seq<char>>(s);
    if lines.len() == 0 {
        assert(lines_of(encode_utf8(ended(lines)), None) =~= lines.map_values(ok));
    } else {
        let (first, rest) = (lines[0], lines.drop_first());
        assert forall|k: int| 0 <= k < rest.len() implies is_line(#[trigger] rest[k]) by {
            assert(rest[k] == lines[k + 1]);
        }
        lemma_lines_of_ended(rest);
        lemma_ended_front(lines);
        lemma_encode_concat(first + seq!['\n'], ended(rest));
        lemma_encode_concat(first, seq!['\n']);
        lemma_line_bytes(first);
        lemma_char_bytes('\n');
        let newline = seq!['\n'];
        assert(encode_utf8(newline.drop_first()) =~= Seq::empty());
        assert(encode_utf8(newline) =~= seq![10u8]);
        let b = encode_utf8(ended(lines));
        let n = encode_utf8(first).len() as int;
        assert(b =~= encode_utf8(first) + seq![10u8] + encode_utf8(ended(rest)));
        lemma_line_end(b, n);
        assert(b.take(n) =~= encode_utf8(first));
        assert(b.skip(n + 1) =~= encode_utf8(ended(rest)));
        encode_utf8_valid_utf8(first);
        encode_utf8_decode_utf8(first);
        assert(without_return(b.take(n)) == encode_utf8(first)) by {
            if first.len() == 0 {
                assert(encode_utf8(first).len() == 0);
            }
        }
        assert(lines_of(b, None) =~= lines.map_values(ok));
    }
}

proof fn lemma_scenes_of_ok(scenes: Seq<Seq<char>>, from: nat)
    requires
        forall|k: int| 0 <= k < scenes.len() ==> trimmed(#[trigger] scenes[k]).len() > 0,
    ensures
        scenes_of(scenes.map_values(|s: Seq<char>| Ok::<Seq<char>, Seq<char>>(s)), from)
            == Seq::new(scenes.len(), |i: int| ((from + i) as nat, scenes[i])),
        fault_of(scenes.map_values(|s: Seq<char>| Ok::<Seq<char>, Seq<char>>(s))) is None,
    decreases scenes.len(),
{
    let ok = |s: Seq<char>| Ok::<Seq<char>, Seq<char>>(s);
    let all = scenes.map_values(ok);
    if scenes.len() > 0 {
        let rest = scenes.drop_first();
        assert forall|k: int| 0 <= k < rest.len() implies trimmed(#[trigger] rest[k]).len() > 0 by {
            assert(rest[k] == scenes[k + 1]);
        }
        lemma_scenes_of_ok(rest, from + 1);
        assert(trimmed(scenes[0]).len() > 0);
        assert(all.drop_first() =~= rest.map_values(ok));
    }
    assert(scenes_of(all, from) =~= Seq::new(
        scenes.len(),
        |i: int| ((from + i) as nat, scenes[i]),
    ));
}

/// The listing of a manifest that was read whole: its header and every scene, numbered from one.
pub open spec fn whole(header: Seq<char>, scenes: Seq<Seq<char>>) -> ListingView {
    ListingView {
        header,
        scenes: Seq::new(scenes.len(), |i: int| ((i + 1) as nat, scenes[i])),
        fault: None,
    }
}

/// What comes back from a manifest is what went in: the header and every scene, in their order,
/// with nothing wrong, where each of them is a line and no scene is blank.
pub proof fn a_manifest_reads_back_what_was_written(header: Seq<char>, scenes: Seq<Seq<char>>)
    requires
        is_line(header),
        forall|k: int|
            0 <= k < scenes.len() ==> is_line(#[trigger] scenes[k]) && trimmed(scenes[k]).len() > 0,
    ensures
        listed(lines_of(encode_utf8(framed(header, scenes)), None)) == Ok::<
            ListingView,
            Seq<char>,
        >(whole(header, scenes)),
{
    let all = seq![header] + scenes;
    let ok = |s: Seq<char>| Ok::<Seq<char>, Seq<char>>(s);
    assert forall|k: int| 0 <= k < all.len() implies is_line(#[trigger] all[k]) by {
        if k > 0 {
            assert(all[k] == scenes[k - 1]);
        }
    }
    lemma_lines_of_ended(all);
    assert(all.map_values(ok).drop_first() =~= scenes.map_values(ok));
    lemma_scenes_of_ok(scenes, 1);
    assert(Seq::new(scenes.len(), |i: int| ((1 + i) as nat, scenes[i])) =~= Seq::new(
        scenes.len(),
        |i: int| ((i + 1) as nat, scenes[i]),
    ));
}

/// A campaign reads what it was asked to look at: of a file that [`write`] made of a header and of
/// scenes in writing, [`lines`] gives exactly those lines, and where they say this header and these
/// scenes, [`read`] gives exactly this header and these scenes, every one, in their order.
pub proof fn a_manifest_gives_back_its_header_and_scenes(
    header: Seq<char>,
    scenes: Seq<Seq<char>>,
    file: Seq<u8>,
    listed_as: Result<Listing, String>,
    h: Header,
    items: Seq<Item>,
)
    requires
        is_line(header),
        forall|k: int|
            0 <= k < scenes.len() ==> is_line(#[trigger] scenes[k]) && trimmed(scenes[k]).len() > 0,
        gunzipped(file) == Ok::<Seq<u8>, Seq<char>>(encode_utf8(framed(header, scenes))),
        gunzipped(file) matches Ok(bytes) ==> is_listing(listed_as, listed(lines_of(bytes, None))),
        h.manifest == VERSION,
        items.len() == scenes.len(),
    ensures
        listed_as is Ok,
        listed_as->Ok_0@ == whole(header, scenes),
        assembled(
            listed_as->Ok_0@,
            Ok(h),
            items.map_values(|it: Item| Ok::<Item, String>(it)),
        ) == Ok::<(HeaderView, Seq<ItemView>), Seq<char>>((h@, item_views(items))),
{
    a_manifest_reads_back_what_was_written(header, scenes);
    let read = items.map_values(|it: Item| Ok::<Item, String>(it));
    lemma_first_error(read, read.len() as int);
    assert(read.map_values(|s: Result<Item, String>| s->Ok_0@) =~= item_views(items));
}

proof fn lemma_precedes_order(a: Seq<char>, b: Seq<char>, c: Seq<char>)
    requires
        precedes(a, c),
    ensures
        precedes(a, b) || precedes(b, c),
    decreases a.len(),
{
    if b.len() > 0 && c.len() > 0 && a.len() > 0 && a[0] == b[0] && b[0] == c[0] {
        lemma_precedes_order(a.drop_first(), b.drop_first(), c.drop_first());
    }
}

/// One manifest serves every narrower run: where it fits a window it fits each window inside that
/// one, and so a flare run where it fits the padded window of a plume run.
pub proof fn a_manifest_serves_narrower_windows(
    h: HeaderView,
    source: Seq<char>,
    start: Seq<char>,
    end: Seq<char>,
    aoi_sha: Seq<char>,
    later: Seq<char>,
    earlier: Seq<char>,
)
    requires
        fits(h, source, start, end, aoi_sha),
        !precedes(later, start),
        !precedes(end, earlier),
    ensures
        fits(h, source, later, earlier, aoi_sha),
{
    if precedes(later, h.start) {
        lemma_precedes_order(later, start, h.start);
    }
    if precedes(h.end, earlier) {
        lemma_precedes_order(h.end, end, earlier);
    }
}

/// A manifest that fits covers the days asked for, and one that covers them fits as far as the
/// window goes: dates of four-digit years compare as texts as the days do.
pub proof fn a_fitting_manifest_covers_the_days(
    h: HeaderView,
    from: Date,
    to: Date,
    source: Seq<char>,
    start: Date,
    end: Date,
    aoi_sha: Seq<char>,
)
    requires
        h.start == iso(from),
        h.end == iso(to),
        from.is_valid() && 0 <= from.year <= 9999,
        to.is_valid() && 0 <= to.year <= 9999,
        start.is_valid() && 0 <= start.year <= 9999,
        end.is_valid() && 0 <= end.year <= 9999,
    ensures
        fits(h, source, iso(start), iso(end), aoi_sha) <==> h.source == source && h.aoi_sha256
            == aoi_sha && from.number() <= start.number() && end.number() <= to.number(),
{
    dates_sort_as_text(start, from);
    dates_sort_as_text(to, end);
}

/// The hexadecimal digits of some bytes are those of no others.
pub proof fn digits_tell_bytes_apart(a: Seq<u8>, b: Seq<u8>)
    ensures
        hex(a) == hex(b) <==> a == b,
{
    if hex(a) == hex(b) {
        assert(hex(a).len() == 2 * a.len() && hex(b).len() == 2 * b.len());
        assert forall|i: int| 0 <= i < a.len() implies a[i] == b[i] by {
            assert(hex(a)[2 * i] == hex(b)[2 * i]);
            assert(hex(a)[2 * i + 1] == hex(b)[2 * i + 1]);
            assert((2 * i) / 2 == i && (2 * i + 1) / 2 == i);
            assert((2 * i) % 2 == 0 && (2 * i + 1) % 2 == 1);
        }
        assert(a =~= b);
    }
}

/// A manifest is read just where its header could be read and is of this version, every scene could
/// be read, and the file could be read to its end; it then gives the header and as many scenes as
/// it has.
pub proof fn a_manifest_is_read_where_nothing_is_wrong(
    l: ListingView,
    header: Result<Header, String>,
    scenes: Seq<Result<Item, String>>,
)
    ensures
        assembled(l, header, scenes) is Ok <==> (header matches Ok(h) && h.manifest == 1) && (forall|
            k: int,
        |
            0 <= k < scenes.len() ==> (#[trigger] scenes[k]) is Ok) && l.fault is None,
        assembled(l, header, scenes) matches Ok(m) ==> m.0 == header->Ok_0@ && m.1.len()
            == scenes.len() && forall|k: int|
            0 <= k < scenes.len() ==> #[trigger] m.1[k] == scenes[k]->Ok_0@,
{
    lemma_first_error_bounds(scenes);
}

proof fn lemma_first_error_bounds(scenes: Seq<Result<Item, String>>)
    ensures
        first_error(scenes) <= scenes.len(),
        first_error(scenes) < scenes.len() ==> scenes[first_error(scenes) as int] is Err,
        forall|k: int| 0 <= k < first_error(scenes) ==> (#[trigger] scenes[k]) is Ok,
    decreases scenes.len(),
{
    if scenes.len() > 0 && scenes[0] is Ok {
        let t = scenes.drop_first();
        lemma_first_error_bounds(t);
        assert forall|k: int| 0 <= k < first_error(scenes) implies (#[trigger] scenes[k]) is Ok by {
            if k > 0 {
                assert(scenes[k] == t[k - 1]);
            }
        }
    }
}

/// The scenes of a manifest are its lines that are not blank, each under the number of its line, up
/// to the first that could not be read; and something is wrong with it just where there is such a
/// line.
pub proof fn scenes_are_the_lines_that_are_not_blank(
    lines: Seq<Result<Seq<char>, Seq<char>>>,
    from: nat,
    k: int,
)
    requires
        0 <= k < lines.len(),
        forall|j: int| 0 <= j <= k ==> (#[trigger] lines[j]) is Ok,
    ensures
        scenes_of(lines, from).contains(((from + k) as nat, lines[k]->Ok_0)) <==> trimmed(
            lines[k]->Ok_0,
        ).len() > 0,
        fault_of(lines) is Some <==> exists|j: int| 0 <= j < lines.len() && (#[trigger] lines[j]) is Err,
    decreases lines.len(),
{
    lemma_fault_of(lines);
    assert(lines[0] is Ok);
    let t = lines.drop_first();
    let rest = scenes_of(t, from + 1);
    let all = scenes_of(lines, from);
    lemma_numbers_from(t, from + 1);
    let x = ((from + k) as nat, lines[k]->Ok_0);
    let first = (from, lines[0]->Ok_0);
    if k > 0 {
        assert forall|j: int| 0 <= j <= k - 1 implies (#[trigger] t[j]) is Ok by {
            assert(t[j] == lines[j + 1]);
        }
        scenes_are_the_lines_that_are_not_blank(t, from + 1, k - 1);
        assert(((from + 1) + (k - 1)) as nat == (from + k) as nat);
    }
    if trimmed(lines[0]->Ok_0).len() > 0 {
        assert(all == seq![first] + rest);
        if rest.contains(x) {
            let j = choose|j: int| 0 <= j < rest.len() && rest[j] == x;
            assert(all[j + 1] == x);
        }
        if all.contains(x) {
            let j = choose|j: int| 0 <= j < all.len() && all[j] == x;
            if j > 0 {
                assert(rest[j - 1] == x);
            }
        }
        assert(all[0] == first);
    }
    if k == 0 && rest.contains(x) {
        let j = choose|j: int| 0 <= j < rest.len() && rest[j] == x;
        assert(rest[j].0 >= from + 1);
    }
}

proof fn lemma_numbers_from(lines: Seq<Result<Seq<char>, Seq<char>>>, from: nat)
    ensures
        forall|j: int|
            0 <= j < scenes_of(lines, from).len() ==> (#[trigger] scenes_of(lines, from)[j]).0 >= from,
    decreases lines.len(),
{
    if lines.len() > 0 && lines[0] is Ok {
        let rest = scenes_of(lines.drop_first(), from + 1);
        lemma_numbers_from(lines.drop_first(), from + 1);
        let all = scenes_of(lines, from);
        assert forall|j: int| 0 <= j < all.len() implies (#[trigger] all[j]).0 >= from by {
            if trimmed(lines[0]->Ok_0).len() == 0 {
                assert(rest[j].0 >= from + 1);
            } else if j > 0 {
                assert(all[j] == rest[j - 1]);
                assert(rest[j - 1].0 >= from + 1);
            }
        }
    }
}

proof fn lemma_fault_of(lines: Seq<Result<Seq<char>, Seq<char>>>)
    ensures
        fault_of(lines) is Some <==> exists|j: int| 0 <= j < lines.len() && (#[trigger] lines[j]) is Err,
    decreases lines.len(),
{
    if lines.len() > 0 && lines[0] is Ok {
        let t = lines.drop_first();
        lemma_fault_of(t);
        if fault_of(t) is Some {
            let j = choose|j: int| 0 <= j < t.len() && (#[trigger] t[j]) is Err;
            assert(lines[j + 1] is Err);
        }
        if exists|j: int| 0 <= j < lines.len() && (#[trigger] lines[j]) is Err {
            let j = choose|j: int| 0 <= j < lines.len() && (#[trigger] lines[j]) is Err;
            assert(t[j - 1] is Err);
        }
    }
}

/// Whether a reply says whether a manifest is one for a run.
pub open spec fn is_checked(
    r: Result<(), String>,
    h: HeaderView,
    source: Seq<char>,
    start: Seq<char>,
    end: Seq<char>,
    aoi_sha: Seq<char>,
) -> bool {
    &&& r is Ok <==> fits(h, source, start, end, aoi_sha)
    &&& r matches Err(m) ==> m@ == misfit(h, source, start, end, aoi_sha)
}

/// A manifest of another catalogue, of another area or of other days is refused, whatever else
/// fits, and one that is refused for its days alone says which days it covers.
pub proof fn a_manifest_that_does_not_fit_is_refused(
    r: Result<(), String>,
    h: HeaderView,
    source: Seq<char>,
    start: Seq<char>,
    end: Seq<char>,
    aoi_sha: Seq<char>,
)
    requires
        is_checked(r, h, source, start, end, aoi_sha),
    ensures
        h.source != source ==> r is Err,
        h.aoi_sha256 != aoi_sha ==> r is Err,
        precedes(start, h.start) ==> r is Err,
        precedes(h.end, end) ==> r is Err,
        r is Err ==> h.source != source || h.aoi_sha256 != aoi_sha || precedes(start, h.start)
            || precedes(h.end, end),
        r matches Err(m) ==> (h.source == source && h.aoi_sha256 == aoi_sha ==> m@ == "manifest covers "@
            + h.start + " to "@ + h.end + " and this run needs "@ + start + " to "@ + end
            + " — discover again over the wider window"@),
{
}

} // verus!
