use vstd::prelude::*;
use vstd::utf8::{decode_utf8, valid_utf8};

use crate::language::byte_views;
use crate::registry::same_bytes;
use crate::text::utf8_text;

verus! {

/// The request methods that routing tells apart.
#[derive(Clone, Copy, Debug, PartialEq, Eq, Structural)]
pub enum Method {
    Get,
    Head,
    Post,
    Put,
    Delete,
    Patch,
    Options,
    Other,
}

/// What a request is routed to.
#[derive(Debug)]
pub enum Route {
    /// The greeting endpoint, with the decoded name.
    Greeting(String),
    /// A file under the static root, as its decoded path segments.
    Asset(Vec<String>),
    NotFound,
    MethodNotAllowed,
}

pub enum RouteView {
    Greeting(Seq<char>),
    Asset(Seq<Seq<char>>),
    NotFound,
    MethodNotAllowed,
}

impl View for Route {
    type V = RouteView;

    open spec fn view(&self) -> RouteView {
        match self {
            Route::Greeting(n) => RouteView::Greeting(n@),
            Route::Asset(p) => RouteView::Asset(p@.map_values(|s: String| s@)),
            Route::NotFound => RouteView::NotFound,
            Route::MethodNotAllowed => RouteView::MethodNotAllowed,
        }
    }
}

pub open spec fn hex_value(b: u8) -> int {
    if 48u8 <= b && b <= 57u8 {
        b - 48
    } else if 97u8 <= b && b <= 102u8 {
        b - 87
    } else if 65u8 <= b && b <= 70u8 {
        b - 55
    } else {
        -1
    }
}

/// Percent-decoding: each `%` followed by two hex digits stands for the
/// byte they spell; every other byte, a lone `%` included, stands for itself.
pub open spec fn percent_decode(s: Seq<u8>) -> Seq<u8>
    decreases s.len(),
{
    if s.len() == 0 {
        Seq::empty()
    } else if s.len() >= 3 && s[0] == 37u8 && hex_value(s[1]) >= 0 && hex_value(s[2]) >= 0 {
        seq![(hex_value(s[1]) * 16 + hex_value(s[2])) as u8] + percent_decode(s.skip(3))
    } else {
        seq![s[0]] + percent_decode(s.skip(1))
    }
}

/// The pieces of `s` between occurrences of `sep`; one piece more than
/// there are separators.
pub open spec fn split(s: Seq<u8>, sep: u8) -> Seq<Seq<u8>>
    decreases s.len(),
{
    if s.len() == 0 {
        seq![Seq::empty()]
    } else {
        let r = split(s.drop_last(), sep);
        if s.last() == sep {
            r.push(Seq::empty())
        } else {
            r.update(r.len() - 1, r.last().push(s.last()))
        }
    }
}

pub open spec fn non_empty(parts: Seq<Seq<u8>>) -> Seq<Seq<u8>>
    decreases parts.len(),
{
    if parts.len() == 0 {
        parts
    } else if parts.last().len() > 0 {
        non_empty(parts.drop_last()).push(parts.last())
    } else {
        non_empty(parts.drop_last())
    }
}

/// The path without its leading `/`.
pub open spec fn relative(p: Seq<u8>) -> Seq<u8> {
    if p.len() > 0 && p[0] == 47u8 {
        p.skip(1)
    } else {
        p
    }
}

/// The raw segments of a request path.
pub open spec fn segments(p: Seq<u8>) -> Seq<Seq<u8>> {
    split(relative(p), 47u8)
}

pub open spec fn is_greeting_path(segs: Seq<Seq<u8>>) -> bool {
    &&& segs.len() == 3
    &&& segs[0] == seq![97u8, 112u8, 105u8]
    &&& segs[1] == seq![104u8, 101u8, 108u8, 108u8, 111u8]
    &&& segs[2].len() > 0
}

/// The segments of the path, each percent-decoded.
pub open spec fn asset_parts(p: Seq<u8>) -> Seq<Seq<u8>> {
    segments(p).map_values(|s: Seq<u8>| percent_decode(s))
}

/// A decoded segment that may be looked up under the static root: valid
/// UTF-8, not `..`, and without a `/` that would split it in two.
pub open spec fn safe_segment(s: Seq<u8>) -> bool {
    &&& valid_utf8(s)
    &&& !is_parent(s)
    &&& forall|i: int| 0 <= i < s.len() ==> s[i] != 47u8
}

pub open spec fn safe_parts(parts: Seq<Seq<u8>>) -> bool {
    forall|i: int| 0 <= i < parts.len() ==> safe_segment(#[trigger] parts[i])
}

/// Where a request with method `m` and path `p` is routed.
pub open spec fn route_of(m: Method, p: Seq<u8>) -> RouteView {
    let segs = segments(p);
    if is_greeting_path(segs) {
        let name = percent_decode(segs[2]);
        if m != Method::Get {
            RouteView::MethodNotAllowed
        } else if valid_utf8(name) {
            RouteView::Greeting(decode_utf8(name))
        } else {
            RouteView::NotFound
        }
    } else {
        let parts = asset_parts(p);
        if !safe_parts(parts) {
            RouteView::NotFound
        } else if m != Method::Get {
            RouteView::MethodNotAllowed
        } else {
            RouteView::Asset(non_empty(parts).map_values(|s: Seq<u8>| decode_utf8(s)))
        }
    }
}

fn hex_digit(b: u8) -> (r: Option<u8>)
    ensures
        r is None <==> hex_value(b) < 0,
        r matches Some(v) ==> v as int == hex_value(b),
{
    if 48u8 <= b && b <= 57u8 {
        Some(b - 48)
    } else if 97u8 <= b && b <= 102u8 {
        Some(b - 87)
    } else if 65u8 <= b && b <= 70u8 {
        Some(b - 55)
    } else {
        None
    }
}

/// Decodes `%XX` escapes.
pub fn decode_percent(s: &[u8]) -> (r: Vec<u8>)
    ensures
        r@ == percent_decode(s@),
{
    let n = s.len();
    let mut out: Vec<u8> = Vec::new();
    let mut i: usize = 0;
    assert(s@.skip(0) =~= s@);
    while i < n
        invariant
            n == s@.len(),
            i <= n,
            out@ + percent_decode(s@.skip(i as int)) == percent_decode(s@),
        decreases n - i,
    {
        let ghost rest = s@.skip(i as int);
        let ghost o0 = out@;
        let mut step: usize = 1;
        let mut byte: u8 = s[i];
        if s[i] == 37u8 && n - i >= 3 {
            match (hex_digit(s[i + 1]), hex_digit(s[i + 2])) {
                (Some(hi), Some(lo)) => {
                    byte = hi * 16 + lo;
                    step = 3;
                },
                _ => {},
            }
        }
        out.push(byte);
        assert(rest.skip(step as int) =~= s@.skip(i + step));
        assert(out@ + percent_decode(s@.skip(i + step)) =~= o0 + percent_decode(rest));
        i = i + step;
    }
    assert(s@.skip(n as int) =~= Seq::<u8>::empty());
    assert(out@ + Seq::<u8>::empty() =~= out@);
    out
}

/// Splits `s` at each occurrence of `sep`.
pub fn split_bytes(s: &[u8], sep: u8) -> (r: Vec<Vec<u8>>)
    ensures
        byte_views(r@) == split(s@, sep),
{
    let n = s.len();
    let mut parts: Vec<Vec<u8>> = Vec::new();
    let mut cur: Vec<u8> = Vec::new();
    let mut i: usize = 0;
    assert(byte_views(parts@).push(cur@) =~= split(s@.take(0), sep));
    while i < n
        invariant
            n == s@.len(),
            i <= n,
            byte_views(parts@).push(cur@) == split(s@.take(i as int), sep),
        decreases n - i,
    {
        let ghost p0 = byte_views(parts@);
        let ghost c0 = cur@;
        assert(s@.take(i + 1).drop_last() =~= s@.take(i as int));
        if s[i] == sep {
            parts.push(cur);
            cur = Vec::new();
            assert(byte_views(parts@) =~= p0.push(c0));
            assert(byte_views(parts@).push(cur@) =~= split(s@.take(i + 1), sep));
        } else {
            cur.push(s[i]);
            assert(byte_views(parts@).push(cur@) =~= split(s@.take(i + 1), sep));
        }
        i = i + 1;
    }
    assert(s@.take(n as int) =~= s@);
    let ghost p1 = byte_views(parts@);
    let ghost c1 = cur@;
    parts.push(cur);
    assert(byte_views(parts@) =~= p1.push(c1));
    parts
}

fn relative_part(p: &[u8]) -> (r: &[u8])
    ensures
        r@ == relative(p@),
{
    if p.len() > 0 && p[0] == 47u8 {
        let (_a, b) = p.split_at(1);
        assert(b@ =~= p@.skip(1));
        b
    } else {
        p
    }
}

fn has_slash(s: &[u8]) -> (r: bool)
    ensures
        r == exists|i: int| 0 <= i < s@.len() && s@[i] == 47u8,
{
    let mut i: usize = 0;
    while i < s.len()
        invariant
            i <= s@.len(),
            forall|j: int| 0 <= j < i ==> s@[j] != 47u8,
        decreases s@.len() - i,
    {
        if s[i] == 47u8 {
            return true;
        }
        i = i + 1;
    }
    false
}

/// The decoded non-empty segments of a static path, or `None` where a
/// segment is not safe to look up.
fn asset_segments(parts: &Vec<Vec<u8>>) -> (r: Option<Vec<String>>)
    ensures
        r is None <==> !safe_parts(byte_views(parts@)),
        r matches Some(v) ==> v@.map_values(|s: String| s@)
            == non_empty(byte_views(parts@)).map_values(|s: Seq<u8>| decode_utf8(s)),
{
    let ghost ps = byte_views(parts@);
    let mut out: Vec<String> = Vec::new();
    let mut i: usize = 0;
    assert(ps.take(0) =~= Seq::<Seq<u8>>::empty());
    while i < parts.len()
        invariant
            ps == byte_views(parts@),
            i <= ps.len(),
            forall|j: int| 0 <= j < i ==> safe_segment(#[trigger] ps[j]),
            out@.map_values(|s: String| s@)
                == non_empty(ps.take(i as int)).map_values(|s: Seq<u8>| decode_utf8(s)),
        decreases ps.len() - i,
    {
        let part = parts[i].as_slice();
        assert(part@ == ps[i as int]);
        if part.len() == 2 && part[0] == 46u8 && part[1] == 46u8 {
            assert(part@ =~= seq![46u8, 46u8]);
            return None;
        }
        if has_slash(part) {
            return None;
        }
        let ghost o0 = out@.map_values(|s: String| s@);
        assert(ps.take(i + 1).drop_last() =~= ps.take(i as int));
        match utf8_text(part) {
            None => {
                return None;
            },
            Some(t) => {
                if part.len() > 0 {
                    out.push(t);
                    assert(out@.map_values(|s: String| s@) =~= o0.push(decode_utf8(part@)));
                    assert(non_empty(ps.take(i + 1)).map_values(|s: Seq<u8>| decode_utf8(s))
                        =~= non_empty(ps.take(i as int)).map_values(|s: Seq<u8>| decode_utf8(s)).push(decode_utf8(part@)));
                }
            },
        }
        i = i + 1;
    }
    assert(ps.take(i as int) =~= ps);
    Some(out)
}

fn decode_each(segs: &Vec<Vec<u8>>) -> (r: Vec<Vec<u8>>)
    ensures
        byte_views(r@) == byte_views(segs@).map_values(|s: Seq<u8>| percent_decode(s)),
{
    let mut out: Vec<Vec<u8>> = Vec::new();
    let mut i: usize = 0;
    while i < segs.len()
        invariant
            i <= segs@.len(),
            byte_views(out@) =~= byte_views(segs@).take(i as int).map_values(|s: Seq<u8>| percent_decode(s)),
        decreases segs@.len() - i,
    {
        let d = decode_percent(segs[i].as_slice());
        let ghost o0 = byte_views(out@);
        out.push(d);
        assert(byte_views(out@) =~= o0.push(percent_decode(segs@[i as int]@)));
        assert(byte_views(segs@).take(i + 1).map_values(|s: Seq<u8>| percent_decode(s))
            =~= byte_views(segs@).take(i as int).map_values(|s: Seq<u8>| percent_decode(s)).push(percent_decode(segs@[i as int]@)));
        i = i + 1;
    }
    assert(byte_views(segs@).take(i as int) =~= byte_views(segs@));
    out
}

/// Routes a request: `GET /api/hello/{name}` to the greeting, any other
/// path to the static root, where a segment that decodes to `..`, to text
/// holding `/`, or to bytes that are not UTF-8 finds nothing.
pub fn route(method: Method, path: &[u8]) -> (r: Route)
    ensures
        r@ == route_of(method, path@),
{
    let rel = relative_part(path);
    let segs = split_bytes(rel, 47u8);
    proof {
        assert(byte_views(segs@) == segments(path@));
    }
    if segs.len() == 3 && same_bytes(segs[0].as_slice(), &[97u8, 112u8, 105u8])
        && same_bytes(segs[1].as_slice(), &[104u8, 101u8, 108u8, 108u8, 111u8]) && segs[2].len() > 0 {
        assert(byte_views(segs@)[0] == segs@[0]@);
        assert(is_greeting_path(segments(path@)));
        if method != Method::Get {
            return Route::MethodNotAllowed;
        }
        let name = decode_percent(segs[2].as_slice());
        return match utf8_text(name.as_slice()) {
            Some(t) => Route::Greeting(t),
            None => Route::NotFound,
        };
    }
    let parts = decode_each(&segs);
    match asset_segments(&parts) {
        None => Route::NotFound,
        Some(v) => {
            if method != Method::Get {
                Route::MethodNotAllowed
            } else {
                Route::Asset(v)
            }
        },
    }
}

pub proof fn lemma_split_len(s: Seq<u8>, sep: u8)
    ensures
        split(s, sep).len() >= 1,
    decreases s.len(),
{
    if s.len() > 0 {
        lemma_split_len(s.drop_last(), sep);
    }
}

/// A sequence without the separator is a single piece.
pub proof fn lemma_split_single(s: Seq<u8>, sep: u8)
    requires
        forall|i: int| 0 <= i < s.len() ==> s[i] != sep,
    ensures
        split(s, sep) == seq![s],
    decreases s.len(),
{
    if s.len() == 0 {
        assert(s =~= Seq::<u8>::empty());
        assert(split(s, sep) =~= seq![s]);
    } else {
        lemma_split_single(s.drop_last(), sep);
        assert(s[s.len() - 1] != sep);
        assert(s.drop_last().push(s.last()) =~= s);
        assert(split(s, sep) =~= seq![s]);
    }
}

/// Splitting at a separator splits the two sides apart.
pub proof fn lemma_split_concat(a: Seq<u8>, b: Seq<u8>, sep: u8)
    ensures
        split(a + seq![sep] + b, sep) == split(a, sep) + split(b, sep),
    decreases b.len(),
{
    let s = a + seq![sep] + b;
    if b.len() == 0 {
        assert(s.drop_last() =~= a);
        assert(split(s, sep) =~= split(a, sep) + split(b, sep));
    } else {
        lemma_split_concat(a, b.drop_last(), sep);
        assert(s.drop_last() =~= a + seq![sep] + b.drop_last());
        lemma_split_len(b.drop_last(), sep);
        lemma_split_len(a, sep);
        assert(split(s, sep) =~= split(a, sep) + split(b, sep));
    }
}

/// The path of the greeting for the raw (still percent-encoded) segment `n`.
pub open spec fn greeting_path(n: Seq<u8>) -> Seq<u8> {
    seq![47u8, 97u8, 112u8, 105u8, 47u8, 104u8, 101u8, 108u8, 108u8, 111u8, 47u8] + n
}

/// A single path segment: non-empty, without `/`.
pub open spec fn is_segment(n: Seq<u8>) -> bool {
    &&& n.len() > 0
    &&& forall|i: int| 0 <= i < n.len() ==> n[i] != 47u8
}

pub proof fn lemma_greeting_route(m: Method, n: Seq<u8>)
    requires
        is_segment(n),
    ensures
        route_of(m, greeting_path(n)) == (if m != Method::Get {
            RouteView::MethodNotAllowed
        } else if valid_utf8(percent_decode(n)) {
            RouteView::Greeting(decode_utf8(percent_decode(n)))
        } else {
            RouteView::NotFound
        }),
{
    let api = seq![97u8, 112u8, 105u8];
    let hello = seq![104u8, 101u8, 108u8, 108u8, 111u8];
    assert(relative(greeting_path(n)) =~= api + seq![47u8] + hello + seq![47u8] + n);
    lemma_split_concat(api + seq![47u8] + hello, n, 47u8);
    lemma_split_concat(api, hello, 47u8);
    lemma_split_single(api, 47u8);
    lemma_split_single(hello, 47u8);
    lemma_split_single(n, 47u8);
    assert(segments(greeting_path(n)) =~= seq![api, hello, n]);
}

pub open spec fn is_parent(s: Seq<u8>) -> bool {
    s == seq![46u8, 46u8]
}

/// How deep below the static root a sequence of segments leads, `..`
/// climbing one level, empty and `.` segments staying put.
pub open spec fn depth(parts: Seq<Seq<u8>>) -> int
    decreases parts.len(),
{
    if parts.len() == 0 {
        0
    } else if is_parent(parts.last()) {
        depth(parts.drop_last()) - 1
    } else if parts.last().len() == 0 || parts.last() == seq![46u8] {
        depth(parts.drop_last())
    } else {
        depth(parts.drop_last()) + 1
    }
}

/// Normalizing the segments climbs above the static root at some point.
pub open spec fn escapes(parts: Seq<Seq<u8>>) -> bool {
    exists|k: int| 0 <= k <= parts.len() && #[trigger] depth(parts.take(k)) < 0
}

proof fn lemma_depth_nonneg(parts: Seq<Seq<u8>>)
    requires
        forall|i: int| 0 <= i < parts.len() ==> !is_parent(#[trigger] parts[i]),
    ensures
        depth(parts) >= 0,
    decreases parts.len(),
{
    if parts.len() > 0 {
        lemma_depth_nonneg(parts.drop_last());
        assert(!is_parent(parts[parts.len() - 1]));
    }
}

/// A path whose static segments escape the root holds an unsafe segment.
pub proof fn lemma_escape_unsafe(parts: Seq<Seq<u8>>)
    requires
        escapes(parts),
    ensures
        !safe_parts(parts),
{
    let k = choose|k: int| 0 <= k <= parts.len() && #[trigger] depth(parts.take(k)) < 0;
    if safe_parts(parts) {
        assert forall|i: int| 0 <= i < parts.take(k).len() implies !is_parent(#[trigger] parts.take(k)[i]) by {
            assert(safe_segment(parts[i]));
        }
        lemma_depth_nonneg(parts.take(k));
    }
}

proof fn lemma_decode_first(s: Seq<u8>)
    requires
        s.len() > 0,
        s[0] != 37u8,
    ensures
        percent_decode(s).len() > 0,
        percent_decode(s)[0] == s[0],
{
}

/// A step into a segment that starts with a letter goes one level down.
proof fn lemma_depth_letter(parts: Seq<Seq<u8>>, k: int)
    requires
        0 <= k < parts.len(),
        parts[k].len() > 0,
        parts[k][0] != 46u8,
    ensures
        depth(parts.take(k + 1)) == depth(parts.take(k)) + 1,
{
    assert(parts.take(k + 1).drop_last() =~= parts.take(k));
    assert(parts.take(k + 1).last() == parts[k]);
    assert(!is_parent(parts[k]));
    assert(parts[k] != seq![46u8]);
}

/// The segments of a greeting path never climb above the root.
pub proof fn lemma_greeting_stays(p: Seq<u8>)
    requires
        is_greeting_path(segments(p)),
    ensures
        !escapes(asset_parts(p)),
{
    let segs = segments(p);
    let parts = asset_parts(p);
    lemma_decode_first(segs[0]);
    lemma_decode_first(segs[1]);
    assert(parts.take(0) =~= Seq::<Seq<u8>>::empty());
    lemma_depth_letter(parts, 0);
    lemma_depth_letter(parts, 1);
    assert(parts.take(3).drop_last() =~= parts.take(2));
    assert(depth(parts.take(3)) >= depth(parts.take(2)) - 1);
    assert(parts.take(3) =~= parts);
    assert forall|k: int| 0 <= k <= parts.len() implies #[trigger] depth(parts.take(k)) >= 0 by {
        if k == 3 {
            assert(parts.take(k) == parts.take(3));
        }
    }
}

} // verus!
