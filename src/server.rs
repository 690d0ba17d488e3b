use gettext::Catalog;
use vstd::prelude::*;

use crate::catalog::{catalog_messages, lookup, translate};
use crate::registry::Registry;
use crate::language::{candidates, lemma_candidates_empty, lemma_candidates_token, plain_token};
use crate::registry::{choose_locale, first_index, lemma_first_index_absent, primary, resolve};
use crate::route::{
    asset_parts, escapes, greeting_path, is_greeting_path, is_segment, lemma_escape_unsafe,
    lemma_greeting_stays,
    lemma_greeting_route, percent_decode, route, route_of, segments, Method, Route, RouteView,
};
use vstd::utf8::{decode_utf8, valid_utf8};
use crate::text::{brace_free, fill, formatted, one_slot};

verus! {

/// The source message of the greeting, with one slot for the name.
pub open spec fn greeting_message() -> Seq<char> {
    seq!['H', 'e', 'l', 'l', 'o', ',', ' ', '{', '}', '!']
}

/// The greeting for `name` as catalog `c` renders it; `None` where the
/// translated template does not take one argument.
pub open spec fn greeting_text(c: Catalog, name: Seq<char>) -> Option<Seq<char>> {
    formatted(translate(c, greeting_message()), name)
}

/// Renders the greeting for `name` with catalog `c`.
pub fn greet(c: &Catalog, name: &str) -> (r: Option<String>)
    ensures
        r is Some <==> greeting_text(*c, name@) is Some,
        r matches Some(t) ==> greeting_text(*c, name@) == Some(t@),
        !catalog_messages(*c).contains_key(greeting_message()) ==> (r is Some && r->0@
            == seq!['H', 'e', 'l', 'l', 'o', ',', ' '] + name@ + seq!['!']),
{
    let msg = "Hello, {}!";
    proof {
        reveal_strlit("Hello, {}!");
        assert(msg@ =~= greeting_message());
    }
    let template = lookup(c, msg);
    proof {
        let a = seq!['H', 'e', 'l', 'l', 'o', ',', ' '];
        let b = seq!['!'];
        assert(greeting_message() =~= one_slot(a, b));
        assert(brace_free(a));
        assert(brace_free(b));
    }
    fill(template, name)
}

/// The answer to a request.
#[derive(Debug)]
pub enum Reply {
    /// `200` with a `text/plain` body.
    Text(String),
    /// The file under the static root at these segments (`404` if absent).
    File(Vec<String>),
    NotFound,
    MethodNotAllowed,
    /// The translated template could not be filled in.
    Failed,
}

pub enum ReplyView {
    Text(Seq<char>),
    File(Seq<Seq<char>>),
    NotFound,
    MethodNotAllowed,
    Failed,
}

impl View for Reply {
    type V = ReplyView;

    open spec fn view(&self) -> ReplyView {
        match self {
            Reply::Text(t) => ReplyView::Text(t@),
            Reply::File(p) => ReplyView::File(p@.map_values(|s: String| s@)),
            Reply::NotFound => ReplyView::NotFound,
            Reply::MethodNotAllowed => ReplyView::MethodNotAllowed,
            Reply::Failed => ReplyView::Failed,
        }
    }
}

/// The reply that carries the greeting for `name` in catalog `c`.
pub open spec fn greeting_reply(c: Catalog, name: Seq<char>) -> ReplyView {
    match greeting_text(c, name) {
        Some(t) => ReplyView::Text(t),
        None => ReplyView::Failed,
    }
}

/// The reply to method `m` on path `p` with `Accept-Language` value `h`
/// (empty where the header is absent).
pub open spec fn reply_of(reg: Registry, m: Method, p: Seq<u8>, h: Seq<u8>) -> ReplyView {
    match route_of(m, p) {
        RouteView::Greeting(name) => greeting_reply(reg@[reg.negotiated(h)].1, name),
        RouteView::Asset(s) => ReplyView::File(s),
        RouteView::NotFound => ReplyView::NotFound,
        RouteView::MethodNotAllowed => ReplyView::MethodNotAllowed,
    }
}

/// Answers one request.
pub fn handle(reg: &Registry, method: Method, path: &[u8], accept_language: &[u8]) -> (r: Reply)
    requires
        reg.wf(),
    ensures
        r@ == reply_of(*reg, method, path@, accept_language@),
{
    match route(method, path) {
        Route::Greeting(name) => {
            let c = reg.catalog_for(accept_language);
            match greet(c, name.as_str()) {
                Some(t) => Reply::Text(t),
                None => Reply::Failed,
            }
        },
        Route::Asset(s) => Reply::File(s),
        Route::NotFound => Reply::NotFound,
        Route::MethodNotAllowed => Reply::MethodNotAllowed,
    }
}

/// Without an `Accept-Language` header, `GET /api/hello/{n}` answers with
/// the default locale's greeting for the decoded name.
pub proof fn law_greeting_default(reg: Registry, n: Seq<u8>)
    requires
        reg.wf(),
        is_segment(n),
        valid_utf8(percent_decode(n)),
    ensures
        reply_of(reg, Method::Get, greeting_path(n), Seq::empty())
            == greeting_reply(reg@[0].1, decode_utf8(percent_decode(n))),
{
    lemma_greeting_route(Method::Get, n);
    lemma_candidates_empty();
    let cs = candidates(Seq::<u8>::empty());
    assert(cs.skip(1) =~= Seq::<Seq<u8>>::empty());
    assert(resolve(reg.tags(), cs[0]) < 0);
    assert(choose_locale(reg.tags(), cs) == choose_locale(reg.tags(), cs.skip(1)));
    assert(reg.negotiated(Seq::empty()) == 0);
}

/// `Accept-Language: l` with `l` a supported tag answers in `l`'s locale.
pub proof fn law_greeting_supported(reg: Registry, n: Seq<u8>, l: Seq<u8>)
    requires
        reg.wf(),
        is_segment(n),
        valid_utf8(percent_decode(n)),
        plain_token(l),
        first_index(reg.tags(), l) >= 0,
    ensures
        reg.negotiated(l) == first_index(reg.tags(), l),
        reply_of(reg, Method::Get, greeting_path(n), l)
            == greeting_reply(reg@[first_index(reg.tags(), l)].1, decode_utf8(percent_decode(n))),
{
    lemma_greeting_route(Method::Get, n);
    lemma_candidates_token(l);
}

/// `Accept-Language: l` with a tag that neither is supported nor has a
/// supported primary language answers in the default locale.
pub proof fn law_greeting_unsupported(reg: Registry, n: Seq<u8>, l: Seq<u8>)
    requires
        reg.wf(),
        is_segment(n),
        valid_utf8(percent_decode(n)),
        plain_token(l),
        forall|i: int| 0 <= i < reg@.len() ==> reg@[i].0 != l && reg@[i].0 != primary(l),
    ensures
        reg.negotiated(l) == 0,
        reply_of(reg, Method::Get, greeting_path(n), l)
            == greeting_reply(reg@[0].1, decode_utf8(percent_decode(n))),
{
    lemma_greeting_route(Method::Get, n);
    lemma_candidates_token(l);
    assert forall|j: int| 0 <= j < reg.tags().len() implies reg.tags()[j] != l && reg.tags()[j] != primary(l) by {
        assert(reg.tags()[j] == reg@[j].0);
    }
    lemma_first_index_absent(reg.tags(), l);
    lemma_first_index_absent(reg.tags(), primary(l));
    assert(resolve(reg.tags(), l) < 0);
    assert(seq![l].skip(1) =~= Seq::<Seq<u8>>::empty());
    assert(choose_locale(reg.tags(), seq![l]) == choose_locale(reg.tags(), seq![l].skip(1)));
}

/// The reply is a function of the request: two answers to the same
/// request carry the same body.
pub proof fn law_same_request_same_reply(
    reg: Registry,
    m: Method,
    p: Seq<u8>,
    h: Seq<u8>,
    r1: Reply,
    r2: Reply,
)
    requires
        r1@ == reply_of(reg, m, p, h),
        r2@ == reply_of(reg, m, p, h),
    ensures
        r1@ == r2@,
{
}

/// A request whose path, split into segments, each percent-decoded, and
/// normalized (`.` staying put, `..` climbing a level), climbs out of the
/// static root is answered with `404`.
pub proof fn law_traversal_not_found(reg: Registry, m: Method, p: Seq<u8>, h: Seq<u8>)
    requires
        escapes(asset_parts(p)),
    ensures
        reply_of(reg, m, p, h) == ReplyView::NotFound,
{
    if is_greeting_path(segments(p)) {
        lemma_greeting_stays(p);
    }
    lemma_escape_unsafe(asset_parts(p));
}

} // verus!
