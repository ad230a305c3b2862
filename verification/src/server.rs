//! Decisions of the local HTTP service: which ports to try, where a request
//! goes, and how large a body may be.
use vstd::prelude::*;

use crate::api::{body_view, request_error, NotifyError, NotifyRequest};
use crate::text::{lemma_prefix_len, prefix_len};

verus! {

/// Largest request body accepted, in bytes.
pub const MAX_BODY: usize = 65536;

/// Ports tried, counting from the configured one.
pub const PORT_PROBES: u16 = 10;

/// HTTP methods the service tells apart.
#[derive(Debug, Clone, Copy, PartialEq, Eq, Structural)]
pub enum HttpMethod {
    Get,
    Post,
    Options,
    Other,
}

/// Where a request goes.
#[derive(Debug, Clone, Copy, PartialEq, Eq, Structural)]
pub enum Route {
    /// CORS preflight: 204 with the CORS headers.
    Preflight,
    /// `GET /health`.
    Health,
    /// `POST /notify`.
    Notify,
    /// `POST /close`: close the current popup.
    Close,
    /// Anything else: 404.
    NotFound,
}

/// The path of a request target: the text before the first `?`.
pub open spec fn path_of(url: Seq<char>) -> Seq<char> {
    url.take(prefix_len(url, |c: char| c != '?') as int)
}

pub open spec fn route_of(method: HttpMethod, url: Seq<char>) -> Route {
    let path = path_of(url);
    if method == HttpMethod::Options {
        Route::Preflight
    } else if method == HttpMethod::Get && path == "/health"@ {
        Route::Health
    } else if method == HttpMethod::Post && path == "/notify"@ {
        Route::Notify
    } else if method == HttpMethod::Post && path == "/close"@ {
        Route::Close
    } else {
        Route::NotFound
    }
}

/// Routes a request by method and path (the query is ignored).
pub fn route(method: HttpMethod, url: &str) -> (r: Route)
    ensures
        r == route_of(method, url@),
{
    if method == HttpMethod::Options {
        return Route::Preflight;
    }
    let chars = crate::text::chars_of(url);
    let mut j: usize = 0;
    while j < chars.len() && chars[j] != '?'
        invariant
            j <= chars@.len(),
            forall|k: int| 0 <= k < j ==> #[trigger] chars@[k] != '?',
        decreases chars.len() - j,
    {
        j += 1;
    }
    proof {
        lemma_prefix_len(chars@, |c: char| c != '?', j as int);
    }
    let path = crate::html::attr::sub_chars(&chars, 0, j);
    let p = crate::text::string_of(&path);
    assert(p@ == path_of(url@));
    let health = "/health".to_owned();
    let notify = "/notify".to_owned();
    let close = "/close".to_owned();
    if method == HttpMethod::Get && p == health {
        Route::Health
    } else if method == HttpMethod::Post && p == notify {
        Route::Notify
    } else if method == HttpMethod::Post && p == close {
        Route::Close
    } else {
        Route::NotFound
    }
}

/// Ports to try, in order: the configured one and the next ones, up to
/// `PORT_PROBES` in all, never past 65535 (the last port is not tried).
pub open spec fn ports_from(base: u16) -> Seq<u16> {
    let end: int = if base + PORT_PROBES > 0xffff {
        0xffff
    } else {
        base + PORT_PROBES
    };
    Seq::new((end - base) as nat, |i: int| (base + i) as u16)
}

pub fn candidate_ports(base: u16) -> (r: Vec<u16>)
    ensures
        r@ == ports_from(base),
{
    let end = base.saturating_add(PORT_PROBES);
    let mut r: Vec<u16> = Vec::new();
    let mut p = base;
    while p < end
        invariant
            base <= p <= end,
            end == (if base + PORT_PROBES > 0xffff {
                0xffff
            } else {
                base + PORT_PROBES
            }),
            r@ == Seq::new((p - base) as nat, |i: int| (base + i) as u16),
        decreases end - p,
    {
        r.push(p);
        p += 1;
        assert(r@ =~= Seq::new((p - base) as nat, |i: int| (base + i) as u16));
    }
    assert(r@ =~= ports_from(base));
    r
}

/// The CORS headers sent with every response, name and value.
pub open spec fn cors_pairs() -> Seq<(Seq<char>, Seq<char>)> {
    seq![
        ("Access-Control-Allow-Origin"@, "*"@),
        ("Access-Control-Allow-Methods"@, "GET, POST, OPTIONS"@),
        ("Access-Control-Allow-Headers"@, "Content-Type"@),
        ("Access-Control-Allow-Private-Network"@, "true"@),
        ("Access-Control-Max-Age"@, "86400"@),
    ]
}

pub open spec fn pair_views(v: Seq<(&'static str, &'static str)>) -> Seq<(Seq<char>, Seq<char>)> {
    Seq::new(v.len(), |i: int| (v[i].0@, v[i].1@))
}

/// The CORS headers: any origin, the three methods served, `Content-Type`,
/// private-network access (asked by newer browsers before reaching a local
/// address), and a day's caching of the preflight.
pub fn cors_headers() -> (r: Vec<(&'static str, &'static str)>)
    ensures
        pair_views(r@) == cors_pairs(),
{
    let r = vec![
        ("Access-Control-Allow-Origin", "*"),
        ("Access-Control-Allow-Methods", "GET, POST, OPTIONS"),
        ("Access-Control-Allow-Headers", "Content-Type"),
        ("Access-Control-Allow-Private-Network", "true"),
        ("Access-Control-Max-Age", "86400"),
    ];
    assert(pair_views(r@) =~= cors_pairs());
    r
}

/// A request body larger than `MAX_BODY` bytes is refused as bad JSON.
pub fn check_body_size(len: usize) -> (r: Result<(), NotifyError>)
    ensures
        len <= MAX_BODY ==> r is Ok,
        len > MAX_BODY ==> (r matches Err(NotifyError::BadJson(m)) && m@ == "请求体过大"@),
{
    if len > MAX_BODY {
        Err(NotifyError::BadJson("请求体过大".to_owned()))
    } else {
        Ok(())
    }
}

/// How a `POST /notify` body is answered before delivery: a body that is
/// not UTF-8, one larger than `MAX_BODY`, and one that is not the request's
/// JSON (`parsed`, with the parser's message) are refused as bad JSON, in
/// that order; then the request's own checks. `Ok` holds the request to
/// deliver.
pub fn accept_notify(read_ok: bool, body_len: usize, parsed: Result<NotifyRequest, String>) -> (r:
    Result<NotifyRequest, NotifyError>)
    ensures
        !read_ok ==> (r matches Err(NotifyError::BadJson(m)) && m@ == "请求体不是有效的 UTF-8 文本"@),
        read_ok && body_len > MAX_BODY ==> (r matches Err(NotifyError::BadJson(m)) && m@
            == "请求体过大"@),
        read_ok && body_len <= MAX_BODY ==> match parsed {
            Err(e) => r matches Err(NotifyError::BadJson(m)) && m@ == e@,
            Ok(req) => match request_error(req.title@, body_view(req.body)) {
                Some(err) => r == Err::<NotifyRequest, NotifyError>(err),
                None => r == Ok::<NotifyRequest, NotifyError>(req),
            },
        },
{
    if !read_ok {
        return Err(NotifyError::BadJson("请求体不是有效的 UTF-8 文本".to_owned()));
    }
    if let Err(e) = check_body_size(body_len) {
        return Err(e);
    }
    match parsed {
        Err(e) => Err(NotifyError::BadJson(e)),
        Ok(req) => match req.validate() {
            Err(err) => Err(err),
            Ok(()) => Ok(req),
        },
    }
}

} // verus!
