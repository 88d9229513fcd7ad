//! Content negotiation and request routing of the two listeners.
use crate::text::{chars_of, str_is};
use vstd::prelude::*;

verus! {

/// The media type of every protocol response, and the one a negotiated
/// request must accept.
pub const MEDIATYPE: &'static str = "application/external.dns.webhook+json;version=1";

/// The type and subtype of the media type.
pub const MEDIATYPE_NAME: &'static str = "application/external.dns.webhook+json";

/// The parameter of the media type.
pub const MEDIATYPE_PARAM: &'static str = "version=1";

pub open spec fn is_blank(c: char) -> bool {
    c == ' ' || c == '\t'
}

pub open spec fn all_blank(s: Seq<char>) -> bool {
    forall|i: int| 0 <= i < s.len() ==> is_blank(#[trigger] s[i])
}

/// `s` is the media type, with blanks allowed at either end and around
/// the `;` before its parameter, and nowhere else.
pub open spec fn accepts_media_type(s: Seq<char>) -> bool {
    exists|a: Seq<char>, b: Seq<char>, c: Seq<char>, d: Seq<char>|
        #![trigger all_blank(a), all_blank(b), all_blank(c), all_blank(d)]
        all_blank(a) && all_blank(b) && all_blank(c) && all_blank(d) && s == a
            + MEDIATYPE_NAME@ + b + seq![';'] + c + MEDIATYPE_PARAM@ + d
}

/// The first position at or after `from` that holds no blank.
fn skip_blanks(s: &Vec<char>, from: usize) -> (r: usize)
    requires
        from <= s.len(),
    ensures
        from <= r <= s.len(),
        forall|k: int| from <= k < r ==> is_blank(#[trigger] s@[k]),
        r < s.len() ==> !is_blank(s@[r as int]),
{
    let mut i = from;
    while i < s.len() && (s[i] == ' ' || s[i] == '\t')
        invariant
            from <= i <= s.len(),
            forall|k: int| from <= k < i ==> is_blank(#[trigger] s@[k]),
        decreases s.len() - i,
    {
        i = i + 1;
    }
    i
}

/// Whether `lit` stands in `s` at position `at`.
fn has_at(s: &Vec<char>, at: usize, lit: &Vec<char>) -> (r: bool)
    requires
        at <= s.len(),
    ensures
        r == (at + lit.len() <= s.len() && s@.subrange(at as int, at + lit.len()) == lit@),
{
    if lit.len() > s.len() - at {
        return false;
    }
    let mut i: usize = 0;
    while i < lit.len()
        invariant
            i <= lit.len(),
            at + lit.len() <= s.len(),
            forall|k: int| 0 <= k < i ==> s@[at + k] == lit@[k],
        decreases lit.len() - i,
    {
        if s[at + i] != lit[i] {
            assert(s@.subrange(at as int, at + lit.len())[i as int] != lit@[i as int]);
            return false;
        }
        i = i + 1;
    }
    assert(s@.subrange(at as int, at + lit.len()) =~= lit@);
    true
}

/// A blank-only stretch followed by a character that is no blank is found
/// whole by `skip_blanks`.
proof fn lemma_blank_run(s: Seq<char>, from: int, a: Seq<char>, r: int)
    requires
        0 <= from,
        from + a.len() < s.len(),
        all_blank(a),
        s.subrange(from, from + a.len()) == a,
        !is_blank(s[from + a.len()]),
        from <= r <= s.len(),
        forall|k: int| from <= k < r ==> is_blank(#[trigger] s[k]),
        r < s.len() ==> !is_blank(s[r]),
    ensures
        r == from + a.len(),
{
    if r < from + a.len() {
        assert(s[r] == a[r - from]);
    }
}

/// What `skip_blanks` returns when started at `from`.
pub open spec fn skipped(s: Seq<char>, from: int, r: int) -> bool {
    &&& from <= r <= s.len()
    &&& forall|k: int| from <= k < r ==> is_blank(#[trigger] s[k])
    &&& r < s.len() ==> !is_blank(s[r])
}

/// The positions the scan stops at on an accepted value.
proof fn lemma_accept_positions(
    t: Seq<char>,
    n: Seq<char>,
    p: Seq<char>,
    a: Seq<char>,
    b: Seq<char>,
    c: Seq<char>,
    d: Seq<char>,
) -> (ends: (int, int, int, int))
    requires
        n.len() > 0 && !is_blank(n[0]),
        p.len() > 0 && !is_blank(p[0]),
        all_blank(a) && all_blank(b) && all_blank(c) && all_blank(d),
        t == a + n + b + seq![';'] + c + p + d,
    ensures
        ends.0 == a.len(),
        forall|r: int| #[trigger] skipped(t, 0, r) ==> r == ends.0,
        t.subrange(ends.0, ends.0 + n.len()) == n,
        forall|r: int| #[trigger] skipped(t, ends.0 + n.len(), r) ==> r == ends.1,
        ends.1 < t.len() && t[ends.1] == ';',
        forall|r: int| #[trigger] skipped(t, ends.1 + 1, r) ==> r == ends.2,
        ends.2 + p.len() <= t.len(),
        t.subrange(ends.2, ends.2 + p.len()) == p,
        ends.3 == ends.2 + p.len(),
        forall|r: int| #[trigger] skipped(t, ends.3, r) ==> r == t.len(),
{
    let i0 = a.len() as int;
    let i1 = i0 + n.len();
    let i2 = i1 + b.len() + 1;
    let i3 = i2 + c.len();
    let i4 = i3 + p.len();
    assert(t.subrange(0, i0) =~= a);
    assert(t[i0] == n[0]);
    assert(t.subrange(i0, i1) =~= n);
    assert(t.subrange(i1, i1 + b.len()) =~= b);
    assert(t[i1 + b.len()] == ';');
    assert(t.subrange(i2, i3) =~= c);
    assert(t[i3] == p[0]);
    assert(t.subrange(i3, i4) =~= p);
    assert(t.len() == i4 + d.len());
    assert forall|r: int| skipped(t, 0, r) implies r == i0 by {
        lemma_blank_run(t, 0, a, r);
    }
    assert forall|r: int| skipped(t, i1, r) implies r == i1 + b.len() by {
        lemma_blank_run(t, i1, b, r);
    }
    assert forall|r: int| skipped(t, i2, r) implies r == i3 by {
        lemma_blank_run(t, i2, c, r);
    }
    assert forall|r: int| skipped(t, i4, r) implies r == t.len() by {
        if r < t.len() {
            assert(t[r] == d[r - i4]);
        }
    }
    (i0, i1 + b.len(), i3, i4)
}

/// On an accepted value, where each step of the scan stops.
proof fn lemma_accept_scan(t: Seq<char>) -> (ends: (int, int, int, int))
    requires
        accepts_media_type(t),
    ensures
        forall|r: int| #[trigger] skipped(t, 0, r) ==> r == ends.0,
        0 <= ends.0 && ends.0 + MEDIATYPE_NAME@.len() <= t.len(),
        t.subrange(ends.0, ends.0 + MEDIATYPE_NAME@.len()) == MEDIATYPE_NAME@,
        forall|r: int| #[trigger] skipped(t, ends.0 + MEDIATYPE_NAME@.len(), r) ==> r == ends.1,
        ends.1 < t.len() && t[ends.1] == ';',
        forall|r: int| #[trigger] skipped(t, ends.1 + 1, r) ==> r == ends.2,
        ends.2 + MEDIATYPE_PARAM@.len() <= t.len(),
        t.subrange(ends.2, ends.2 + MEDIATYPE_PARAM@.len()) == MEDIATYPE_PARAM@,
        forall|r: int| #[trigger] skipped(t, ends.2 + MEDIATYPE_PARAM@.len(), r) ==> r == t.len(),
{
    reveal_strlit("application/external.dns.webhook+json");
    reveal_strlit("version=1");
    let n = MEDIATYPE_NAME@;
    let p = MEDIATYPE_PARAM@;
    let (a, b, c, d) = choose|a: Seq<char>, b: Seq<char>, c: Seq<char>, d: Seq<char>|
        #![trigger all_blank(a), all_blank(b), all_blank(c), all_blank(d)]
        all_blank(a) && all_blank(b) && all_blank(c) && all_blank(d) && t == a + n + b + seq![';']
            + c + p + d;
    lemma_accept_positions(t, n, p, a, b, c, d)
}

/// A value that the scan accepts is of the accepted shape.
proof fn lemma_accept_witness(t: Seq<char>, p0: int, p1: int, p2: int, p3: int)
    requires
        skipped(t, 0, p0),
        p0 + MEDIATYPE_NAME@.len() <= t.len(),
        t.subrange(p0, p0 + MEDIATYPE_NAME@.len()) == MEDIATYPE_NAME@,
        skipped(t, p0 + MEDIATYPE_NAME@.len(), p1),
        p1 < t.len() && t[p1] == ';',
        skipped(t, p1 + 1, p2),
        p2 + MEDIATYPE_PARAM@.len() <= t.len(),
        t.subrange(p2, p2 + MEDIATYPE_PARAM@.len()) == MEDIATYPE_PARAM@,
        skipped(t, p2 + MEDIATYPE_PARAM@.len(), p3),
        p3 == t.len(),
    ensures
        accepts_media_type(t),
{
    let n = MEDIATYPE_NAME@;
    let p = MEDIATYPE_PARAM@;
    let a = t.subrange(0, p0);
    let b = t.subrange(p0 + n.len(), p1);
    let c = t.subrange(p1 + 1, p2);
    let d = t.subrange(p2 + p.len(), p3);
    assert(all_blank(a));
    assert(all_blank(b));
    assert(all_blank(c));
    assert(all_blank(d));
    assert(t =~= a + n + b + seq![';'] + c + p + d);
}

/// Whether an `Accept` value asks for the media type.
pub fn media_type_matches(accept: &str) -> (r: bool)
    ensures
        r == accepts_media_type(accept@),
{
    let s = chars_of(accept);
    let name = chars_of(MEDIATYPE_NAME);
    let param = chars_of(MEDIATYPE_PARAM);
    let ghost t = s@;
    let p0 = skip_blanks(&s, 0);
    let ok0 = has_at(&s, p0, &name);
    let p1 = if ok0 { skip_blanks(&s, p0 + name.len()) } else { p0 };
    let ok1 = ok0 && p1 < s.len() && s[p1] == ';';
    let p2 = if ok1 { skip_blanks(&s, p1 + 1) } else { p1 };
    let ok2 = ok1 && has_at(&s, p2, &param);
    let p3 = if ok2 { skip_blanks(&s, p2 + param.len()) } else { p2 };
    let r = ok2 && p3 == s.len();
    proof {
        if r {
            lemma_accept_witness(t, p0 as int, p1 as int, p2 as int, p3 as int);
        }
        if accepts_media_type(t) {
            let ends = lemma_accept_scan(t);
            assert(skipped(t, 0, p0 as int));
            assert(skipped(t, p0 + name@.len(), p1 as int));
            assert(skipped(t, p1 + 1, p2 as int));
            assert(skipped(t, p2 + param@.len(), p3 as int));
        }
    }
    r
}

/// The two listeners: one for the controller's protocol, reachable from the
/// loopback interface only, and one for health and metrics on every
/// interface. The controller fixes the addresses by convention.
#[derive(Debug, Clone)]
pub struct Listeners {
    pub provider_address: String,
    pub provider_port: u16,
    pub exposed_address: String,
    pub exposed_port: u16,
}

impl Listeners {
    pub fn new() -> (r: Listeners)
        ensures
            r.provider_address@ == "127.0.0.1"@,
            r.provider_port == 8888,
            r.exposed_address@ == "0.0.0.0"@,
            r.exposed_port == 8080,
    {
        Listeners {
            provider_address: String::from_str("127.0.0.1"),
            provider_port: 8888,
            exposed_address: String::from_str("0.0.0.0"),
            exposed_port: 8080,
        }
    }
}

/// The listener a request came in on.
#[derive(Debug, Clone, Copy, PartialEq, Eq, Structural)]
pub enum Listener {
    Provider,
    Exposed,
}

/// The HTTP methods the routes tell apart.
#[derive(Debug, Clone, Copy, PartialEq, Eq, Structural)]
pub enum Method {
    Get,
    Post,
    Other,
}

/// What a request is to be answered with.
#[derive(Debug, Clone, Copy, PartialEq, Eq, Structural)]
pub enum Route {
    /// `GET /`: the provider's domain filter.
    DomainFilter,
    /// `GET /records`: the current record set.
    Records,
    /// `POST /records`: apply the posted change set.
    ApplyChanges,
    /// `POST /adjustendpoints`: the provider's adjustment of the posted list.
    AdjustEndpoints,
    /// `GET /healthz`: liveness.
    Healthz,
    /// `GET /metrics`: the metrics report.
    Metrics,
    /// A negotiated route whose `Accept` does not ask for the media type.
    NotAcceptable,
    /// No route.
    NotFound,
}

/// The request accepts the media type.
pub open spec fn negotiated(accept: Option<Seq<char>>) -> bool {
    accept matches Some(a) && accepts_media_type(a)
}

pub open spec fn guarded(accept: Option<Seq<char>>, route: Route) -> Route {
    if negotiated(accept) {
        route
    } else {
        Route::NotAcceptable
    }
}

/// The route of a request on `listener` with `method`, `path` and the
/// `Accept` value `accept`.
pub open spec fn route_of(
    listener: Listener,
    method: Method,
    path: Seq<char>,
    accept: Option<Seq<char>>,
) -> Route {
    match listener {
        Listener::Provider => if method == Method::Get && path == "/"@ {
            guarded(accept, Route::DomainFilter)
        } else if method == Method::Get && path == "/records"@ {
            guarded(accept, Route::Records)
        } else if method == Method::Post && path == "/records"@ {
            Route::ApplyChanges
        } else if method == Method::Post && path == "/adjustendpoints"@ {
            guarded(accept, Route::AdjustEndpoints)
        } else {
            Route::NotFound
        },
        Listener::Exposed => if method == Method::Get && path == "/healthz"@ {
            Route::Healthz
        } else if method == Method::Get && path == "/metrics"@ {
            Route::Metrics
        } else {
            Route::NotFound
        },
    }
}

pub open spec fn opt_view(s: Option<&str>) -> Option<Seq<char>> {
    match s {
        Some(x) => Some(x@),
        None => None,
    }
}

fn guard(accept: Option<&str>, route: Route) -> (r: Route)
    ensures
        r == guarded(opt_view(accept), route),
{
    let ok = match accept {
        Some(a) => media_type_matches(a),
        None => false,
    };
    if ok {
        route
    } else {
        Route::NotAcceptable
    }
}

/// Routes a request.
pub fn route(listener: Listener, method: Method, path: &str, accept: Option<&str>) -> (r: Route)
    ensures
        r == route_of(listener, method, path@, opt_view(accept)),
{
    match listener {
        Listener::Provider => {
            if method == Method::Get && str_is(path, "/") {
                guard(accept, Route::DomainFilter)
            } else if method == Method::Get && str_is(path, "/records") {
                guard(accept, Route::Records)
            } else if method == Method::Post && str_is(path, "/records") {
                Route::ApplyChanges
            } else if method == Method::Post && str_is(path, "/adjustendpoints") {
                guard(accept, Route::AdjustEndpoints)
            } else {
                Route::NotFound
            }
        },
        Listener::Exposed => {
            if method == Method::Get && str_is(path, "/healthz") {
                Route::Healthz
            } else if method == Method::Get && str_is(path, "/metrics") {
                Route::Metrics
            } else {
                Route::NotFound
            }
        },
    }
}

/// How the work behind a route went.
#[derive(Debug, Clone, Copy, PartialEq, Eq, Structural)]
pub enum Outcome {
    /// Done.
    Done,
    /// The request body could not be read.
    Malformed,
    /// The provider failed.
    Failed,
}

/// The HTTP status of the answer to a request routed to `route` whose work
/// went as `outcome`.
pub open spec fn status_of(route: Route, outcome: Outcome) -> u16 {
    match route {
        Route::NotAcceptable => 406,
        Route::NotFound => 404,
        _ => match outcome {
            Outcome::Malformed => 400,
            Outcome::Failed => 500,
            Outcome::Done => if route == Route::ApplyChanges {
                204
            } else {
                200
            },
        },
    }
}

pub fn status_code(route: Route, outcome: Outcome) -> (r: u16)
    ensures
        r == status_of(route, outcome),
{
    match route {
        Route::NotAcceptable => 406,
        Route::NotFound => 404,
        _ => match outcome {
            Outcome::Malformed => 400,
            Outcome::Failed => 500,
            Outcome::Done => if route == Route::ApplyChanges {
                204
            } else {
                200
            },
        },
    }
}

} // verus!
