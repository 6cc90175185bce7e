//! The route table, the matcher and the dispatcher.
//!
//! Routes are kept sorted by descending pattern segment count, so more
//! specific patterns are attempted first; among patterns of equal
//! specificity, registration order decides.  Matching walks the
//! pattern and path segments in lockstep: a segment beginning with `:`
//! is a named wildcard capturing one path segment, and a trailing
//! wildcard additionally captures all remaining path segments.  The
//! table is built single-threaded, then read only through `&self`
//! while serving.

use vstd::prelude::*;

verus! {

use crate::request::HttpError;
use crate::request::Method;
use crate::request::Request;
use crate::response::not_found_response;
use crate::response::not_found_response_spec;
use crate::strmap::StrMap;
use crate::text::join_slash_spec;
use crate::text::lemma_join_slash_push;
use crate::text::lemma_split_char_len;
use crate::text::split_char;
use crate::text::split_char_spec;
use crate::text::str_eq;
use vstd::string::StrSliceExecFns;
use vstd::string::StringExecFns;

/// A registered route: a slash-separated path pattern, a method, a
/// handler reference (an index the application maps to its handler
/// functions), and an optional per-route configuration bag.
#[derive(Clone, Debug)]
pub struct Route {
    pub path: String,
    pub method: Method,
    pub handler: usize,
    pub state: Option<StrMap>,
}

impl Route {
    pub fn new(path: &str, method: Method, handler: usize) -> (r: Route)
        ensures
            r.path@ == path@,
            r.method == method,
            r.handler == handler,
            r.state is None,
    {
        Route { path: path.to_owned(), method, handler, state: None }
    }
}

// ---------------------------------------------------------------------
// Matching, at the spec level
// ---------------------------------------------------------------------

/// The slash-separated segments of a path or pattern.
pub open spec fn path_segments(p: Seq<char>) -> Seq<Seq<char>> {
    split_char_spec(p, '/')
}

/// A pattern segment beginning with `:` is a named wildcard.
pub open spec fn seg_is_wildcard(seg: Seq<char>) -> bool {
    seg.len() > 0 && seg[0] == ':'
}

/// How many segments a route's pattern has; the specificity measure.
pub open spec fn route_seg_count(r: Route) -> nat {
    path_segments(r.path@).len()
}

/// Pattern segments `ps` match path segments `qs`: positionally each
/// pattern segment is a wildcard or byte-equal to the path segment,
/// and the counts are equal, unless the final pattern segment is a
/// wildcard, which may also absorb extra trailing path segments.
pub open spec fn segs_match(ps: Seq<Seq<char>>, qs: Seq<Seq<char>>) -> bool {
    &&& forall|i: int|
        0 <= i < ps.len() && i < qs.len() ==> (seg_is_wildcard(#[trigger] ps[i]) || ps[i] == qs[i])
    &&& (qs.len() == ps.len() || (qs.len() > ps.len() && ps.len() > 0 && seg_is_wildcard(
        ps[ps.len() - 1],
    )))
}

/// A route matches a request when the method is equal and the pattern
/// segments match the path segments.
pub open spec fn spec_routes_match(route: Route, request: Request) -> bool {
    &&& route.method == request.method
    &&& segs_match(path_segments(route.path@), path_segments(request.path@))
}

/// What a wildcard at pattern position `j` captures: the path segment
/// at `j`, or — for a trailing wildcard with extra path segments — all
/// remaining path segments rejoined with `/`.
pub open spec fn capture_of(ps: Seq<Seq<char>>, qs: Seq<Seq<char>>, j: int) -> Seq<char> {
    if j == ps.len() - 1 && qs.len() > ps.len() {
        join_slash_spec(qs.skip(j))
    } else {
        qs[j]
    }
}

/// The parameters captured by the first `k` pattern segments, later
/// captures overriding earlier ones with the same name.
pub open spec fn params_prefix(ps: Seq<Seq<char>>, qs: Seq<Seq<char>>, k: int) -> Map<
    Seq<char>,
    Seq<char>,
>
    decreases k,
{
    if k <= 0 {
        Map::empty()
    } else {
        let m = params_prefix(ps, qs, k - 1);
        if seg_is_wildcard(ps[k - 1]) {
            m.insert(ps[k - 1].skip(1), capture_of(ps, qs, k - 1))
        } else {
            m
        }
    }
}

/// The full parameter mapping of a match.
pub open spec fn spec_params(ps: Seq<Seq<char>>, qs: Seq<Seq<char>>) -> Map<Seq<char>, Seq<char>> {
    params_prefix(ps, qs, ps.len() as int)
}

// ---------------------------------------------------------------------
// The matcher
// ---------------------------------------------------------------------

fn seg_wildcard(seg: &str) -> (r: bool)
    ensures
        r == seg_is_wildcard(seg@),
{
    let n = seg.unicode_len();
    n > 0 && seg.get_char(0) == ':'
}

/// Does `route`'s pattern match `request`'s method and path?
pub fn routes_match(route: &Route, request: &Request) -> (r: bool)
    ensures
        r == spec_routes_match(*route, *request),
{
    if route.method != request.method {
        return false;
    }
    let ps = split_char(route.path.as_str(), '/');
    let qs = split_char(request.path.as_str(), '/');
    let plen = ps.len();
    let qlen = qs.len();
    proof {
        lemma_split_char_len(route.path@, '/');
        assert(ps@.len() == ps.deep_view().len());
        assert(qs@.len() == qs.deep_view().len());
    }
    let shorter = if plen < qlen {
        plen
    } else {
        qlen
    };
    let mut i: usize = 0;
    while i < shorter
        invariant
            ps.deep_view() == path_segments(route.path@),
            qs.deep_view() == path_segments(request.path@),
            plen == ps@.len(),
            qlen == qs@.len(),
            shorter <= plen,
            shorter <= qlen,
            shorter == if plen < qlen { plen } else { qlen },
            i <= shorter,
            forall|j: int|
                0 <= j < i ==> (seg_is_wildcard(#[trigger] ps.deep_view()[j]) || ps.deep_view()[j]
                    == qs.deep_view()[j]),
        decreases shorter - i,
    {
        proof {
            assert(ps.deep_view()[i as int] == ps@[i as int]@);
            assert(qs.deep_view()[i as int] == qs@[i as int]@);
        }
        if !seg_wildcard(ps[i].as_str()) && !str_eq(ps[i].as_str(), qs[i].as_str()) {
            return false;
        }
        i = i + 1;
    }
    if qlen == plen {
        true
    } else if qlen > plen {
        proof {
            assert(ps.deep_view()[plen - 1] == ps@[plen - 1]@);
        }
        seg_wildcard(ps[plen - 1].as_str())
    } else {
        false
    }
}

// ---------------------------------------------------------------------
// Parameter extraction
// ---------------------------------------------------------------------

impl Request {
    /// The parameters captured when `route` matches this request:
    /// every wildcard pattern segment captures its path segment, and a
    /// trailing wildcard captures all remaining path segments rejoined
    /// with `/`.
    pub fn get_params(&self, route: &Route) -> (r: StrMap)
        requires
            segs_match(path_segments(route.path@), path_segments(self.path@)),
        ensures
            r@ == spec_params(path_segments(route.path@), path_segments(self.path@)),
    {
        let ps = split_char(route.path.as_str(), '/');
        let qs = split_char(self.path.as_str(), '/');
        let ghost pss = path_segments(route.path@);
        let ghost qss = path_segments(self.path@);
        let plen = ps.len();
        let qlen = qs.len();
        proof {
            assert(ps@.len() == ps.deep_view().len());
            assert(qs@.len() == qs.deep_view().len());
        }
        let mut m = StrMap::new();
        let mut k: usize = 0;
        while k < plen
            invariant
                ps.deep_view() == pss,
                qs.deep_view() == qss,
                plen == ps@.len(),
                qlen == qs@.len(),
                plen <= qlen,
                k <= plen,
                m@ == params_prefix(pss, qss, k as int),
            decreases plen - k,
        {
            proof {
                assert(ps.deep_view()[k as int] == ps@[k as int]@);
                assert(qs.deep_view()[k as int] == qs@[k as int]@);
            }
            if seg_wildcard(ps[k].as_str()) {
                let seg_len = ps[k].as_str().unicode_len();
                let name = ps[k].as_str().substring_char(1, seg_len).to_owned();
                proof {
                    assert(name@ =~= pss[k as int].skip(1));
                }
                let value = if k + 1 == plen && qlen > plen {
                    let mut v = qs[k].clone();
                    proof {
                        assert(qss.subrange(k as int, k + 1) =~~= seq![qss[k as int]]);
                        assert(join_slash_spec(seq![qss[k as int]]) == qss[k as int]);
                        reveal_strlit("/");
                        assert("/"@ =~= seq!['/']);
                    }
                    let mut t: usize = k + 1;
                    while t < qlen
                        invariant
                            qs.deep_view() == qss,
                            qlen == qs@.len(),
                            k < t <= qlen,
                            v@ == join_slash_spec(qss.subrange(k as int, t as int)),
                            "/"@ == seq!['/'],
                        decreases qlen - t,
                    {
                        proof {
                            assert(qs.deep_view()[t as int] == qs@[t as int]@);
                            lemma_join_slash_push(
                                qss.subrange(k as int, t as int),
                                qss[t as int],
                            );
                            assert(qss.subrange(k as int, t as int).push(qss[t as int])
                                =~~= qss.subrange(k as int, t + 1));
                        }
                        v.append("/");
                        v.append(qs[t].as_str());
                        t = t + 1;
                    }
                    proof {
                        assert(qss.subrange(k as int, qlen as int) =~~= qss.skip(k as int));
                    }
                    v
                } else {
                    qs[k].clone()
                };
                proof {
                    assert(value@ == capture_of(pss, qss, k as int));
                }
                m.insert(name, value);
            }
            k = k + 1;
        }
        m
    }
}

// ---------------------------------------------------------------------
// The route table
// ---------------------------------------------------------------------

/// Routes ordered by descending pattern segment count.
pub open spec fn routes_sorted(rs: Seq<Route>) -> bool {
    forall|i: int, j: int|
        0 <= i < j < rs.len() ==> route_seg_count(#[trigger] rs[i]) >= route_seg_count(
            #[trigger] rs[j],
        )
}

/// Where a pattern with `c` segments is inserted: after every route
/// with at least `c` segments, so equally specific routes keep their
/// registration order.
pub open spec fn insert_pos(rs: Seq<Route>, c: nat) -> int
    decreases rs.len(),
{
    if rs.len() == 0 {
        0
    } else if route_seg_count(rs[0]) < c {
        0
    } else {
        1 + insert_pos(rs.skip(1), c)
    }
}

pub proof fn lemma_insert_pos(rs: Seq<Route>, c: nat)
    ensures
        0 <= insert_pos(rs, c) <= rs.len(),
        forall|j: int| 0 <= j < insert_pos(rs, c) ==> route_seg_count(#[trigger] rs[j]) >= c,
        insert_pos(rs, c) < rs.len() ==> route_seg_count(rs[insert_pos(rs, c)]) < c,
    decreases rs.len(),
{
    if rs.len() == 0 {
    } else if route_seg_count(rs[0]) < c {
    } else {
        lemma_insert_pos(rs.skip(1), c);
        assert forall|j: int| 1 <= j < insert_pos(rs, c) implies route_seg_count(
            #[trigger] rs[j],
        ) >= c by {
            assert(rs[j] == rs.skip(1)[j - 1]);
        }
    }
}

/// Which route the matcher picks: the first match in stored order.
pub open spec fn spec_first_match(rs: Seq<Route>, req: Request) -> Option<int>
    decreases rs.len(),
{
    if rs.len() == 0 {
        None
    } else if spec_routes_match(rs[0], req) {
        Some(0int)
    } else {
        match spec_first_match(rs.skip(1), req) {
            None => None,
            Some(i) => Some(i + 1),
        }
    }
}

/// `spec_first_match` returns the first matching index, and `None`
/// exactly when no route matches.
pub proof fn lemma_spec_first_match(rs: Seq<Route>, req: Request)
    ensures
        match spec_first_match(rs, req) {
            Some(i) => 0 <= i < rs.len() && spec_routes_match(rs[i], req) && (forall|j: int|
                0 <= j < i ==> !spec_routes_match(#[trigger] rs[j], req)),
            None => forall|j: int| 0 <= j < rs.len() ==> !spec_routes_match(#[trigger] rs[j], req),
        },
    decreases rs.len(),
{
    if rs.len() == 0 {
    } else if spec_routes_match(rs[0], req) {
    } else {
        lemma_spec_first_match(rs.skip(1), req);
        assert forall|j: int| 1 <= j < rs.len() implies rs[j] == rs.skip(1)[j - 1] by {}
    }
}

/// What the dispatcher decides for one request: write the built-in
/// not-found response and finish, or hand the matched route (by its
/// index in the table) and the captured parameters to a handler.
#[derive(Debug)]
pub enum Dispatch {
    NotFound(String),
    Handle { index: usize, params: StrMap },
}

/// The route table and the middleware references, built during setup
/// and read-only while serving.
#[derive(Debug)]
pub struct Router {
    pub routes: Vec<Route>,
    pub middleware: Vec<usize>,
}

impl Router {
    /// The table invariant: routes stand in descending order of
    /// pattern segment count.
    pub open spec fn wf(&self) -> bool {
        routes_sorted(self.routes@)
    }

    pub fn new() -> (r: Router)
        ensures
            r.routes@ == Seq::<Route>::empty(),
            r.middleware@ == Seq::<usize>::empty(),
            r.wf(),
    {
        Router { routes: Vec::new(), middleware: Vec::new() }
    }

    /// Register a middleware reference; the application runs them in
    /// this order on each parsed request before matching.
    pub fn add_middleware(&mut self, middleware: usize)
        ensures
            final(self).middleware@ == old(self).middleware@.push(middleware),
            final(self).routes == old(self).routes,
    {
        self.middleware.push(middleware);
    }

    /// Insert a finished route at its specificity position: after all
    /// routes with at least as many pattern segments, before the rest.
    fn insert_route(&mut self, route: Route)
        requires
            old(self).wf(),
        ensures
            final(self).wf(),
            final(self).middleware == old(self).middleware,
            final(self).routes@ == old(self).routes@.insert(
                insert_pos(old(self).routes@, route_seg_count(route)),
                route,
            ),
    {
        let ghost rs = self.routes@;
        let ghost c = route_seg_count(route);
        let segs = split_char(route.path.as_str(), '/');
        let count = segs.len();
        proof {
            assert(segs@.len() == segs.deep_view().len());
        }
        let mut pos: usize = 0;
        let mut found = false;
        while pos < self.routes.len() && !found
            invariant
                self.routes@ == rs,
                count as nat == c,
                pos <= rs.len(),
                !found ==> forall|j: int| 0 <= j < pos ==> route_seg_count(#[trigger] rs[j]) >= c,
                found ==> pos < rs.len() && route_seg_count(rs[pos as int]) < c && (forall|j: int|
                    0 <= j < pos ==> route_seg_count(#[trigger] rs[j]) >= c),
            decreases rs.len() - pos + (if found { 0int } else { 1int }),
        {
            let here = split_char(self.routes[pos].path.as_str(), '/');
            proof {
                assert(here@.len() == here.deep_view().len());
            }
            if here.len() < count {
                found = true;
            } else {
                pos = pos + 1;
            }
        }
        proof {
            lemma_insert_pos(rs, c);
            assert(pos as int == insert_pos(rs, c));
        }
        self.routes.insert(pos, route);
        proof {
            let rs2 = self.routes@;
            let p = pos as int;
            assert forall|i: int, j: int| 0 <= i < j < rs2.len() implies route_seg_count(
                #[trigger] rs2[i],
            ) >= route_seg_count(#[trigger] rs2[j]) by {
                if i < p && j < p {
                    assert(rs2[i] == rs[i] && rs2[j] == rs[j]);
                } else if i < p && j == p {
                    assert(rs2[i] == rs[i]);
                } else if i < p && j > p {
                    assert(rs2[i] == rs[i] && rs2[j] == rs[j - 1]);
                } else if i == p && j > p {
                    assert(rs2[j] == rs[j - 1]);
                } else if i > p && j > p {
                    assert(rs2[i] == rs[i - 1] && rs2[j] == rs[j - 1]);
                }
            }
        }
    }

    /// Register a route without per-route state; the table is re-kept
    /// in specificity order on every registration.
    pub fn add_route(&mut self, path: &str, method: Method, handler: usize)
        requires
            old(self).wf(),
        ensures
            final(self).wf(),
            final(self).middleware == old(self).middleware,
            ({
                let p = insert_pos(old(self).routes@, path_segments(path@).len());
                &&& final(self).routes@.len() == old(self).routes@.len() + 1
                &&& final(self).routes@ == old(self).routes@.insert(p, final(self).routes@[p])
                &&& final(self).routes@[p].path@ == path@
                &&& final(self).routes@[p].method == method
                &&& final(self).routes@[p].handler == handler
                &&& final(self).routes@[p].state is None
            }),
    {
        let route = Route::new(path, method, handler);
        proof {
            lemma_insert_pos(old(self).routes@, route_seg_count(route));
        }
        self.insert_route(route);
    }

    /// Register a route carrying a per-route configuration bag.
    pub fn add_route_with_state(&mut self, path: &str, method: Method, handler: usize, state: StrMap)
        requires
            old(self).wf(),
        ensures
            final(self).wf(),
            final(self).middleware == old(self).middleware,
            ({
                let p = insert_pos(old(self).routes@, path_segments(path@).len());
                &&& final(self).routes@.len() == old(self).routes@.len() + 1
                &&& final(self).routes@ == old(self).routes@.insert(p, final(self).routes@[p])
                &&& final(self).routes@[p].path@ == path@
                &&& final(self).routes@[p].method == method
                &&& final(self).routes@[p].handler == handler
                &&& final(self).routes@[p].state matches Some(st) && st@ == state@
            }),
    {
        let route = Route { path: path.to_owned(), method, handler, state: Some(state) };
        proof {
            lemma_insert_pos(old(self).routes@, route_seg_count(route));
        }
        self.insert_route(route);
    }

    /// The first route in stored order matching the request, or
    /// `NoRouteFound` when none does.
    pub fn get_route(&self, request: &Request) -> (r: Result<&Route, HttpError>)
        ensures
            match r {
                Ok(route) => spec_first_match(self.routes@, *request) matches Some(i) && *route
                    == self.routes@[i],
                Err(e) => spec_first_match(self.routes@, *request) is None && e
                    == HttpError::NoRouteFound,
            },
    {
        let n = self.routes.len();
        let mut idx: usize = 0;
        while idx < n
            invariant
                n == self.routes@.len(),
                idx <= n,
                forall|j: int|
                    0 <= j < idx ==> !spec_routes_match(#[trigger] self.routes@[j], *request),
            decreases n - idx,
        {
            if routes_match(&self.routes[idx], request) {
                proof {
                    lemma_spec_first_match(self.routes@, *request);
                }
                return Ok(&self.routes[idx]);
            }
            idx = idx + 1;
        }
        proof {
            lemma_spec_first_match(self.routes@, *request);
        }
        Err(HttpError::NoRouteFound)
    }

    /// The handler reference of the first matching route.
    pub fn get_handler(&self, request: &Request) -> (r: Result<usize, HttpError>)
        ensures
            match r {
                Ok(h) => spec_first_match(self.routes@, *request) matches Some(i) && h
                    == self.routes@[i].handler,
                Err(e) => spec_first_match(self.routes@, *request) is None && e
                    == HttpError::NoRouteFound,
            },
    {
        match self.get_route(request) {
            Ok(route) => Ok(route.handler),
            Err(e) => Err(e),
        }
    }

    /// The dispatch decision for one parsed request: the first
    /// matching route with its captured parameters, or the built-in
    /// not-found response with empty body.
    pub fn dispatch(&self, request: &Request) -> (d: Dispatch)
        ensures
            match spec_first_match(self.routes@, *request) {
                Some(i) => d matches Dispatch::Handle { index, params } && index as int == i
                    && params@ == spec_params(
                    path_segments(self.routes@[i].path@),
                    path_segments(request.path@),
                ),
                None => d matches Dispatch::NotFound(resp) && resp@ == not_found_response_spec(),
            },
    {
        let n = self.routes.len();
        let mut idx: usize = 0;
        while idx < n
            invariant
                n == self.routes@.len(),
                idx <= n,
                forall|j: int|
                    0 <= j < idx ==> !spec_routes_match(#[trigger] self.routes@[j], *request),
            decreases n - idx,
        {
            if routes_match(&self.routes[idx], request) {
                proof {
                    lemma_spec_first_match(self.routes@, *request);
                }
                let params = request.get_params(&self.routes[idx]);
                return Dispatch::Handle { index: idx, params };
            }
            idx = idx + 1;
        }
        proof {
            lemma_spec_first_match(self.routes@, *request);
        }
        Dispatch::NotFound(not_found_response())
    }
}

// ---------------------------------------------------------------------
// Laws of the table and the matcher
// ---------------------------------------------------------------------

/// In a well-formed table, a route whose pattern has strictly more
/// segments stands strictly earlier, so the matcher attempts it first.
pub proof fn lemma_specific_route_first(router: &Router, i: int, j: int)
    requires
        router.wf(),
        0 <= i < router.routes@.len(),
        0 <= j < router.routes@.len(),
        route_seg_count(router.routes@[i]) > route_seg_count(router.routes@[j]),
    ensures
        i < j,
{
    if j < i {
        assert(route_seg_count(router.routes@[j]) >= route_seg_count(router.routes@[i]));
    }
}

/// A pattern with no wildcard segments matches only a path whose
/// segments are byte-identical to the pattern's and of equal count —
/// that is, only the pattern itself, character for character.
pub proof fn lemma_no_wildcard_exact_match(route: Route, request: Request)
    requires
        forall|k: int|
            0 <= k < path_segments(route.path@).len() ==> !seg_is_wildcard(
                #[trigger] path_segments(route.path@)[k],
            ),
        spec_routes_match(route, request),
    ensures
        path_segments(request.path@) == path_segments(route.path@),
        request.path@ == route.path@,
{
    let ps = path_segments(route.path@);
    let qs = path_segments(request.path@);
    assert(qs.len() == ps.len());
    assert(qs =~~= ps);
    crate::text::lemma_join_split_slash(route.path@);
    crate::text::lemma_join_split_slash(request.path@);
}

/// The root pattern `/` matches only the root path `/`.
pub proof fn lemma_root_matches_only_root(route: Route, request: Request)
    requires
        route.path@ == "/"@,
        spec_routes_match(route, request),
    ensures
        request.path@ == "/"@,
{
    reveal_strlit("/");
    let ps = path_segments(route.path@);
    assert(route.path@ =~= seq!['/']);
    assert(route.path@.skip(1) =~= Seq::<char>::empty());
    assert(split_char_spec(Seq::<char>::empty(), '/') == seq![Seq::<char>::empty()]);
    assert(ps == seq![Seq::<char>::empty()] + split_char_spec(route.path@.skip(1), '/'));
    assert(ps =~~= seq![Seq::<char>::empty(), Seq::<char>::empty()]);
    assert(forall|k: int| 0 <= k < ps.len() ==> !seg_is_wildcard(#[trigger] ps[k]));
    lemma_no_wildcard_exact_match(route, request);
}

} // verus!
