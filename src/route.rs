//! The route table: patterns of literal and parameter segments, first-match dispatch,
//! parameter capture, and one optional middleware per route.
use vstd::prelude::*;
use vstd::string::StringSliceAdditionalSpecFns;
use vstd::utf8::*;
use crate::scan::{
    COLON, SLASH, bytes_eq,
    lemma_utf8_piece, split_on, split_ranges, trim_byte, trim_end, trim_start, utf8_text,
};
use crate::types::{
    Entries, HeaderMap, Method, ParamMap, Request, Response, StatusCode, body_view, insert_entry,
    not_found_body, same_method,
};

verus! {

/// One segment of a route pattern.
#[derive(Debug, Clone)]
pub enum Segment {
    /// A literal that the request segment must equal.
    Static(String),
    /// A named capture of whatever the request segment holds.
    Param(String),
}

/// A pattern segment as the contracts see it: a literal by its bytes, a parameter by
/// its name.
pub ghost enum SegView {
    Static(Seq<u8>),
    Param(Seq<char>),
}

pub open spec fn seg_view(s: Segment) -> SegView {
    match s {
        Segment::Static(t) => SegView::Static(encode_utf8(t@)),
        Segment::Param(n) => SegView::Param(n@),
    }
}

/// The segments of a path: leading and trailing slashes dropped, then split at each
/// slash (so `/` has one empty segment).
pub open spec fn path_segments(p: Seq<u8>) -> Seq<Seq<u8>> {
    split_on(trim_end(trim_start(p, SLASH), SLASH), SLASH)
}

/// The pattern segment that a path segment of a route pattern stands for.
pub open spec fn segment_of(piece: Seq<u8>) -> SegView {
    if piece.len() > 0 && piece[0] == COLON {
        SegView::Param(decode_utf8(piece.drop_first()))
    } else {
        SegView::Static(piece)
    }
}

/// The request path segments fit the pattern: as many, and every literal equal.
pub open spec fn segments_match(segs: Seq<SegView>, pieces: Seq<Seq<u8>>) -> bool {
    &&& segs.len() == pieces.len()
    &&& forall|i: int|
        0 <= i < segs.len() ==> (#[trigger] segs[i] matches SegView::Static(t) ==> t
            == pieces[i])
}

/// The parameters captured from the first `n` segments, later names overriding earlier.
pub open spec fn captures(segs: Seq<SegView>, pieces: Seq<Seq<u8>>, n: int) -> Entries
    decreases n,
{
    if n <= 0 {
        Seq::empty()
    } else {
        let acc = captures(segs, pieces, n - 1);
        match segs[n - 1] {
            SegView::Param(name) => insert_entry(acc, name, decode_utf8(pieces[n - 1])),
            SegView::Static(_) => acc,
        }
    }
}

pub open spec fn segs_view(v: Seq<Segment>) -> Seq<SegView> {
    v.map_values(|s: Segment| seg_view(s))
}

/// The bounds in `p` of each of its path segments.
fn path_pieces(p: &[u8]) -> (r: Vec<(usize, usize)>)
    ensures
        r@.len() == path_segments(p@).len(),
        forall|i: int|
            0 <= i < r@.len() ==> {
                let (a, b) = #[trigger] r@[i];
                &&& a <= b <= p@.len()
                &&& p@.subrange(a as int, b as int) == path_segments(p@)[i]
                &&& (a == 0 || p@[a - 1] < 128)
                &&& (b == p@.len() || p@[b as int] < 128)
            },
{
    let (lo, hi) = trim_byte(p, SLASH);
    split_ranges(p, lo, hi, SLASH)
}

/// Text of the piece `p[a..b]` of a valid UTF-8 path.
fn piece_text(p: &[u8], a: usize, b: usize) -> (r: String)
    requires
        valid_utf8(p@),
        a <= b <= p@.len(),
        a == 0 || p@[a - 1] < 128,
        b == p@.len() || p@[b as int] < 128,
    ensures
        r@ == decode_utf8(p@.subrange(a as int, b as int)),
{
    proof {
        lemma_utf8_piece(p@, a as int, b as int);
    }
    match utf8_text(&p[a..b]) {
        Some(t) => t.to_owned(),
        None => String::new(),
    }
}

/// The pattern segments of a route path: `:name` captures, anything else is a literal.
pub fn parse_route(path: &str) -> (r: Vec<Segment>)
    ensures
        r@.len() == path_segments(path.spec_bytes()).len(),
        forall|i: int|
            0 <= i < r@.len() ==> seg_view(#[trigger] r@[i]) == segment_of(
                path_segments(path.spec_bytes())[i],
            ),
{
    let p = path.as_bytes();
    proof {
        encode_utf8_valid_utf8(path@);
    }
    let pieces = path_pieces(p);
    let mut out: Vec<Segment> = Vec::new();
    let mut i: usize = 0;
    while i < pieces.len()
        invariant
            valid_utf8(p@),
            p@ == path.spec_bytes(),
            i <= pieces@.len(),
            out@.len() == i,
            pieces@.len() == path_segments(p@).len(),
            forall|k: int|
                0 <= k < pieces@.len() ==> {
                    let (a, b) = #[trigger] pieces@[k];
                    &&& a <= b <= p@.len()
                    &&& p@.subrange(a as int, b as int) == path_segments(p@)[k]
                    &&& (a == 0 || p@[a - 1] < 128)
                    &&& (b == p@.len() || p@[b as int] < 128)
                },
            forall|k: int|
                0 <= k < i ==> seg_view(#[trigger] out@[k]) == segment_of(path_segments(p@)[k]),
        decreases pieces.len() - i,
    {
        let (a, b) = pieces[i];
        let ghost piece = p@.subrange(a as int, b as int);
        assert(piece == path_segments(p@)[i as int]);
        if a < b && p[a] == COLON {
            let name = piece_text(p, a + 1, b);
            assert(p@.subrange(a + 1, b as int) =~= piece.drop_first());
            out.push(Segment::Param(name));
        } else {
            let text = piece_text(p, a, b);
            proof {
                lemma_utf8_piece(p@, a as int, b as int);
                decode_utf8_encode_utf8(piece);
            }
            out.push(Segment::Static(text));
        }
        i += 1;
    }
    out
}

/// Matches a request path against a route pattern; the captured parameters when it fits.
pub fn match_route(route_segments: &Vec<Segment>, req_path: &str) -> (r: Option<ParamMap>)
    ensures
        r is Some <==> segments_match(
            segs_view(route_segments@),
            path_segments(req_path.spec_bytes()),
        ),
        r matches Some(m) ==> m@ == captures(
            segs_view(route_segments@),
            path_segments(req_path.spec_bytes()),
            route_segments@.len() as int,
        ),
{
    let p = req_path.as_bytes();
    proof {
        encode_utf8_valid_utf8(req_path@);
    }
    let ghost segs = segs_view(route_segments@);
    let ghost ps = path_segments(p@);
    let pieces = path_pieces(p);
    if route_segments.len() != pieces.len() {
        return None;
    }
    let mut params = HeaderMap::new();
    let mut i: usize = 0;
    while i < pieces.len()
        invariant
            valid_utf8(p@),
            p@ == req_path.spec_bytes(),
            segs == segs_view(route_segments@),
            ps == path_segments(p@),
            i <= pieces@.len(),
            route_segments@.len() == pieces@.len(),
            pieces@.len() == ps.len(),
            forall|k: int|
                0 <= k < pieces@.len() ==> {
                    let (a, b) = #[trigger] pieces@[k];
                    &&& a <= b <= p@.len()
                    &&& p@.subrange(a as int, b as int) == ps[k]
                    &&& (a == 0 || p@[a - 1] < 128)
                    &&& (b == p@.len() || p@[b as int] < 128)
                },
            forall|k: int|
                0 <= k < i ==> (#[trigger] segs[k] matches SegView::Static(t) ==> t == ps[k]),
            params@ == captures(segs, ps, i as int),
        decreases pieces.len() - i,
    {
        let (a, b) = pieces[i];
        assert(segs[i as int] == seg_view(route_segments@[i as int]));
        match &route_segments[i] {
            Segment::Static(text) => {
                if !bytes_eq(text.as_str().as_bytes(), &p[a..b]) {
                    assert(!segments_match(segs, ps)) by {
                        assert(segs[i as int] matches SegView::Static(t) && t != ps[i as int]);
                    }
                    return None;
                }
            },
            Segment::Param(name) => {
                let value = piece_text(p, a, b);
                params.insert(name.clone(), value);
            },
        }
        i += 1;
    }
    Some(params)
}

/// A registered route.
pub struct Route<H, M> {
    pub method: Method,
    pub segments: Vec<Segment>,
    pub handler: H,
    pub middleware: Option<M>,
}

/// The request reaches route `r`: same method, and the path fits its pattern.
pub open spec fn route_hit<H, M>(r: Route<H, M>, method: Method, path: Seq<u8>) -> bool {
    same_method(r.method, method) && segments_match(segs_view(r.segments@), path_segments(path))
}

/// The route table: handlers of type `H` and middleware of type `M`, tried in the order
/// in which they were registered.
pub struct Router<H, M> {
    routes: Vec<Route<H, M>>,
}

impl<H, M> Router<H, M> {
    /// The registered routes, oldest first.
    pub closed spec fn routes(&self) -> Seq<Route<H, M>> {
        self.routes@
    }

    /// An empty table.
    pub fn new() -> (r: Self)
        ensures
            r.routes().len() == 0,
    {
        Router { routes: Vec::new() }
    }

    /// Appends a route for `method` and the pattern `path`, without middleware.
    pub fn route(&mut self, method: Method, path: &str, handler: H)
        ensures
            final(self).routes().len() == old(self).routes().len() + 1,
            final(self).routes().subrange(0, old(self).routes().len() as int) == old(
                self,
            ).routes(),
            ({
                let r = final(self).routes().last();
                &&& r.method == method
                &&& r.handler == handler
                &&& r.middleware is None
                &&& r.segments@.len() == path_segments(path.spec_bytes()).len()
                &&& forall|i: int|
                    0 <= i < r.segments@.len() ==> seg_view(#[trigger] r.segments@[i])
                        == segment_of(path_segments(path.spec_bytes())[i])
            }),
    {
        let segments = parse_route(path);
        self.routes.push(Route { method, segments, handler, middleware: None });
        assert(self.routes@.subrange(0, old(self).routes@.len() as int) =~= old(self).routes@);
    }

    /// Attaches `f` as the middleware of the most recently registered route, replacing
    /// any it had; with no route registered nothing changes.
    pub fn middleware(&mut self, f: M)
        ensures
            old(self).routes().len() == 0 ==> final(self).routes() == old(self).routes(),
            old(self).routes().len() > 0 ==> {
                let n = old(self).routes().len() - 1;
                let before = old(self).routes()[n];
                let after = final(self).routes()[n];
                &&& final(self).routes().len() == old(self).routes().len()
                &&& final(self).routes().subrange(0, n) == old(self).routes().subrange(0, n)
                &&& after.method == before.method
                &&& after.segments == before.segments
                &&& after.handler == before.handler
                &&& after.middleware == Some(f)
            },
    {
        let n = self.routes.len();
        if n > 0 {
            let last = self.routes.pop().unwrap();
            let Route { method, segments, handler, middleware: _ } = last;
            self.routes.push(Route { method, segments, handler, middleware: Some(f) });
            assert(self.routes@.subrange(0, n - 1) =~= old(self).routes@.subrange(0, n - 1));
        }
    }

    pub fn len(&self) -> (r: usize)
        ensures
            r == self.routes().len(),
    {
        self.routes.len()
    }

    /// The route at `i`.
    pub fn get(&self, i: usize) -> (r: &Route<H, M>)
        requires
            i < self.routes().len(),
        ensures
            *r == self.routes()[i as int],
    {
        &self.routes[i]
    }

    /// The first route, in registration order, that the request reaches, with the
    /// parameters captured from its path; `None` when no route does.
    pub fn find(&self, method: &Method, path: &str) -> (r: Option<(usize, ParamMap)>)
        ensures
            r is None <==> forall|i: int|
                0 <= i < self.routes().len() ==> !route_hit(
                    #[trigger] self.routes()[i],
                    *method,
                    path.spec_bytes(),
                ),
            r matches Some((i, params)) ==> {
                &&& i < self.routes().len()
                &&& route_hit(self.routes()[i as int], *method, path.spec_bytes())
                &&& forall|j: int|
                    0 <= j < i ==> !route_hit(
                        #[trigger] self.routes()[j],
                        *method,
                        path.spec_bytes(),
                    )
                &&& params@ == captures(
                    segs_view(self.routes()[i as int].segments@),
                    path_segments(path.spec_bytes()),
                    self.routes()[i as int].segments@.len() as int,
                )
            },
    {
        let mut i: usize = 0;
        while i < self.routes.len()
            invariant
                i <= self.routes@.len(),
                forall|j: int|
                    0 <= j < i ==> !route_hit(#[trigger] self.routes@[j], *method, path.spec_bytes()),
            decreases self.routes.len() - i,
        {
            let route = &self.routes[i];
            if route.method.eq(method) {
                match match_route(&route.segments, path) {
                    Some(params) => {
                        return Some((i, params));
                    },
                    None => {},
                }
            }
            i += 1;
        }
        None
    }
}

/// `q` is `req` with its parameters set to `params`.
pub open spec fn with_params(q: Request, req: Request, params: Entries) -> bool {
    &&& q.method == req.method
    &&& q.path == req.path
    &&& q.version == req.version
    &&& q.headers == req.headers
    &&& q.body == req.body
    &&& q.remote_addr == req.remote_addr
    &&& q.stream == req.stream
    &&& q.params@ == params
}

/// The bytes of a request's path.
pub open spec fn path_of(req: Request) -> Seq<u8> {
    encode_utf8(req.path@)
}

/// Route `i` is the first of `routes` that a request reaches.
pub open spec fn first_hit<H, M>(routes: Seq<Route<H, M>>, i: int, method: Method, path: Seq<u8>) -> bool {
    &&& 0 <= i < routes.len()
    &&& route_hit(routes[i], method, path)
    &&& forall|j: int| 0 <= j < i ==> !route_hit(#[trigger] routes[j], method, path)
}

/// What dispatching `req` to route `i` of `routes` may give: the route's middleware
/// (with a clone of the route's handler) or its handler, applied to `req` with the route's
/// parameters.
pub open spec fn dispatched<H: Fn(Request) -> R + Clone, M: Fn(Request, H) -> R, R>(
    routes: Seq<Route<H, M>>,
    i: int,
    req: Request,
    out: R,
) -> bool {
    let route = routes[i];
    let params = captures(
        segs_view(route.segments@),
        path_segments(path_of(req)),
        route.segments@.len() as int,
    );
    exists|q: Request|
        with_params(q, req, params) && match route.middleware {
            Some(m) => exists|h: H|
                call_ensures(H::clone, (&route.handler,), h) && #[trigger] m.ensures((q, h), out),
            None => route.handler.ensures((q,), out),
        }
}

impl<H, M> Router<H, M> {
    /// Hands `req` to the first route it reaches: to the route's middleware, together
    /// with a copy of the handler, when it has one, else to the handler. `None` when no
    /// route is reached (the caller answers `404 Not Found`).
    pub fn dispatch<R>(&self, req: Request) -> (r: Option<R>) where
        H: Fn(Request) -> R + Clone,
        M: Fn(Request, H) -> R,

        requires
            forall|i: int, q: Request|
                0 <= i < self.routes().len() ==> #[trigger] self.routes()[i].handler.requires(
                    (q,),
                ),
            forall|i: int, q: Request, h: H|
                0 <= i < self.routes().len() && self.routes()[i].middleware is Some
                    ==> #[trigger] self.routes()[i].middleware->0.requires((q, h)),
        ensures
            r is None <==> forall|i: int|
                0 <= i < self.routes().len() ==> !route_hit(
                    #[trigger] self.routes()[i],
                    req.method,
                    path_of(req),
                ),
            match r {
                Some(out) => forall|i: int|
                    #[trigger] first_hit(self.routes(), i, req.method, path_of(req)) ==> dispatched(
                        self.routes(),
                        i,
                        req,
                        out,
                    ),
                None => true,
            },
    {
        let found = self.find(&req.method, req.path.as_str());
        match found {
            None => None,
            Some((i, params)) => {
                let ghost old_req = req;
                let mut q = req;
                q.params = params;
                let route = &self.routes[i];
                assert(with_params(q, old_req, params@));
                assert(*route == self.routes()[i as int]);
                assert(params@ == captures(
                    segs_view(self.routes()[i as int].segments@),
                    path_segments(path_of(old_req)),
                    self.routes()[i as int].segments@.len() as int,
                ));
                match &route.middleware {
                    Some(m) => {
                        let h = route.handler.clone();
                        let ghost gq = q;
                        let ghost gh = h;
                        let out = m(q, h);
                        assert(with_params(gq, old_req, params@));
                        assert(m.ensures((gq, gh), out));
                        assert(self.routes()[i as int].middleware == Some(*m));
                        assert(dispatched(self.routes(), i as int, old_req, out));
                        assert(first_hit(self.routes(), i as int, old_req.method, path_of(old_req)));
                        assert forall|k: int|
                            #[trigger] first_hit(
                                self.routes(),
                                k,
                                old_req.method,
                                path_of(old_req),
                            ) implies dispatched(self.routes(), k, old_req, out) by {
                            if k < i {
                                assert(route_hit(self.routes()[k], old_req.method, path_of(old_req)));
                            } else if k > i {
                                assert(route_hit(self.routes()[i as int], old_req.method, path_of(old_req)));
                            }
                        }
                        Some(out)
                    },
                    None => {
                        let ghost gq = q;
                        let out = (route.handler)(q);
                        assert(with_params(gq, old_req, params@));
                        assert(dispatched(self.routes(), i as int, old_req, out));
                        assert(first_hit(self.routes(), i as int, old_req.method, path_of(old_req)));
                        assert forall|k: int|
                            #[trigger] first_hit(
                                self.routes(),
                                k,
                                old_req.method,
                                path_of(old_req),
                            ) implies dispatched(self.routes(), k, old_req, out) by {
                            if k < i {
                                assert(route_hit(self.routes()[k], old_req.method, path_of(old_req)));
                            } else if k > i {
                                assert(route_hit(self.routes()[i as int], old_req.method, path_of(old_req)));
                            }
                        }
                        Some(out)
                    },
                }
            },
        }
    }
}

impl<H, M> Router<H, M> {
    /// Dispatches `req` and answers `404 Not Found` when no route is reached.
    pub fn handle_request(&self, req: Request) -> (r: Response) where
        H: Fn(Request) -> Response + Clone,
        M: Fn(Request, H) -> Response,

        requires
            forall|i: int, q: Request|
                0 <= i < self.routes().len() ==> #[trigger] self.routes()[i].handler.requires(
                    (q,),
                ),
            forall|i: int, q: Request, h: H|
                0 <= i < self.routes().len() && self.routes()[i].middleware is Some
                    ==> #[trigger] self.routes()[i].middleware->0.requires((q, h)),
        ensures
            (forall|i: int|
                0 <= i < self.routes().len() ==> !route_hit(
                    #[trigger] self.routes()[i],
                    req.method,
                    path_of(req),
                )) ==> {
                &&& r.status_code == StatusCode::NotFound
                &&& r.headers is None
                &&& body_view(r.body) == Some(not_found_body())
                &&& r.stream is None
            },
            forall|i: int|
                #[trigger] first_hit(self.routes(), i, req.method, path_of(req)) ==> dispatched(
                    self.routes(),
                    i,
                    req,
                    r,
                ),
    {
        match self.dispatch(req) {
            Some(out) => out,
            None => Response::not_found(),
        }
    }
}

impl<H, M> Default for Router<H, M> {
    fn default() -> (r: Self)
        ensures
            r.routes().len() == 0,
    {
        Router::new()
    }
}

/// A path that differs from a route's literal in one segment does not fit the route's
/// pattern, so the request falls through to a later route or to `404 Not Found`.
pub proof fn lemma_literal_mismatch(
    segs: Seq<SegView>,
    pieces: Seq<Seq<u8>>,
    i: int,
    other: Seq<u8>,
)
    requires
        0 <= i < segs.len(),
        segs.len() == pieces.len(),
        segs[i] matches SegView::Static(t) && t != other,
    ensures
        !segments_match(segs, pieces.update(i, other)),
{
    if segments_match(segs, pieces.update(i, other)) {
        assert(pieces.update(i, other)[i] == other);
    }
}

/// A route that a request does not reach (for instance one whose literal differs from
/// the request's segment) takes no part in dispatching it: with that route removed from
/// the table, the same route is the first one reached (one place earlier when it came
/// after the removed one), and no route is reached in one table exactly when none is in
/// the other, so the answer is `404 Not Found` in both.
pub proof fn lemma_fall_through<H, M>(
    routes: Seq<Route<H, M>>,
    k: int,
    method: Method,
    path: Seq<u8>,
)
    requires
        0 <= k < routes.len(),
        !route_hit(routes[k], method, path),
    ensures
        !first_hit(routes, k, method, path),
        forall|i: int|
            0 <= i < k ==> (#[trigger] first_hit(routes, i, method, path) <==> first_hit(
                routes.remove(k),
                i,
                method,
                path,
            )),
        forall|i: int|
            k < i < routes.len() ==> (#[trigger] first_hit(routes, i, method, path) <==> first_hit(
                routes.remove(k),
                i - 1,
                method,
                path,
            )) && routes.remove(k)[i - 1] == routes[i],
        (forall|i: int| 0 <= i < routes.len() ==> !route_hit(#[trigger] routes[i], method, path))
            <==> (forall|j: int|
            0 <= j < routes.remove(k).len() ==> !route_hit(
                #[trigger] routes.remove(k)[j],
                method,
                path,
            )),
{
    let rest = routes.remove(k);
    assert forall|j: int| 0 <= j < rest.len() implies #[trigger] rest[j] == if j < k {
        routes[j]
    } else {
        routes[j + 1]
    } by {}
    assert forall|i: int| 0 <= i < k implies (#[trigger] first_hit(routes, i, method, path)
        <==> first_hit(rest, i, method, path)) by {
        assert forall|j: int| 0 <= j < i implies rest[j] == routes[j] by {}
    }
    assert forall|i: int| k < i < routes.len() implies (#[trigger] first_hit(
        routes,
        i,
        method,
        path,
    ) <==> first_hit(rest, i - 1, method, path)) && rest[i - 1] == routes[i] by {
        if first_hit(routes, i, method, path) {
            assert forall|j: int| 0 <= j < i - 1 implies !route_hit(
                #[trigger] rest[j],
                method,
                path,
            ) by {
                if j >= k {
                    assert(rest[j] == routes[j + 1]);
                } else {
                    assert(rest[j] == routes[j]);
                }
            }
        }
        if first_hit(rest, i - 1, method, path) {
            assert forall|j: int| 0 <= j < i implies !route_hit(
                #[trigger] routes[j],
                method,
                path,
            ) by {
                if j < k {
                    assert(rest[j] == routes[j]);
                } else if j > k {
                    assert(rest[j - 1] == routes[j]);
                }
            }
        }
    }
    if forall|j: int| 0 <= j < rest.len() ==> !route_hit(#[trigger] rest[j], method, path) {
        assert forall|i: int| 0 <= i < routes.len() implies !route_hit(
            #[trigger] routes[i],
            method,
            path,
        ) by {
            if i < k {
                assert(rest[i] == routes[i]);
            } else if i > k {
                assert(rest[i - 1] == routes[i]);
            }
        }
    }
}

} // verus!
