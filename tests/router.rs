use zep::{match_route, parse_route, Method, Request, Response, Router, Segment, StatusCode};

type Handler = fn(Request) -> Response;
type Middleware = fn(Request, Handler) -> Response;

fn root(_req: Request) -> Response {
    Response::ok(b"true")
}

fn paramtest(req: Request) -> Response {
    match req.params.get("id") {
        Some(id) => Response::ok(id.as_bytes()),
        None => Response::ok(b"error"),
    }
}

fn paramtest2(req: Request) -> Response {
    match (req.params.get("id1"), req.params.get("id2")) {
        (Some(id1), Some(id2)) => Response::ok((id1.to_string() + id2).as_bytes()),
        _ => Response::ok(b"error"),
    }
}

fn first(_req: Request) -> Response {
    Response::ok(b"first")
}

fn second(_req: Request) -> Response {
    Response::ok(b"second")
}

fn must_not_run(_req: Request) -> Response {
    panic!("the handler ran although the middleware refused the request")
}

fn refuse(_req: Request, _next: Handler) -> Response {
    let mut resp = Response::new(StatusCode::Forbidden);
    resp.body(b"denied");
    resp
}

fn pass_through(req: Request, next: Handler) -> Response {
    next(req).header("X-Seen", "yes")
}

fn request(method: Method, path: &str) -> Request {
    Request {
        method,
        path: path.to_string(),
        ..Default::default()
    }
}

fn handle(router: &Router<Handler, Middleware>, req: Request) -> Response {
    router.handle_request(req)
}

#[test]
fn testrouter() {
    let mut router: Router<Handler, Middleware> = Router::new();
    router.route(Method::GET, "/", root);

    let req = request(Method::GET, "/");
    let result = router.handle_request(req);

    let expected = Response {
        status_code: StatusCode::OK,
        headers: None,
        body: Some(b"true".to_vec()),
        stream: None,
    };
    assert_eq!(result, expected);
    assert!(result.stream.is_none());
    assert_eq!(result.status_code.as_u16(), 200);
}

#[test]
fn testrouter2() {
    let mut router: Router<Handler, Middleware> = Router::new();
    router.route(Method::GET, "/:id", paramtest);

    let req = request(Method::GET, "/12");
    let result = handle(&router, req);

    let expected = Response {
        status_code: StatusCode::OK,
        headers: None,
        body: Some(b"12".to_vec()),
        stream: None,
    };
    assert_eq!(result, expected);
}

#[test]
fn testrouter3() {
    let mut router: Router<Handler, Middleware> = Router::new();
    router.route(Method::GET, "/:id1/:id2", paramtest2);

    let req = request(Method::GET, "/12/34");
    let result = handle(&router, req);

    let expected = Response {
        status_code: StatusCode::OK,
        headers: None,
        body: Some(b"1234".to_vec()),
        stream: None,
    };
    assert_eq!(result, expected);
}

#[test]
fn captures_two_parameters() {
    let segments = parse_route("/:a/:b");
    let params = match_route(&segments, "/12/34").unwrap();
    assert_eq!(params.get("a").unwrap(), "12");
    assert_eq!(params.get("b").unwrap(), "34");
    assert_eq!(params.len(), 2);
}

#[test]
fn unknown_route_is_not_found() {
    let mut router: Router<Handler, Middleware> = Router::new();
    router.route(Method::GET, "/", root);
    let result = handle(&router, request(Method::DELETE, "/unknown"));
    assert_eq!(result.status_code, StatusCode::NotFound);
    assert_eq!(result.status_code.as_u16(), 404);
    assert_eq!(result.body, Some(b"404 Not Found".to_vec()));
}

#[test]
fn first_registered_route_wins() {
    let mut router: Router<Handler, Middleware> = Router::new();
    router.route(Method::GET, "/users/admin", first);
    router.route(Method::GET, "/users/:name", second);
    let result = handle(&router, request(Method::GET, "/users/admin"));
    assert_eq!(result.body, Some(b"first".to_vec()));
    let other = handle(&router, request(Method::GET, "/users/bob"));
    assert_eq!(other.body, Some(b"second".to_vec()));

    let mut reversed: Router<Handler, Middleware> = Router::new();
    reversed.route(Method::GET, "/users/:name", second);
    reversed.route(Method::GET, "/users/admin", first);
    let result = handle(&reversed, request(Method::GET, "/users/admin"));
    assert_eq!(result.body, Some(b"second".to_vec()));
}

#[test]
fn literal_mismatch_falls_through() {
    let mut router: Router<Handler, Middleware> = Router::new();
    router.route(Method::GET, "/a/b/c", first);
    router.route(Method::GET, "/a/:x/c", second);
    assert_eq!(handle(&router, request(Method::GET, "/a/b/c")).body, Some(b"first".to_vec()));
    assert_eq!(handle(&router, request(Method::GET, "/a/z/c")).body, Some(b"second".to_vec()));
    let missed = handle(&router, request(Method::GET, "/a/b/d"));
    assert_eq!(missed.status_code, StatusCode::NotFound);
    let wrong_count = handle(&router, request(Method::GET, "/a/b"));
    assert_eq!(wrong_count.status_code, StatusCode::NotFound);
    let wrong_method = handle(&router, request(Method::POST, "/a/b/c"));
    assert_eq!(wrong_method.status_code, StatusCode::NotFound);
}

#[test]
fn middleware_can_refuse() {
    let mut router: Router<Handler, Middleware> = Router::new();
    router.route(Method::GET, "/secret", must_not_run);
    router.middleware(refuse);
    let result = handle(&router, request(Method::GET, "/secret"));
    let mut expected = Response::new(StatusCode::Forbidden);
    expected.body(b"denied");
    assert_eq!(result, expected);
    assert_eq!(result.status_code.as_u16(), 403);
}

#[test]
fn middleware_wraps_handler() {
    let mut router: Router<Handler, Middleware> = Router::new();
    router.route(Method::GET, "/", root);
    router.middleware(pass_through);
    let result = handle(&router, request(Method::GET, "/"));
    assert_eq!(result.body, Some(b"true".to_vec()));
    assert_eq!(result.headers.unwrap().get("X-Seen").unwrap(), "yes");
}

#[test]
fn middleware_without_route_is_ignored() {
    let mut router: Router<Handler, Middleware> = Router::new();
    router.middleware(refuse);
    assert_eq!(router.len(), 0);
    router.route(Method::GET, "/", root);
    assert!(router.get(0).middleware.is_none());
    let result = handle(&router, request(Method::GET, "/"));
    assert_eq!(result.body, Some(b"true".to_vec()));
}

#[test]
fn pattern_segments() {
    let segments = parse_route("/files/:name/");
    assert_eq!(segments.len(), 2);
    assert!(matches!(&segments[0], Segment::Static(s) if s == "files"));
    assert!(matches!(&segments[1], Segment::Param(s) if s == "name"));
    let root = parse_route("/");
    assert_eq!(root.len(), 1);
    assert!(matches!(&root[0], Segment::Static(s) if s.is_empty()));
    assert!(match_route(&root, "/").is_some());
    assert!(match_route(&root, "").is_some());
    assert!(match_route(&root, "/x").is_none());
}

#[test]
fn parameter_keeps_non_ascii_text() {
    let segments = parse_route("/caf\u{e9}/:item");
    let params = match_route(&segments, "//caf\u{e9}/cr\u{e8}me//").unwrap();
    assert_eq!(params.get("item").unwrap(), "cr\u{e8}me");
    assert!(match_route(&segments, "/cafe/x").is_none());
}

#[test]
fn find_reports_index_and_params() {
    let mut router: Router<Handler, Middleware> = Router::new();
    router.route(Method::POST, "/x", first);
    router.route(Method::GET, "/x/:id", second);
    let (i, params) = router.find(&Method::GET, "/x/7").unwrap();
    assert_eq!(i, 1);
    assert_eq!(params.get("id").unwrap(), "7");
    assert!(router.find(&Method::GET, "/x").is_none());
}

#[test]
fn dispatch_reports_a_miss() {
    let mut router: Router<Handler, Middleware> = Router::new();
    router.route(Method::GET, "/", root);
    assert!(router.dispatch(request(Method::GET, "/nothing")).is_none());
    assert!(router.dispatch(request(Method::GET, "/")).is_some());
    let empty: Router<Handler, Middleware> = Router::default();
    assert_eq!(empty.len(), 0);
}
