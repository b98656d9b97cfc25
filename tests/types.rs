use zep::{HeaderMap, Method, Request, Response, StatusCode, Version};

#[test]
fn method_names() {
    assert_eq!(Method::from("GET"), Method::GET);
    assert_eq!(Method::from("POST"), Method::POST);
    assert_eq!(Method::from("PUT"), Method::PUT);
    assert_eq!(Method::from("DELETE"), Method::DELETE);
    assert_eq!(Method::from("get"), Method::Other("get".to_string()));
    assert_ne!(Method::from("HEAD"), Method::Other("GET".to_string()));
    assert_eq!(Method::GET.to_str(), "GET");
    assert_eq!(Method::POST.to_str(), "POST");
    assert_eq!(Method::PUT.to_str(), "PUT");
    assert_eq!(Method::DELETE.to_str(), "DELETE");
    assert_eq!(Method::Other("X".to_string()).to_str(), "OTHER");
}

#[test]
fn version_names() {
    assert_eq!(Version::from("HTTP/1.0"), Version::Http10);
    assert_eq!(Version::from("HTTP/1.1"), Version::Http11);
    assert_eq!(Version::from("HTTP/2"), Version::Http2);
    assert_eq!(Version::from("HTTP/2.0"), Version::Http2);
    assert_eq!(Version::from("HTTP/3"), Version::Http3);
    assert_eq!(Version::from("HTTP/3.0"), Version::Http3);
    assert_eq!(Version::from("http/1.1"), Version::Other);
    assert_eq!(Version::Http10.to_str(), "HTTP/1.0");
    assert_eq!(Version::Http11.to_str(), "HTTP/1.1");
    assert_eq!(Version::Http2.to_str(), "HTTP/2.0");
    assert_eq!(Version::Http3.to_str(), "HTTP/3.0");
    assert_eq!(Version::Other.to_str(), "OTHER");
}

#[test]
fn status_codes() {
    let all = [
        (StatusCode::OK, 200, "OK"),
        (StatusCode::NotFound, 404, "Not Found"),
        (StatusCode::InternalServerError, 500, "Internal Server Error"),
        (StatusCode::BadRequest, 400, "Bad Request"),
        (StatusCode::Forbidden, 403, "Forbidden"),
        (StatusCode::Custom(299), 299, "Custom Code"),
    ];
    for (status, code, reason) in all {
        assert_eq!(status.as_u16(), code);
        assert_eq!(status.reason(), reason);
    }
}

#[test]
fn header_map_replaces_in_place() {
    let mut h = HeaderMap::new();
    h.insert("a".to_string(), "1".to_string());
    h.insert("b".to_string(), "2".to_string());
    h.insert("a".to_string(), "3".to_string());
    assert_eq!(h.len(), 2);
    assert_eq!(h.get("a").unwrap(), "3");
    assert_eq!(h.get("b").unwrap(), "2");
    assert!(h.get("A").is_none());
    assert_eq!(h.entries()[0].0, "a");
}

#[test]
fn header_maps_compare_as_maps() {
    let mut x = HeaderMap::new();
    x.insert("a".to_string(), "1".to_string());
    x.insert("b".to_string(), "2".to_string());
    let mut y = HeaderMap::new();
    y.insert("b".to_string(), "2".to_string());
    y.insert("a".to_string(), "1".to_string());
    assert!(x.same_as(&y));
    y.insert("c".to_string(), "3".to_string());
    assert!(!x.same_as(&y));
    assert!(!y.same_as(&x));
}

#[test]
fn response_builders() {
    let r = Response::new(StatusCode::BadRequest);
    assert_eq!(r.status_code, StatusCode::BadRequest);
    assert!(r.headers.is_none() && r.body.is_none() && r.stream.is_none());

    let mut b = Response::new(StatusCode::OK);
    b.body(b"x");
    assert_eq!(b, Response::ok(b"x"));
    assert_ne!(b, Response::ok(b"y"));

    let e = Response::error();
    assert_eq!(e.status_code, StatusCode::InternalServerError);
    assert!(e.body.is_none());

    let h = Response::ok(b"").header("K", "v").header("K", "w").header("J", "u");
    let headers = h.headers.as_ref().unwrap();
    assert_eq!(headers.len(), 2);
    assert_eq!(headers.get("K").unwrap(), "w");

    let mut map = HeaderMap::new();
    map.insert("Z".to_string(), "1".to_string());
    let m = Response::ok(b"").header("K", "v").headermap(map);
    assert_eq!(m.headers.as_ref().unwrap().get("Z").unwrap(), "1");
    assert!(m.headers.as_ref().unwrap().get("K").is_none());
}

#[test]
fn responses_with_headers_in_other_order_are_equal() {
    let a = Response::ok(b"1").header("x", "1").header("y", "2");
    let b = Response::ok(b"1").header("y", "2").header("x", "1");
    assert_eq!(a, b);
    assert_ne!(a, Response::ok(b"1"));
}

#[test]
fn default_request() {
    let r = Request::default();
    assert_eq!(r.method, Method::GET);
    assert_eq!(r.path, "");
    assert_eq!(r.version, Version::Http10);
    assert_eq!(r.headers.len(), 0);
    assert!(r.body.is_none() && r.stream.is_none());
    assert_eq!(r.remote_addr, "");
    assert_eq!(r.params.len(), 0);
}
