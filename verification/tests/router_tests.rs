use minihttp::request::{HttpError, Method, Request};
use minihttp::router::{routes_match, Dispatch, Route, Router};
use minihttp::strmap::StrMap;

fn get(path: &str) -> Request {
    Request::from(&format!("GET {} HTTP/1.1\r\n\r\n", path)).expect("request should parse")
}

fn route(pattern: &str, method: Method) -> Route {
    Route::new(pattern, method, 0)
}

#[test]
fn more_segments_attempted_first() {
    let mut router = Router::new();
    router.add_route("/a", Method::GET, 1);
    router.add_route("/a/b/c", Method::GET, 2);
    router.add_route("/a/b", Method::GET, 3);
    let patterns: Vec<&str> = router.routes.iter().map(|r| r.path.as_str()).collect();
    assert_eq!(patterns, vec!["/a/b/c", "/a/b", "/a"]);
}

#[test]
fn equal_specificity_keeps_registration_order() {
    let mut router = Router::new();
    router.add_route("/users/active", Method::GET, 1);
    router.add_route("/users/:id", Method::GET, 2);
    let patterns: Vec<&str> = router.routes.iter().map(|r| r.path.as_str()).collect();
    assert_eq!(patterns, vec!["/users/active", "/users/:id"]);
    // First match in stored order decides.
    let handler = router.get_handler(&get("/users/active")).unwrap();
    assert_eq!(handler, 1);
    let handler = router.get_handler(&get("/users/7")).unwrap();
    assert_eq!(handler, 2);
}

#[test]
fn literal_pattern_requires_exact_equality() {
    let r = route("/echo", Method::GET);
    assert!(routes_match(&r, &get("/echo")));
    assert!(!routes_match(&r, &get("/echoes")));
    assert!(!routes_match(&r, &get("/echo/x")));
    assert!(!routes_match(&r, &get("/")));
}

#[test]
fn method_must_match() {
    let r = route("/echo", Method::POST);
    assert!(!routes_match(&r, &get("/echo")));
}

#[test]
fn trailing_wildcard_captures_remaining_segments() {
    let r = route("/files/:path", Method::GET);
    let req = get("/files/a/b/c");
    assert!(routes_match(&r, &req));
    let params = req.get_params(&r);
    assert_eq!(params.get("path"), Some("a/b/c".to_string()));
}

#[test]
fn single_wildcard_captures_one_segment() {
    let r = route("/allen/:id", Method::GET);
    let req = get("/allen/42");
    assert!(routes_match(&r, &req));
    let params = req.get_params(&r);
    assert_eq!(params.get("id"), Some("42".to_string()));
}

#[test]
fn trailing_wildcard_also_absorbs_extra_segments() {
    // The final pattern segment is a wildcard, so extra path segments
    // are absorbed into the same capture.
    let r = route("/allen/:id", Method::GET);
    let req = get("/allen/42/extra");
    assert!(routes_match(&r, &req));
    let params = req.get_params(&r);
    assert_eq!(params.get("id"), Some("42/extra".to_string()));
}

#[test]
fn non_final_wildcard_captures_exactly_one_segment() {
    let r = route("/a/:x/c", Method::GET);
    let req = get("/a/b/c");
    assert!(routes_match(&r, &req));
    assert_eq!(req.get_params(&r).get("x"), Some("b".to_string()));
    assert!(!routes_match(&r, &get("/a/b")));
    assert!(!routes_match(&r, &get("/a/b/c/d")));
}

#[test]
fn root_pattern_matches_only_root_path() {
    let r = route("/", Method::GET);
    assert!(routes_match(&r, &get("/")));
    assert!(!routes_match(&r, &get("/x")));
    assert!(!routes_match(&r, &get("/a/b")));
}

#[test]
fn no_route_found_error() {
    let router = Router::new();
    let req = get("/nonexistent");
    assert_eq!(router.get_handler(&req), Err(HttpError::NoRouteFound));
    assert!(router.get_route(&req).is_err());
}

#[test]
fn unmatched_request_dispatches_404_with_empty_body() {
    let mut router = Router::new();
    router.add_route("/known", Method::GET, 1);
    match router.dispatch(&get("/nonexistent")) {
        Dispatch::NotFound(resp) => {
            assert_eq!(resp, "HTTP/1.1 404 Not Found\r\n\r\n");
        }
        Dispatch::Handle { .. } => panic!("should not match"),
    }
}

#[test]
fn dispatch_hands_over_matched_route_and_params() {
    let mut router = Router::new();
    router.add_route("/", Method::GET, 1);
    router.add_route("/allen/:id", Method::GET, 2);
    match router.dispatch(&get("/allen/42")) {
        Dispatch::Handle { index, params } => {
            assert_eq!(router.routes[index].handler, 2);
            assert_eq!(params.get("id"), Some("42".to_string()));
        }
        Dispatch::NotFound(_) => panic!("should match"),
    }
}

#[test]
fn concurrent_style_dispatches_do_not_cross_talk() {
    // Two connections hitting two different routes through the same
    // shared read-only table: each decision carries only its own
    // route's parameters and handler.
    let mut router = Router::new();
    router.add_route("/allen/:id", Method::GET, 1);
    router.add_route("/files/:path", Method::GET, 2);
    let frozen = &router;
    let first = frozen.dispatch(&get("/allen/1"));
    let second = frozen.dispatch(&get("/files/a/b"));
    match (first, second) {
        (
            Dispatch::Handle { index: i1, params: p1 },
            Dispatch::Handle { index: i2, params: p2 },
        ) => {
            assert_eq!(frozen.routes[i1].handler, 1);
            assert_eq!(frozen.routes[i2].handler, 2);
            assert_eq!(p1.get("id"), Some("1".to_string()));
            assert_eq!(p1.get("path"), None);
            assert_eq!(p2.get("path"), Some("a/b".to_string()));
            assert_eq!(p2.get("id"), None);
        }
        _ => panic!("both should match"),
    }
}

#[test]
fn route_state_is_kept() {
    let mut router = Router::new();
    let mut state = StrMap::new();
    state.insert("dir".to_string(), "/srv/pages".to_string());
    router.add_route_with_state("/files/:path", Method::GET, 7, state);
    let r = router.get_route(&get("/files/readme.txt")).unwrap();
    let st = r.state.as_ref().expect("state should be present");
    assert_eq!(st.get("dir"), Some("/srv/pages".to_string()));
    assert_eq!(r.handler, 7);
}

#[test]
fn middleware_registration_order_is_kept() {
    let mut router = Router::new();
    router.add_middleware(4);
    router.add_middleware(9);
    assert_eq!(router.middleware, vec![4, 9]);
}
