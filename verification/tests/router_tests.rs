use httpx::method::Method;
use httpx::router::{Router, RouterHandler};

#[test]
fn registered_route_resolves_to_its_handler() {
    let mut router: Router<u32> = Router::new();
    router.get("/hello", 7).unwrap();
    let (h, params) = router.get_handler(Method::GET, "/hello").unwrap();
    assert_eq!(h, 7);
    assert!(params.is_empty());
}

#[test]
fn reregistering_replaces_the_handler() {
    let mut router: Router<u32> = Router::new();
    router.get("/hello", 7).unwrap();
    router.get("/hello", 8).unwrap();
    let (h, _) = router.get_handler(Method::GET, "/hello").unwrap();
    assert_eq!(h, 8);
}

#[test]
fn methods_are_kept_apart() {
    let mut router: Router<u32> = Router::new();
    router.get("/x", 1).unwrap();
    router.post("/x", 2).unwrap();
    router.put("/x", 3).unwrap();
    router.delete("/x", 4).unwrap();
    assert_eq!(router.get_handler(Method::GET, "/x").unwrap().0, 1);
    assert_eq!(router.get_handler(Method::POST, "/x").unwrap().0, 2);
    assert_eq!(router.get_handler(Method::PUT, "/x").unwrap().0, 3);
    assert_eq!(router.get_handler(Method::DELETE, "/x").unwrap().0, 4);
}

#[test]
fn parametric_route_binds_segment() {
    let mut router: Router<u32> = Router::new();
    router.get("/users/:id", 5).unwrap();
    let (h, params) = router.get_handler(Method::GET, "/users/42").unwrap();
    assert_eq!(h, 5);
    assert_eq!(params, vec![("id".to_string(), "42".to_string())]);
}

#[test]
fn longer_path_than_pattern_is_not_found() {
    let mut router: Router<u32> = Router::new();
    router.get("/users/:id", 5).unwrap();
    let e = router.get_handler(Method::GET, "/users/42/extra").unwrap_err();
    assert_eq!(e.method, Method::GET);
    assert_eq!(e.path, "/users/42/extra".to_string());
}

#[test]
fn unregistered_lookup_is_not_found_never_a_panic() {
    let empty: Router<u32> = Router::new();
    let e = empty.get_handler(Method::GET, "/nowhere").unwrap_err();
    assert_eq!(e.method, Method::GET);
    assert_eq!(e.path, "/nowhere".to_string());
    assert_eq!(
        e.message(),
        "missing get handler for path /nowhere".to_string()
    );

    let mut router: Router<u32> = Router::new();
    router.post("/only-post", 1).unwrap();
    assert!(router.get_handler(Method::GET, "/only-post").is_err());
    assert!(router.get_handler(Method::DELETE, "/entirely/else").is_err());
    assert_eq!(
        router.get_handler(Method::PUT, "/p").unwrap_err().message(),
        "missing put handler for path /p".to_string()
    );
}

#[test]
fn empty_segments_are_ignored() {
    let mut router: Router<u32> = Router::new();
    router.get("/a//b/", 9).unwrap();
    assert_eq!(router.get_handler(Method::GET, "/a/b").unwrap().0, 9);
    assert_eq!(router.get_handler(Method::GET, "a/b").unwrap().0, 9);
    assert_eq!(router.get_handler(Method::GET, "//a///b//").unwrap().0, 9);
}

#[test]
fn literal_child_wins_over_parametric() {
    let mut router: Router<u32> = Router::new();
    router.get("/f/:name", 1).unwrap();
    router.get("/f/exact", 2).unwrap();
    assert_eq!(router.get_handler(Method::GET, "/f/exact").unwrap().0, 2);
    let (h, params) = router.get_handler(Method::GET, "/f/other").unwrap();
    assert_eq!(h, 1);
    assert_eq!(params, vec![("name".to_string(), "other".to_string())]);
}

#[test]
fn add_route_registers_under_its_method() {
    let mut router: Router<u32> = Router::new();
    let h = RouterHandler::new(Method::POST, "/things/:kind/items", 11);
    assert_eq!(h.method, Method::POST);
    assert_eq!(h.path, "/things/:kind/items".to_string());
    router.add_route(h).unwrap();
    let (found, params) = router
        .get_handler(Method::POST, "/things/tools/items")
        .unwrap();
    assert_eq!(found, 11);
    assert_eq!(params, vec![("kind".to_string(), "tools".to_string())]);
}

#[test]
fn second_parametric_sibling_is_rejected() {
    let mut router: Router<u32> = Router::new();
    router.get("/x/:a", 1).unwrap();
    let e = router.get("/x/:b", 2).unwrap_err();
    assert_eq!(e.path, "/x/:b".to_string());
    assert_eq!(e.existing, ":a".to_string());
    assert_eq!(
        e.message(),
        "conflicting parameter :a for path /x/:b".to_string()
    );
    // The router is unchanged: the first registration still resolves and
    // the rejected one never took.
    let (h, params) = router.get_handler(Method::GET, "/x/7").unwrap();
    assert_eq!(h, 1);
    assert_eq!(params, vec![("a".to_string(), "7".to_string())]);
}

#[test]
fn same_parameter_name_registers_without_conflict() {
    let mut router: Router<u32> = Router::new();
    router.get("/u/:id", 1).unwrap();
    router.get("/u/:id", 2).unwrap();
    router.post("/u/:id/items", 3).unwrap();
    assert_eq!(router.get_handler(Method::GET, "/u/9").unwrap().0, 2);
    assert_eq!(router.get_handler(Method::POST, "/u/9/items").unwrap().0, 3);
    // A conflict deeper in the trie is caught as well.
    let e = router.post("/u/:other/items", 4).unwrap_err();
    assert_eq!(e.existing, ":id".to_string());
    assert_eq!(e.path, "/u/:other/items".to_string());
}

#[test]
fn mounted_router_lookups_are_consistent_across_readers() {
    let mut router: Router<u32> = Router::new();
    router.get("/a/:x", 1).unwrap();
    router.get("/a/b", 2).unwrap();
    router.post("/c", 3).unwrap();
    // Once mounted the router is only read; every lookup of the same pair
    // must agree with the registered route set, whichever reader asks.
    for _ in 0..3 {
        assert_eq!(router.get_handler(Method::GET, "/a/b").unwrap().0, 2);
        let (h, params) = router.get_handler(Method::GET, "/a/z").unwrap();
        assert_eq!(h, 1);
        assert_eq!(params, vec![("x".to_string(), "z".to_string())]);
        assert_eq!(router.get_handler(Method::POST, "/c").unwrap().0, 3);
        assert!(router.get_handler(Method::GET, "/c").is_err());
    }
}
