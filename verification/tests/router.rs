use rustful::method::Method;
use rustful::method::Method::{Delete, Get, Head, Post, Put};
use rustful::router::{RouteState, TreeRouter};

fn collect(routes: Vec<(Method, &str, &'static str)>) -> TreeRouter<&'static str> {
    let mut router = TreeRouter::new();
    for (method, route, handler) in routes {
        router.insert(method, route, handler);
    }
    router
}

/// The handler found for a path, and the values of the variables `a`, `b`
/// and `c`, where they are set, joined with commas.
fn find(router: &TreeRouter<&'static str>, method: Method, path: &str) -> Option<(&'static str, String)> {
    let mut route = RouteState::from_path(path.as_bytes());
    let endpoint = router.find(&method, &mut route);
    match endpoint.handler {
        Some(handler) => {
            let mut values: Vec<String> = Vec::new();
            for key in ["a", "b", "c"] {
                if let Some(value) = endpoint.variables.get(key.as_bytes()) {
                    values.push(value);
                }
            }
            Some((*handler, values.join(", ")))
        },
        None => None,
    }
}

fn check(result: Option<(&'static str, String)>, expected: Option<&str>) {
    assert_eq!(result.map(|(handler, _)| handler), expected);
}

fn check_variable(result: Option<(&'static str, String)>, expected: Option<&str>) {
    match (result, expected) {
        (Some((_, variables)), Some(expected)) => assert_eq!(variables, expected),
        (None, None) => {},
        (result, expected) => panic!("expected {:?}, got {:?}", expected, result),
    }
}

#[test]
fn router_one_static_route() {
    let router = collect(vec![(Get, "path/to/test1", "test 1")]);

    check(find(&router, Get, "path/to/test1"), Some("test 1"));
    check(find(&router, Get, "path/to"), None);
    check(find(&router, Get, "path/to/test1/nothing"), None);
}

#[test]
fn router_several_static_routes() {
    let router = collect(vec![
        (Get, "", "test 1"),
        (Get, "path/to/test/no2", "test 2"),
        (Get, "path/to/test1/no/test3", "test 3"),
    ]);

    check(find(&router, Get, ""), Some("test 1"));
    check(find(&router, Get, "path/to/test/no2"), Some("test 2"));
    check(find(&router, Get, "path/to/test1/no/test3"), Some("test 3"));
    check(find(&router, Get, "path/to/test1/no"), None);
}

#[test]
fn router_one_variable_route() {
    let router = collect(vec![(Get, "path/:a/test1", "test_var")]);

    check_variable(find(&router, Get, "path/to/test1"), Some("to"));
    check_variable(find(&router, Get, "path/to"), None);
    check_variable(find(&router, Get, "path/to/test1/nothing"), None);
}

#[test]
fn router_several_variable_routes() {
    let router = collect(vec![
        (Get, "path/to/test1", "test_var"),
        (Get, "path/:a/test/no2", "test_var"),
        (Get, "path/to/:b/:c/:a", "test_var"),
        (Post, "path/to/:c/:a/:b", "test_var"),
    ]);

    check_variable(find(&router, Get, "path/to/test1"), Some(""));
    check_variable(find(&router, Get, "path/to/test/no2"), Some("to"));
    check_variable(find(&router, Get, "path/to/test1/no/test3"), Some("test3, test1, no"));
    check_variable(find(&router, Post, "path/to/test1/no/test3"), Some("no, test3, test1"));
    check_variable(find(&router, Get, "path/to/test1/no"), None);
}

#[test]
fn router_one_wildcard_end_route() {
    let router = collect(vec![(Get, "path/to/*", "test 1")]);

    check(find(&router, Get, "path/to/test1"), Some("test 1"));
    check(find(&router, Get, "path/to/same/test1"), Some("test 1"));
    check(find(&router, Get, "path/to/the/same/test1"), Some("test 1"));
    check(find(&router, Get, "path/to"), None);
    check(find(&router, Get, "path"), None);
}

#[test]
fn router_one_wildcard_middle_route() {
    let router = collect(vec![(Get, "path/*/test1", "test 1")]);

    check(find(&router, Get, "path/to/test1"), Some("test 1"));
    check(find(&router, Get, "path/to/same/test1"), Some("test 1"));
    check(find(&router, Get, "path/to/the/same/test1"), Some("test 1"));
    check(find(&router, Get, "path/to"), None);
    check(find(&router, Get, "path"), None);
}

#[test]
fn router_one_universal_wildcard_route() {
    let router = collect(vec![(Get, "*", "test 1")]);

    check(find(&router, Get, "path/to/test1"), Some("test 1"));
    check(find(&router, Get, "path/to/same/test1"), Some("test 1"));
    check(find(&router, Get, "path/to/the/same/test1"), Some("test 1"));
    check(find(&router, Get, "path/to"), Some("test 1"));
    check(find(&router, Get, "path"), Some("test 1"));
    check(find(&router, Get, ""), None);
}

#[test]
fn router_several_wildcards_routes() {
    let router = collect(vec![
        (Get, "path/to/*", "test 1"),
        (Get, "path/*/test/no2", "test 2"),
        (Get, "path/to/*/*/*", "test 3"),
    ]);

    check(find(&router, Get, "path/to/test1"), Some("test 1"));
    check(find(&router, Get, "path/for/test/no2"), Some("test 2"));
    check(find(&router, Get, "path/to/test1/no/test3"), Some("test 3"));
    check(find(&router, Get, "path/to/test1/no/test3/again"), Some("test 3"));
    check(find(&router, Get, "path/to"), None);
}

#[test]
fn router_route_formats() {
    let router = collect(vec![
        (Get, "/", "test 1"),
        (Get, "/path/to/test/no2", "test 2"),
        (Get, "path/to/test3/", "test 3"),
        (Get, "/path/to/test3/again/", "test 3"),
    ]);

    check(find(&router, Get, ""), Some("test 1"));
    check(find(&router, Get, "path/to/test/no2/"), Some("test 2"));
    check(find(&router, Get, "path/to/test3"), Some("test 3"));
    check(find(&router, Get, "/path/to/test3/again"), Some("test 3"));
    check(find(&router, Get, "//path/to/test3"), None);
}

#[test]
fn router_http_methods() {
    let router = collect(vec![
        (Get, "/", "get"),
        (Post, "/", "post"),
        (Delete, "/", "delete"),
        (Put, "/", "put"),
    ]);

    check(find(&router, Get, "/"), Some("get"));
    check(find(&router, Post, "/"), Some("post"));
    check(find(&router, Delete, "/"), Some("delete"));
    check(find(&router, Put, "/"), Some("put"));
    check(find(&router, Head, "/"), None);
}

#[test]
fn router_merge_routers() {
    let mut router1 = collect(vec![
        (Get, "", "test 1"),
        (Get, "path/to/test/no2", "test 2"),
        (Get, "path/to/test1/no/test3", "test 3"),
    ]);
    let router2 = collect(vec![
        (Get, "", "test 1"),
        (Get, "test/no5", "test 5"),
        (Post, "test1/no/test3", "test 3 post"),
    ]);

    router1.insert_router("path/to", router2);

    check(find(&router1, Get, ""), Some("test 1"));
    check(find(&router1, Get, "path/to/test/no2"), Some("test 2"));
    check(find(&router1, Get, "path/to/test1/no/test3"), Some("test 3"));
    check(find(&router1, Post, "path/to/test1/no/test3"), Some("test 3 post"));
    check(find(&router1, Get, "path/to/test/no5"), Some("test 5"));
    check(find(&router1, Get, "path/to"), Some("test 1"));
}

#[test]
fn router_merge_routers_variables() {
    let mut router1 = collect(vec![(Get, ":a/:b/:c", "test 2")]);
    let router2 = collect(vec![(Get, ":b/:c/test", "test 1")]);

    router1.insert_router(":a", router2);

    check_variable(find(&router1, Get, "path/to/test1"), Some("path, to, test1"));
    check_variable(find(&router1, Get, "path/to/test1/test"), Some("path, to, test1"));
}

#[test]
fn router_merge_routers_wildcard() {
    let mut router1 = collect(vec![(Get, "path/to", "test 2")]);
    let router2 = collect(vec![(Get, "*/test1", "test 1")]);

    router1.insert_router("path", router2);

    check(find(&router1, Get, "path/to/test1"), Some("test 1"));
    check(find(&router1, Get, "path/to/same/test1"), Some("test 1"));
    check(find(&router1, Get, "path/to/the/same/test1"), Some("test 1"));
    check(find(&router1, Get, "path/to"), Some("test 2"));
    check(find(&router1, Get, "path"), None);
}
