use rustful::context::hypermedia::{Link, SegmentType};
use rustful::method::Method;
use rustful::method::Method::{Delete, Get, Head, Post, Put};
use rustful::router::{RouteState, TreeRouter};

enum Expected {
    SelfLink(Method),
    Forward(Vec<(&'static str, SegmentType)>),
}

fn stat(label: &'static str) -> Expected {
    Expected::Forward(vec![(label, SegmentType::Static)])
}

fn var(label: &'static str) -> Expected {
    Expected::Forward(vec![(label, SegmentType::VariableSegment)])
}

fn seq(label: &'static str) -> Expected {
    Expected::Forward(vec![(label, SegmentType::VariableSequence)])
}

fn collect(routes: Vec<(Method, &str, &'static str)>) -> TreeRouter<&'static str> {
    let mut router = TreeRouter::new();
    for (method, route, handler) in routes {
        router.insert(method, route, handler);
    }
    router
}

fn check(
    router: &TreeRouter<&'static str>,
    method: Method,
    path: &[u8],
    handler: Option<&str>,
    variables: &[(&str, &str)],
    links: Vec<Expected>,
) {
    let mut route = RouteState::from_path(path);
    let endpoint = router.find(&method, &mut route);
    assert_eq!(endpoint.handler.map(|h| *h), handler);
    for (key, expected) in variables {
        match endpoint.variables.get_raw(key.as_bytes()) {
            Some(value) => assert_eq!(value.as_bytes(), expected.as_bytes(), "variable '{}'", key),
            None => panic!("variable '{}' is missing", key),
        }
    }
    assert_eq!(endpoint.variables.len(), variables.len(), "unexpected variables");

    let mut found: Vec<Link<&'static str>> = endpoint.hyperlinks;
    for link in &links {
        let index = found.iter().position(|other| match (&other.method, link) {
            (Some(other_method), Expected::SelfLink(method)) => other_method.same_as(method),
            (None, Expected::Forward(segments)) => {
                other.path.len() == segments.len()
                    && other.path.iter().zip(segments.iter()).all(|(a, (label, ty))| {
                        a.label.as_bytes() == label.as_bytes() && a.ty == *ty
                    })
            },
            _ => false,
        });
        match index {
            Some(index) => {
                found.swap_remove(index);
            },
            None => panic!("missing link"),
        }
    }
    assert!(found.is_empty(), "unexpected hyperlinks: {}", found.len());
}

#[test]
fn tree_router_one_static_route() {
    let mut router = collect(vec![(Get, "path/to/test1", "test 1")]);
    router.find_hyperlinks = true;

    check(&router, Get, b"path/to/test1", Some("test 1"), &[], vec![]);
    check(&router, Get, b"path/to", None, &[], vec![stat("test1")]);
    check(&router, Get, b"path/to/test1/nothing", None, &[], vec![]);
}

#[test]
fn tree_router_several_static_routes() {
    let mut router = collect(vec![
        (Get, "", "test 1"),
        (Get, "path/to/test/no2", "test 2"),
        (Get, "path/to/test1/no/test3", "test 3"),
    ]);
    router.find_hyperlinks = true;

    check(&router, Get, b"", Some("test 1"), &[], vec![stat("path")]);
    check(&router, Get, b"path/to/test/no2", Some("test 2"), &[], vec![]);
    check(&router, Get, b"path/to/test1/no/test3", Some("test 3"), &[], vec![]);
    check(&router, Get, b"path/to/test1/no", None, &[], vec![stat("test3")]);
}

#[test]
fn tree_router_one_variable_route() {
    let mut router = collect(vec![(Get, "path/:a/test1", "test_var")]);
    router.find_hyperlinks = true;

    check(&router, Get, b"path/to/test1", Some("test_var"), &[("a", "to")], vec![]);
    check(&router, Get, b"path/to", None, &[], vec![stat("test1")]);
    check(&router, Get, b"path/to/test1/nothing", None, &[], vec![]);
}

#[test]
fn tree_router_several_variable_routes() {
    let mut router = collect(vec![
        (Get, "path/to/test1", "test_var"),
        (Get, "path/:a/test/no2", "test_var"),
        (Get, "path/to/:b/:c/:a", "test_var"),
        (Post, "path/to/:c/:a/:b", "test_var"),
    ]);
    router.find_hyperlinks = true;

    check(&router, Get, b"path/to/test1", Some("test_var"), &[], vec![]);
    check(&router, Get, b"path/to/test/no2", Some("test_var"), &[("a", "to")], vec![var("")]);
    check(
        &router,
        Get,
        b"path/to/test1/no/test3",
        Some("test_var"),
        &[("a", "test3"), ("b", "test1"), ("c", "no")],
        vec![Expected::SelfLink(Post)],
    );
    check(
        &router,
        Post,
        b"path/to/test1/no/test3",
        Some("test_var"),
        &[("a", "no"), ("b", "test3"), ("c", "test1")],
        vec![Expected::SelfLink(Get)],
    );
    check(&router, Get, b"path/to/test1/no", None, &[], vec![var("")]);
}

#[test]
fn tree_router_one_wildcard_end_route() {
    let mut router = collect(vec![(Get, "path/to/*tail", "test 1")]);
    router.find_hyperlinks = true;

    check(&router, Get, b"path/to/test1", Some("test 1"), &[("tail", "test1")], vec![]);
    check(&router, Get, b"path/to/same/test1", Some("test 1"), &[("tail", "same/test1")], vec![]);
    check(&router, Get, b"path/to/the/same/test1", Some("test 1"), &[("tail", "the/same/test1")], vec![]);
    check(&router, Get, b"path/to", None, &[], vec![seq("")]);
    check(&router, Get, b"path", None, &[], vec![stat("to")]);
}

#[test]
fn tree_router_one_wildcard_middle_route() {
    let mut router = collect(vec![(Get, "path/*middle/test1", "test 1")]);
    router.find_hyperlinks = true;

    check(&router, Get, b"path/to/test1", Some("test 1"), &[("middle", "to")], vec![]);
    check(&router, Get, b"path/to/same/test1", Some("test 1"), &[("middle", "to/same")], vec![]);
    check(&router, Get, b"path/to/the/same/test1", Some("test 1"), &[("middle", "to/the/same")], vec![]);
    check(&router, Get, b"path/to", None, &[], vec![stat("test1")]);
    check(&router, Get, b"path", None, &[], vec![seq("")]);
}

#[test]
fn tree_router_one_universal_wildcard_route() {
    let mut router = collect(vec![(Get, "*all", "test 1")]);
    router.find_hyperlinks = true;

    check(&router, Get, b"path/to/test1", Some("test 1"), &[("all", "path/to/test1")], vec![]);
    check(&router, Get, b"path/to/same/test1", Some("test 1"), &[("all", "path/to/same/test1")], vec![]);
    check(&router, Get, b"path/to/the/same/test1", Some("test 1"), &[("all", "path/to/the/same/test1")], vec![]);
    check(&router, Get, b"path/to", Some("test 1"), &[("all", "path/to")], vec![]);
    check(&router, Get, b"path", Some("test 1"), &[("all", "path")], vec![]);
    check(&router, Get, b"", None, &[], vec![seq("")]);
}

#[test]
fn tree_router_several_wildcards_routes() {
    let mut router = collect(vec![
        (Get, "path/to/*", "test 1"),
        (Get, "path/*/test/no2", "test 2"),
        (Get, "path/to/*/*/*", "test 3"),
    ]);
    router.find_hyperlinks = true;

    check(&router, Get, b"path/to/test1", Some("test 1"), &[], vec![seq("")]);
    check(&router, Get, b"path/for/test/no2", Some("test 2"), &[], vec![]);
    check(&router, Get, b"path/to/test1/no/test3", Some("test 3"), &[], vec![]);
    check(&router, Get, b"path/to/test1/no/test3/again", Some("test 3"), &[], vec![]);
    check(&router, Get, b"path/to", None, &[], vec![seq(""), stat("test")]);
}

#[test]
fn tree_router_several_wildcards_routes_no_hyperlinks() {
    let router = collect(vec![
        (Get, "path/to/*tail", "test 1"),
        (Get, "path/*middle/test/no2", "test 2"),
        (Get, "path/to/*a/*b/*c", "test 3"),
    ]);

    check(&router, Get, b"path/to/test1", Some("test 1"), &[("tail", "test1")], vec![]);
    check(&router, Get, b"path/for/test/no2", Some("test 2"), &[("middle", "for")], vec![]);
    check(
        &router,
        Get,
        b"path/to/test1/no/test3",
        Some("test 3"),
        &[("a", "test1"), ("b", "no"), ("c", "test3")],
        vec![],
    );
    check(
        &router,
        Get,
        b"path/to/test1/no/test3/again",
        Some("test 3"),
        &[("a", "test1"), ("b", "no"), ("c", "test3/again")],
        vec![],
    );
    check(&router, Get, b"path/to", None, &[], vec![]);
}

#[test]
fn tree_router_route_formats() {
    let mut router = collect(vec![
        (Get, "/", "test 1"),
        (Get, "/path/to/test/no2", "test 2"),
        (Get, "path/to/test3/", "test 3"),
        (Get, "/path/to/test3/again/", "test 3"),
    ]);
    router.find_hyperlinks = true;

    check(&router, Get, b"", Some("test 1"), &[], vec![stat("path")]);
    check(&router, Get, b"path/to/test/no2/", Some("test 2"), &[], vec![]);
    check(&router, Get, b"path/to/test3", Some("test 3"), &[], vec![stat("again")]);
    check(&router, Get, b"/path/to/test3/again", Some("test 3"), &[], vec![]);
    check(&router, Get, b"//path/to/test3", None, &[], vec![]);
}

#[test]
fn tree_router_http_methods() {
    let mut router = collect(vec![
        (Get, "/", "get"),
        (Post, "/", "post"),
        (Delete, "/", "delete"),
        (Put, "/", "put"),
    ]);
    router.find_hyperlinks = true;

    check(&router, Get, b"/", Some("get"), &[], vec![Expected::SelfLink(Post), Expected::SelfLink(Delete), Expected::SelfLink(Put)]);
    check(&router, Post, b"/", Some("post"), &[], vec![Expected::SelfLink(Get), Expected::SelfLink(Delete), Expected::SelfLink(Put)]);
    check(&router, Delete, b"/", Some("delete"), &[], vec![Expected::SelfLink(Get), Expected::SelfLink(Post), Expected::SelfLink(Put)]);
    check(&router, Put, b"/", Some("put"), &[], vec![Expected::SelfLink(Get), Expected::SelfLink(Post), Expected::SelfLink(Delete)]);
    check(
        &router,
        Head,
        b"/",
        None,
        &[],
        vec![Expected::SelfLink(Get), Expected::SelfLink(Post), Expected::SelfLink(Delete), Expected::SelfLink(Put)],
    );
}

#[test]
fn tree_router_merge_routers() {
    let mut router1 = collect(vec![
        (Get, "", "test 1"),
        (Get, "path/to/test/no2", "test 2"),
        (Get, "path/to/test1/no/test3", "test 3"),
    ]);
    router1.find_hyperlinks = true;
    let router2 = collect(vec![
        (Get, "", "test 1"),
        (Get, "test/no5", "test 5"),
        (Post, "test1/no/test3", "test 3 post"),
    ]);

    router1.insert_router("path/to", router2);

    check(&router1, Get, b"", Some("test 1"), &[], vec![stat("path")]);
    check(&router1, Get, b"path/to/test/no2", Some("test 2"), &[], vec![]);
    check(&router1, Get, b"path/to/test1/no/test3", Some("test 3"), &[], vec![Expected::SelfLink(Post)]);
    check(&router1, Post, b"path/to/test1/no/test3", Some("test 3 post"), &[], vec![Expected::SelfLink(Get)]);
    check(&router1, Get, b"path/to/test/no5", Some("test 5"), &[], vec![]);
    check(&router1, Get, b"path/to", Some("test 1"), &[], vec![stat("test"), stat("test1")]);
}

#[test]
fn tree_router_merge_routers_variables() {
    let mut router1 = collect(vec![(Get, ":a/:b/:c", "test 2")]);
    router1.find_hyperlinks = true;
    let router2 = collect(vec![(Get, ":b/:c/test", "test 1")]);

    router1.insert_router(":a", router2);

    check(
        &router1,
        Get,
        b"path/to/test1",
        Some("test 2"),
        &[("a", "path"), ("b", "to"), ("c", "test1")],
        vec![stat("test")],
    );
    check(
        &router1,
        Get,
        b"path/to/test1/test",
        Some("test 1"),
        &[("a", "path"), ("b", "to"), ("c", "test1")],
        vec![],
    );
}

#[test]
fn tree_router_merge_routers_wildcard() {
    let mut router1 = collect(vec![(Get, "path/to", "test 2")]);
    router1.find_hyperlinks = true;
    let router2 = collect(vec![(Get, "*/test1", "test 1")]);

    router1.insert_router("path", router2);

    check(&router1, Get, b"path/to/test1", Some("test 1"), &[], vec![]);
    check(&router1, Get, b"path/to/same/test1", Some("test 1"), &[], vec![]);
    check(&router1, Get, b"path/to/the/same/test1", Some("test 1"), &[], vec![]);
    check(&router1, Get, b"path/to", Some("test 2"), &[], vec![]);
    check(&router1, Get, b"path", None, &[], vec![stat("to"), seq("")]);
}

#[test]
fn prefix_router_variables() {
    let mut router1 = collect(vec![(Get, ":b/:c", "test 2"), (Get, ":b/:c/test", "test 1")]);
    router1.find_hyperlinks = true;
    router1.prefix(":a");

    check(
        &router1,
        Get,
        b"path/to/test1",
        Some("test 2"),
        &[("a", "path"), ("b", "to"), ("c", "test1")],
        vec![stat("test")],
    );
    check(
        &router1,
        Get,
        b"path/to/test1/test",
        Some("test 1"),
        &[("a", "path"), ("b", "to"), ("c", "test1")],
        vec![],
    );
}

#[test]
fn prefix_router_wildcard() {
    let mut router1 = collect(vec![(Get, "path/to", "test 2"), (Get, "*/test1", "test 1")]);
    router1.find_hyperlinks = true;
    router1.prefix(":a");

    check(&router1, Get, b"a/path/to/test1", Some("test 1"), &[("a", "a")], vec![]);
    check(&router1, Get, b"a/path/to/same/test1", Some("test 1"), &[("a", "a")], vec![]);
    check(&router1, Get, b"a/path/to/the/same/test1", Some("test 1"), &[("a", "a")], vec![]);
    check(&router1, Get, b"a/path/to", Some("test 2"), &[("a", "a")], vec![]);
    check(&router1, Get, b"a/path", None, &[], vec![stat("to"), stat("test1")]);
}
