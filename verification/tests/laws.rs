use rustful::context::hypermedia::{Link, SegmentType};
use rustful::method::Method;
use rustful::method::Method::{Get, Post};
use rustful::router::{RouteState, TreeRouter};
use rustful::context::Parameters;
use rustful::MaybeUtf8;

fn find(router: &TreeRouter<&'static str>, method: Method, path: &str) -> Option<(&'static str, Vec<(String, String)>)> {
    let mut route = RouteState::from_path(path.as_bytes());
    let endpoint = router.find(&method, &mut route);
    endpoint.handler.map(|h| {
        let mut variables = Vec::new();
        for key in ["a", "b", "c", "v", "tail"] {
            if let Some(value) = endpoint.variables.get(key.as_bytes()) {
                variables.push((key.to_string(), value));
            }
        }
        assert_eq!(endpoint.variables.len(), variables.len());
        (*h, variables)
    })
}

fn vars(pairs: &[(&str, &str)]) -> Vec<(String, String)> {
    pairs.iter().map(|(k, v)| (k.to_string(), v.to_string())).collect()
}

#[test]
fn static_route_is_found_among_others() {
    let mut router = TreeRouter::new();
    router.insert(Get, "a/:v/c", "variable");
    router.insert(Get, "a/*v", "sequence");
    router.insert(Get, "a/b/c", "static");
    assert_eq!(find(&router, Get, "a/b/c"), Some(("static", vec![])));
    assert_eq!(find(&router, Get, "a/x/c"), Some(("variable", vars(&[("v", "x")]))));
    assert_eq!(find(&router, Get, "a/x/y/z"), Some(("sequence", vars(&[("v", "x/y/z")]))));
}

#[test]
fn variable_segment_matches_one_segment() {
    let router = TreeRouter::build(Get, "a/:v/b", "handler");
    assert_eq!(find(&router, Get, "a/c/b"), Some(("handler", vars(&[("v", "c")]))));
    assert_eq!(find(&router, Get, "a/c/d/b"), None);
    assert_eq!(find(&router, Get, "a/b"), None);
    assert_eq!(find(&router, Get, "a/c/b/d"), None);
}

#[test]
fn variable_sequence_matches_several_segments() {
    let router = TreeRouter::build(Get, "a/*v/b", "handler");
    assert_eq!(find(&router, Get, "a/c/b"), Some(("handler", vars(&[("v", "c")]))));
    assert_eq!(find(&router, Get, "a/c/d/b"), Some(("handler", vars(&[("v", "c/d")]))));
    assert_eq!(find(&router, Get, "a/b"), None);
    assert_eq!(find(&router, Get, "a/c/b/d"), None);

    let router = TreeRouter::build(Get, "a/b/*v", "handler");
    assert_eq!(find(&router, Get, "a/b/c"), Some(("handler", vars(&[("v", "c")]))));
    assert_eq!(find(&router, Get, "a/b/c/d"), Some(("handler", vars(&[("v", "c/d")]))));
    assert_eq!(find(&router, Get, "a/b"), None);
}

#[test]
fn unlabeled_variables_are_discarded() {
    let router = TreeRouter::build(Get, "a/:/b/:v", "handler");
    assert_eq!(find(&router, Get, "a/x/b/y"), Some(("handler", vars(&[("v", "y")]))));
}

#[test]
fn later_insert_replaces_earlier() {
    let mut router = TreeRouter::new();
    router.insert(Get, "x/y", "first");
    router.insert(Post, "x/y", "post");
    router.insert(Get, "/x/y/", "second");
    assert_eq!(find(&router, Get, "x/y"), Some(("second", vec![])));
    assert_eq!(find(&router, Post, "x/y"), Some(("post", vec![])));
}

#[test]
fn insert_keeps_other_routes() {
    let mut router = TreeRouter::new();
    router.insert(Get, "x", "x");
    router.insert(Get, "x/y", "y");
    assert_eq!(find(&router, Get, "x"), Some(("x", vec![])));
    assert_eq!(find(&router, Get, "x/y"), Some(("y", vec![])));
    assert_eq!(find(&router, Post, "x"), None);
}

#[test]
fn merge_overrides_same_routes() {
    let mut router = TreeRouter::new();
    router.insert(Get, "x", "old x");
    router.insert(Get, "z", "old z");
    let mut other = TreeRouter::new();
    other.insert(Get, "x", "new x");
    other.insert(Get, "w/:a", "new w");
    router.merge(other);
    assert_eq!(find(&router, Get, "x"), Some(("new x", vec![])));
    assert_eq!(find(&router, Get, "z"), Some(("old z", vec![])));
    assert_eq!(find(&router, Get, "w/1"), Some(("new w", vars(&[("a", "1")]))));
}

#[test]
fn prefix_moves_routes_under_the_route() {
    let mut router = TreeRouter::new();
    router.insert(Get, "", "root");
    router.insert(Get, "x/:b", "x");
    router.prefix("api/:a");
    assert_eq!(find(&router, Get, ""), None);
    assert_eq!(find(&router, Get, "api/1"), Some(("root", vars(&[("a", "1")]))));
    assert_eq!(find(&router, Get, "api/1/x/2"), Some(("x", vars(&[("a", "1"), ("b", "2")]))));
    assert_eq!(find(&router, Get, "x/2"), None);
}

#[test]
fn insert_router_names_variables_after_the_route() {
    let mut router = TreeRouter::new();
    let mut other = TreeRouter::new();
    other.insert(Get, ":b", "inner");
    router.insert_router(":a/x", other);
    assert_eq!(find(&router, Get, "1/x/2"), Some(("inner", vars(&[("a", "1"), ("b", "2")]))));
}

#[test]
fn hyperlinks_list_handlers_and_children() {
    let mut router = TreeRouter::new();
    router.insert(Get, "", "root");
    router.insert(Get, "a", "a");
    router.insert(Get, ":v", "v");
    let base: Link<&'static str> = Link { method: None, path: Vec::new(), handler: None };
    let links = router.hyperlinks(base);
    assert_eq!(links.len(), 3);
    assert!(links[0].method.as_ref().map(|m| m.same_as(&Get)).unwrap_or(false));
    assert_eq!(links[0].handler.map(|h| *h), Some("root"));
    assert_eq!(links[1].path.len(), 1);
    assert_eq!(links[1].path[0].label.as_bytes(), b"a");
    assert_eq!(links[1].path[0].ty, SegmentType::Static);
    assert_eq!(links[2].path[0].ty, SegmentType::VariableSegment);
}

#[test]
fn parameters_give_back_what_was_inserted() {
    let mut params = Parameters::new();
    params.insert(MaybeUtf8::from_str("a"), MaybeUtf8::from_str("1"));
    params.insert(MaybeUtf8::from_str("b"), MaybeUtf8::from_str("2"));
    params.insert(MaybeUtf8::from_str("a"), MaybeUtf8::from_str("3"));
    assert_eq!(params.get(b"a"), Some("3".to_string()));
    assert_eq!(params.get(b"b"), Some("2".to_string()));
    assert_eq!(params.len(), 2);
}

#[test]
fn parameters_forget_what_was_removed() {
    let mut params = Parameters::new();
    params.insert(MaybeUtf8::from_str("a"), MaybeUtf8::from_str("1"));
    params.insert(MaybeUtf8::from_str("b"), MaybeUtf8::from_str("2"));
    assert_eq!(params.remove(b"a").map(|v| v.as_utf8_lossy()), Some("1".to_string()));
    assert!(!params.contains_key(b"a"));
    assert_eq!(params.get(b"b"), Some("2".to_string()));
}

#[test]
fn trailing_sequence_takes_the_rest_of_the_path() {
    let router = TreeRouter::build(Get, "a/:v/*tail", "handler");
    assert_eq!(find(&router, Get, "a/x/y"), Some(("handler", vars(&[("v", "x"), ("tail", "y")]))));
    assert_eq!(find(&router, Get, "a/x/y/z/w"), Some(("handler", vars(&[("v", "x"), ("tail", "y/z/w")]))));
    assert_eq!(find(&router, Get, "a/x"), None);
}

#[test]
fn route_state_go_to_restores_the_snapshot() {
    let mut route = RouteState::from_path(b"a/b/c");
    route.skip();
    let snapshot = route.snapshot();
    let before = route.get().map(|s| s.to_vec());
    route.keep();
    route.fuse();
    assert!(route.is_empty());
    route.go_to(snapshot);
    assert_eq!(route.snapshot(), snapshot);
    assert_eq!(route.get().map(|s| s.to_vec()), before);
    assert!(!route.is_empty());
}

#[test]
fn route_state_skipped_segment_is_in_no_variable() {
    let mut route = RouteState::from_path(b"a/b/c");
    route.keep();
    route.skip();
    route.keep();
    let names = vec![MaybeUtf8::from_str("x"), MaybeUtf8::from_str("y")];
    let variables = route.variables(&names);
    assert_eq!(variables.len(), 2);
    assert_eq!(variables.get(b"x"), Some("a".to_string()));
    assert_eq!(variables.get(b"y"), Some("c".to_string()));
}

#[test]
fn route_state_keep_and_fuse_move_the_snapshot() {
    let mut route = RouteState::from_path(b"a/b/c");
    assert_eq!(route.snapshot(), (0, 0));
    route.fuse();
    assert_eq!(route.snapshot(), (1, 0));
    route.keep();
    assert_eq!(route.snapshot(), (2, 1));
    route.skip();
    assert_eq!(route.snapshot(), (3, 1));
    let names = vec![MaybeUtf8::from_str("x")];
    assert_eq!(route.variables(&names).get(b"x"), Some("a/b".to_string()));
}

#[test]
fn route_state_is_empty_when_nothing_is_left() {
    assert!(RouteState::from_path(b"/").is_empty());
    assert!(RouteState::from_path(b"").is_empty());
    assert_eq!(RouteState::from_path(b"/").get(), None);
    let route = RouteState::from_path(b"a/b");
    assert!(!route.is_empty());
    assert_eq!(route.get(), Some(&b"a"[..]));
}

#[test]
fn parameters_count_what_insert_and_remove_change() {
    let mut params = Parameters::new();
    assert_eq!(params.len(), 0);
    assert!(params.insert(MaybeUtf8::from_str("a"), MaybeUtf8::from_str("1")).is_none());
    assert_eq!(params.len(), 1);
    assert!(params.insert(MaybeUtf8::from_str("a"), MaybeUtf8::from_str("2")).is_some());
    assert_eq!(params.len(), 1);
    assert!(params.remove(b"b").is_none());
    assert_eq!(params.len(), 1);
    assert!(params.remove(b"a").is_some());
    assert_eq!(params.len(), 0);
    assert!(params.remove(b"a").is_none());
}

#[test]
fn parameters_keep_the_variant_of_their_values() {
    let mut params = Parameters::new();
    params.insert(MaybeUtf8::from_str("k"), MaybeUtf8::from_bytes(vec![255u8]));
    params.insert(MaybeUtf8::from_str("s"), MaybeUtf8::from_str("abc"));
    assert_eq!(params.get(b"k"), Some("\u{FFFD}".to_string()));
    assert!(matches!(params.get_raw(b"k"), Some(MaybeUtf8::NotUtf8(v)) if v == &vec![255u8]));
    assert!(params.get_raw(b"s").map(|v| v.is_utf8()).unwrap_or(false));
    assert_eq!(params.get(b"missing"), None);
}

#[test]
fn buffer_reevaluates_utf8() {
    let mut string = MaybeUtf8::new();
    {
        let mut buffer = string.as_buffer();
        buffer.push_bytes(&[b'a', 0xc3]);
    }
    assert!(!string.is_utf8());
    assert_eq!(string.as_utf8(), None);
    {
        let mut buffer = string.as_buffer();
        buffer.push_bytes(&[0xa5]);
    }
    assert!(string.is_utf8());
    assert_eq!(string.as_utf8(), Some("aå"));
    {
        let mut buffer = string.as_buffer();
        buffer.push_char('b');
    }
    assert_eq!(string.as_bytes(), "aåb".as_bytes());
}

#[test]
fn parameter_entries_are_changed_in_place() {
    let mut params = Parameters::new();
    *params.entry(MaybeUtf8::from_str("a")).or_insert(MaybeUtf8::from_str("1")) = MaybeUtf8::from_str("2");
    assert_eq!(params.get(b"a"), Some("2".to_string()));
    params.entry(MaybeUtf8::from_str("a")).or_insert(MaybeUtf8::from_str("9")).push_str("x");
    assert_eq!(params.get(b"a"), Some("2x".to_string()));
    let entry = params.entry(MaybeUtf8::from_str("b"));
    assert_eq!(entry.key().as_bytes(), b"b");
    assert_eq!(entry.or_insert(MaybeUtf8::from_str("3")).as_bytes(), b"3");
    assert_eq!(params.len(), 2);
}

#[test]
fn buffer_reevaluates_a_string_marked_not_utf8() {
    let mut string = MaybeUtf8::NotUtf8(b"ab".to_vec());
    {
        let mut buffer = string.as_buffer();
        buffer.push_bytes(b"c");
    }
    assert!(string.is_utf8());
    assert_eq!(string.as_utf8(), Some("abc"));
    let mut untouched = MaybeUtf8::NotUtf8(b"x".to_vec());
    {
        let _buffer = untouched.as_buffer();
    }
    assert!(untouched.is_utf8());
}
