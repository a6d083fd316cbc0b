use rustful::context::hypermedia::Link;
use rustful::handler::StatusRouter;

#[test]
fn status_router_finds_the_handler_of_a_status() {
    let mut router = StatusRouter::new();
    router.insert(404, "not found");
    router.insert(500, "server error");
    assert_eq!(router.find(404), Some(&"not found"));
    assert_eq!(router.find(500), Some(&"server error"));
    assert_eq!(router.find(200), None);
}

#[test]
fn status_router_insert_replaces() {
    let mut router = StatusRouter::new();
    router.insert(404, "first");
    router.insert(404, "second");
    assert_eq!(router.find(404), Some(&"second"));
}

#[test]
fn status_router_merge_prefers_the_other_router() {
    let mut router = StatusRouter::new();
    router.insert(404, "mine");
    router.insert(500, "mine too");
    let mut other = StatusRouter::new();
    other.insert(404, "theirs");
    other.insert(403, "forbidden");
    router.merge(other);
    assert_eq!(router.find(404), Some(&"theirs"));
    assert_eq!(router.find(500), Some(&"mine too"));
    assert_eq!(router.find(403), Some(&"forbidden"));
}

#[test]
fn status_router_links_point_at_every_handler() {
    let mut router = StatusRouter::new();
    router.insert(404, "a");
    router.insert(500, "b");
    let base: Link<&str> = Link { method: None, path: Vec::new(), handler: None };
    let links = router.hyperlinks(&base);
    let mut handlers: Vec<&str> = links.iter().map(|l| *l.handler.expect("a handler")).collect();
    handlers.sort();
    assert_eq!(handlers, vec!["a", "b"]);
}
