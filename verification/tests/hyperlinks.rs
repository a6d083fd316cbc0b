use rustful::context::hypermedia::{sort_links, Link, LinkSegment, SegmentType};
use rustful::method::Method;
use rustful::router::tree_router::Matches;
use rustful::router::{RouteState, TreeRouter};
use rustful::MaybeUtf8;

fn segment(label: &str, ty: SegmentType) -> LinkSegment {
    LinkSegment { label: MaybeUtf8::from_str(label), ty }
}

fn link<'a>(method: Option<Method>, path: Vec<LinkSegment>, handler: Option<&'a u8>) -> Link<'a, u8> {
    Link { method, path, handler }
}

fn describe<H>(links: &[Link<H>]) -> Vec<(Option<String>, Vec<(String, SegmentType)>)> {
    links
        .iter()
        .map(|l| {
            (
                l.method.as_ref().map(|m| m.as_str().to_string()),
                l.path.iter().map(|s| (s.label.as_utf8_lossy(), s.ty)).collect(),
            )
        })
        .collect()
}

#[test]
fn sorted_links_come_in_method_then_path_order() {
    let links = vec![
        link(Some(Method::Post), vec![], None),
        link(None, vec![segment("b", SegmentType::Static)], None),
        link(Some(Method::Get), vec![], None),
        link(None, vec![segment("a", SegmentType::VariableSegment)], None),
        link(None, vec![segment("a", SegmentType::Static)], None),
        link(None, vec![segment("", SegmentType::VariableSequence)], None),
    ];
    let sorted = sort_links(&links);
    assert_eq!(
        describe(&sorted),
        vec![
            (None, vec![(String::new(), SegmentType::VariableSequence)]),
            (None, vec![("a".to_string(), SegmentType::Static)]),
            (None, vec![("a".to_string(), SegmentType::VariableSegment)]),
            (None, vec![("b".to_string(), SegmentType::Static)]),
            (Some("GET".to_string()), vec![]),
            (Some("POST".to_string()), vec![]),
        ]
    );
}

#[test]
fn sorted_links_keep_the_first_of_equal_links() {
    let first = 1u8;
    let second = 2u8;
    let links = vec![
        link(None, vec![segment("x", SegmentType::Static)], Some(&first)),
        link(None, vec![segment("x", SegmentType::Static)], Some(&second)),
        link(None, vec![segment("x", SegmentType::Static), segment("y", SegmentType::Static)], None),
    ];
    let sorted = sort_links(&links);
    assert_eq!(sorted.len(), 2);
    assert_eq!(sorted[0].handler, Some(&first));
    assert_eq!(sorted[0].path.len(), 1);
    assert_eq!(sorted[1].path.len(), 2);
}

#[test]
fn sorted_links_compare_methods_by_name_alone() {
    let links = vec![
        link(Some(Method::Extension("GET".to_string())), vec![], None),
        link(Some(Method::Get), vec![], None),
        link(Some(Method::Extension("GET".to_string())), vec![], None),
        link(Some(Method::Extension("ABC".to_string())), vec![], None),
    ];
    let sorted = sort_links(&links);
    let kinds: Vec<(String, bool)> = sorted
        .iter()
        .map(|l| {
            let m = l.method.as_ref().expect("a method");
            (m.as_str().to_string(), matches!(m, Method::Extension(_)))
        })
        .collect();
    assert_eq!(
        kinds,
        vec![("ABC".to_string(), true), ("GET".to_string(), true), ("GET".to_string(), false), ("GET".to_string(), true)]
    );
}

#[test]
fn sorted_links_put_shorter_paths_first() {
    let links = vec![
        link(None, vec![segment("a", SegmentType::Static), segment("b", SegmentType::Static)], None),
        link(None, vec![segment("a", SegmentType::Static)], None),
        link(None, vec![], None),
    ];
    let sorted = sort_links(&links);
    let lengths: Vec<usize> = sorted.iter().map(|l| l.path.len()).collect();
    assert_eq!(lengths, vec![0, 1, 2]);
}

#[test]
fn sorting_no_links_gives_none() {
    let links: Vec<Link<u8>> = Vec::new();
    assert!(sort_links(&links).is_empty());
}

fn run<'a>(router: &'a TreeRouter<&'static str>, method: Method, path: &str) -> Matches<'a, &'static str> {
    let mut route = RouteState::from_path(path.as_bytes());
    router.matches(&method, &mut route)
}

#[test]
fn matches_list_every_node_in_search_order() {
    let mut router = TreeRouter::new();
    router.insert(Method::Get, "a/b", "static");
    router.insert(Method::Get, "a/:x", "variable");
    router.insert(Method::Get, "a/*rest", "sequence");
    router.find_hyperlinks = true;

    let found = run(&router, Method::Get, "a/b");
    let mut handlers: Vec<&str> = found
        .matches
        .iter()
        .filter_map(|m| m.item.find(&Method::Get, &m.route).handler.map(|h| *h))
        .collect();
    assert_eq!(handlers[0], "static");
    handlers.dedup();
    assert_eq!(handlers, vec!["static", "variable", "sequence"]);
}

#[test]
fn matches_stop_at_the_first_node_without_hyperlinks() {
    let mut router = TreeRouter::new();
    router.insert(Method::Get, "a/b", "static");
    router.insert(Method::Get, "a/:x", "variable");

    let found = run(&router, Method::Get, "a/b");
    assert_eq!(found.matches.len(), 1);
    assert!(found.hyperlinks.is_empty());
}

#[test]
fn matches_give_sorted_hyperlinks_without_repeats() {
    let mut router = TreeRouter::new();
    router.insert(Method::Get, "a", "get a");
    router.insert(Method::Post, "a", "post a");
    router.insert(Method::Get, "a/z", "z");
    router.insert(Method::Get, "a/b", "b");
    router.insert(Method::Get, "a/:x", "x");
    router.find_hyperlinks = true;

    let found = run(&router, Method::Get, "a");
    assert_eq!(found.matches.len(), 3);
    assert_eq!(
        describe(&found.hyperlinks),
        vec![
            (None, vec![(String::new(), SegmentType::VariableSegment)]),
            (None, vec![("b".to_string(), SegmentType::Static)]),
            (None, vec![("z".to_string(), SegmentType::Static)]),
            (Some("POST".to_string()), vec![]),
        ]
    );
}

#[test]
fn matches_find_nothing_for_unknown_paths() {
    let mut router = TreeRouter::new();
    router.insert(Method::Get, "a", "a");
    router.find_hyperlinks = true;
    let found = run(&router, Method::Get, "b");
    assert!(found.matches.is_empty());
    assert!(found.hyperlinks.is_empty());
}
