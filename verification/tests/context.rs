use rustful::context::hypermedia::SegmentType;
use rustful::context::{MaybeUtf8, Parameters, UriPath};
use rustful::file_loader::FileLoader;
use rustful::filter;
use rustful::handler::OrElse;
use rustful::method::Method;
use rustful::plugin;
use rustful::response::Data;
use rustful::router::{segments, InsertState, Route, RouteState};
use rustful::server::instance::{parse_fragment, parse_path, parse_url_parts, UrlParts};
use rustful::utils::{parse_parameters, BytesExt};

fn m(s: &str) -> MaybeUtf8 {
    MaybeUtf8::from_str(s)
}

#[test]
fn maybe_utf8_from_bytes_checks_encoding() {
    let valid = MaybeUtf8::from_bytes(b"abc".to_vec());
    assert!(valid.is_utf8());
    assert_eq!(valid.as_utf8(), Some("abc"));
    let invalid = MaybeUtf8::from_bytes(vec![255]);
    assert!(!invalid.is_utf8());
    assert_eq!(invalid.as_utf8(), None);
    assert_eq!(invalid.as_bytes(), &[255]);
    assert_eq!(invalid.as_utf8_lossy(), "\u{FFFD}");
}

#[test]
fn maybe_utf8_push_reevaluates() {
    let mut string = m("abc");
    string.push_byte(255);
    assert!(!string.is_utf8());
    string.push_str("def");
    assert!(!string.is_utf8());
    assert_eq!(string.as_bytes(), &[97, 98, 99, 255, 100, 101, 102]);

    let mut string = m("abc");
    string.push_bytes(&[100, 101, 102]);
    assert_eq!(string.as_utf8(), Some("abcdef"));

    let mut string = MaybeUtf8::from_bytes(vec![0xC3]);
    assert!(!string.is_utf8());
    string.push_byte(0xA5);
    assert_eq!(string.as_utf8(), Some("å"));
}

#[test]
fn maybe_utf8_push_char() {
    let mut string = m("abc");
    string.push_char('d');
    assert_eq!(string.as_utf8(), Some("abcd"));
    let mut string = MaybeUtf8::new();
    string.push_char('å');
    string.push_char('1');
    string.push_char('€');
    string.push_char('😀');
    assert_eq!(string.as_utf8(), Some("å1€😀"));
    assert_eq!(string.as_bytes().len(), 2 + 1 + 3 + 4);
}

#[test]
fn maybe_utf8_buffer() {
    let mut string = MaybeUtf8::new();
    {
        let mut buffer = string.as_buffer();
        buffer.push_bytes("abc".as_bytes());
        buffer.push_char('å');
    }
    assert!(string.is_utf8());
    assert_eq!(string.as_utf8(), Some("abcå"));
}

#[test]
fn maybe_utf8_slices() {
    let owned = m("abc");
    let slice = owned.as_slice();
    assert!(slice.is_utf8());
    assert_eq!(slice.as_bytes(), b"abc");
    assert_eq!(slice.as_utf8(), Some("abc"));
    let other = MaybeUtf8::from_slice(&[1, 255]);
    assert_eq!(other.as_slice().as_utf8(), None);
}

#[test]
fn parameters_behave_as_a_map() {
    let mut p = Parameters::new();
    assert!(p.is_empty());
    assert!(p.insert(m("a"), m("1")).is_none());
    assert!(p.insert(m("b"), m("2")).is_none());
    let old = p.insert(m("a"), m("3"));
    assert_eq!(old.map(|v| v.as_bytes().to_vec()), Some(b"1".to_vec()));
    assert_eq!(p.len(), 2);
    assert_eq!(p.get(b"a"), Some("3".to_string()));
    assert!(p.contains_key(b"b"));
    if let Some(value) = p.get_mut(b"b") {
        value.push_str("2");
    }
    assert_eq!(p.get(b"b"), Some("22".to_string()));
    assert!(p.get_mut(b"c").is_none());
    let removed = p.remove(b"b");
    assert_eq!(removed.map(|v| v.as_bytes().to_vec()), Some(b"22".to_vec()));
    assert!(!p.contains_key(b"b"));
    assert_eq!(p.len(), 1);
    assert!(p.remove(b"b").is_none());
}

#[test]
fn query_parameters_edge_cases() {
    let p = parse_parameters(b"a=1&a=2");
    assert_eq!(p.get(b"a"), Some("2".to_string()));
    assert_eq!(p.len(), 1);
    let p = parse_parameters(b"a=1&&b");
    assert_eq!(p.get(b""), Some(String::new()));
    assert_eq!(p.get(b"b"), Some(String::new()));
    assert_eq!(p.len(), 3);
    let p = parse_parameters(b"");
    assert_eq!(p.len(), 1);
    assert_eq!(p.get(b""), Some(String::new()));
}

#[test]
fn percent_decoding_edge_cases() {
    let p = parse_parameters(b"x=%41%62%2b&y=%4&z=%zz&w=%&v=%C3%A5&u=%ff");
    assert_eq!(p.get(b"x"), Some("Ab+".to_string()));
    assert_eq!(p.get(b"y"), Some("%4".to_string()));
    assert_eq!(p.get(b"z"), Some("%zz".to_string()));
    assert_eq!(p.get(b"w"), Some("%".to_string()));
    assert_eq!(p.get(b"v"), Some("å".to_string()));
    assert_eq!(p.get_raw(b"u").map(|v| v.is_utf8()), Some(false));
    assert_eq!(p.get_raw(b"u").map(|v| v.as_bytes().to_vec()), Some(vec![255]));
}

#[test]
fn uri_path_accessors() {
    let path = UriPath::Path(m("/a/b"));
    assert!(path.is_path());
    assert!(!path.is_asterisk());
    assert_eq!(path.as_utf8_path(), Some("/a/b"));
    assert_eq!(path.as_utf8_path_lossy(), Some("/a/b".to_string()));
    assert_eq!(path.as_path().map(|p| p.as_bytes().to_vec()), Some(b"/a/b".to_vec()));
    assert_eq!(path.to_string(), "/a/b");
    let star = UriPath::Asterisk;
    assert!(star.is_asterisk());
    assert!(star.as_path().is_none());
    assert!(star.as_utf8_path().is_none());
    assert!(star.as_utf8_path_lossy().is_none());
    assert_eq!(star.to_string(), "*");
    let raw = UriPath::Path(MaybeUtf8::from_bytes(vec![47, 255]));
    assert!(raw.as_utf8_path().is_none());
    assert_eq!(raw.as_utf8_path_lossy(), Some("/\u{FFFD}".to_string()));
}

#[test]
fn path_parsing_edge_cases() {
    let uri = parse_path("");
    assert_eq!(uri.uri_path.as_path().map(|p| p.as_bytes().to_vec()), Some(b"/".to_vec()));
    assert_eq!(uri.query.len(), 0);
    assert!(uri.fragment.is_none());
    let uri = parse_path("/a%20b?x=%41#f%41#g");
    assert_eq!(uri.uri_path.as_utf8_path(), Some("/a b"));
    assert_eq!(uri.query.get(b"x"), Some("A".to_string()));
    assert_eq!(uri.fragment.as_ref().map(|f| f.as_bytes().to_vec()), Some(b"fA#g".to_vec()));
    let (before, after) = parse_fragment(b"a#b#c");
    assert_eq!(before, b"a");
    assert_eq!(after, Some(&b"b#c"[..]));
    assert_eq!(parse_fragment(b"abc"), (&b"abc"[..], None));
}

#[test]
fn url_parts_are_put_together() {
    let uri = parse_url_parts(UrlParts {
        path: "/a%2Fb".to_string(),
        query_pairs: vec![("k".to_string(), "1".to_string()), ("k".to_string(), "2".to_string())],
        host: Some("example.com".to_string()),
        port: Some(8080),
        fragment: Some("x%20y".to_string()),
    });
    assert_eq!(uri.uri_path.as_utf8_path(), Some("/a/b"));
    assert_eq!(uri.query.get(b"k"), Some("2".to_string()));
    assert_eq!(uri.host, Some(("example.com".to_string(), Some(8080))));
    assert_eq!(uri.fragment.as_ref().map(|f| f.as_bytes().to_vec()), Some(b"x y".to_vec()));
}

#[test]
fn data_conversions() {
    let data = Data::from(vec![104, 105]);
    assert_eq!(data.as_bytes(), b"hi");
    assert_eq!(data.as_string().ok(), Some("hi"));
    assert_eq!(data.into_string().ok(), Some("hi".to_string()));
    let data = Data::from("text");
    assert_eq!(data.as_bytes(), b"text");
    assert_eq!(data.into_bytes(), b"text".to_vec());
    let bad = Data::from(&[255u8][..]);
    assert!(bad.as_string().is_err());
    assert!(bad.into_string().is_err());
    let owned = Data::from("owned".to_string());
    assert_eq!(owned.into_bytes(), b"owned".to_vec());
}

#[test]
fn response_actions() {
    match filter::ResponseAction::next(Some("x")) {
        filter::ResponseAction::Next(Some(data)) => assert_eq!(data.as_bytes(), b"x"),
        _ => panic!("expected data"),
    }
    assert!(matches!(filter::ResponseAction::next::<Data>(None), filter::ResponseAction::Next(None)));
    assert!(matches!(filter::ResponseAction::silent_abort(), filter::ResponseAction::SilentAbort));
    match filter::ResponseAction::abort("oops".to_string()) {
        filter::ResponseAction::Abort(message) => assert_eq!(message, "oops"),
        _ => panic!("expected an abort"),
    }
    match plugin::ResponseAction::write(Some(vec![1u8])) {
        plugin::ResponseAction::Write(Some(data)) => assert_eq!(data.as_bytes(), &[1]),
        _ => panic!("expected data"),
    }
    assert!(matches!(plugin::ResponseAction::do_nothing(), plugin::ResponseAction::DoNothing));
    match plugin::ResponseAction::error("bad".to_string()) {
        plugin::ResponseAction::Error(message) => assert_eq!(message, "bad"),
        _ => panic!("expected an error"),
    }
}

#[test]
fn or_else_constructors() {
    let both = OrElse::new(1u8, "b");
    assert_eq!((both.primary, both.secondary), (1, "b"));
    let primary: OrElse<u8, String> = OrElse::with_primary(7);
    assert_eq!((primary.primary, primary.secondary), (7, String::new()));
    let secondary: OrElse<u32, &str> = OrElse::with_secondary("s");
    assert_eq!((secondary.primary, secondary.secondary), (0, "s"));
}

#[test]
fn file_loader_chunks_are_a_megabyte() {
    assert_eq!(FileLoader::new().chunk_size, 1048576);
}

#[test]
fn route_segments_strip_slashes() {
    let expected: Vec<Vec<u8>> = vec![b"path".to_vec(), b"to".to_vec(), b"somewhere".to_vec()];
    assert_eq!(segments(b"/path/to/somewhere/"), expected);
    assert_eq!("/path/to/somewhere/".segments(), expected);
    assert_eq!(b"/"[..].segments(), Vec::<Vec<u8>>::new());
    assert_eq!(segments(b""), Vec::<Vec<u8>>::new());
    assert_eq!(segments(b"//a"), vec![b"".to_vec(), b"a".to_vec()]);
}

#[test]
fn insert_state_records_variable_labels() {
    let mut state = InsertState::from_route(b"a/:x/*y/b");
    let mut seen = Vec::new();
    while let Some(segment) = state.next() {
        seen.push(segment);
    }
    assert!(state.is_empty());
    assert_eq!(seen.len(), 4);
    let names: Vec<Vec<u8>> = state.variables().iter().map(|n| n.as_bytes().to_vec()).collect();
    assert_eq!(names, vec![b"x".to_vec(), b"y".to_vec()]);
}

#[test]
fn route_state_saves_variables() {
    let mut route = RouteState::from_path(b"a/b/c/d");
    assert_eq!(route.get(), Some(&b"a"[..]));
    route.skip();
    let snapshot = route.snapshot();
    route.keep();
    route.fuse();
    route.keep();
    assert!(route.is_empty());
    assert_eq!(route.get(), None);
    let names = vec![m("x"), m("y")];
    let variables = route.variables(&names);
    assert_eq!(variables.get(b"x"), Some("b".to_string()));
    assert_eq!(variables.get(b"y"), Some("c/d".to_string()));
    route.go_to(snapshot);
    assert_eq!(route.get(), Some(&b"b"[..]));
}

#[test]
fn methods_compare() {
    assert!(Method::Get.same_as(&Method::Get));
    assert!(!Method::Get.same_as(&Method::Post));
    assert!(Method::Extension("X".to_string()).same_as(&Method::Extension("X".to_string())));
    assert!(!Method::Extension("X".to_string()).same_as(&Method::Extension("Y".to_string())));
    assert!(Method::Patch.duplicate().same_as(&Method::Patch));
}

#[test]
fn bytes_ext_appends() {
    let mut v = vec![1u8];
    v.push_bytes(&[2, 3]);
    assert_eq!(v, vec![1, 2, 3]);
    assert_eq!(SegmentType::Static, SegmentType::Static);
}

#[test]
fn lossy_text_replaces_invalid_sequences() {
    let bytes = MaybeUtf8::from_bytes(vec![b'a', 0xff, b'b']);
    assert!(!bytes.is_utf8());
    assert_eq!(bytes.as_utf8_lossy(), "a\u{FFFD}b");
    let mut params = Parameters::new();
    params.insert(MaybeUtf8::from_str("k"), MaybeUtf8::from_bytes(vec![0xc3, b'x']));
    assert_eq!(params.get(b"k"), Some("\u{FFFD}x".to_string()));
    let path = UriPath::Path(MaybeUtf8::from_bytes(vec![b'/', 0xfe]));
    assert_eq!(path.to_string(), "/\u{FFFD}");
}

#[test]
fn or_else_hands_over_what_the_primary_gives_back() {
    let handler = OrElse::new(10u32, 100u32);
    let primary = |limit: &u32, request: u32| if request < *limit { Ok(request) } else { Err(request) };
    let secondary = |offset: &u32, request: u32| -> Result<u32, u32> { Ok(request + *offset) };
    assert_eq!(handler.handle(3, primary, secondary), Ok(3));
    assert_eq!(handler.handle(20, primary, secondary), Ok(120));
    let refuse = |_: &u32, request: u32| -> Result<u32, u32> { Err(request + 1) };
    assert_eq!(handler.handle(20, primary, refuse), Err(21));
}

#[test]
fn or_else_lists_primary_links_first() {
    let links = OrElse::<u8, u8>::hyperlinks(vec!["a", "b"], vec!["c"]);
    assert_eq!(links, vec!["a", "b", "c"]);
}

#[test]
fn several_routes_give_their_segments_in_turn() {
    let path = ["/path", "to/somewhere/", "/", "/else/"];
    let all = path[..].segments();
    assert_eq!(all, vec![b"path".to_vec(), b"to".to_vec(), b"somewhere".to_vec(), b"else".to_vec()]);
    let none: [&str; 0] = [];
    assert!(none[..].segments().is_empty());
}
