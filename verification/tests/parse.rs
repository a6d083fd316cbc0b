use rustful::context::{MaybeUtf8, Parameters};
use rustful::server::instance::{parse_path, parse_url, ParsedUri};
use rustful::utils::parse_parameters;
use url::Url;

fn raw(parameters: &Parameters, key: &str) -> Option<Vec<u8>> {
    parameters.get_raw(key.as_bytes()).map(|v| v.as_bytes().to_vec())
}

fn path_of(uri: &ParsedUri) -> Option<Vec<u8>> {
    uri.uri_path.as_path().map(|p| p.as_bytes().to_vec())
}

fn fragment_of(uri: &ParsedUri) -> Option<Vec<u8>> {
    uri.fragment.as_ref().map(|f: &MaybeUtf8| f.as_bytes().to_vec())
}

fn bytes(s: &str) -> Option<Vec<u8>> {
    Some(s.as_bytes().to_vec())
}

#[test]
fn parsing_parameters() {
    let parameters = parse_parameters(b"a=1&aa=2&ab=202");
    assert_eq!(raw(&parameters, "a"), bytes("1"));
    assert_eq!(raw(&parameters, "aa"), bytes("2"));
    assert_eq!(raw(&parameters, "ab"), bytes("202"));
}

#[test]
fn parsing_parameters_with_plus() {
    let parameters = parse_parameters(b"a=1&aa=2+%2B+extra+meat&ab=202+fifth+avenue");
    assert_eq!(raw(&parameters, "a"), bytes("1"));
    assert_eq!(raw(&parameters, "aa"), bytes("2 + extra meat"));
    assert_eq!(raw(&parameters, "ab"), bytes("202 fifth avenue"));
}

#[test]
fn parsing_strange_parameters() {
    let parameters = parse_parameters(b"a=1=2&=2&ab=");
    assert_eq!(raw(&parameters, "a"), bytes("1"));
    assert_eq!(raw(&parameters, ""), bytes("2"));
    assert_eq!(raw(&parameters, "ab"), bytes(""));
}

fn check_path_parts(uri: ParsedUri) {
    assert_eq!(path_of(&uri), bytes("/path/to/something"));
    assert_eq!(raw(&uri.query, "with"), bytes("this"));
    assert_eq!(raw(&uri.query, "and"), bytes("that"));
    assert_eq!(fragment_of(&uri), bytes("lol"));
}

fn check_strange(uri: ParsedUri) {
    assert_eq!(path_of(&uri), bytes("/path/to/something"));
    assert_eq!(raw(&uri.query, "with"), bytes("this"));
    assert_eq!(raw(&uri.query, "and"), bytes("what?"));
    assert_eq!(fragment_of(&uri), bytes(""));
}

fn check_missing(first: ParsedUri, second: ParsedUri, third: ParsedUri) {
    assert_eq!(path_of(&first), bytes("/path/to/something"));
    assert_eq!(raw(&first.query, "with"), bytes("this"));
    assert_eq!(raw(&first.query, "and"), bytes("that"));
    assert_eq!(fragment_of(&first), None);

    assert_eq!(path_of(&second), bytes("/path/to/something"));
    assert_eq!(second.query.len(), 0);
    assert_eq!(fragment_of(&second), bytes("lol"));

    assert_eq!(path_of(&third), bytes("/"));
    assert_eq!(raw(&third.query, "with"), bytes("this"));
    assert_eq!(raw(&third.query, "and"), bytes("that"));
    assert_eq!(fragment_of(&third), bytes("lol"));
}

fn url(s: &str) -> ParsedUri {
    parse_url(&Url::parse(s).unwrap())
}

#[test]
fn instance_parse_path_parts() {
    check_path_parts(parse_path("/path/to/something?with=this&and=that#lol"));
}

#[test]
fn instance_parse_strange_path() {
    check_strange(parse_path("/path/to/something?with=this&and=what?#"));
}

#[test]
fn instance_parse_missing_path_parts() {
    check_missing(
        parse_path("/path/to/something?with=this&and=that"),
        parse_path("/path/to/something#lol"),
        parse_path("?with=this&and=that#lol"),
    );
}

#[test]
fn instance_parse_url_parts() {
    check_path_parts(url("http://example.com/path/to/something?with=this&and=that#lol"));
}

#[test]
fn instance_parse_strange_url() {
    check_strange(url("http://example.com/path/to/something?with=this&and=what?#"));
}

#[test]
fn instance_parse_missing_url_parts() {
    check_missing(
        url("http://example.com/path/to/something?with=this&and=that"),
        url("http://example.com/path/to/something#lol"),
        url("http://example.com?with=this&and=that#lol"),
    );
}

#[test]
fn server_parse_path_parts() {
    check_path_parts(parse_path("/path/to/something?with=this&and=that#lol"));
}

#[test]
fn server_parse_strange_path() {
    check_strange(parse_path("/path/to/something?with=this&and=what?#"));
}

#[test]
fn server_parse_missing_path_parts() {
    check_missing(
        parse_path("/path/to/something?with=this&and=that"),
        parse_path("/path/to/something#lol"),
        parse_path("?with=this&and=that#lol"),
    );
}

#[test]
fn server_parse_url_parts() {
    check_path_parts(url("http://example.com/path/to/something?with=this&and=that#lol"));
}

#[test]
fn server_parse_strange_url() {
    check_strange(url("http://example.com/path/to/something?with=this&and=what?#"));
}

#[test]
fn server_parse_missing_url_parts() {
    check_missing(
        url("http://example.com/path/to/something?with=this&and=that"),
        url("http://example.com/path/to/something#lol"),
        url("http://example.com?with=this&and=that#lol"),
    );
}

#[test]
fn url_host_port_and_fragment_are_kept_apart() {
    let uri = url("http://host.example:8080/a%20b?x=1&x=2#frag%21");
    assert_eq!(uri.host, Some(("host.example".to_string(), Some(8080))));
    assert_eq!(path_of(&uri), bytes("/a b"));
    assert_eq!(raw(&uri.query, "x"), bytes("2"));
    assert_eq!(fragment_of(&uri), bytes("frag!"));
    let plain = url("http://other.example/");
    assert_eq!(plain.host, Some(("other.example".to_string(), None)));
    assert!(plain.fragment.is_none());
}
