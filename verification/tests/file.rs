use rustful::file::{ext_to_mime, file_mime, parse_mime_types, text_lines_of, SubLevel, TopLevel};

const TABLE: &str = "# MIME type\tExtensions\n\
text/html\thtml htm\n\
image/jpeg\t\tjpeg jpg jpe\n\
video/mp4\tmp4 mp4v\n\
application/x-foo\tfoo\n\
a line without a type\n\
text/plain\ttxt\r\n\
image/png\n\
text/x-c\tc\n\
text/x-csrc\tc\n";

#[test]
fn jpg_is_a_jpeg_image() {
    let table = parse_mime_types(TABLE.as_bytes());
    assert_eq!(ext_to_mime(&table, "jpg"), Some((TopLevel::Image, SubLevel::Jpeg)));
    assert_eq!(ext_to_mime(&table, "jpe"), Some((TopLevel::Image, SubLevel::Jpeg)));
    assert_eq!(ext_to_mime(&table, "htm"), Some((TopLevel::Text, SubLevel::Html)));
}

#[test]
fn unknown_names_are_kept() {
    let table = parse_mime_types(TABLE.as_bytes());
    assert_eq!(ext_to_mime(&table, "foo"), Some((TopLevel::Application, SubLevel::Ext(b"x-foo".to_vec()))));
    assert_eq!(ext_to_mime(&table, "mp4"), Some((TopLevel::Video, SubLevel::Ext(b"mp4".to_vec()))));
}

#[test]
fn carriage_returns_end_lines() {
    let table = parse_mime_types(TABLE.as_bytes());
    assert_eq!(ext_to_mime(&table, "txt"), Some((TopLevel::Text, SubLevel::Plain)));
}

#[test]
fn later_lines_win() {
    let table = parse_mime_types(TABLE.as_bytes());
    assert_eq!(ext_to_mime(&table, "c"), Some((TopLevel::Text, SubLevel::Ext(b"x-csrc".to_vec()))));
}

#[test]
fn lines_without_extensions_say_nothing() {
    let table = parse_mime_types(TABLE.as_bytes());
    assert_eq!(ext_to_mime(&table, "png"), None);
    assert_eq!(ext_to_mime(&table, "type"), None);
    assert_eq!(ext_to_mime(&table, "Extensions"), None);
    assert_eq!(ext_to_mime(&table, "unknown"), None);
}

#[test]
fn lines_are_split_as_buf_read_does() {
    let lines = text_lines_of(b"a\r\nb\n\nc\r");
    assert_eq!(lines, vec![b"a".to_vec(), b"b".to_vec(), Vec::new(), b"c\r".to_vec()]);
    assert!(text_lines_of(b"").is_empty());
    assert_eq!(text_lines_of(b"x\n"), vec![b"x".to_vec()]);
}

#[test]
fn files_without_a_known_extension_are_octet_streams() {
    let table = parse_mime_types(TABLE.as_bytes());
    assert_eq!(file_mime(&table, Some("html")), (TopLevel::Text, SubLevel::Html));
    assert_eq!(file_mime(&table, Some("zzz")), (TopLevel::Application, SubLevel::Ext(b"octet-stream".to_vec())));
    assert_eq!(file_mime(&table, None), (TopLevel::Application, SubLevel::Ext(b"octet-stream".to_vec())));
}

#[test]
fn invalid_utf8_lines_are_skipped() {
    let mut text = b"text/html\thtml\n".to_vec();
    text.extend_from_slice(b"image/\xff\tbad\n");
    let table = parse_mime_types(&text);
    assert_eq!(ext_to_mime(&table, "html"), Some((TopLevel::Text, SubLevel::Html)));
    assert_eq!(ext_to_mime(&table, "bad"), None);
}
