use rustful::body::BodyBuffer;

#[test]
fn body_buffer_reads_a_chunk_in_parts() {
    let mut buffer = BodyBuffer::new();
    assert!(buffer.needs_chunk());
    buffer.take_chunk(Some(b"hello".to_vec()));
    assert!(!buffer.needs_chunk());
    let mut out = [0u8; 3];
    assert_eq!(buffer.read_into(&mut out), 3);
    assert_eq!(&out, b"hel");
    assert!(!buffer.needs_chunk());
    let mut out = [9u8; 4];
    assert_eq!(buffer.read_into(&mut out), 2);
    assert_eq!(&out, &[b'l', b'o', 9, 9]);
    assert!(buffer.needs_chunk());
}

#[test]
fn body_buffer_without_a_chunk_reads_nothing() {
    let mut buffer = BodyBuffer::new();
    buffer.take_chunk(None);
    let mut out = [7u8; 2];
    assert_eq!(buffer.read_into(&mut out), 0);
    assert_eq!(out, [7, 7]);
    assert!(buffer.needs_chunk());
}

#[test]
fn body_buffer_empty_chunk_ends_the_body() {
    let mut buffer = BodyBuffer::new();
    buffer.take_chunk(Some(Vec::new()));
    let mut out = [0u8; 2];
    assert_eq!(buffer.read_into(&mut out), 0);
    assert!(buffer.needs_chunk());
}
