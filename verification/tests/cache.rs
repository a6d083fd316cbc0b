use rustful::cache::{file_expired, file_unused, Timestamp};

fn at(sec: i64, nsec: i32) -> Timestamp {
    Timestamp { sec, nsec }
}

#[test]
fn files_not_loaded_have_expired() {
    assert!(file_expired(false, Some(1), 5, false));
    assert!(file_expired(true, Some(6), 5, false));
    assert!(!file_expired(true, Some(5), 5, true));
    assert!(!file_expired(true, None, 5, false));
    assert!(file_expired(true, None, 5, true));
}

#[test]
fn files_are_unused_after_their_time() {
    assert!(!file_unused(false, Some(10), at(0, 0), at(100, 0)));
    assert!(!file_unused(true, None, at(0, 0), at(100, 0)));
    assert!(!file_unused(true, Some(10), at(5, 7), at(15, 7)));
    assert!(file_unused(true, Some(10), at(5, 7), at(15, 8)));
    assert!(file_unused(true, Some(10), at(5, 7), at(16, 0)));
    assert!(!file_unused(true, Some(10), at(5, 7), at(14, 999)));
}
