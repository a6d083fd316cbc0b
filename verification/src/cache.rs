//! When cached files are loaded again and when they are freed.

use vstd::prelude::*;

verus! {

/// A point in time, in seconds and nanoseconds.
#[derive(Clone, Copy, PartialEq, Eq, Debug)]
pub struct Timestamp {
    /// Whole seconds.
    pub sec: i64,
    /// Nanoseconds within the second.
    pub nsec: i32,
}

/// Points in time are ordered by seconds, then by nanoseconds.
pub open spec fn time_lt(a: Timestamp, b: Timestamp) -> bool {
    a.sec < b.sec || (a.sec == b.sec && a.nsec < b.nsec)
}

/// Whether a cached file has to be loaded again: it has when it is not
/// loaded; a loaded file has when the file was modified after the loaded
/// copy, and, when its modification time cannot be read, as
/// `when_unknown` says.
pub fn file_expired(loaded: bool, modified_now: Option<u64>, modified_loaded: u64, when_unknown: bool) -> (r: bool)
    ensures
        r == if !loaded {
            true
        } else {
            match modified_now {
                Some(m) => m > modified_loaded,
                None => when_unknown,
            }
        },
{
    if loaded {
        match modified_now {
            Some(m) => m > modified_loaded,
            None => when_unknown,
        }
    } else {
        true
    }
}

/// Whether a loaded cached file is unused and can be freed: it is when it
/// is loaded, it is freed after `unused_after` seconds, and that long after
/// its last access has passed.
pub fn file_unused(loaded: bool, unused_after: Option<i64>, last_accessed: Timestamp, now: Timestamp) -> (r: bool)
    requires
        loaded && unused_after is Some ==> i64::MIN <= last_accessed.sec + unused_after->0 <= i64::MAX,
    ensures
        r == (loaded && match unused_after {
            Some(t) => time_lt(Timestamp { sec: (last_accessed.sec + t) as i64, nsec: last_accessed.nsec }, now),
            None => false,
        }),
{
    if !loaded {
        return false;
    }
    match unused_after {
        Some(t) => {
            let limit = Timestamp { sec: last_accessed.sec + t, nsec: last_accessed.nsec };
            limit.sec < now.sec || (limit.sec == now.sec && limit.nsec < now.nsec)
        },
        None => false,
    }
}

} // verus!
