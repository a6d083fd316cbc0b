//! Settings for sending files in chunks.

use vstd::prelude::*;

verus! {

/// Sends files in chunks of a given size.
pub struct FileLoader {
    /// The size, in bytes, of the file chunks. Default is 1048576 (1
    /// megabyte).
    pub chunk_size: usize,
}

impl FileLoader {
    /// Create a `FileLoader` with chunks of one megabyte.
    pub fn new() -> (r: FileLoader)
        ensures
            r.chunk_size == 1048576,
    {
        FileLoader { chunk_size: 1048576 }
    }
}

} // verus!
