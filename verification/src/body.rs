//! Request bodies that arrive in chunks.

use vstd::prelude::*;

verus! {

/// The chunk of a body that a reader reads from: when it is used up, the
/// reader takes the next chunk; reads copy as much of what is left as fits.
pub struct BodyBuffer {
    chunk: Option<Vec<u8>>,
    read_pos: usize,
}

impl BodyBuffer {
    /// What is left of the current chunk, or `None` when the reader has to
    /// take the next one.
    pub closed spec fn rest(&self) -> Option<Seq<u8>> {
        match self.chunk {
            Some(c) => Some(c@.skip(self.read_pos as int)),
            None => None,
        }
    }

    /// The read position is within the chunk.
    pub closed spec fn wf(&self) -> bool {
        match self.chunk {
            Some(c) => self.read_pos <= c@.len(),
            None => true,
        }
    }

    /// A buffer that waits for its first chunk.
    pub fn new() -> (r: BodyBuffer)
        ensures
            r.wf(),
            r.rest() is None,
    {
        BodyBuffer { chunk: None, read_pos: 0 }
    }

    /// Whether the current chunk is used up.
    pub fn needs_chunk(&self) -> (r: bool)
        ensures
            r == self.rest() is None,
    {
        self.chunk.is_none()
    }

    /// Take the next chunk, or `None` when no more will come.
    pub fn take_chunk(&mut self, chunk: Option<Vec<u8>>)
        ensures
            final(self).wf(),
            final(self).rest() == match chunk {
                Some(c) => Some(c@),
                None => None::<Seq<u8>>,
            },
    {
        proof {
            match &chunk {
                Some(c) => {
                    assert(c@.skip(0) =~= c@);
                },
                None => {},
            }
        }
        self.chunk = chunk;
        self.read_pos = 0;
    }

    /// Copy as much of what is left of the chunk as fits to the start of
    /// `out`, and give the number of bytes copied. With the chunk used up
    /// the reader takes the next one; without a chunk nothing is copied.
    pub fn read_into(&mut self, out: &mut [u8]) -> (r: usize)
        requires
            old(self).wf(),
        ensures
            final(self).wf(),
            final(out)@.len() == old(out)@.len(),
            final(out)@.skip(r as int) == old(out)@.skip(r as int),
            match old(self).rest() {
                Some(rest) => {
                    &&& r == if rest.len() < old(out)@.len() { rest.len() } else { old(out)@.len() as nat }
                    &&& final(out)@.take(r as int) == rest.take(r as int)
                    &&& final(self).rest() == if r == rest.len() { None } else { Some(rest.skip(r as int)) }
                },
                None => r == 0 && final(self).rest() is None,
            },
    {
        match &self.chunk {
            Some(src) => {
                let ghost rest = src@.skip(self.read_pos as int);
                let ghost start = out@;
                let left = src.len() - self.read_pos;
                let n = if left < out.len() {
                    left
                } else {
                    out.len()
                };
                let mut i: usize = 0;
                while i < n
                    invariant
                        0 <= i <= n,
                        n <= out@.len(),
                        n <= rest.len(),
                        rest == src@.skip(self.read_pos as int),
                        self.read_pos + n <= src@.len(),
                        src@.len() <= usize::MAX,
                        out@.len() == start.len(),
                        forall|j: int| 0 <= j < i ==> out@[j] == rest[j],
                        forall|j: int| i <= j < out@.len() ==> out@[j] == start[j],
                    decreases n - i,
                {
                    out[i] = src[self.read_pos + i];
                    i = i + 1;
                }
                let used_up = self.read_pos + n == src.len();
                self.read_pos = self.read_pos + n;
                if used_up {
                    self.chunk = None;
                    self.read_pos = 0;
                }
                proof {
                    assert(out@.take(n as int) =~= rest.take(n as int));
                    assert(out@.skip(n as int) =~= start.skip(n as int));
                    if !used_up {
                        assert(src@.skip(self.read_pos as int) =~= rest.skip(n as int));
                    }
                }
                n
            },
            None => {
                proof {
                    assert(out@.skip(0) =~= out@);
                }
                0
            },
        }
    }
}

} // verus!
