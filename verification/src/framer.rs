//! Line framing: buffer successive partial reads from the byte stream and
//! hand out each complete line (terminated by a newline byte) exactly once.
//! The buffer grows as needed but is explicitly bounded: a line that outgrows
//! the capacity is reported instead of silently truncated.

use vstd::prelude::*;
use vstd::slice::slice_index_get;

use crate::error::KbError;

verus! {

/// Longest line (in bytes, terminator excluded) the framer accepts before it
/// reports the stream as unframeable.
pub const LINE_LIMIT: usize = 8192;

/// Byte 10 (the newline terminator) occurs at position `i` of `b` and
/// nowhere earlier.
pub open spec fn nl_first_at(b: Seq<u8>, i: int) -> bool {
    &&& 0 <= i < b.len()
    &&& b[i] == 10u8
    &&& forall|j: int| 0 <= j < i ==> b[j] != 10u8
}

/// Some byte of `b` is a newline.
pub open spec fn has_nl(b: Seq<u8>) -> bool {
    exists|i: int| 0 <= i < b.len() && b[i] == 10u8
}

pub proof fn lemma_nl_first_at_unique(b: Seq<u8>, i: int, j: int)
    requires
        nl_first_at(b, i),
        nl_first_at(b, j),
    ensures
        i == j,
{
    if i < j {
        assert(b[i] != 10u8);
    }
    if j < i {
        assert(b[j] != 10u8);
    }
}

/// Position of the first newline byte of the buffer, if any: the framing
/// scan of the read loop.
pub fn newline_idx(arr: &[u8]) -> (r: Option<usize>)
    ensures
        match r {
            Some(i) => nl_first_at(arr@, i as int),
            None => !has_nl(arr@),
        },
{
    let n = arr.len();
    let mut i: usize = 0;
    while i < n
        invariant
            n == arr@.len(),
            0 <= i <= n,
            forall|j: int| 0 <= j < i ==> arr@[j] != 10u8,
        decreases n - i,
    {
        if *slice_index_get(arr, i) == 10u8 {
            return Some(i);
        }
        i = i + 1;
    }
    None
}

/// Buffers bytes handed over by successive reads; each complete line comes
/// out exactly once, however the reads were chunked.
pub struct LineFramer {
    buf: Vec<u8>,
}

impl View for LineFramer {
    type V = Seq<u8>;

    closed spec fn view(&self) -> Seq<u8> {
        self.buf@
    }
}

impl LineFramer {
    /// A framer with nothing buffered.
    pub fn new() -> (r: LineFramer)
        ensures
            r@ == Seq::<u8>::empty(),
    {
        LineFramer { buf: Vec::new() }
    }

    /// Append one chunk, exactly as it came from the transport.
    pub fn push_bytes(&mut self, chunk: &[u8])
        ensures
            final(self)@ == old(self)@ + chunk@,
    {
        let n = chunk.len();
        let mut i: usize = 0;
        while i < n
            invariant
                n == chunk@.len(),
                0 <= i <= n,
                self.buf@ == old(self).buf@ + chunk@.subrange(0, i as int),
            decreases n - i,
        {
            self.buf.push(*slice_index_get(chunk, i));
            proof {
                assert(old(self).buf@ + chunk@.subrange(0, i + 1) =~= (old(self).buf@
                    + chunk@.subrange(0, i as int)).push(chunk@[i as int]));
            }
            i = i + 1;
        }
        proof {
            assert(old(self).buf@ + chunk@.subrange(0, n as int) =~= old(self).buf@ + chunk@);
        }
    }

    /// Extract the first complete line: its bytes without the terminator,
    /// which is consumed with it. With no newline buffered, `Ok(None)` asks
    /// the caller to feed more bytes while the buffer is still within the
    /// line capacity; past the capacity the stream is reported unframeable.
    pub fn next_line(&mut self) -> (r: Result<Option<Vec<u8>>, KbError>)
        ensures
            match r {
                Ok(Some(line)) => exists|i: int|
                    nl_first_at(old(self)@, i) && line@ == old(self)@.subrange(0, i) && final(self)@
                        == old(self)@.subrange(i + 1, old(self)@.len() as int),
                Ok(None) => !has_nl(old(self)@) && old(self)@.len() <= LINE_LIMIT && final(self)@
                    == old(self)@,
                Err(e) => !has_nl(old(self)@) && old(self)@.len() > LINE_LIMIT && final(self)@
                    == old(self)@ && (e matches KbError::LineTooLong),
            },
    {
        match newline_idx(self.buf.as_slice()) {
            Some(i) => {
                let n = self.buf.len();
                let mut line: Vec<u8> = Vec::new();
                let mut j: usize = 0;
                while j < i
                    invariant
                        i < n,
                        n == self.buf@.len(),
                        self.buf@ == old(self)@,
                        0 <= j <= i,
                        line@ == self.buf@.subrange(0, j as int),
                    decreases i - j,
                {
                    let b = self.buf[j];
                    line.push(b);
                    proof {
                        assert(self.buf@.subrange(0, j + 1) =~= self.buf@.subrange(
                            0,
                            j as int,
                        ).push(self.buf@[j as int]));
                    }
                    j = j + 1;
                }
                let mut rest: Vec<u8> = Vec::new();
                let mut j2: usize = i + 1;
                while j2 < n
                    invariant
                        i < n,
                        n == self.buf@.len(),
                        self.buf@ == old(self)@,
                        i + 1 <= j2 <= n,
                        rest@ == self.buf@.subrange(i + 1, j2 as int),
                    decreases n - j2,
                {
                    let b = self.buf[j2];
                    rest.push(b);
                    proof {
                        assert(self.buf@.subrange(i + 1, j2 + 1) =~= self.buf@.subrange(
                            i + 1,
                            j2 as int,
                        ).push(self.buf@[j2 as int]));
                    }
                    j2 = j2 + 1;
                }
                self.buf = rest;
                Ok(Some(line))
            },
            None => {
                if self.buf.len() > LINE_LIMIT {
                    Err(KbError::LineTooLong)
                } else {
                    Ok(None)
                }
            },
        }
    }
}

/// The buffered bytes after feeding `chunks` in order, starting from `b`.
pub open spec fn feed_all(b: Seq<u8>, chunks: Seq<Seq<u8>>) -> Seq<u8>
    decreases chunks.len(),
{
    if chunks.len() == 0 {
        b
    } else {
        feed_all(b + chunks[0], chunks.skip(1))
    }
}

/// Feeding chunks one at a time buffers exactly their concatenation: the
/// framer's state depends on the bytes alone, not on where the reads were
/// cut.
pub proof fn lemma_feed_all_flatten(b: Seq<u8>, chunks: Seq<Seq<u8>>)
    ensures
        feed_all(b, chunks) == b + chunks.flatten(),
    decreases chunks.len(),
{
    if chunks.len() == 0 {
        assert(feed_all(b, chunks) =~= b + chunks.flatten());
    } else {
        lemma_feed_all_flatten(b + chunks[0], chunks.skip(1));
        assert(chunks.skip(1) =~= chunks.drop_first());
        assert(feed_all(b, chunks) =~= b + chunks.flatten());
    }
}

/// Two chunkings of the same byte stream leave the framer with the same
/// buffered bytes, so the very same lines come out of it.
pub proof fn lemma_chunking_independent(b: Seq<u8>, cs1: Seq<Seq<u8>>, cs2: Seq<Seq<u8>>)
    requires
        cs1.flatten() == cs2.flatten(),
    ensures
        feed_all(b, cs1) == feed_all(b, cs2),
{
    lemma_feed_all_flatten(b, cs1);
    lemma_feed_all_flatten(b, cs2);
}

} // verus!
