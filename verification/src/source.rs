//! The capability a registered source must offer — sequential read plus
//! random-access seek — together with the error such an operation may raise
//! and an in-memory source implementing the capability.

use vstd::math::min;
use vstd::prelude::*;

verus! {

/// Failure of an underlying source operation. The source implementation
/// chooses the kind; the stream re-surfaces the error unchanged — never
/// wrapped, reinterpreted or retried — so the kind the source raised is the
/// kind the caller sees.
#[derive(Clone, Copy, Debug, PartialEq, Eq, Structural)]
pub struct StreamError {
    /// The kind of the failure, as the failing source reported it.
    pub kind: u64,
}

/// Where a seek starts from: the stream's start, its end, or the current
/// position.
#[derive(Clone, Copy, Debug)]
pub enum SeekFrom {
    /// An absolute offset from the start of the stream.
    Start(u64),
    /// A signed offset from the end of the stream.
    End(i64),
    /// A signed offset from the current position.
    Current(i64),
}

/// A random-access byte source: an owned resource with fixed contents and its
/// own cursor, supporting sequential read and absolute seek. The contents are
/// discoverable once by seeking to the end.
pub trait Source: Sized {
    /// The full contents of the source.
    spec fn data(&self) -> Seq<u8>;

    /// The source's own cursor position.
    spec fn offset(&self) -> int;

    /// Validity of the source's internal state.
    spec fn inv(&self) -> bool;

    /// Place the cursor `off` bytes from the start of the source.
    fn seek_from_start(&mut self, off: u64) -> (r: Result<u64, StreamError>)
        requires
            old(self).inv(),
            off <= old(self).data().len(),
        ensures
            final(self).inv(),
            final(self).data() == old(self).data(),
            match r {
                Ok(p) => p == off && final(self).offset() == off,
                Err(_) => final(self).offset() == old(self).offset(),
            },
    ;

    /// Place the cursor at the end of the source and report how many bytes
    /// the source holds.
    fn seek_from_end(&mut self) -> (r: Result<u64, StreamError>)
        requires
            old(self).inv(),
        ensures
            final(self).inv(),
            final(self).data() == old(self).data(),
            match r {
                Ok(l) => l == old(self).data().len() && final(self).offset() == l,
                Err(_) => final(self).offset() == old(self).offset(),
            },
    ;

    /// Fill `buf[from..]` with bytes taken at the cursor, stopping at the end
    /// of the buffer or of the source, and advance the cursor by the count
    /// produced.
    fn read_into(&mut self, buf: &mut Vec<u8>, from: usize) -> (r: Result<usize, StreamError>)
        requires
            old(self).inv(),
            0 <= old(self).offset() <= old(self).data().len(),
            from <= old(buf).len(),
        ensures
            final(self).inv(),
            final(self).data() == old(self).data(),
            final(buf).len() == old(buf).len(),
            match r {
                Ok(k) => {
                    &&& k == min(
                        old(buf)@.len() - from,
                        old(self).data().len() - old(self).offset(),
                    )
                    &&& final(self).offset() == old(self).offset() + k
                    &&& (forall|i: int|
                        from <= i < from + k ==> final(buf)@[i] == old(self).data()[old(
                            self,
                        ).offset() + i - from])
                    &&& (forall|i: int|
                        0 <= i < from || from + k <= i < old(buf)@.len() ==> final(buf)@[i] == old(
                            buf,
                        )@[i])
                },
                Err(_) => final(self).offset() == old(self).offset() && final(buf)@ == old(buf)@,
            },
    ;
}

/// An in-memory source: a vector of bytes with a cursor. Its operations
/// never fail.
pub struct BytesReader {
    data: Vec<u8>,
    offset: usize,
}

impl BytesReader {
    /// A source holding `data`, with its cursor at the start.
    pub fn new(data: Vec<u8>) -> (r: BytesReader)
        ensures
            r.inv(),
            r.data() == data@,
            r.offset() == 0,
    {
        BytesReader { data, offset: 0 }
    }
}

impl Source for BytesReader {
    closed spec fn data(&self) -> Seq<u8> {
        self.data@
    }

    closed spec fn offset(&self) -> int {
        self.offset as int
    }

    closed spec fn inv(&self) -> bool {
        self.offset <= self.data.len()
    }

    fn seek_from_start(&mut self, off: u64) -> (r: Result<u64, StreamError>)
        ensures
            r is Ok,
    {
        self.offset = off as usize;
        Ok(off)
    }

    fn seek_from_end(&mut self) -> (r: Result<u64, StreamError>)
        ensures
            r is Ok,
    {
        self.offset = self.data.len();
        Ok(self.data.len() as u64)
    }

    fn read_into(&mut self, buf: &mut Vec<u8>, from: usize) -> (r: Result<usize, StreamError>)
        ensures
            r is Ok,
    {
        let avail = self.data.len() - self.offset;
        let want = buf.len() - from;
        let k = if want < avail {
            want
        } else {
            avail
        };
        let mut i: usize = 0;
        while i < k
            invariant
                i <= k,
                self == old(self),
                k <= buf.len() - from,
                k <= self.data.len() - self.offset,
                buf.len() == old(buf).len(),
                forall|j: int|
                    from <= j < from + i ==> buf@[j] == self.data@[self.offset + j - from],
                forall|j: int|
                    0 <= j < from || from + i <= j < buf@.len() ==> buf@[j] == old(buf)@[j],
            decreases k - i,
        {
            let b = self.data[self.offset + i];
            buf[from + i] = b;
            i += 1;
        }
        self.offset = self.offset + k;
        Ok(k)
    }
}

} // verus!
