//! Streams that live in memory.
//!
//! The engine moves file content between these with the primitives of
//! [`crate::stream_util`]. They are also the plainest implementations of the
//! two stream traits: a source with a chosen end and a sink with a chosen
//! limit make every outcome of a transfer reachable.

use vstd::prelude::*;
use crate::error::{FsError, NO_SPACE};
use crate::stream_util::{ByteSink, ByteSource};

verus! {

/// A source that delivers the bytes of a slice and then ends, cleanly or with
/// a failure fixed when it was made.
pub struct SliceReader<'a> {
    data: &'a [u8],
    pos: usize,
    end: Option<FsError>,
}

impl<'a> SliceReader<'a> {
    /// A source that ends cleanly after `data`.
    pub fn new(data: &'a [u8]) -> (res: Self)
        ensures
            res.pending() == data@,
            res.fault() == None::<FsError>,
    {
        let res = SliceReader { data, pos: 0, end: None };
        proof {
            assert(data@.skip(0) =~= data@);
        }
        res
    }

    /// A source that delivers `data` and then fails with `fault`.
    pub fn failing(data: &'a [u8], fault: FsError) -> (res: Self)
        ensures
            res.pending() == data@,
            res.fault() == Some(fault),
    {
        let res = SliceReader { data, pos: 0, end: Some(fault) };
        proof {
            assert(data@.skip(0) =~= data@);
        }
        res
    }
}

impl<'a> ByteSource for SliceReader<'a> {
    closed spec fn pending(&self) -> Seq<u8> {
        if self.pos <= self.data@.len() {
            self.data@.skip(self.pos as int)
        } else {
            Seq::empty()
        }
    }

    closed spec fn fault(&self) -> Option<FsError> {
        self.end
    }

    fn read(&mut self, buf: &mut [u8]) -> (res: Result<usize, FsError>) {
        let total: usize = self.data.len();
        let left: usize = if self.pos <= total {
            total - self.pos
        } else {
            0
        };
        let len: usize = if buf.len() < left {
            buf.len()
        } else {
            left
        };
        if len == 0 {
            if buf.len() > 0 {
                if let Some(e) = self.end {
                    return Err(e);
                }
            }
            proof {
                assert(self.pending().skip(0) =~= self.pending());
                assert(self.pending().take(0) + buf@.skip(0) =~= buf@);
            }
            return Ok(0);
        }
        let mut i: usize = 0;
        while i < len
            invariant
                i <= len,
                len <= buf@.len(),
                buf@.len() == old(buf)@.len(),
                total == self.data@.len(),
                self.pos + len <= total,
                *self == *old(self),
                forall|j: int| 0 <= j < i ==> buf@[j] == self.data@[self.pos + j],
                forall|j: int| i <= j < buf@.len() ==> buf@[j] == old(buf)@[j],
            decreases len - i,
        {
            buf[i] = self.data[self.pos + i];
            i += 1;
        }
        self.pos = self.pos + len;
        proof {
            assert(self.pending() =~= old(self).pending().skip(len as int));
            assert(buf@ =~= old(self).pending().take(len as int) + old(buf)@.skip(len as int));
        }
        Ok(len)
    }
}

/// Appends every byte of `src` to `dst`.
pub fn append_bytes(dst: &mut Vec<u8>, src: &[u8])
    ensures
        final(dst)@ == old(dst)@ + src@,
{
    let mut i: usize = 0;
    while i < src.len()
        invariant
            i <= src@.len(),
            dst@ == old(dst)@ + src@.take(i as int),
        decreases src@.len() - i,
    {
        dst.push(src[i]);
        proof {
            assert(dst@ =~= old(dst)@ + src@.take(i + 1));
        }
        i += 1;
    }
    proof {
        assert(src@.take(src@.len() as int) =~= src@);
    }
}

/// A vector takes any number of bytes at its end.
impl ByteSink for Vec<u8> {
    open spec fn written(&self) -> Seq<u8> {
        self@
    }

    open spec fn room(&self) -> Option<nat> {
        None
    }

    open spec fn fault(&self) -> FsError {
        FsError::IoFailure(NO_SPACE)
    }

    fn write_all(&mut self, buf: &[u8]) -> (res: Result<(), FsError>) {
        append_bytes(self, buf);
        proof {
            assert(buf@.take(buf@.len() as int) =~= buf@);
        }
        Ok(())
    }
}

/// A sink that keeps what it is given in memory up to a limit and fails with
/// [`FsError::IoFailure`] of [`NO_SPACE`] beyond it.
pub struct BoundedWriter {
    data: Vec<u8>,
    limit: usize,
}

impl BoundedWriter {
    /// An empty sink that takes `limit` bytes.
    pub fn new(limit: usize) -> (res: Self)
        ensures
            res.written() == Seq::<u8>::empty(),
            res.room() == Some(limit as nat),
    {
        BoundedWriter { data: Vec::new(), limit }
    }

    /// The bytes taken so far.
    pub fn into_bytes(self) -> (res: Vec<u8>)
        ensures
            res@ == self.written(),
    {
        self.data
    }
}

impl ByteSink for BoundedWriter {
    closed spec fn written(&self) -> Seq<u8> {
        self.data@
    }

    closed spec fn room(&self) -> Option<nat> {
        if self.data@.len() <= self.limit {
            Some((self.limit - self.data@.len()) as nat)
        } else {
            Some(0)
        }
    }

    open spec fn fault(&self) -> FsError {
        FsError::IoFailure(NO_SPACE)
    }

    fn write_all(&mut self, buf: &[u8]) -> (res: Result<(), FsError>) {
        let used: usize = self.data.len();
        let left: usize = if used <= self.limit {
            self.limit - used
        } else {
            0
        };
        if buf.len() <= left {
            append_bytes(&mut self.data, buf);
            proof {
                assert(buf@.take(buf@.len() as int) =~= buf@);
            }
            Ok(())
        } else {
            append_bytes(&mut self.data, vstd::slice::slice_subrange(buf, 0, left));
            Err(FsError::IoFailure(NO_SPACE))
        }
    }
}

} // verus!
