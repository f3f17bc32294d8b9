//! Exact-length movement of bytes between streams.
//!
//! File content is framed in fixed-size pieces, so every transfer in the
//! engine is contracted to move a precise number of bytes: one byte too few or
//! too many shifts the boundary between frames. All transfers go through a
//! buffer of [`BUF_SIZE`] bytes, whatever their length.
//!
//! A stream is described by what it will still do. A source has the bytes it
//! is going to deliver and the way it ends, cleanly or with a failure. A sink
//! has the bytes it has taken and the number it will still take before it
//! fails. The primitives are specified as functions of these descriptions.

use vstd::prelude::*;
use std::sync::Arc;
use crate::error::FsError;

verus! {

/// Size of the intermediate buffer of every transfer.
pub const BUF_SIZE: usize = 1024 * 1024;

/// A readable stream of bytes.
pub trait ByteSource {
    /// The bytes that the stream delivers before it ends. An implementation
    /// that says nothing else is taken to deliver none.
    open spec fn pending(&self) -> Seq<u8> {
        Seq::empty()
    }

    /// The failure that the stream ends with once `pending` is used up;
    /// `None` where it ends cleanly.
    open spec fn fault(&self) -> Option<FsError> {
        None
    }

    /// Pulls some bytes into the front of `buf` and returns how many. On a
    /// buffer with room, `Ok(0)` means the clean end of the stream and an
    /// error is its failing end; neither comes while bytes are pending.
    fn read(&mut self, buf: &mut [u8]) -> (res: Result<usize, FsError>)
        ensures
            final(self).fault() == old(self).fault(),
            match res {
                Ok(n) => {
                    &&& n <= old(buf)@.len()
                    &&& n <= old(self).pending().len()
                    &&& n == 0 ==> old(buf)@.len() == 0 || (old(self).pending().len() == 0
                        && old(self).fault() is None)
                    &&& final(self).pending() == old(self).pending().skip(n as int)
                    &&& final(buf)@ == old(self).pending().take(n as int) + old(buf)@.skip(
                        n as int,
                    )
                },
                Err(e) => {
                    &&& old(buf)@.len() > 0
                    &&& old(self).pending().len() == 0
                    &&& old(self).fault() == Some(e)
                    &&& final(self).pending() == old(self).pending()
                    &&& final(buf)@ == old(buf)@
                },
            },
    ;
}

/// A writable stream of bytes.
pub trait ByteSink {
    /// Every byte that the stream has taken so far, in order. An
    /// implementation that says nothing else is taken to keep no record.
    open spec fn written(&self) -> Seq<u8> {
        Seq::empty()
    }

    /// How many more bytes the stream takes before it fails; `None` where it
    /// takes any number.
    open spec fn room(&self) -> Option<nat> {
        Some(0)
    }

    /// The failure that the stream reports once `room` is used up.
    open spec fn fault(&self) -> FsError {
        FsError::IoFailure(0)
    }

    /// Hands all of `buf` to the stream. Where `buf` is longer than the room
    /// left, the stream takes what fits and fails.
    fn write_all(&mut self, buf: &[u8]) -> (res: Result<(), FsError>)
        ensures
            final(self).fault() == old(self).fault(),
            res == sink_outcome(old(self).room(), old(self).fault(), buf@.len()),
            final(self).written() == old(self).written() + buf@.take(
                sink_taken(old(self).room(), buf@.len()) as int,
            ),
            final(self).room() == sink_room_after(old(self).room(), buf@.len()),
    ;
}

/// How many of `n` offered bytes a sink with `room` takes.
pub open spec fn sink_taken(room: Option<nat>, n: nat) -> nat {
    match room {
        Some(k) => if n <= k { n } else { k },
        None => n,
    }
}

/// The room that is left after `n` bytes were offered to a sink with `room`.
pub open spec fn sink_room_after(room: Option<nat>, n: nat) -> Option<nat> {
    match room {
        Some(k) => Some((k - sink_taken(room, n)) as nat),
        None => None,
    }
}

/// Whether a sink with `room` takes `n` bytes whole.
pub open spec fn sink_fits(room: Option<nat>, n: nat) -> bool {
    sink_taken(room, n) == n
}

/// What a sink with `room` answers when `n` bytes are offered.
pub open spec fn sink_outcome(room: Option<nat>, fault: FsError, n: nat) -> Result<(), FsError> {
    if sink_fits(room, n) {
        Ok(())
    } else {
        Err(fault)
    }
}

/// The smaller of two numbers.
pub open spec fn least(a: int, b: int) -> int {
    if a <= b {
        a
    } else {
        b
    }
}

/// `n` zero bytes.
pub open spec fn zeros(n: nat) -> Seq<u8> {
    Seq::new(n, |i: int| 0u8)
}

/// What advancing a source by `len` bytes returns: `len` where that many
/// bytes are pending; else the source's own failure; else, at a clean end, the
/// shorter count where the caller tolerates it and an error where not.
pub open spec fn seek_outcome(
    pending: Seq<u8>,
    fault: Option<FsError>,
    len: u64,
    stop_on_eof: bool,
) -> Result<u64, FsError> {
    if len <= pending.len() {
        Ok(len)
    } else {
        match fault {
            Some(e) => Err(e),
            None => if stop_on_eof {
                Ok(pending.len() as u64)
            } else {
                Err(FsError::UnexpectedEndOfStream)
            },
        }
    }
}

/// Number of bytes that the next pass of a transfer of `len` bytes asks for
/// when `done` of them are through.
fn chunk_len(done: u64, len: u64) -> (n: usize)
    requires
        done < len,
    ensures
        n as int == least(len - done, BUF_SIZE as int),
        n > 0,
{
    let left: u64 = len - done;
    if left < BUF_SIZE as u64 {
        left as usize
    } else {
        BUF_SIZE
    }
}

/// Advances `r` by `len` bytes, reading them into a fixed buffer and dropping
/// them, and returns how far it got. Where the source ends first, the shorter
/// count is returned if `stop_on_eof` is set, and
/// [`FsError::UnexpectedEndOfStream`] if not. A failure of the source is
/// handed on as it is.
pub fn seek_forward<R: ByteSource>(r: &mut R, len: u64, stop_on_eof: bool) -> (res: Result<
    u64,
    FsError,
>)
    ensures
        res == seek_outcome(old(r).pending(), old(r).fault(), len, stop_on_eof),
        final(r).pending() == old(r).pending().skip(least(len as int, old(r).pending().len() as int)),
        final(r).fault() == old(r).fault(),
{
    if len == 0 {
        return Ok(0);
    }
    let mut buffer: Vec<u8> = vec![0u8; BUF_SIZE];
    let mut pos: u64 = 0;
    while pos < len
        invariant
            pos <= len,
            pos <= old(r).pending().len(),
            buffer@.len() == BUF_SIZE,
            r.pending() == old(r).pending().skip(pos as int),
            r.fault() == old(r).fault(),
        decreases len - pos,
    {
        let bytes_to_read: usize = chunk_len(pos, len);
        let (head, _rest) = buffer.as_mut_slice().split_at_mut(bytes_to_read);
        let bytes_read: usize = match r.read(head) {
            Ok(n) => n,
            Err(e) => {
                return Err(e);
            },
        };
        pos += bytes_read as u64;
        if bytes_read == 0 {
            if stop_on_eof {
                return Ok(pos);
            }
            return Err(FsError::UnexpectedEndOfStream);
        }
    }
    Ok(pos)
}

/// Advances `r` by exactly `len` bytes; a source that ends before that is an
/// error.
pub fn seek_forward_exact<R: ByteSource>(r: &mut R, len: u64) -> (res: Result<(), FsError>)
    ensures
        res == discard_count(seek_outcome(old(r).pending(), old(r).fault(), len, false)),
        res is Ok <==> len <= old(r).pending().len(),
        final(r).pending() == old(r).pending().skip(least(len as int, old(r).pending().len() as int)),
        final(r).fault() == old(r).fault(),
{
    match seek_forward(r, len, false) {
        Ok(_) => Ok(()),
        Err(e) => Err(e),
    }
}

/// The same outcome without its count.
pub open spec fn discard_count(outcome: Result<u64, FsError>) -> Result<(), FsError> {
    match outcome {
        Ok(_) => Ok(()),
        Err(e) => Err(e),
    }
}

/// What moving `len` bytes from a source to a sink returns. The sink's
/// failure comes first where it has no room for the bytes that the source can
/// give; else the outcome is that of advancing the source alone.
pub open spec fn copy_outcome(
    pending: Seq<u8>,
    source_fault: Option<FsError>,
    room: Option<nat>,
    sink_fault: FsError,
    len: u64,
    stop_on_eof: bool,
) -> Result<u64, FsError> {
    if sink_fits(room, least(len as int, pending.len() as int) as nat) {
        seek_outcome(pending, source_fault, len, stop_on_eof)
    } else {
        Err(sink_fault)
    }
}

/// Moves `len` bytes from `r` to `w` through a fixed buffer and returns how
/// many went through. Where the source ends first, the shorter count is
/// returned if `stop_on_eof` is set, and [`FsError::UnexpectedEndOfStream`] if
/// not. A failure of either stream is handed on as it is. In every case the
/// sink has taken the longest prefix of the requested bytes that the source
/// could give and the sink had room for.
pub fn copy<R: ByteSource, W: ByteSink>(r: &mut R, w: &mut W, len: u64, stop_on_eof: bool) -> (res:
    Result<u64, FsError>)
    ensures
        res == copy_outcome(
            old(r).pending(),
            old(r).fault(),
            old(w).room(),
            old(w).fault(),
            len,
            stop_on_eof,
        ),
        final(w).written() == old(w).written() + old(r).pending().take(
            sink_taken(old(w).room(), least(len as int, old(r).pending().len() as int) as nat) as int,
        ),
        final(w).room() == sink_room_after(
            old(w).room(),
            least(len as int, old(r).pending().len() as int) as nat,
        ),
        final(w).fault() == old(w).fault(),
        final(r).fault() == old(r).fault(),
        sink_fits(old(w).room(), least(len as int, old(r).pending().len() as int) as nat)
            ==> final(r).pending() == old(r).pending().skip(
            least(len as int, old(r).pending().len() as int),
        ),
        exists|j: int|
            sink_taken(old(w).room(), least(len as int, old(r).pending().len() as int) as nat) <= j
                <= least(len as int, old(r).pending().len() as int) && final(r).pending() == old(
                r,
            ).pending().skip(j),
{
    if len == 0 {
        proof {
            assert(old(r).pending().take(0) =~= Seq::<u8>::empty());
            assert(old(w).written() + Seq::<u8>::empty() =~= old(w).written());
            assert(old(r).pending().skip(0) =~= old(r).pending());
        }
        return Ok(0);
    }
    let ghost pending = old(r).pending();
    let ghost moved = least(len as int, pending.len() as int);
    let mut buffer: Vec<u8> = vec![0u8; BUF_SIZE];
    let mut read_pos: u64 = 0;
    proof {
        assert(pending.take(0) =~= Seq::<u8>::empty());
        assert(old(w).written() + Seq::<u8>::empty() =~= old(w).written());
        assert(pending.skip(0) =~= pending);
    }
    while read_pos < len
        invariant
            pending == old(r).pending(),
            moved == least(len as int, pending.len() as int),
            read_pos <= moved,
            buffer@.len() == BUF_SIZE,
            r.pending() == pending.skip(read_pos as int),
            r.fault() == old(r).fault(),
            w.fault() == old(w).fault(),
            sink_fits(old(w).room(), read_pos as nat),
            w.written() == old(w).written() + pending.take(read_pos as int),
            w.room() == sink_room_after(old(w).room(), read_pos as nat),
        decreases len - read_pos,
    {
        let buf_len: usize = chunk_len(read_pos, len);
        let (head, _rest) = buffer.as_mut_slice().split_at_mut(buf_len);
        let read: usize = match r.read(head) {
            Ok(n) => n,
            Err(e) => {
                return Err(e);
            },
        };
        let chunk: &[u8] = vstd::slice::slice_subrange(buffer.as_slice(), 0, read);
        proof {
            assert(chunk@ =~= pending.subrange(read_pos as int, read_pos + read));
            assert(pending.take(read_pos as int) + chunk@.take(
                sink_taken(w.room(), read as nat) as int,
            ) =~= pending.take(read_pos + sink_taken(w.room(), read as nat)));
        }
        match w.write_all(chunk) {
            Ok(()) => {},
            Err(e) => {
                proof {
                    assert(r.pending() == pending.skip(read_pos + read));
                }
                return Err(e);
            },
        }
        read_pos += read as u64;
        if read == 0 {
            if stop_on_eof {
                return Ok(read_pos);
            }
            return Err(FsError::UnexpectedEndOfStream);
        }
    }
    Ok(read_pos)
}

/// Moves exactly `len` bytes from `r` to `w`; a source that ends before that
/// is an error.
pub fn copy_exact<R: ByteSource, W: ByteSink>(r: &mut R, w: &mut W, len: u64) -> (res: Result<
    (),
    FsError,
>)
    ensures
        res == discard_count(
            copy_outcome(old(r).pending(), old(r).fault(), old(w).room(), old(w).fault(), len, false),
        ),
        res is Ok <==> len <= old(r).pending().len() && sink_fits(old(w).room(), len as nat),
        final(w).written() == old(w).written() + old(r).pending().take(
            sink_taken(old(w).room(), least(len as int, old(r).pending().len() as int) as nat) as int,
        ),
        final(w).room() == sink_room_after(
            old(w).room(),
            least(len as int, old(r).pending().len() as int) as nat,
        ),
        final(w).fault() == old(w).fault(),
        final(r).fault() == old(r).fault(),
        sink_fits(old(w).room(), least(len as int, old(r).pending().len() as int) as nat)
            ==> final(r).pending() == old(r).pending().skip(
            least(len as int, old(r).pending().len() as int),
        ),
        exists|j: int|
            sink_taken(old(w).room(), least(len as int, old(r).pending().len() as int) as nat) <= j
                <= least(len as int, old(r).pending().len() as int) && final(r).pending() == old(
                r,
            ).pending().skip(j),
{
    match copy(r, w, len, false) {
        Ok(_) => Ok(()),
        Err(e) => Err(e),
    }
}

/// Writes `len` zero bytes to `w` through a fixed buffer. A sink without room
/// for all of them takes as many zeros as fit and its failure is handed on.
pub fn fill_zeros<W: ByteSink>(w: &mut W, len: u64) -> (res: Result<(), FsError>)
    ensures
        res == sink_outcome(old(w).room(), old(w).fault(), len as nat),
        final(w).written() == old(w).written() + zeros(sink_taken(old(w).room(), len as nat)),
        final(w).room() == sink_room_after(old(w).room(), len as nat),
        final(w).fault() == old(w).fault(),
{
    if len == 0 {
        proof {
            assert(old(w).written() + zeros(0) =~= old(w).written());
        }
        return Ok(());
    }
    let buffer: Vec<u8> = vec![0u8; BUF_SIZE];
    let mut written: u64 = 0;
    proof {
        assert(old(w).written() + zeros(0) =~= old(w).written());
    }
    while written < len
        invariant
            written <= len,
            buffer@.len() == BUF_SIZE,
            forall|i: int| 0 <= i < buffer@.len() ==> buffer@[i] == 0u8,
            sink_fits(old(w).room(), written as nat),
            w.written() == old(w).written() + zeros(written as nat),
            w.room() == sink_room_after(old(w).room(), written as nat),
            w.fault() == old(w).fault(),
        decreases len - written,
    {
        let buf_len: usize = chunk_len(written, len);
        let chunk: &[u8] = vstd::slice::slice_subrange(buffer.as_slice(), 0, buf_len);
        proof {
            assert(zeros(written as nat) + chunk@.take(sink_taken(w.room(), buf_len as nat) as int)
                =~= zeros((written + sink_taken(w.room(), buf_len as nat)) as nat));
        }
        match w.write_all(chunk) {
            Ok(()) => {},
            Err(e) => {
                return Err(e);
            },
        }
        written += buf_len as u64;
    }
    Ok(())
}

/// What filling a buffer of `want` bytes from a source returns: `want` where
/// that many bytes are pending, else the source's failure, else the number of
/// bytes that were left before its clean end.
pub open spec fn read_outcome(pending: Seq<u8>, fault: Option<FsError>, want: nat) -> Result<
    usize,
    FsError,
> {
    if want <= pending.len() {
        Ok(want as usize)
    } else {
        match fault {
            Some(e) => Err(e),
            None => Ok(pending.len() as usize),
        }
    }
}

/// Fills `buf` from `r` as far as the source reaches, asking again after each
/// short answer until the buffer is full or the source has ended, and returns
/// the number of bytes placed at the front of `buf`. The rest of `buf` keeps
/// what it held.
pub fn read<R: ByteSource>(r: &mut R, buf: &mut [u8]) -> (res: Result<usize, FsError>)
    ensures
        res == read_outcome(old(r).pending(), old(r).fault(), old(buf)@.len()),
        final(buf)@ == old(r).pending().take(
            least(old(buf)@.len() as int, old(r).pending().len() as int),
        ) + old(buf)@.skip(least(old(buf)@.len() as int, old(r).pending().len() as int)),
        final(r).pending() == old(r).pending().skip(
            least(old(buf)@.len() as int, old(r).pending().len() as int),
        ),
        final(r).fault() == old(r).fault(),
{
    let ghost pending = old(r).pending();
    let total: usize = buf.len();
    let mut bytes_read: usize = 0;
    proof {
        assert(pending.take(0) + buf@.skip(0) =~= buf@);
        assert(pending.skip(0) =~= pending);
    }
    while bytes_read < total
        invariant
            pending == old(r).pending(),
            total == old(buf)@.len(),
            buf@.len() == total,
            bytes_read <= total,
            bytes_read <= pending.len(),
            buf@ == pending.take(bytes_read as int) + old(buf)@.skip(bytes_read as int),
            r.pending() == pending.skip(bytes_read as int),
            r.fault() == old(r).fault(),
        decreases total - bytes_read,
    {
        let (_filled, tail) = buf.split_at_mut(bytes_read);
        let len: usize = match r.read(tail) {
            Ok(n) => n,
            Err(e) => {
                return Err(e);
            },
        };
        proof {
            assert(buf@ =~= pending.take(bytes_read + len) + old(buf)@.skip(bytes_read + len));
        }
        if len == 0 {
            return Ok(bytes_read);
        }
        bytes_read += len;
    }
    Ok(bytes_read)
}

/// A position to move a reader to, counted from the start of its bytes, from
/// their end, or from where the reader stands.
#[derive(Clone, Copy, Debug, PartialEq, Eq, Structural)]
pub enum SeekFrom {
    Start(u64),
    End(i64),
    Current(i64),
}

/// The position that `from` names in a stream of `len` bytes read up to `pos`.
pub open spec fn seek_target(len: nat, pos: nat, from: SeekFrom) -> int {
    match from {
        SeekFrom::Start(p) => p as int,
        SeekFrom::End(d) => len + d,
        SeekFrom::Current(d) => pos + d,
    }
}

/// Puts random bytes into every place of `buf` with `RngCore::fill_bytes` on
/// the generator that `rand::thread_rng` hands out. Only the length is known
/// afterwards.
#[verifier::external_body]
fn fill_random(buf: &mut Vec<u8>)
    ensures
        final(buf)@.len() == old(buf)@.len(),
{
    rand_core::RngCore::fill_bytes(&mut rand::thread_rng(), buf.as_mut_slice());
}

/// A second handle on the same shared buffer, from `Arc::clone`.
#[verifier::external_body]
fn share(buf: &Arc<Vec<u8>>) -> (res: Arc<Vec<u8>>)
    ensures
        res == *buf,
{
    Arc::clone(buf)
}

/// A finite stream of bytes held in memory, drawn at random when it is made.
/// Clones share the bytes and read them from the start.
pub struct RandomReader {
    buf: Arc<Vec<u8>>,
    pos: usize,
}

impl RandomReader {
    /// All bytes of the stream, read or not.
    pub closed spec fn bytes(&self) -> Seq<u8> {
        self.buf@
    }

    /// How many bytes have been read, counted from the start.
    pub closed spec fn position(&self) -> nat {
        if self.pos <= self.buf@.len() {
            self.pos as nat
        } else {
            self.buf@.len()
        }
    }

    /// A stream of `len` random bytes.
    pub fn new(len: usize) -> (res: Self)
        ensures
            res.bytes().len() == len,
            res.position() == 0,
    {
        let mut buf: Vec<u8> = vec![0u8; len];
        fill_random(&mut buf);
        Self::with_bytes(buf)
    }

    /// A stream of the given bytes.
    pub fn with_bytes(bytes: Vec<u8>) -> (res: Self)
        ensures
            res.bytes() == bytes@,
            res.position() == 0,
    {
        RandomReader { buf: Arc::new(bytes), pos: 0 }
    }

    /// Moves to the position that `from` names and returns it, counted from
    /// the start. A position before the first byte or past the last one is
    /// refused and the reader stays where it is.
    pub fn seek(&mut self, from: SeekFrom) -> (res: Result<u64, FsError>)
        ensures
            final(self).bytes() == old(self).bytes(),
            ({
                let target = seek_target(old(self).bytes().len(), old(self).position(), from);
                if 0 <= target <= old(self).bytes().len() {
                    res == Ok::<u64, FsError>(target as u64) && final(self).position() == target
                } else {
                    res == Err::<u64, FsError>(FsError::InvalidArgument) && final(self).position()
                        == old(self).position()
                }
            }),
    {
        let len: usize = self.buf.len();
        let here: usize = if self.pos <= len {
            self.pos
        } else {
            len
        };
        let new_pos: i128 = match from {
            SeekFrom::Start(p) => p as i128,
            SeekFrom::End(d) => len as i128 + d as i128,
            SeekFrom::Current(d) => here as i128 + d as i128,
        };
        if new_pos < 0 || new_pos > len as i128 {
            return Err(FsError::InvalidArgument);
        }
        self.pos = new_pos as usize;
        Ok(new_pos as u64)
    }
}

impl ByteSource for RandomReader {
    open spec fn pending(&self) -> Seq<u8> {
        self.bytes().skip(self.position() as int)
    }

    open spec fn fault(&self) -> Option<FsError> {
        None
    }

    fn read(&mut self, buf: &mut [u8]) -> (res: Result<usize, FsError>) {
        let total: usize = self.buf.len();
        if self.pos > total {
            proof {
                assert(self.pending().skip(0) =~= self.pending());
                assert(self.pending().take(0) + buf@.skip(0) =~= buf@);
            }
            return Ok(0);
        }
        let left: usize = total - self.pos;
        let len: usize = if buf.len() < left {
            buf.len()
        } else {
            left
        };
        let mut i: usize = 0;
        while i < len
            invariant
                i <= len,
                len <= buf@.len(),
                buf@.len() == old(buf)@.len(),
                total == self.buf@.len(),
                self.pos + len <= total,
                *self == *old(self),
                forall|j: int| 0 <= j < i ==> buf@[j] == self.buf@[self.pos + j],
                forall|j: int| i <= j < buf@.len() ==> buf@[j] == old(buf)@[j],
            decreases len - i,
        {
            buf[i] = self.buf[self.pos + i];
            i += 1;
        }
        self.pos = self.pos + len;
        proof {
            assert(self.pending() =~= old(self).pending().skip(len as int));
            assert(buf@ =~= old(self).pending().take(len as int) + old(buf)@.skip(len as int));
        }
        Ok(len)
    }
}

impl Clone for RandomReader {
    /// A reader over the same bytes that stands at their start.
    fn clone(&self) -> (res: Self)
        ensures
            res.bytes() == self.bytes(),
            res.position() == 0,
    {
        RandomReader { buf: share(&self.buf), pos: 0 }
    }
}

/// A transfer from a source that ends cleanly before the requested length:
/// where the caller does not tolerate the end, advancing fails with
/// [`FsError::UnexpectedEndOfStream`], and so does copying to a sink with
/// room; where the caller tolerates it, both return the shorter count.
pub proof fn lemma_short_source(pending: Seq<u8>, room: Option<nat>, sink_fault: FsError, len: u64)
    requires
        pending.len() < len,
        sink_fits(room, pending.len()),
    ensures
        seek_outcome(pending, None, len, false) == Err::<u64, FsError>(
            FsError::UnexpectedEndOfStream,
        ),
        seek_outcome(pending, None, len, true) == Ok::<u64, FsError>(pending.len() as u64),
        copy_outcome(pending, None, room, sink_fault, len, false) == Err::<u64, FsError>(
            FsError::UnexpectedEndOfStream,
        ),
        copy_outcome(pending, None, room, sink_fault, len, true) == Ok::<u64, FsError>(
            pending.len() as u64,
        ),
{
}

/// A transfer from a source that has the requested length returns that
/// length, whether or not the caller tolerates an early end.
pub proof fn lemma_long_source(
    pending: Seq<u8>,
    fault: Option<FsError>,
    room: Option<nat>,
    sink_fault: FsError,
    len: u64,
    stop_on_eof: bool,
)
    requires
        len <= pending.len(),
        sink_fits(room, len as nat),
    ensures
        seek_outcome(pending, fault, len, stop_on_eof) == Ok::<u64, FsError>(len),
        copy_outcome(pending, fault, room, sink_fault, len, stop_on_eof) == Ok::<u64, FsError>(len),
{
}

} // verus!
