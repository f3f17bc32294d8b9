//! File content: reads and writes of byte ranges, growth with zeros, and
//! truncation.
//!
//! Offsets and lengths are unsigned byte counts. Content that a write or a
//! resize leaves without data reads as zero bytes.

use vstd::prelude::*;
use std::collections::HashMap;
use crate::error::FsError;
use crate::mem_stream::{append_bytes, SliceReader};
use crate::stream_util::{copy_exact, fill_zeros, least, read, zeros};

verus! {

broadcast use vstd::std_specs::hash::group_hash_axioms;

/// The bytes that a read of up to `want` bytes at `offset` returns: the part
/// of the content that lies in that range, nothing at or past its end.
pub open spec fn read_span(content: Seq<u8>, offset: u64, want: nat) -> Seq<u8> {
    if offset >= content.len() {
        Seq::empty()
    } else {
        content.subrange(offset as int, least(offset + want, content.len() as int))
    }
}

/// The content after `data` was written at `offset`: the data in its range,
/// the old content elsewhere, and zeros where there was neither.
pub open spec fn written_at(content: Seq<u8>, offset: nat, data: Seq<u8>) -> Seq<u8> {
    Seq::new(
        if content.len() >= offset + data.len() {
            content.len()
        } else {
            offset + data.len()
        },
        |i: int|
            if offset <= i < offset + data.len() {
                data[i - offset]
            } else if i < content.len() {
                content[i]
            } else {
                0u8
            },
    )
}

/// The content cut or grown to `size` bytes; what is grown is zero.
pub open spec fn resized(content: Seq<u8>, size: nat) -> Seq<u8> {
    Seq::new(
        size,
        |i: int|
            if i < content.len() {
                content[i]
            } else {
                0u8
            },
    )
}

/// Reads into the front of `buf` the content from `offset` on, as far as it
/// reaches, and returns the number of bytes read; none at or past the end.
pub fn read_bytes(content: &[u8], offset: u64, buf: &mut [u8]) -> (n: usize)
    ensures
        n == read_span(content@, offset, old(buf)@.len()).len(),
        final(buf)@ == read_span(content@, offset, old(buf)@.len()) + old(buf)@.skip(n as int),
{
    let len: usize = content.len();
    if offset >= len as u64 {
        proof {
            assert(buf@.skip(0) =~= buf@);
            assert(Seq::<u8>::empty() + buf@ =~= buf@);
        }
        return 0;
    }
    let rest: &[u8] = vstd::slice::slice_subrange(content, offset as usize, len);
    let mut source = SliceReader::new(rest);
    match read(&mut source, buf) {
        Ok(n) => {
            proof {
                assert(rest@.take(n as int) =~= read_span(content@, offset, old(buf)@.len()));
            }
            n
        },
        Err(_) => 0,
    }
}

/// Writes `data` into `content` at `offset`. Content that ends before
/// `offset` is first grown to it with zeros.
pub fn write_bytes(content: &mut Vec<u8>, offset: usize, data: &[u8])
    requires
        offset + data@.len() <= usize::MAX,
    ensures
        final(content)@ == written_at(old(content)@, offset as nat, data@),
{
    let len: usize = content.len();
    if offset > len {
        let _ = fill_zeros(content, (offset - len) as u64);
    }
    let ghost padded = content@;
    let here: usize = content.len();
    proof {
        assert(here == if offset > len { offset } else { len });
        assert(forall|j: int| 0 <= j < len ==> padded[j] == old(content)@[j]);
        assert(forall|j: int| len <= j < here ==> padded[j] == 0u8);
    }
    let overlap: usize = if data.len() < here - offset {
        data.len()
    } else {
        here - offset
    };
    let mut i: usize = 0;
    while i < overlap
        invariant
            i <= overlap,
            overlap <= data@.len(),
            offset + overlap <= here,
            content@.len() == here,
            padded.len() == here,
            forall|j: int| 0 <= j < here && !(offset <= j < offset + i) ==> content@[j] == padded[j],
            forall|j: int| offset <= j < offset + i ==> content@[j] == data@[j - offset],
        decreases overlap - i,
    {
        content[offset + i] = data[i];
        i += 1;
    }
    let ghost mid = content@;
    append_bytes(content, vstd::slice::slice_subrange(data, overlap, data.len()));
    proof {
        let goal = written_at(old(content)@, offset as nat, data@);
        assert(content@.len() == goal.len());
        assert forall|j: int| 0 <= j < goal.len() implies content@[j] == goal[j] by {
            if j < here {
                assert(content@[j] == mid[j]);
                if offset <= j < offset + overlap {
                    assert(mid[j] == data@[j - offset]);
                } else {
                    assert(mid[j] == padded[j]);
                    assert(!(offset <= j < offset + data@.len()));
                    if j < len {
                        assert(padded[j] == old(content)@[j]);
                    } else {
                        assert(padded[j] == 0u8);
                    }
                }
            } else {
                assert(content@[j] == data@.subrange(overlap as int, data@.len() as int)[j - here]);
            }
        }
        assert(content@ =~= goal);
    }
}

/// Cuts or grows `content` to `size` bytes. A cut moves the bytes that stay
/// into fresh storage and lets the old storage go; growth is filled with
/// zeros.
pub fn resize_bytes(content: &mut Vec<u8>, size: usize)
    ensures
        final(content)@ == resized(old(content)@, size as nat),
{
    let len: usize = content.len();
    if size <= len {
        let mut kept: Vec<u8> = Vec::new();
        let mut source = SliceReader::new(content.as_slice());
        let _ = copy_exact(&mut source, &mut kept, size as u64);
        proof {
            assert(kept@ =~= resized(content@, size as nat));
        }
        *content = kept;
    } else {
        let _ = fill_zeros(content, (size - len) as u64);
        proof {
            assert(content@ =~= resized(old(content)@, size as nat));
        }
    }
}

/// The content of every file, by inode number.
pub struct ContentStore {
    files: HashMap<u64, Vec<u8>>,
}

impl View for ContentStore {
    type V = Map<u64, Seq<u8>>;

    closed spec fn view(&self) -> Map<u64, Seq<u8>> {
        Map::new(|ino: u64| self.files@.contains_key(ino), |ino: u64| self.files@[ino]@)
    }
}

impl ContentStore {
    /// A store without files.
    pub fn new() -> (res: Self)
        ensures
            res@ == Map::<u64, Seq<u8>>::empty(),
    {
        let res = ContentStore { files: HashMap::new() };
        proof {
            assert(res@ =~= Map::<u64, Seq<u8>>::empty());
        }
        res
    }

    /// Gives `ino` empty content, replacing what it had.
    pub fn create(&mut self, ino: u64)
        ensures
            final(self)@ == old(self)@.insert(ino, Seq::<u8>::empty()),
    {
        self.files.insert(ino, Vec::new());
        proof {
            assert(self@ =~= old(self)@.insert(ino, Seq::<u8>::empty()));
        }
    }

    /// Drops the content of `ino`, if it has any.
    pub fn remove(&mut self, ino: u64)
        ensures
            final(self)@ == old(self)@.remove(ino),
    {
        self.files.remove(&ino);
        proof {
            assert(self@ =~= old(self)@.remove(ino));
        }
    }

    /// The content of `ino`; `None` where it has none.
    pub fn content(&self, ino: u64) -> (res: Option<&[u8]>)
        ensures
            match res {
                Some(bytes) => self@.contains_key(ino) && bytes@ == self@[ino],
                None => !self@.contains_key(ino),
            },
    {
        match self.files.get(&ino) {
            Some(content) => Some(content.as_slice()),
            None => None,
        }
    }

    /// Puts `content` in the place of the content of `ino`;
    /// [`FsError::NotFound`], and no change, where `ino` has none.
    pub fn replace(&mut self, ino: u64, content: Vec<u8>) -> (res: Result<(), FsError>)
        ensures
            old(self)@.contains_key(ino) ==> res == Ok::<(), FsError>(()) && final(self)@ == old(
                self,
            )@.insert(ino, content@),
            !old(self)@.contains_key(ino) ==> res == Err::<(), FsError>(FsError::NotFound)
                && final(self)@ == old(self)@,
    {
        if !self.files.contains_key(&ino) {
            return Err(FsError::NotFound);
        }
        self.files.insert(ino, content);
        proof {
            assert(self@ =~= old(self)@.insert(ino, content@));
        }
        Ok(())
    }

    /// The length of the content of `ino`; `None` where it has none.
    pub fn len(&self, ino: u64) -> (res: Option<usize>)
        ensures
            match res {
                Some(n) => self@.contains_key(ino) && n == self@[ino].len(),
                None => !self@.contains_key(ino),
            },
    {
        match self.files.get(&ino) {
            Some(content) => Some(content.len()),
            None => None,
        }
    }

    /// Reads the content of `ino` from `offset` on into the front of `buf`
    /// and returns the number of bytes read, which is zero at or past the
    /// end. [`FsError::NotFound`] where `ino` has no content.
    pub fn read_at(&self, ino: u64, offset: u64, buf: &mut [u8]) -> (res: Result<usize, FsError>)
        ensures
            !self@.contains_key(ino) ==> res == Err::<usize, FsError>(FsError::NotFound)
                && final(buf)@ == old(buf)@,
            self@.contains_key(ino) ==> res is Ok && res->Ok_0 == read_span(
                self@[ino],
                offset,
                old(buf)@.len(),
            ).len() && final(buf)@ == read_span(self@[ino], offset, old(buf)@.len()) + old(
                buf,
            )@.skip(res->Ok_0 as int),
    {
        match self.files.get(&ino) {
            Some(content) => Ok(read_bytes(content.as_slice(), offset, buf)),
            None => Err(FsError::NotFound),
        }
    }

    /// Writes `data` into the content of `ino` at `offset` and returns the
    /// number of bytes written, which is all of them. A gap between the old
    /// end and `offset` becomes zeros. [`FsError::NotFound`] where `ino` has
    /// no content; [`FsError::InvalidArgument`] where the end of the write
    /// cannot be addressed. A failed write changes nothing.
    pub fn write_at(&mut self, ino: u64, offset: u64, data: &[u8]) -> (res: Result<usize, FsError>)
        ensures
            res == write_outcome(old(self)@, ino, offset, data@.len()),
            res is Ok ==> final(self)@ == old(self)@.insert(
                ino,
                written_at(old(self)@[ino], offset as nat, data@),
            ),
            res is Err ==> final(self)@ == old(self)@,
    {
        if !self.files.contains_key(&ino) {
            return Err(FsError::NotFound);
        }
        if offset > usize::MAX as u64 || data.len() > usize::MAX - offset as usize {
            return Err(FsError::InvalidArgument);
        }
        let mut content: Vec<u8> = match self.files.remove(&ino) {
            Some(content) => content,
            None => Vec::new(),
        };
        write_bytes(&mut content, offset as usize, data);
        self.files.insert(ino, content);
        proof {
            assert(self@ =~= old(self)@.insert(
                ino,
                written_at(old(self)@[ino], offset as nat, data@),
            ));
        }
        Ok(data.len())
    }

    /// Cuts or grows the content of `ino` to `size` bytes; what is grown is
    /// zero. [`FsError::NotFound`] where `ino` has no content;
    /// [`FsError::InvalidArgument`] where `size` cannot be addressed. A
    /// failed call changes nothing.
    pub fn truncate(&mut self, ino: u64, size: u64) -> (res: Result<(), FsError>)
        ensures
            res == resize_outcome(old(self)@, ino, size),
            res is Ok ==> final(self)@ == old(self)@.insert(
                ino,
                resized(old(self)@[ino], size as nat),
            ),
            res is Err ==> final(self)@ == old(self)@,
    {
        if !self.files.contains_key(&ino) {
            return Err(FsError::NotFound);
        }
        if size > usize::MAX as u64 {
            return Err(FsError::InvalidArgument);
        }
        let mut content: Vec<u8> = match self.files.remove(&ino) {
            Some(content) => content,
            None => Vec::new(),
        };
        resize_bytes(&mut content, size as usize);
        self.files.insert(ino, content);
        proof {
            assert(self@ =~= old(self)@.insert(ino, resized(old(self)@[ino], size as nat)));
        }
        Ok(())
    }
}

/// What a write of `len` bytes at `offset` into the content of `ino` returns.
pub open spec fn write_outcome(files: Map<u64, Seq<u8>>, ino: u64, offset: u64, len: nat) -> Result<
    usize,
    FsError,
> {
    if !files.contains_key(ino) {
        Err(FsError::NotFound)
    } else if offset + len > usize::MAX {
        Err(FsError::InvalidArgument)
    } else {
        Ok(len as usize)
    }
}

/// What a resize of the content of `ino` to `size` bytes returns.
pub open spec fn resize_outcome(files: Map<u64, Seq<u8>>, ino: u64, size: u64) -> Result<
    (),
    FsError,
> {
    if !files.contains_key(ino) {
        Err(FsError::NotFound)
    } else if size > usize::MAX {
        Err(FsError::InvalidArgument)
    } else {
        Ok(())
    }
}

/// What was written is what is read: a read of the range of a write returns
/// the written bytes, and still does after the content was cut or grown to
/// any size that holds the range.
pub proof fn lemma_read_returns_written(content: Seq<u8>, offset: u64, data: Seq<u8>, size: nat)
    requires
        offset + data.len() <= size,
    ensures
        read_span(written_at(content, offset as nat, data), offset, data.len()) == data,
        read_span(resized(written_at(content, offset as nat, data), size), offset, data.len())
            == data,
{
    let after = written_at(content, offset as nat, data);
    if data.len() > 0 {
        assert(read_span(after, offset, data.len()) =~= data);
        assert(read_span(resized(after, size), offset, data.len()) =~= data);
    } else {
        assert(read_span(after, offset, data.len()) =~= data);
        assert(read_span(resized(after, size), offset, data.len()) =~= data);
    }
}

/// A write past the end leaves zeros in between: the bytes from the old end
/// of the content up to the offset of the write read as zero, and the bytes
/// before the old end as they were.
pub proof fn lemma_gap_reads_zero(content: Seq<u8>, offset: u64, data: Seq<u8>)
    requires
        content.len() <= offset,
        content.len() <= u64::MAX,
    ensures
        read_span(
            written_at(content, offset as nat, data),
            content.len() as u64,
            (offset - content.len()) as nat,
        ) == zeros((offset - content.len()) as nat),
        written_at(content, offset as nat, data).take(content.len() as int) == content,
        written_at(content, offset as nat, data).len() == offset + data.len(),
{
    let after = written_at(content, offset as nat, data);
    let gap = (offset - content.len()) as nat;
    assert(read_span(after, content.len() as u64, gap) =~= zeros(gap));
    assert(after.take(content.len() as int) =~= content);
}

/// Cutting content and growing it again does not bring back what was cut:
/// the bytes past the cut read as zero.
pub proof fn lemma_cut_is_final(content: Seq<u8>, cut: nat, size: nat)
    requires
        cut <= size,
    ensures
        resized(resized(content, cut), size) == resized(content.take(least(cut as int, content.len() as int)), size),
        forall|i: int| cut <= i < size ==> resized(resized(content, cut), size)[i] == 0u8,
{
    assert(resized(resized(content, cut), size) =~= resized(
        content.take(least(cut as int, content.len() as int)),
        size,
    ));
}

} // verus!
