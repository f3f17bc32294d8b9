//! Sealed records: the form in which content leaves the engine for a backing
//! store and comes back from it.
//!
//! A record is the length of its sealed bytes, written as eight bytes with
//! the low byte first, followed by the sealed bytes. The length makes a
//! record readable from the middle of a stream and makes a record that was
//! cut short show. The sealing itself is the business of a [`Cipher`] that
//! the owner of the key material hands in.

use vstd::prelude::*;
use vstd::bytes::{
    lemma_auto_spec_u16_to_from_le_bytes, lemma_auto_spec_u32_to_from_le_bytes,
    lemma_auto_spec_u64_to_from_le_bytes, spec_u16_from_le_bytes, spec_u16_to_le_bytes,
    spec_u32_from_le_bytes, spec_u32_to_le_bytes, spec_u64_from_le_bytes, spec_u64_to_le_bytes,
    u16_from_le_bytes, u16_to_le_bytes, u32_from_le_bytes, u32_to_le_bytes, u64_from_le_bytes,
    u64_to_le_bytes,
};
use vstd::slice::slice_subrange;
use crate::encryptedfs::types::{FileAttr, FileType};
use crate::error::FsError;
use crate::mem_stream::append_bytes;
use crate::stream_util::{
    copy_exact, least, read, sink_outcome, sink_room_after, sink_taken, ByteSink, ByteSource,
};

verus! {

/// Length of the header of a record.
pub const HEADER_LEN: usize = 8;

/// The capability to seal bytes for an inode and to open them again.
pub trait Cipher {
    /// What `sealed` opens to for the inode `ino`; `None` where it was not
    /// sealed for that inode with this key, or was changed since. An
    /// implementation that says nothing else is taken to open nothing.
    open spec fn opened(&self, ino: u64, sealed: Seq<u8>) -> Option<Seq<u8>> {
        None
    }

    /// Seals `plain` for the inode `ino`. Two calls may give different
    /// bytes; each result opens to `plain`.
    fn seal(&self, ino: u64, plain: &[u8]) -> (sealed: Vec<u8>)
        ensures
            self.opened(ino, sealed@) == Some(plain@),
    ;

    /// Opens `sealed` for the inode `ino`; [`FsError::Corruption`] where it
    /// does not open.
    fn open(&self, ino: u64, sealed: &[u8]) -> (res: Result<Vec<u8>, FsError>)
        ensures
            match res {
                Ok(plain) => self.opened(ino, sealed@) == Some(plain@),
                Err(e) => self.opened(ino, sealed@) is None && e == FsError::Corruption,
            },
    ;
}

/// The cipher that leaves bytes as they are, for stores that are sealed by
/// other means.
pub struct Plain;

impl Cipher for Plain {
    open spec fn opened(&self, ino: u64, sealed: Seq<u8>) -> Option<Seq<u8>> {
        Some(sealed)
    }

    fn seal(&self, ino: u64, plain: &[u8]) -> (sealed: Vec<u8>) {
        let mut sealed: Vec<u8> = Vec::new();
        append_bytes(&mut sealed, plain);
        proof {
            assert(sealed@ =~= plain@);
        }
        sealed
    }

    fn open(&self, ino: u64, sealed: &[u8]) -> (res: Result<Vec<u8>, FsError>) {
        let mut plain: Vec<u8> = Vec::new();
        append_bytes(&mut plain, sealed);
        proof {
            assert(plain@ =~= sealed@);
        }
        Ok(plain)
    }
}

/// The record that holds `sealed`.
pub open spec fn framed(sealed: Seq<u8>) -> Seq<u8> {
    spec_u64_to_le_bytes(sealed.len() as u64) + sealed
}

/// The length that the header at the front of `pending` announces.
pub open spec fn announced(pending: Seq<u8>) -> u64 {
    spec_u64_from_le_bytes(pending.take(HEADER_LEN as int))
}

/// How many bytes reading one record takes from a stream: the whole record
/// where it is there, and all that is left where it is not.
pub open spec fn record_span(pending: Seq<u8>) -> int {
    if pending.len() < HEADER_LEN {
        pending.len() as int
    } else {
        least(HEADER_LEN + announced(pending), pending.len() as int)
    }
}

/// What reading one record from a stream returns: the sealed bytes where the
/// stream holds a whole record; else the failure of the stream, or
/// [`FsError::UnexpectedEndOfStream`] where it ends cleanly in the record.
pub open spec fn record_outcome(pending: Seq<u8>, fault: Option<FsError>) -> Result<Seq<u8>, FsError> {
    if pending.len() >= HEADER_LEN && pending.len() >= HEADER_LEN + announced(pending) {
        Ok(pending.subrange(HEADER_LEN as int, HEADER_LEN + announced(pending)))
    } else {
        match fault {
            Some(e) => Err(e),
            None => Err(FsError::UnexpectedEndOfStream),
        }
    }
}

/// Writes the record that holds `sealed` to `w`. A sink without room for the
/// whole record takes what fits and its failure is handed on.
pub fn write_record<W: ByteSink>(w: &mut W, sealed: &[u8]) -> (res: Result<(), FsError>)
    ensures
        res == sink_outcome(old(w).room(), old(w).fault(), framed(sealed@).len()),
        final(w).written() == old(w).written() + framed(sealed@).take(
            sink_taken(old(w).room(), framed(sealed@).len()) as int,
        ),
        final(w).room() == sink_room_after(old(w).room(), framed(sealed@).len()),
        final(w).fault() == old(w).fault(),
{
    let header: Vec<u8> = u64_to_le_bytes(sealed.len() as u64);
    let ghost record = framed(sealed@);
    proof {
        assert(record.take(HEADER_LEN as int) =~= header@);
        assert(record.skip(HEADER_LEN as int) =~= sealed@);
    }
    match w.write_all(header.as_slice()) {
        Ok(()) => {},
        Err(e) => {
            proof {
                let taken = sink_taken(old(w).room(), HEADER_LEN as nat);
                assert(header@.take(taken as int) =~= record.take(taken as int));
            }
            return Err(e);
        },
    }
    let res = w.write_all(sealed);
    proof {
        let taken = sink_taken(old(w).room(), record.len());
        assert(header@.take(HEADER_LEN as int) =~= header@);
        assert(header@ + sealed@.take(taken - HEADER_LEN) =~= record.take(taken as int));
    }
    res
}

/// Reads one record from `r` and returns the sealed bytes that it holds.
/// Where the stream ends before the record does, its failure is handed on,
/// or [`FsError::UnexpectedEndOfStream`] where it ends cleanly; nothing
/// shorter than the record is ever returned.
pub fn read_record<R: ByteSource>(r: &mut R) -> (res: Result<Vec<u8>, FsError>)
    ensures
        match res {
            Ok(sealed) => record_outcome(old(r).pending(), old(r).fault()) == Ok::<
                Seq<u8>,
                FsError,
            >(sealed@),
            Err(e) => record_outcome(old(r).pending(), old(r).fault()) == Err::<Seq<u8>, FsError>(e),
        },
        final(r).pending() == old(r).pending().skip(record_span(old(r).pending())),
        final(r).fault() == old(r).fault(),
{
    let ghost pending = old(r).pending();
    let mut header: Vec<u8> = vec![0u8; HEADER_LEN];
    let got: usize = match read(r, header.as_mut_slice()) {
        Ok(n) => n,
        Err(e) => {
            return Err(e);
        },
    };
    if got < HEADER_LEN {
        return Err(FsError::UnexpectedEndOfStream);
    }
    proof {
        assert(header@ =~= pending.take(HEADER_LEN as int));
    }
    let len: u64 = u64_from_le_bytes(header.as_slice());
    let mut sealed: Vec<u8> = Vec::new();
    match copy_exact(r, &mut sealed, len) {
        Ok(()) => {},
        Err(e) => {
            proof {
                assert(pending.skip(HEADER_LEN as int).skip(pending.len() - HEADER_LEN)
                    =~= pending.skip(pending.len() as int));
            }
            return Err(e);
        },
    }
    proof {
        assert(sealed@ =~= pending.subrange(HEADER_LEN as int, HEADER_LEN + len));
        assert(pending.skip(HEADER_LEN as int).skip(len as int) =~= pending.skip(HEADER_LEN + len));
    }
    Ok(sealed)
}

/// What loading sealed bytes for `ino` from a stream returns: what the
/// record in the stream opens to; the failure of reading it; or
/// [`FsError::Corruption`] where the record is whole and does not open.
pub open spec fn load_outcome<C: Cipher>(
    cipher: &C,
    ino: u64,
    pending: Seq<u8>,
    fault: Option<FsError>,
) -> Result<Seq<u8>, FsError> {
    match record_outcome(pending, fault) {
        Ok(sealed) => match cipher.opened(ino, sealed) {
            Some(plain) => Ok(plain),
            None => Err(FsError::Corruption),
        },
        Err(e) => Err(e),
    }
}

/// Seals `plain` for `ino` and writes it to `w` as one record. The sealed
/// bytes are the cipher's choice; whatever they are, they open to `plain`,
/// and `w` takes their record as far as it has room.
pub fn store_sealed<C: Cipher, W: ByteSink>(cipher: &C, ino: u64, plain: &[u8], w: &mut W) -> (res:
    Result<(), FsError>)
    ensures
        final(w).fault() == old(w).fault(),
        exists|sealed: Seq<u8>|
            {
                &&& #[trigger] cipher.opened(ino, sealed) == Some(plain@)
                &&& sealed.len() <= usize::MAX
                &&& res == sink_outcome(old(w).room(), old(w).fault(), framed(sealed).len())
                &&& final(w).written() == old(w).written() + framed(sealed).take(
                    sink_taken(old(w).room(), framed(sealed).len()) as int,
                )
                &&& final(w).room() == sink_room_after(old(w).room(), framed(sealed).len())
            },
{
    let sealed: Vec<u8> = cipher.seal(ino, plain);
    let ghost len = sealed.len();
    let res = write_record(w, sealed.as_slice());
    proof {
        let s = sealed@;
        assert(s.len() == len);
        assert(cipher.opened(ino, s) == Some(plain@));
        assert(s.len() <= usize::MAX);
        assert(res == sink_outcome(old(w).room(), old(w).fault(), framed(s).len()));
        assert(w.written() == old(w).written() + framed(s).take(
            sink_taken(old(w).room(), framed(s).len()) as int,
        ));
        assert(w.room() == sink_room_after(old(w).room(), framed(s).len()));
    }
    res
}

/// Reads one record from `r` and opens it for `ino`. A record that is cut
/// short or does not open is an error, never empty or partial content.
pub fn load_sealed<C: Cipher, R: ByteSource>(cipher: &C, ino: u64, r: &mut R) -> (res: Result<
    Vec<u8>,
    FsError,
>)
    ensures
        match res {
            Ok(plain) => load_outcome(cipher, ino, old(r).pending(), old(r).fault()) == Ok::<
                Seq<u8>,
                FsError,
            >(plain@),
            Err(e) => load_outcome(cipher, ino, old(r).pending(), old(r).fault()) == Err::<
                Seq<u8>,
                FsError,
            >(e),
        },
        final(r).pending() == old(r).pending().skip(record_span(old(r).pending())),
        final(r).fault() == old(r).fault(),
{
    let sealed: Vec<u8> = match read_record(r) {
        Ok(sealed) => sealed,
        Err(e) => {
            return Err(e);
        },
    };
    cipher.open(ino, sealed.as_slice())
}

/// What was stored is what is loaded: a stream that holds the record of
/// sealed bytes, followed by anything, yields those bytes and what they open
/// to, and reading stops at the end of the record.
pub proof fn lemma_record_round_trip<C: Cipher>(
    cipher: &C,
    ino: u64,
    plain: Seq<u8>,
    sealed: Seq<u8>,
    rest: Seq<u8>,
    fault: Option<FsError>,
)
    requires
        cipher.opened(ino, sealed) == Some(plain),
        sealed.len() <= u64::MAX,
    ensures
        record_outcome(framed(sealed) + rest, fault) == Ok::<Seq<u8>, FsError>(sealed),
        record_span(framed(sealed) + rest) == framed(sealed).len(),
        load_outcome(cipher, ino, framed(sealed) + rest, fault) == Ok::<Seq<u8>, FsError>(plain),
        (framed(sealed) + rest).skip(record_span(framed(sealed) + rest)) == rest,
{
    lemma_auto_spec_u64_to_from_le_bytes();
    let stream = framed(sealed) + rest;
    let header = spec_u64_to_le_bytes(sealed.len() as u64);
    assert(stream.take(HEADER_LEN as int) =~= header);
    assert(announced(stream) == sealed.len());
    assert(stream.subrange(HEADER_LEN as int, HEADER_LEN + sealed.len()) =~= sealed);
    assert(stream.skip(framed(sealed).len() as int) =~= rest);
}

/// A record that was cut short is never taken for a shorter one: a stream
/// that ends cleanly inside a record yields
/// [`FsError::UnexpectedEndOfStream`].
pub proof fn lemma_cut_record_fails(sealed: Seq<u8>, kept: int)
    requires
        sealed.len() <= u64::MAX,
        0 <= kept < framed(sealed).len(),
    ensures
        record_outcome(framed(sealed).take(kept), None) == Err::<Seq<u8>, FsError>(
            FsError::UnexpectedEndOfStream,
        ),
{
    lemma_auto_spec_u64_to_from_le_bytes();
    let header = spec_u64_to_le_bytes(sealed.len() as u64);
    let stream = framed(sealed).take(kept);
    if kept >= HEADER_LEN {
        assert(stream.take(HEADER_LEN as int) =~= header);
        assert(announced(stream) == sealed.len());
    }
}

/// Length of the plain form of an attribute record.
pub const ATTR_LEN: usize = 55;

/// The byte that stands for a kind in an attribute record.
pub open spec fn kind_tag(kind: FileType) -> u8 {
    match kind {
        FileType::RegularFile => 1,
        FileType::Directory => 2,
        FileType::Symlink => 3,
    }
}

/// The kind that a byte of an attribute record stands for.
pub open spec fn tagged_kind(tag: u8) -> Option<FileType> {
    if tag == 1 {
        Some(FileType::RegularFile)
    } else if tag == 2 {
        Some(FileType::Directory)
    } else if tag == 3 {
        Some(FileType::Symlink)
    } else {
        None
    }
}

/// The plain form of an attribute record: every field in a fixed place,
/// numbers with the low byte first. In order: number (8 bytes), kind (1),
/// size (8), permissions (2), owner (4), group (4), the times of access, of
/// change and of creation (8 each), link count (4).
pub open spec fn attr_bytes(attr: FileAttr) -> Seq<u8> {
    spec_u64_to_le_bytes(attr.ino) + seq![kind_tag(attr.kind)] + spec_u64_to_le_bytes(attr.size)
        + spec_u16_to_le_bytes(attr.perm) + spec_u32_to_le_bytes(attr.uid) + spec_u32_to_le_bytes(
        attr.gid,
    ) + spec_u64_to_le_bytes(attr.atime) + spec_u64_to_le_bytes(attr.mtime)
        + spec_u64_to_le_bytes(attr.crtime) + spec_u32_to_le_bytes(attr.nlink)
}

/// The attributes that `bytes` are the plain form of; `None` where they are
/// not of the length of a record or name no kind.
pub open spec fn parsed_attr(bytes: Seq<u8>) -> Option<FileAttr> {
    if bytes.len() != ATTR_LEN {
        None
    } else {
        match tagged_kind(bytes[8]) {
            None => None,
            Some(kind) => Some(
                FileAttr {
                    ino: spec_u64_from_le_bytes(bytes.subrange(0, 8)),
                    kind,
                    size: spec_u64_from_le_bytes(bytes.subrange(9, 17)),
                    perm: spec_u16_from_le_bytes(bytes.subrange(17, 19)),
                    uid: spec_u32_from_le_bytes(bytes.subrange(19, 23)),
                    gid: spec_u32_from_le_bytes(bytes.subrange(23, 27)),
                    atime: spec_u64_from_le_bytes(bytes.subrange(27, 35)),
                    mtime: spec_u64_from_le_bytes(bytes.subrange(35, 43)),
                    crtime: spec_u64_from_le_bytes(bytes.subrange(43, 51)),
                    nlink: spec_u32_from_le_bytes(bytes.subrange(51, 55)),
                },
            ),
        }
    }
}

/// An attribute record reads back as the attributes it was made from.
pub proof fn lemma_attr_round_trip(attr: FileAttr)
    ensures
        attr_bytes(attr).len() == ATTR_LEN,
        parsed_attr(attr_bytes(attr)) == Some(attr),
{
    lemma_auto_spec_u16_to_from_le_bytes();
    lemma_auto_spec_u32_to_from_le_bytes();
    lemma_auto_spec_u64_to_from_le_bytes();
    let b = attr_bytes(attr);
    assert(b.len() == ATTR_LEN);
    assert(b.subrange(0, 8) =~= spec_u64_to_le_bytes(attr.ino));
    assert(b[8] == kind_tag(attr.kind));
    assert(b.subrange(9, 17) =~= spec_u64_to_le_bytes(attr.size));
    assert(b.subrange(17, 19) =~= spec_u16_to_le_bytes(attr.perm));
    assert(b.subrange(19, 23) =~= spec_u32_to_le_bytes(attr.uid));
    assert(b.subrange(23, 27) =~= spec_u32_to_le_bytes(attr.gid));
    assert(b.subrange(27, 35) =~= spec_u64_to_le_bytes(attr.atime));
    assert(b.subrange(35, 43) =~= spec_u64_to_le_bytes(attr.mtime));
    assert(b.subrange(43, 51) =~= spec_u64_to_le_bytes(attr.crtime));
    assert(b.subrange(51, 55) =~= spec_u32_to_le_bytes(attr.nlink));
}

/// Attributes have one plain form only: bytes that read as attributes are
/// the record of those attributes.
pub proof fn lemma_attr_form_is_unique(bytes: Seq<u8>)
    requires
        parsed_attr(bytes) is Some,
    ensures
        attr_bytes(parsed_attr(bytes)->Some_0) == bytes,
{
    lemma_auto_spec_u16_to_from_le_bytes();
    lemma_auto_spec_u32_to_from_le_bytes();
    lemma_auto_spec_u64_to_from_le_bytes();
    let attr = parsed_attr(bytes)->Some_0;
    assert(spec_u64_to_le_bytes(attr.ino) == bytes.subrange(0, 8));
    assert(seq![kind_tag(attr.kind)] =~= bytes.subrange(8, 9));
    assert(spec_u64_to_le_bytes(attr.size) == bytes.subrange(9, 17));
    assert(spec_u16_to_le_bytes(attr.perm) == bytes.subrange(17, 19));
    assert(spec_u32_to_le_bytes(attr.uid) == bytes.subrange(19, 23));
    assert(spec_u32_to_le_bytes(attr.gid) == bytes.subrange(23, 27));
    assert(spec_u64_to_le_bytes(attr.atime) == bytes.subrange(27, 35));
    assert(spec_u64_to_le_bytes(attr.mtime) == bytes.subrange(35, 43));
    assert(spec_u64_to_le_bytes(attr.crtime) == bytes.subrange(43, 51));
    assert(spec_u32_to_le_bytes(attr.nlink) == bytes.subrange(51, 55));
    assert(attr_bytes(attr) =~= bytes);
}

/// The plain form of the record of `attr`.
pub fn encode_attr(attr: &FileAttr) -> (bytes: Vec<u8>)
    ensures
        bytes@ == attr_bytes(*attr),
        bytes@.len() == ATTR_LEN,
{
    let mut bytes: Vec<u8> = u64_to_le_bytes(attr.ino);
    bytes.push(
        match attr.kind {
            FileType::RegularFile => 1u8,
            FileType::Directory => 2u8,
            FileType::Symlink => 3u8,
        },
    );
    append_bytes(&mut bytes, u64_to_le_bytes(attr.size).as_slice());
    append_bytes(&mut bytes, u16_to_le_bytes(attr.perm).as_slice());
    append_bytes(&mut bytes, u32_to_le_bytes(attr.uid).as_slice());
    append_bytes(&mut bytes, u32_to_le_bytes(attr.gid).as_slice());
    append_bytes(&mut bytes, u64_to_le_bytes(attr.atime).as_slice());
    append_bytes(&mut bytes, u64_to_le_bytes(attr.mtime).as_slice());
    append_bytes(&mut bytes, u64_to_le_bytes(attr.crtime).as_slice());
    append_bytes(&mut bytes, u32_to_le_bytes(attr.nlink).as_slice());
    proof {
        lemma_attr_round_trip(*attr);
        assert(bytes@ =~= attr_bytes(*attr));
    }
    bytes
}

/// The attributes that `bytes` are the record of; [`FsError::Corruption`]
/// where they are not the record of any.
pub fn decode_attr(bytes: &[u8]) -> (res: Result<FileAttr, FsError>)
    ensures
        res == match parsed_attr(bytes@) {
            Some(attr) => Ok::<FileAttr, FsError>(attr),
            None => Err::<FileAttr, FsError>(FsError::Corruption),
        },
{
    if bytes.len() != ATTR_LEN {
        return Err(FsError::Corruption);
    }
    let tag: u8 = bytes[8];
    let kind: FileType = if tag == 1 {
        FileType::RegularFile
    } else if tag == 2 {
        FileType::Directory
    } else if tag == 3 {
        FileType::Symlink
    } else {
        return Err(FsError::Corruption);
    };
    Ok(
        FileAttr {
            ino: u64_from_le_bytes(slice_subrange(bytes, 0, 8)),
            kind,
            size: u64_from_le_bytes(slice_subrange(bytes, 9, 17)),
            perm: u16_from_le_bytes(slice_subrange(bytes, 17, 19)),
            uid: u32_from_le_bytes(slice_subrange(bytes, 19, 23)),
            gid: u32_from_le_bytes(slice_subrange(bytes, 23, 27)),
            atime: u64_from_le_bytes(slice_subrange(bytes, 27, 35)),
            mtime: u64_from_le_bytes(slice_subrange(bytes, 35, 43)),
            crtime: u64_from_le_bytes(slice_subrange(bytes, 43, 51)),
            nlink: u32_from_le_bytes(slice_subrange(bytes, 51, 55)),
        },
    )
}

/// What loading the attributes of `ino` from a stream returns: the
/// attributes that the record in the stream opens to; the failure of
/// reading it; or [`FsError::Corruption`] where the record does not open,
/// is not the record of any attributes, or is that of another inode.
pub open spec fn attr_load_outcome<C: Cipher>(
    cipher: &C,
    ino: u64,
    pending: Seq<u8>,
    fault: Option<FsError>,
) -> Result<FileAttr, FsError> {
    match load_outcome(cipher, ino, pending, fault) {
        Ok(plain) => match parsed_attr(plain) {
            Some(attr) => if attr.ino == ino {
                Ok(attr)
            } else {
                Err(FsError::Corruption)
            },
            None => Err(FsError::Corruption),
        },
        Err(e) => Err(e),
    }
}

/// Seals `attr` for its inode and writes it to `w` as one record. The sealed
/// bytes are the cipher's choice; whatever they are, they open to the plain
/// form of `attr`, and `w` takes their record as far as it has room.
pub fn store_attr<C: Cipher, W: ByteSink>(cipher: &C, attr: &FileAttr, w: &mut W) -> (res: Result<
    (),
    FsError,
>)
    ensures
        final(w).fault() == old(w).fault(),
        exists|sealed: Seq<u8>|
            {
                &&& #[trigger] cipher.opened(attr.ino, sealed) == Some(attr_bytes(*attr))
                &&& sealed.len() <= usize::MAX
                &&& res == sink_outcome(old(w).room(), old(w).fault(), framed(sealed).len())
                &&& final(w).written() == old(w).written() + framed(sealed).take(
                    sink_taken(old(w).room(), framed(sealed).len()) as int,
                )
                &&& final(w).room() == sink_room_after(old(w).room(), framed(sealed).len())
            },
{
    let plain: Vec<u8> = encode_attr(attr);
    store_sealed(cipher, attr.ino, plain.as_slice(), w)
}

/// Reads one record from `r`, opens it for `ino` and returns the attributes
/// it holds. A record that is cut short, does not open, or holds anything
/// but the attributes of `ino` is an error, never attributes made up.
pub fn load_attr<C: Cipher, R: ByteSource>(cipher: &C, ino: u64, r: &mut R) -> (res: Result<
    FileAttr,
    FsError,
>)
    ensures
        res == attr_load_outcome(cipher, ino, old(r).pending(), old(r).fault()),
        final(r).pending() == old(r).pending().skip(record_span(old(r).pending())),
        final(r).fault() == old(r).fault(),
{
    let plain: Vec<u8> = match load_sealed(cipher, ino, r) {
        Ok(plain) => plain,
        Err(e) => {
            return Err(e);
        },
    };
    let attr: FileAttr = match decode_attr(plain.as_slice()) {
        Ok(attr) => attr,
        Err(e) => {
            return Err(e);
        },
    };
    if attr.ino != ino {
        return Err(FsError::Corruption);
    }
    Ok(attr)
}

/// Stored attributes load as they were stored: a stream that holds the
/// record of sealed bytes which open to the plain form of `attr`, followed
/// by anything, yields `attr`.
pub proof fn lemma_attr_record_round_trip<C: Cipher>(
    cipher: &C,
    attr: FileAttr,
    sealed: Seq<u8>,
    rest: Seq<u8>,
    fault: Option<FsError>,
)
    requires
        cipher.opened(attr.ino, sealed) == Some(attr_bytes(attr)),
        sealed.len() <= u64::MAX,
    ensures
        attr_load_outcome(cipher, attr.ino, framed(sealed) + rest, fault) == Ok::<
            FileAttr,
            FsError,
        >(attr),
{
    lemma_record_round_trip(cipher, attr.ino, attr_bytes(attr), sealed, rest, fault);
    lemma_attr_round_trip(attr);
}

} // verus!
