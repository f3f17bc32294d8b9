//! The plain form of the entries of a directory, as it is sealed into a
//! record.
//!
//! The entries follow one another without gaps. Each is the number of the
//! inode it points to (8 bytes, low byte first), the kind (1 byte), the
//! length of the name in bytes (8 bytes, low byte first), and the name in
//! UTF-8.

use vstd::prelude::*;
use vstd::bytes::{
    lemma_auto_spec_u64_to_from_le_bytes, spec_u64_from_le_bytes, spec_u64_to_le_bytes,
    u64_from_le_bytes, u64_to_le_bytes,
};
use vstd::slice::{slice_subrange, slice_to_vec};
use vstd::utf8::{
    decode_utf8, encode_utf8, encode_utf8_decode_utf8, encode_utf8_valid_utf8, valid_utf8,
};
use crate::error::FsError;
use crate::mem_stream::append_bytes;
use crate::encryptedfs::dir_table::entries_view;
use crate::encryptedfs::record::{
    framed, kind_tag, lemma_record_round_trip, load_outcome, load_sealed, record_span,
    store_sealed, tagged_kind, Cipher,
};
use crate::stream_util::{sink_outcome, sink_room_after, sink_taken, ByteSink, ByteSource};
use crate::encryptedfs::types::{DirectoryEntry, EntryView, FileType};

verus! {

/// Length of what stands before the name in the plain form of an entry.
pub const ENTRY_HEAD_LEN: usize = 17;

/// The text that `bytes` encode in UTF-8, from `String::from_utf8`; `None`
/// where they are not valid UTF-8.
#[verifier::external_body]
fn text_from_utf8(bytes: Vec<u8>) -> (res: Option<String>)
    ensures
        match res {
            Some(text) => valid_utf8(bytes@) && text@ == decode_utf8(bytes@),
            None => !valid_utf8(bytes@),
        },
{
    String::from_utf8(bytes).ok()
}

/// The plain form of one entry.
pub open spec fn entry_bytes(entry: EntryView) -> Seq<u8> {
    spec_u64_to_le_bytes(entry.ino) + seq![kind_tag(entry.kind)] + spec_u64_to_le_bytes(
        encode_utf8(entry.name).len() as u64,
    ) + encode_utf8(entry.name)
}

/// The plain form of the entries of a directory.
pub open spec fn entries_bytes(entries: Seq<EntryView>) -> Seq<u8>
    decreases entries.len(),
{
    if entries.len() == 0 {
        Seq::empty()
    } else {
        entry_bytes(entries[0]) + entries_bytes(entries.drop_first())
    }
}

/// The length of the name that the head of an entry at the front of `bytes`
/// announces.
pub open spec fn announced_name_len(bytes: Seq<u8>) -> u64 {
    spec_u64_from_le_bytes(bytes.subrange(9, ENTRY_HEAD_LEN as int))
}

/// Whether `bytes` begin with the plain form of an entry.
pub open spec fn begins_with_entry(bytes: Seq<u8>) -> bool {
    &&& bytes.len() >= ENTRY_HEAD_LEN
    &&& tagged_kind(bytes[8]) is Some
    &&& bytes.len() >= ENTRY_HEAD_LEN + announced_name_len(bytes)
    &&& valid_utf8(bytes.subrange(ENTRY_HEAD_LEN as int, ENTRY_HEAD_LEN + announced_name_len(bytes)))
}

/// The entry that `bytes` begin with.
pub open spec fn first_entry(bytes: Seq<u8>) -> EntryView {
    EntryView {
        ino: spec_u64_from_le_bytes(bytes.subrange(0, 8)),
        name: decode_utf8(
            bytes.subrange(ENTRY_HEAD_LEN as int, ENTRY_HEAD_LEN + announced_name_len(bytes)),
        ),
        kind: tagged_kind(bytes[8])->Some_0,
    }
}

/// The entries that `bytes` are the plain form of; `None` where they are
/// not the plain form of any.
pub open spec fn parsed_entries(bytes: Seq<u8>) -> Option<Seq<EntryView>>
    decreases bytes.len(),
{
    if bytes.len() == 0 {
        Some(Seq::empty())
    } else if !begins_with_entry(bytes) {
        None
    } else {
        match parsed_entries(bytes.skip(ENTRY_HEAD_LEN + announced_name_len(bytes))) {
            Some(rest) => Some(seq![first_entry(bytes)] + rest),
            None => None,
        }
    }
}

/// Bytes that begin with the plain form of an entry begin with that entry.
pub proof fn lemma_first_entry(entry: EntryView, rest: Seq<u8>)
    requires
        encode_utf8(entry.name).len() <= u64::MAX,
    ensures
        begins_with_entry(entry_bytes(entry) + rest),
        first_entry(entry_bytes(entry) + rest) == entry,
        ENTRY_HEAD_LEN + announced_name_len(entry_bytes(entry) + rest) == entry_bytes(entry).len(),
        (entry_bytes(entry) + rest).skip(entry_bytes(entry).len() as int) == rest,
{
    lemma_auto_spec_u64_to_from_le_bytes();
    encode_utf8_valid_utf8(entry.name);
    encode_utf8_decode_utf8(entry.name);
    let name = encode_utf8(entry.name);
    let bytes = entry_bytes(entry) + rest;
    assert(bytes.subrange(0, 8) =~= spec_u64_to_le_bytes(entry.ino));
    assert(bytes[8] == kind_tag(entry.kind));
    assert(bytes.subrange(9, ENTRY_HEAD_LEN as int) =~= spec_u64_to_le_bytes(name.len() as u64));
    assert(announced_name_len(bytes) == name.len());
    assert(bytes.subrange(ENTRY_HEAD_LEN as int, ENTRY_HEAD_LEN + name.len()) =~= name);
    assert(bytes.skip(entry_bytes(entry).len() as int) =~= rest);
}

/// The plain form of entries reads back as the entries it was made from.
pub proof fn lemma_entries_round_trip(entries: Seq<EntryView>)
    requires
        forall|i: int|
            0 <= i < entries.len() ==> encode_utf8((#[trigger] entries[i]).name).len() <= u64::MAX,
    ensures
        parsed_entries(entries_bytes(entries)) == Some(entries),
    decreases entries.len(),
{
    if entries.len() == 0 {
        assert(entries =~= Seq::<EntryView>::empty());
    } else {
        let rest = entries.drop_first();
        assert forall|i: int| 0 <= i < rest.len() implies encode_utf8(
            (#[trigger] rest[i]).name,
        ).len() <= u64::MAX by {
            assert(rest[i] == entries[i + 1]);
        }
        lemma_entries_round_trip(rest);
        lemma_first_entry(entries[0], entries_bytes(rest));
        assert(seq![entries[0]] + rest =~= entries);
    }
}

/// The plain form of entries with one more at the end is the plain form of
/// the entries followed by that of the one.
pub proof fn lemma_entries_bytes_push(entries: Seq<EntryView>, entry: EntryView)
    ensures
        entries_bytes(entries.push(entry)) == entries_bytes(entries) + entry_bytes(entry),
    decreases entries.len(),
{
    if entries.len() == 0 {
        let one = entries.push(entry);
        assert(one.drop_first() =~= Seq::<EntryView>::empty());
        assert(entries_bytes(one.drop_first()) =~= Seq::<u8>::empty());
        assert(one[0] == entry);
        assert(entries_bytes(one) == entry_bytes(one[0]) + entries_bytes(one.drop_first()));
        assert(entries_bytes(entries) =~= Seq::<u8>::empty());
        assert(entries_bytes(entries.push(entry)) =~= entry_bytes(entry) + Seq::<u8>::empty());
        assert(entries_bytes(entries) + entry_bytes(entry) =~= entry_bytes(entry));
    } else {
        lemma_entries_bytes_push(entries.drop_first(), entry);
        assert(entries.push(entry).drop_first() =~= entries.drop_first().push(entry));
        assert(entries_bytes(entries.push(entry)) =~= entries_bytes(entries) + entry_bytes(entry));
    }
}

/// The plain form of `entries`.
pub fn encode_entries(entries: &Vec<DirectoryEntry>) -> (bytes: Vec<u8>)
    ensures
        bytes@ == entries_bytes(entries_view(entries@)),
{
    let mut bytes: Vec<u8> = Vec::new();
    let mut i: usize = 0;
    while i < entries.len()
        invariant
            i <= entries@.len(),
            bytes@ == entries_bytes(entries_view(entries@).take(i as int)),
        decreases entries@.len() - i,
    {
        let entry: &DirectoryEntry = &entries[i];
        let name: &[u8] = entry.name.as_str().as_bytes();
        let ghost before = bytes@;
        append_bytes(&mut bytes, u64_to_le_bytes(entry.ino).as_slice());
        bytes.push(
            match entry.kind {
                FileType::RegularFile => 1u8,
                FileType::Directory => 2u8,
                FileType::Symlink => 3u8,
            },
        );
        append_bytes(&mut bytes, u64_to_le_bytes(name.len() as u64).as_slice());
        append_bytes(&mut bytes, name);
        proof {
            let all = entries_view(entries@);
            assert(all[i as int] == entry@);
            assert(bytes@ =~= before + entry_bytes(entry@));
            lemma_entries_bytes_push(all.take(i as int), entry@);
            assert(all.take(i as int).push(entry@) =~= all.take(i + 1));
        }
        i += 1;
    }
    proof {
        assert(entries_view(entries@).take(entries@.len() as int) =~= entries_view(entries@));
    }
    bytes
}

/// What is still to read joined to what was read: the entries read so far
/// followed by the entries of the rest, where the rest has any.
pub open spec fn joined(done: Seq<EntryView>, rest: Option<Seq<EntryView>>) -> Option<
    Seq<EntryView>,
> {
    match rest {
        Some(more) => Some(done + more),
        None => None,
    }
}

/// The entries that `bytes` are the plain form of;
/// [`FsError::Corruption`] where they are not the plain form of any.
pub fn decode_entries(bytes: &[u8]) -> (res: Result<Vec<DirectoryEntry>, FsError>)
    ensures
        match res {
            Ok(list) => parsed_entries(bytes@) == Some(entries_view(list@)),
            Err(e) => parsed_entries(bytes@) is None && e == FsError::Corruption,
        },
{
    let total: usize = bytes.len();
    let mut list: Vec<DirectoryEntry> = Vec::new();
    let mut pos: usize = 0;
    proof {
        assert(bytes@.skip(0) =~= bytes@);
        assert(entries_view(list@) =~= Seq::<EntryView>::empty());
        assert(match parsed_entries(bytes@) {
            Some(all) => Seq::<EntryView>::empty() + all =~= all,
            None => true,
        });
    }
    while pos < total
        invariant
            total == bytes@.len(),
            pos <= total,
            parsed_entries(bytes@) == joined(
                entries_view(list@),
                parsed_entries(bytes@.skip(pos as int)),
            ),
        decreases total - pos,
    {
        let ghost rest = bytes@.skip(pos as int);
        let ghost done = entries_view(list@);
        if total - pos < ENTRY_HEAD_LEN {
            return Err(FsError::Corruption);
        }
        proof {
            assert(rest.subrange(0, 8) =~= bytes@.subrange(pos as int, pos + 8));
            assert(rest.subrange(9, ENTRY_HEAD_LEN as int) =~= bytes@.subrange(
                pos + 9,
                pos + ENTRY_HEAD_LEN,
            ));
            assert(rest[8] == bytes@[pos + 8]);
        }
        let ino: u64 = u64_from_le_bytes(slice_subrange(bytes, pos, pos + 8));
        let tag: u8 = bytes[pos + 8];
        let kind: FileType = if tag == 1 {
            FileType::RegularFile
        } else if tag == 2 {
            FileType::Directory
        } else if tag == 3 {
            FileType::Symlink
        } else {
            return Err(FsError::Corruption);
        };
        let name_len: u64 = u64_from_le_bytes(slice_subrange(bytes, pos + 9, pos + ENTRY_HEAD_LEN));
        if name_len > (total - pos - ENTRY_HEAD_LEN) as u64 {
            return Err(FsError::Corruption);
        }
        let start: usize = pos + ENTRY_HEAD_LEN;
        let end: usize = start + name_len as usize;
        proof {
            assert(rest.subrange(ENTRY_HEAD_LEN as int, ENTRY_HEAD_LEN + name_len) =~= bytes@.subrange(
                start as int,
                end as int,
            ));
        }
        let name: String = match text_from_utf8(slice_to_vec(slice_subrange(bytes, start, end))) {
            Some(name) => name,
            None => {
                return Err(FsError::Corruption);
            },
        };
        list.push(DirectoryEntry { ino, name, kind });
        proof {
            assert(begins_with_entry(rest));
            assert(rest.skip(ENTRY_HEAD_LEN + name_len) =~= bytes@.skip(end as int));
            assert(entries_view(list@) =~= done.push(first_entry(rest)));
            match parsed_entries(bytes@.skip(end as int)) {
                Some(more) => {
                    assert(done.push(first_entry(rest)) + more =~= done + (seq![first_entry(rest)]
                        + more));
                },
                None => {},
            }
        }
        pos = end;
    }
    proof {
        assert(bytes@.skip(pos as int) =~= Seq::<u8>::empty());
        assert(entries_view(list@) + Seq::<EntryView>::empty() =~= entries_view(list@));
    }
    Ok(list)
}

/// What loading the entries of the directory `ino` from a stream returns:
/// the entries that the record in the stream opens to; the failure of
/// reading it; or [`FsError::Corruption`] where the record does not open or
/// is not the record of any entries.
pub open spec fn entries_load_outcome<C: Cipher>(
    cipher: &C,
    ino: u64,
    pending: Seq<u8>,
    fault: Option<FsError>,
) -> Result<Seq<EntryView>, FsError> {
    match load_outcome(cipher, ino, pending, fault) {
        Ok(plain) => match parsed_entries(plain) {
            Some(entries) => Ok(entries),
            None => Err(FsError::Corruption),
        },
        Err(e) => Err(e),
    }
}

/// Seals the entries of the directory `ino` and writes them to `w` as one
/// record. The sealed bytes are the cipher's choice; whatever they are, they
/// open to the plain form of the entries, and `w` takes their record as far
/// as it has room.
pub fn store_entries<C: Cipher, W: ByteSink>(
    cipher: &C,
    ino: u64,
    entries: &Vec<DirectoryEntry>,
    w: &mut W,
) -> (res: Result<(), FsError>)
    ensures
        final(w).fault() == old(w).fault(),
        exists|sealed: Seq<u8>|
            {
                &&& #[trigger] cipher.opened(ino, sealed) == Some(
                    entries_bytes(entries_view(entries@)),
                )
                &&& sealed.len() <= usize::MAX
                &&& res == sink_outcome(old(w).room(), old(w).fault(), framed(sealed).len())
                &&& final(w).written() == old(w).written() + framed(sealed).take(
                    sink_taken(old(w).room(), framed(sealed).len()) as int,
                )
                &&& final(w).room() == sink_room_after(old(w).room(), framed(sealed).len())
            },
{
    let plain: Vec<u8> = encode_entries(entries);
    store_sealed(cipher, ino, plain.as_slice(), w)
}

/// Reads one record from `r`, opens it for the directory `ino` and returns
/// the entries it holds. A record that is cut short, does not open, or
/// holds anything but entries is an error, never a shorter listing.
pub fn load_entries<C: Cipher, R: ByteSource>(cipher: &C, ino: u64, r: &mut R) -> (res: Result<
    Vec<DirectoryEntry>,
    FsError,
>)
    ensures
        match res {
            Ok(list) => entries_load_outcome(cipher, ino, old(r).pending(), old(r).fault()) == Ok::<
                Seq<EntryView>,
                FsError,
            >(entries_view(list@)),
            Err(e) => entries_load_outcome(cipher, ino, old(r).pending(), old(r).fault()) == Err::<
                Seq<EntryView>,
                FsError,
            >(e),
        },
        final(r).pending() == old(r).pending().skip(record_span(old(r).pending())),
        final(r).fault() == old(r).fault(),
{
    let plain: Vec<u8> = match load_sealed(cipher, ino, r) {
        Ok(plain) => plain,
        Err(e) => {
            return Err(e);
        },
    };
    decode_entries(plain.as_slice())
}

/// Stored entries load as they were stored: a stream that holds the record
/// of sealed bytes which open to the plain form of `entries`, followed by
/// anything, yields `entries`.
pub proof fn lemma_entries_record_round_trip<C: Cipher>(
    cipher: &C,
    ino: u64,
    entries: Seq<EntryView>,
    sealed: Seq<u8>,
    rest: Seq<u8>,
    fault: Option<FsError>,
)
    requires
        cipher.opened(ino, sealed) == Some(entries_bytes(entries)),
        sealed.len() <= u64::MAX,
        forall|i: int|
            0 <= i < entries.len() ==> encode_utf8((#[trigger] entries[i]).name).len() <= u64::MAX,
    ensures
        entries_load_outcome(cipher, ino, framed(sealed) + rest, fault) == Ok::<
            Seq<EntryView>,
            FsError,
        >(entries),
{
    lemma_record_round_trip(cipher, ino, entries_bytes(entries), sealed, rest, fault);
    lemma_entries_round_trip(entries);
}

} // verus!
