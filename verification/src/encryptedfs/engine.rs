//! The engine: the one entry point to inodes, directories and content.
//!
//! An operation either succeeds as a whole or leaves the engine as it was.
//! Mutating operations take the engine exclusively, so that no reader ever
//! sees an entry without its inode or an inode without its entry.

use vstd::prelude::*;
use std::collections::HashMap;
use crate::error::FsError;
use crate::encryptedfs::content::{read_span, resized, written_at, ContentStore};
use crate::encryptedfs::dir_table::{entries_view, has_name, DirectoryTable};
use crate::encryptedfs::inode_store::InodeStore;
use crate::encryptedfs::record::{
    attr_bytes, framed, load_outcome, load_sealed, record_span, store_attr, store_sealed, Cipher,
};
use crate::stream_util::{sink_outcome, sink_room_after, sink_taken, ByteSink, ByteSource};
use crate::encryptedfs::consistency::{
    lemma_ancestor_past_root, lemma_ancestor_step, lemma_create_valid, lemma_initial_valid,
    lemma_move_valid, lemma_remove_valid, lemma_rename_target_removed, lemma_root_has_no_parent,
    lemma_unlink, lemma_update_valid, lemma_with_content_valid,
};
use crate::encryptedfs::dir_record::{entries_bytes, store_entries};
use crate::encryptedfs::dir_table::position_of;
use crate::encryptedfs::state::FsState;
use crate::encryptedfs::types::{
    CreateFileAttr, DirectoryEntry, DirectoryEntryPlus, EntryPlusView, FileAttr, FileType,
    SetFileAttr, ROOT_INODE, ROOT_PERM,
};

verus! {

broadcast use vstd::std_specs::hash::group_hash_axioms;

/// The entries with attributes in the form that contracts speak of.
pub open spec fn entries_plus_view(entries: Seq<DirectoryEntryPlus>) -> Seq<EntryPlusView> {
    entries.map_values(|e: DirectoryEntryPlus| e@)
}

fn is_directory(kind: FileType) -> (res: bool)
    ensures
        res == (kind == FileType::Directory),
{
    match kind {
        FileType::Directory => true,
        _ => false,
    }
}

/// What a rename that can be done has to do.
enum Rename {
    /// Nothing: the entry is renamed to itself.
    Keep,
    /// Move the entry, which points to this inode of this kind.
    Move(u64, FileType),
    /// Remove what the new name points to, then move the entry.
    Replace(u64, FileType),
}

/// An encrypted filesystem's inodes, directories and file contents.
pub struct EncryptedFs {
    inodes: InodeStore,
    dirs: DirectoryTable,
    contents: ContentStore,
    /// For each inode with an entry, the directory that holds the entry.
    parents: HashMap<u64, u64>,
}

impl View for EncryptedFs {
    type V = FsState;

    closed spec fn view(&self) -> FsState {
        FsState {
            attrs: self.inodes.attrs(),
            next_ino: self.inodes.next_ino(),
            dirs: self.dirs@,
            files: self.contents@,
            parents: self.parents@,
        }
    }
}

impl EncryptedFs {
    /// The engine is consistent.
    pub open spec fn wf(&self) -> bool {
        self@.valid()
    }

    /// An engine that holds the root directory and nothing else.
    pub fn new() -> (fs: Self)
        ensures
            fs.wf(),
            fs@ == FsState::initial(),
    {
        let mut inodes = InodeStore::new();
        let _ = inodes.create_inode(
            CreateFileAttr { kind: FileType::Directory, perm: ROOT_PERM, uid: 0, gid: 0, time: 0 },
        );
        let mut dirs = DirectoryTable::new();
        dirs.add_directory(ROOT_INODE);
        let fs = EncryptedFs { inodes, dirs, contents: ContentStore::new(), parents: HashMap::new() };
        proof {
            lemma_initial_valid();
            assert(fs@.attrs =~= FsState::initial().attrs);
            assert(fs@.dirs =~= FsState::initial().dirs);
            assert(fs@.files =~= FsState::initial().files);
            assert(fs@.parents =~= FsState::initial().parents);
        }
        fs
    }

    /// The attributes of `ino`, or [`FsError::NotFound`].
    pub fn get_inode(&self, ino: u64) -> (res: Result<FileAttr, FsError>)
        ensures
            res == if self@.attrs.contains_key(ino) {
                Ok::<FileAttr, FsError>(self@.attrs[ino])
            } else {
                Err::<FileAttr, FsError>(FsError::NotFound)
            },
    {
        self.inodes.get_inode(ino)
    }

    /// Whether `parent` is a directory with an entry under `name`. No
    /// attributes are looked at.
    pub fn exists_by_name(&self, parent: u64, name: &str) -> (res: bool)
        ensures
            res == self@.has_entry(parent, name@),
    {
        self.dirs.exists_by_name(parent, name)
    }

    /// The inode and kind that `name` under `parent` points to.
    /// [`FsError::NotFound`] where `parent` does not exist or has no such
    /// entry, [`FsError::NotADirectory`] where it is not a directory.
    pub fn find_by_name(&self, parent: u64, name: &str) -> (res: Result<(u64, FileType), FsError>)
        requires
            self.wf(),
        ensures
            res == self@.find_outcome(parent, name@),
    {
        let attr: FileAttr = match self.inodes.get_inode(parent) {
            Ok(attr) => attr,
            Err(e) => {
                return Err(e);
            },
        };
        if !is_directory(attr.kind) {
            return Err(FsError::NotADirectory);
        }
        proof {
            assert(self@.dirs.contains_key(parent));
        }
        self.dirs.find_by_name(parent, name)
    }

    /// Makes a new inode and the entry `name` under `parent` that points to
    /// it, in one step, and returns the inode's number and attributes. The
    /// call fails, in this order, with [`FsError::InvalidArgument`] for an
    /// empty name, [`FsError::NotFound`] where `parent` does not exist,
    /// [`FsError::NotADirectory`] where it is not a directory,
    /// [`FsError::AlreadyExists`] where the name is taken, and
    /// [`FsError::IoFailure`] where inode numbers have run out. A failed call
    /// changes nothing: no inode is made and no number is used up.
    pub fn create_nod(&mut self, parent: u64, name: &str, init: CreateFileAttr) -> (res: Result<
        (u64, FileAttr),
        FsError,
    >)
        requires
            old(self).wf(),
        ensures
            final(self).wf(),
            res == old(self)@.create_outcome(parent, name@, init),
            res is Ok ==> final(self)@ == old(self)@.after_create(parent, name@, init),
            res is Err ==> final(self)@ == old(self)@,
    {
        if name.is_empty() {
            return Err(FsError::InvalidArgument);
        }
        let attr: FileAttr = match self.inodes.get_inode(parent) {
            Ok(attr) => attr,
            Err(e) => {
                return Err(e);
            },
        };
        if !is_directory(attr.kind) {
            return Err(FsError::NotADirectory);
        }
        proof {
            assert(self@.dirs.contains_key(parent));
        }
        if self.dirs.exists_by_name(parent, name) {
            return Err(FsError::AlreadyExists);
        }
        let (ino, made) = match self.inodes.create_inode(init) {
            Ok(pair) => pair,
            Err(e) => {
                return Err(e);
            },
        };
        let _ = self.dirs.insert_entry(parent, name, ino, init.kind);
        if is_directory(init.kind) {
            self.dirs.add_directory(ino);
        } else {
            self.contents.create(ino);
        }
        self.parents.insert(ino, parent);
        proof {
            let goal = old(self)@.after_create(parent, name@, init);
            lemma_create_valid(old(self)@, parent, name@, init);
            assert(self@.attrs =~= goal.attrs);
            assert(self@.dirs =~= goal.dirs);
            assert(self@.files =~= goal.files);
            assert(self@.parents =~= goal.parents);
        }
        Ok((ino, made))
    }

    /// The entries of `parent` from the place `cursor` on, in a stable order:
    /// the one in which they were added. A cursor counts the entries that a
    /// caller has been through, so that the listing of a large directory can
    /// be taken up where it was left. [`FsError::NotFound`] where `parent`
    /// does not exist, [`FsError::NotADirectory`] where it is not a
    /// directory.
    pub fn read_dir(&self, parent: u64, cursor: u64) -> (res: Result<Vec<DirectoryEntry>, FsError>)
        requires
            self.wf(),
        ensures
            match res {
                Ok(list) => self@.list_failure(parent) is None && entries_view(list@)
                    == self@.listing(parent, cursor),
                Err(e) => self@.list_failure(parent) == Some(e),
            },
    {
        let attr: FileAttr = match self.inodes.get_inode(parent) {
            Ok(attr) => attr,
            Err(e) => {
                return Err(e);
            },
        };
        if !is_directory(attr.kind) {
            return Err(FsError::NotADirectory);
        }
        proof {
            assert(self@.dirs.contains_key(parent));
        }
        self.dirs.read_dir(parent, cursor)
    }

    /// The entry of `parent` at the place `cursor`, `None` at or past the
    /// end: the listing one entry at a time, for callers that do not want
    /// all of a large directory at once. Fails as [`Self::read_dir`] does.
    pub fn read_dir_at(&self, parent: u64, cursor: u64) -> (res: Result<
        Option<DirectoryEntry>,
        FsError,
    >)
        requires
            self.wf(),
        ensures
            match res {
                Ok(Some(entry)) => self@.list_failure(parent) is None && self@.listing(
                    parent,
                    cursor,
                ).len() > 0 && entry@ == self@.listing(parent, cursor)[0],
                Ok(None) => self@.list_failure(parent) is None && self@.listing(parent, cursor).len()
                    == 0,
                Err(e) => self@.list_failure(parent) == Some(e),
            },
    {
        let attr: FileAttr = match self.inodes.get_inode(parent) {
            Ok(attr) => attr,
            Err(e) => {
                return Err(e);
            },
        };
        if !is_directory(attr.kind) {
            return Err(FsError::NotADirectory);
        }
        proof {
            assert(self@.dirs.contains_key(parent));
        }
        self.dirs.entry_at(parent, cursor)
    }

    /// The entry of `parent` at the place `cursor` with the attributes of
    /// the inode it points to, `None` at or past the end. Fails as
    /// [`Self::read_dir`] does.
    pub fn read_dir_plus_at(&self, parent: u64, cursor: u64) -> (res: Result<
        Option<DirectoryEntryPlus>,
        FsError,
    >)
        requires
            self.wf(),
        ensures
            match res {
                Ok(Some(entry)) => self@.list_failure(parent) is None && self@.listing_plus(
                    parent,
                    cursor,
                ).len() > 0 && entry@ == self@.listing_plus(parent, cursor)[0],
                Ok(None) => self@.list_failure(parent) is None && self@.listing_plus(
                    parent,
                    cursor,
                ).len() == 0,
                Err(e) => self@.list_failure(parent) == Some(e),
            },
    {
        let entry: DirectoryEntry = match self.read_dir_at(parent, cursor) {
            Ok(Some(entry)) => entry,
            Ok(None) => {
                return Ok(None);
            },
            Err(e) => {
                return Err(e);
            },
        };
        proof {
            assert(self@.dirs.contains_key(parent));
            assert(self@.is_entry(parent, cursor as int));
        }
        match self.inodes.get_inode(entry.ino) {
            Ok(attr) => Ok(
                Some(DirectoryEntryPlus { ino: entry.ino, name: entry.name, kind: entry.kind, attr }),
            ),
            Err(e) => Err(e),
        }
    }

    /// The entries of `parent` from the place `cursor` on, each with the
    /// attributes of the inode it points to. Fails as [`Self::read_dir`]
    /// does.
    pub fn read_dir_plus(&self, parent: u64, cursor: u64) -> (res: Result<
        Vec<DirectoryEntryPlus>,
        FsError,
    >)
        requires
            self.wf(),
        ensures
            match res {
                Ok(list) => self@.list_failure(parent) is None && entries_plus_view(list@)
                    == self@.listing_plus(parent, cursor),
                Err(e) => self@.list_failure(parent) == Some(e),
            },
    {
        let entries: Vec<DirectoryEntry> = match self.read_dir(parent, cursor) {
            Ok(entries) => entries,
            Err(e) => {
                return Err(e);
            },
        };
        let ghost listing = self@.listing(parent, cursor);
        let mut list: Vec<DirectoryEntryPlus> = Vec::new();
        let mut i: usize = 0;
        while i < entries.len()
            invariant
                self.wf(),
                self@.dirs.contains_key(parent),
                listing == self@.listing(parent, cursor),
                entries_view(entries@) == listing,
                i <= entries@.len(),
                list@.len() == i,
                forall|j: int|
                    0 <= j < i ==> (#[trigger] list@[j])@ == (EntryPlusView {
                        ino: listing[j].ino,
                        name: listing[j].name,
                        kind: listing[j].kind,
                        attr: self@.attrs[listing[j].ino],
                    }),
            decreases entries@.len() - i,
        {
            proof {
                assert(entries_view(entries@).len() == entries@.len());
                assert(entries_view(entries@)[i as int] == entries@[i as int]@);
                let at = if cursor <= self@.dirs[parent].len() {
                    cursor + i
                } else {
                    0
                };
                assert(self@.is_entry(parent, at));
                assert(self@.dirs[parent][at] == listing[i as int]);
            }
            match self.inodes.get_inode(entries[i].ino) {
                Ok(attr) => {
                    list.push(
                        DirectoryEntryPlus {
                            ino: entries[i].ino,
                            name: entries[i].name.clone(),
                            kind: entries[i].kind,
                            attr,
                        },
                    );
                },
                Err(_) => {},
            }
            i += 1;
        }
        proof {
            assert(entries_plus_view(list@) =~= self@.listing_plus(parent, cursor));
        }
        Ok(list)
    }

    /// Takes out the entry `name` of `parent` and, as that was its last
    /// link, the inode it pointed to, with its content.
    fn unlink(&mut self, parent: u64, name: &str)
        requires
            old(self).wf(),
            old(self)@.remove_outcome(parent, name@) is Ok,
        ensures
            final(self).wf(),
            final(self)@ == old(self)@.after_remove(parent, name@),
    {
        proof {
            assert(self@.dirs.contains_key(parent));
            let at = position_of(self@.dirs[parent], name@);
            assert(self@.is_entry(parent, at));
        }
        let ino: u64 = match self.dirs.remove_entry(parent, name) {
            Ok((ino, _)) => ino,
            Err(_) => {
                return;
            },
        };
        let left: u32 = match self.inodes.drop_link(ino) {
            Ok(left) => left,
            Err(_) => 0,
        };
        if left == 0 {
            self.contents.remove(ino);
            self.dirs.remove_directory(ino);
        }
        self.parents.remove(&ino);
        proof {
            let goal = old(self)@.after_remove(parent, name@);
            lemma_remove_valid(old(self)@, parent, name@);
            assert(self@.attrs =~= goal.attrs);
            assert(self@.dirs =~= goal.dirs);
            assert(self@.files =~= goal.files);
            assert(self@.parents =~= goal.parents);
        }
    }

    /// Removes the entry `name` of `parent`. That takes the last link from
    /// the inode it points to, which goes with its content. The call fails,
    /// in this order, with [`FsError::NotFound`] where `parent` does not
    /// exist, [`FsError::NotADirectory`] where it is not a directory,
    /// [`FsError::NotFound`] where it has no such entry, and
    /// [`FsError::InvalidArgument`] where the entry is a directory that has
    /// entries. A failed call changes nothing.
    pub fn remove_entry(&mut self, parent: u64, name: &str) -> (res: Result<(), FsError>)
        requires
            old(self).wf(),
        ensures
            final(self).wf(),
            res == old(self)@.remove_outcome(parent, name@),
            res is Ok ==> final(self)@ == old(self)@.after_remove(parent, name@),
            res is Err ==> final(self)@ == old(self)@,
    {
        let (ino, _kind) = match self.find_by_name(parent, name) {
            Ok(found) => found,
            Err(e) => {
                return Err(e);
            },
        };
        match self.dirs.entry_count(ino) {
            Some(n) => {
                if n > 0 {
                    return Err(FsError::InvalidArgument);
                }
            },
            None => {},
        }
        self.unlink(parent, name);
        Ok(())
    }

    /// Whether `ino` is `top` or lies below it, found by going from parent
    /// to parent.
    fn is_within(&self, top: u64, ino: u64) -> (res: bool)
        requires
            self.wf(),
        ensures
            res == self@.is_within(top, ino),
    {
        let ghost rank = choose|rank: spec_fn(u64) -> nat| #[trigger] self@.ranked(rank);
        let ghost steps: nat = 0;
        let mut at: u64 = ino;
        proof {
            lemma_root_has_no_parent(self@);
        }
        loop
            invariant
                self.wf(),
                self@.ranked(rank),
                !self@.parents.contains_key(ROOT_INODE),
                at == self@.ancestor(ino, steps),
                forall|sooner: nat| sooner < steps ==> #[trigger] self@.ancestor(ino, sooner) != top,
            decreases
                    if at == ROOT_INODE {
                        0
                    } else if self@.parents.contains_key(at) {
                        rank(at) + 2
                    } else {
                        1
                    },
        {
            if at == top {
                return true;
            }
            let up: u64 = match self.parents.get(&at) {
                Some(parent) => *parent,
                None => {
                    if at == ROOT_INODE {
                        proof {
                            assert forall|later: nat| #[trigger] self@.ancestor(ino, later)
                                != top by {
                                if later >= steps {
                                    lemma_ancestor_past_root(self@, ino, steps, later);
                                }
                            }
                        }
                        return false;
                    }
                    ROOT_INODE
                },
            };
            proof {
                lemma_ancestor_step(self@, ino, steps);
                steps = steps + 1;
            }
            at = up;
        }
    }

    /// Decides what a rename has to do, or why it cannot be done.
    fn plan_rename(&self, old_parent: u64, old_name: &str, new_parent: u64, new_name: &str) -> (res:
        Result<Rename, FsError>)
        requires
            self.wf(),
        ensures
            match res {
                Ok(plan) => {
                    &&& self@.rename_outcome(old_parent, old_name@, new_parent, new_name@) is Ok
                    &&& self@.is_dir(old_parent)
                    &&& self@.is_dir(new_parent)
                    &&& has_name(self@.dirs[old_parent], old_name@)
                    &&& new_name@.len() > 0
                    &&& !self@.is_within(self@.entry_named(old_parent, old_name@).ino, new_parent)
                    &&& match plan {
                        Rename::Keep => has_name(self@.dirs[new_parent], new_name@)
                            && self@.entry_named(new_parent, new_name@).ino == self@.entry_named(
                            old_parent,
                            old_name@,
                        ).ino,
                        Rename::Move(ino, kind) => !has_name(self@.dirs[new_parent], new_name@)
                            && ino == self@.entry_named(old_parent, old_name@).ino && kind
                            == self@.entry_named(old_parent, old_name@).kind,
                        Rename::Replace(ino, kind) => has_name(self@.dirs[new_parent], new_name@)
                            && self@.entry_named(new_parent, new_name@).ino != ino && ino
                            == self@.entry_named(old_parent, old_name@).ino && kind
                            == self@.entry_named(old_parent, old_name@).kind,
                    }
                },
                Err(e) => self@.rename_outcome(old_parent, old_name@, new_parent, new_name@) == Err::<
                    (),
                    FsError,
                >(e),
            },
    {
        if new_name.is_empty() {
            return Err(FsError::InvalidArgument);
        }
        let from: FileAttr = match self.inodes.get_inode(old_parent) {
            Ok(attr) => attr,
            Err(e) => {
                return Err(e);
            },
        };
        let to: FileAttr = match self.inodes.get_inode(new_parent) {
            Ok(attr) => attr,
            Err(e) => {
                return Err(e);
            },
        };
        if !is_directory(from.kind) || !is_directory(to.kind) {
            return Err(FsError::NotADirectory);
        }
        proof {
            assert(self@.dirs.contains_key(old_parent));
            assert(self@.dirs.contains_key(new_parent));
        }
        let (ino, kind) = match self.dirs.find_by_name(old_parent, old_name) {
            Ok(found) => found,
            Err(e) => {
                return Err(e);
            },
        };
        if self.is_within(ino, new_parent) {
            return Err(FsError::InvalidArgument);
        }
        match self.dirs.find_by_name(new_parent, new_name) {
            Ok((target, target_kind)) => {
                if target == ino {
                    return Ok(Rename::Keep);
                }
                if is_directory(kind) && !is_directory(target_kind) {
                    return Err(FsError::NotADirectory);
                }
                if !is_directory(kind) && is_directory(target_kind) {
                    return Err(FsError::IsADirectory);
                }
                match self.dirs.entry_count(target) {
                    Some(n) => {
                        if n > 0 {
                            return Err(FsError::AlreadyExists);
                        }
                    },
                    None => {},
                }
                Ok(Rename::Replace(ino, kind))
            },
            Err(_) => Ok(Rename::Move(ino, kind)),
        }
    }

    /// Moves the entry `old_name` of `old_parent`, which points to `ino`, to
    /// the free name `new_name` of `new_parent`.
    fn relink(
        &mut self,
        old_parent: u64,
        old_name: &str,
        new_parent: u64,
        new_name: &str,
        ino: u64,
        kind: FileType,
    )
        requires
            old(self).wf(),
            old(self)@.is_dir(old_parent),
            old(self)@.is_dir(new_parent),
            has_name(old(self)@.dirs[old_parent], old_name@),
            !has_name(old(self)@.dirs[new_parent], new_name@),
            new_name@.len() > 0,
            !old(self)@.is_within(old(self)@.entry_named(old_parent, old_name@).ino, new_parent),
            ino == old(self)@.entry_named(old_parent, old_name@).ino,
            kind == old(self)@.entry_named(old_parent, old_name@).kind,
        ensures
            final(self).wf(),
            final(self)@ == old(self)@.after_move(old_parent, old_name@, new_parent, new_name@),
    {
        proof {
            assert(self@.dirs.contains_key(old_parent));
            assert(self@.dirs.contains_key(new_parent));
            let at = position_of(self@.dirs[old_parent], old_name@);
            assert(self@.is_entry(old_parent, at));
            lemma_unlink(self@, old_parent, old_name@);
            lemma_move_valid(
                self@,
                old_parent,
                old_name@,
                new_parent,
                new_name@,
            );
        }
        let _ = self.dirs.remove_entry(old_parent, old_name);
        proof {
            assert(!has_name(self@.dirs[new_parent], new_name@)) by {
                if new_parent != old_parent {
                    assert(self@.dirs[new_parent] == old(self)@.dirs[new_parent]);
                }
            }
        }
        let _ = self.dirs.insert_entry(new_parent, new_name, ino, kind);
        self.parents.insert(ino, new_parent);
        proof {
            let goal = old(self)@.after_move(old_parent, old_name@, new_parent, new_name@);
            assert(self@.dirs =~= goal.dirs);
            assert(self@.parents =~= goal.parents);
        }
    }

    /// Moves the entry `old_name` of `old_parent` to `new_name` of
    /// `new_parent` in one step. What `new_name` pointed to before is
    /// removed in the same step; renaming an entry to itself changes
    /// nothing. The call fails, in this order, with
    /// [`FsError::InvalidArgument`] for an empty new name,
    /// [`FsError::NotFound`] where a parent does not exist,
    /// [`FsError::NotADirectory`] where one is not a directory,
    /// [`FsError::NotFound`] where the old name is absent,
    /// [`FsError::InvalidArgument`] where the new parent is what is renamed
    /// or lies below it, [`FsError::NotADirectory`] where a directory would replace
    /// something else, [`FsError::IsADirectory`] where something else would
    /// replace a directory, and [`FsError::AlreadyExists`] where the new
    /// name is a directory that has entries. A failed call changes nothing.
    pub fn rename_entry(&mut self, old_parent: u64, old_name: &str, new_parent: u64, new_name: &str) -> (res:
        Result<(), FsError>)
        requires
            old(self).wf(),
        ensures
            final(self).wf(),
            res == old(self)@.rename_outcome(old_parent, old_name@, new_parent, new_name@),
            res is Ok ==> final(self)@ == old(self)@.after_rename(
                old_parent,
                old_name@,
                new_parent,
                new_name@,
            ),
            res is Err ==> final(self)@ == old(self)@,
    {
        let plan: Rename = match self.plan_rename(old_parent, old_name, new_parent, new_name) {
            Ok(plan) => plan,
            Err(e) => {
                return Err(e);
            },
        };
        match plan {
            Rename::Keep => {},
            Rename::Move(ino, kind) => {
                self.relink(old_parent, old_name, new_parent, new_name, ino, kind);
            },
            Rename::Replace(ino, kind) => {
                proof {
                    lemma_rename_target_removed(
                        self@,
                        old_parent,
                        old_name@,
                        new_parent,
                        new_name@,
                    );
                }
                self.unlink(new_parent, new_name);
                self.relink(old_parent, old_name, new_parent, new_name, ino, kind);
            },
        }
        Ok(())
    }

    /// Reads the content of `ino` from `offset` on into the front of `buf`
    /// and returns the number of bytes read: as many as the buffer holds and
    /// the content has from there, none at or past its end. The rest of
    /// `buf` keeps what it held. [`FsError::NotFound`] where `ino` does not
    /// exist, [`FsError::IsADirectory`] where it is a directory.
    pub fn read_at(&self, ino: u64, offset: u64, buf: &mut [u8]) -> (res: Result<usize, FsError>)
        requires
            self.wf(),
        ensures
            res == self@.read_outcome(ino, offset, old(buf)@.len()),
            res is Ok ==> res->Ok_0 == read_span(self@.files[ino], offset, old(buf)@.len()).len()
                && final(buf)@ == read_span(self@.files[ino], offset, old(buf)@.len()) + old(
                buf,
            )@.skip(res->Ok_0 as int),
            res is Err ==> final(buf)@ == old(buf)@,
    {
        let attr: FileAttr = match self.inodes.get_inode(ino) {
            Ok(attr) => attr,
            Err(e) => {
                return Err(e);
            },
        };
        if is_directory(attr.kind) {
            return Err(FsError::IsADirectory);
        }
        proof {
            assert(self@.files.contains_key(ino));
        }
        self.contents.read_at(ino, offset, buf)
    }

    /// Records as the size of `ino` the length that its content has.
    fn sync_size(&mut self, ino: u64)
        requires
            old(self).inodes.wf(),
            old(self)@.attrs.contains_key(ino),
            old(self)@.files.contains_key(ino),
        ensures
            final(self)@ == (FsState {
                attrs: old(self)@.attrs.insert(
                    ino,
                    FileAttr {
                        size: old(self)@.files[ino].len() as u64,
                        ..old(self)@.attrs[ino]
                    },
                ),
                ..old(self)@
            }),
    {
        let len: usize = match self.contents.len(ino) {
            Some(len) => len,
            None => 0,
        };
        let mut set = SetFileAttr::none();
        set.size = Some(len as u64);
        let _ = self.inodes.update_inode(ino, set);
    }

    /// Writes `data` into the content of `ino` at `offset` and returns the
    /// number of bytes written, which is all of them. A gap between the old
    /// end of the content and `offset` becomes zeros, and the size of the
    /// inode follows the content in the same step. The call fails, in this
    /// order, with [`FsError::NotFound`] where `ino` does not exist,
    /// [`FsError::IsADirectory`] where it is a directory, and
    /// [`FsError::InvalidArgument`] where the end of the write cannot be
    /// addressed. A failed call changes nothing.
    pub fn write_at(&mut self, ino: u64, offset: u64, data: &[u8]) -> (res: Result<usize, FsError>)
        requires
            old(self).wf(),
        ensures
            final(self).wf(),
            res == old(self)@.write_outcome(ino, offset, data@.len()),
            res is Ok ==> final(self)@ == old(self)@.after_write(ino, offset, data@),
            res is Err ==> final(self)@ == old(self)@,
    {
        let attr: FileAttr = match self.inodes.get_inode(ino) {
            Ok(attr) => attr,
            Err(e) => {
                return Err(e);
            },
        };
        if is_directory(attr.kind) {
            return Err(FsError::IsADirectory);
        }
        proof {
            assert(self@.files.contains_key(ino));
        }
        let written: usize = match self.contents.write_at(ino, offset, data) {
            Ok(n) => n,
            Err(e) => {
                return Err(e);
            },
        };
        self.sync_size(ino);
        proof {
            let goal = old(self)@.after_write(ino, offset, data@);
            lemma_with_content_valid(
                old(self)@,
                ino,
                written_at(old(self)@.files[ino], offset as nat, data@),
            );
            assert(self@.attrs =~= goal.attrs);
            assert(self@.files =~= goal.files);
        }
        Ok(written)
    }

    /// Cuts or grows the content of `ino` to `size` bytes; what is grown is
    /// zero, what is cut is gone, and the size of the inode follows in the
    /// same step. The call fails, in this order, with [`FsError::NotFound`]
    /// where `ino` does not exist, [`FsError::IsADirectory`] where it is a
    /// directory, and [`FsError::InvalidArgument`] where `size` cannot be
    /// addressed. A failed call changes nothing.
    pub fn truncate(&mut self, ino: u64, size: u64) -> (res: Result<(), FsError>)
        requires
            old(self).wf(),
        ensures
            final(self).wf(),
            res == old(self)@.truncate_outcome(ino, size),
            res is Ok ==> final(self)@ == old(self)@.after_truncate(ino, size),
            res is Err ==> final(self)@ == old(self)@,
    {
        let attr: FileAttr = match self.inodes.get_inode(ino) {
            Ok(attr) => attr,
            Err(e) => {
                return Err(e);
            },
        };
        if is_directory(attr.kind) {
            return Err(FsError::IsADirectory);
        }
        proof {
            assert(self@.files.contains_key(ino));
        }
        match self.contents.truncate(ino, size) {
            Ok(()) => {},
            Err(e) => {
                return Err(e);
            },
        }
        self.sync_size(ino);
        proof {
            let goal = old(self)@.after_truncate(ino, size);
            lemma_with_content_valid(
                old(self)@,
                ino,
                resized(old(self)@.files[ino], size as nat),
            );
            assert(self@.attrs =~= goal.attrs);
            assert(self@.files =~= goal.files);
        }
        Ok(())
    }

    /// Changes the attributes of `ino` by `set` in one step and returns the
    /// new attributes. A new size cuts or grows the content as
    /// [`Self::truncate`] does, and fails as it does; number, kind and link
    /// count cannot be changed. [`FsError::NotFound`] where `ino` does not
    /// exist. A failed call changes nothing.
    pub fn update_inode(&mut self, ino: u64, set: SetFileAttr) -> (res: Result<FileAttr, FsError>)
        requires
            old(self).wf(),
        ensures
            final(self).wf(),
            res == old(self)@.update_outcome(ino, set),
            res is Ok ==> final(self)@ == old(self)@.after_update(ino, set),
            res is Err ==> final(self)@ == old(self)@,
    {
        match set.size {
            Some(size) => {
                match self.truncate(ino, size) {
                    Ok(()) => {},
                    Err(e) => {
                        return Err(e);
                    },
                }
            },
            None => {},
        }
        let res = self.inodes.update_inode(ino, set);
        proof {
            if res is Ok {
                let goal = old(self)@.after_update(ino, set);
                lemma_update_valid(old(self)@, ino, set);
                assert(self@.attrs =~= goal.attrs);
            }
        }
        res
    }

    /// Seals the attributes of `ino` and writes them to `w` as one record,
    /// for a backing store to keep. [`FsError::NotFound`], and nothing
    /// written, where `ino` does not exist; else the failure of `w`, if it
    /// fails.
    pub fn store_inode<C: Cipher, W: ByteSink>(&self, ino: u64, cipher: &C, w: &mut W) -> (res:
        Result<(), FsError>)
        requires
            self.wf(),
        ensures
            final(w).fault() == old(w).fault(),
            !self@.attrs.contains_key(ino) ==> res == Err::<(), FsError>(FsError::NotFound)
                && final(w).written() == old(w).written() && final(w).room() == old(w).room(),
            self@.attrs.contains_key(ino) ==> exists|sealed: Seq<u8>|
                {
                    &&& #[trigger] cipher.opened(ino, sealed) == Some(attr_bytes(self@.attrs[ino]))
                    &&& sealed.len() <= usize::MAX
                    &&& res == sink_outcome(old(w).room(), old(w).fault(), framed(sealed).len())
                    &&& final(w).written() == old(w).written() + framed(sealed).take(
                        sink_taken(old(w).room(), framed(sealed).len()) as int,
                    )
                    &&& final(w).room() == sink_room_after(old(w).room(), framed(sealed).len())
                },
    {
        let attr: FileAttr = match self.inodes.get_inode(ino) {
            Ok(attr) => attr,
            Err(e) => {
                return Err(e);
            },
        };
        store_attr(cipher, &attr, w)
    }

    /// Seals the entries of the directory `ino` and writes them to `w` as
    /// one record, for a backing store to keep. [`FsError::NotFound`] where
    /// `ino` does not exist and [`FsError::NotADirectory`] where it is not a
    /// directory, with nothing written; else the failure of `w`, if it
    /// fails.
    pub fn store_dir<C: Cipher, W: ByteSink>(&self, ino: u64, cipher: &C, w: &mut W) -> (res:
        Result<(), FsError>)
        requires
            self.wf(),
        ensures
            final(w).fault() == old(w).fault(),
            self@.list_failure(ino) is Some ==> res == Err::<(), FsError>(
                self@.list_failure(ino)->Some_0,
            ) && final(w).written() == old(w).written() && final(w).room() == old(w).room(),
            self@.list_failure(ino) is None ==> exists|sealed: Seq<u8>|
                {
                    &&& #[trigger] cipher.opened(ino, sealed) == Some(entries_bytes(self@.dirs[ino]))
                    &&& sealed.len() <= usize::MAX
                    &&& res == sink_outcome(old(w).room(), old(w).fault(), framed(sealed).len())
                    &&& final(w).written() == old(w).written() + framed(sealed).take(
                        sink_taken(old(w).room(), framed(sealed).len()) as int,
                    )
                    &&& final(w).room() == sink_room_after(old(w).room(), framed(sealed).len())
                },
    {
        let attr: FileAttr = match self.inodes.get_inode(ino) {
            Ok(attr) => attr,
            Err(e) => {
                return Err(e);
            },
        };
        if !is_directory(attr.kind) {
            return Err(FsError::NotADirectory);
        }
        proof {
            assert(self@.dirs.contains_key(ino));
        }
        match self.dirs.entries(ino) {
            Some(entries) => store_entries(cipher, ino, entries, w),
            None => Err(FsError::NotADirectory),
        }
    }

    /// Seals the content of `ino` and writes it to `w` as one record, for a
    /// backing store to keep. [`FsError::NotFound`] where `ino` does not
    /// exist and [`FsError::IsADirectory`] where it is a directory, with
    /// nothing written; else the failure of `w`, if it fails.
    pub fn store_content<C: Cipher, W: ByteSink>(&self, ino: u64, cipher: &C, w: &mut W) -> (res:
        Result<(), FsError>)
        requires
            self.wf(),
        ensures
            final(w).fault() == old(w).fault(),
            self@.content_failure(ino) is Some ==> res == Err::<(), FsError>(
                self@.content_failure(ino)->Some_0,
            ) && final(w).written() == old(w).written() && final(w).room() == old(w).room(),
            self@.content_failure(ino) is None ==> exists|sealed: Seq<u8>|
                {
                    &&& #[trigger] cipher.opened(ino, sealed) == Some(self@.files[ino])
                    &&& sealed.len() <= usize::MAX
                    &&& res == sink_outcome(old(w).room(), old(w).fault(), framed(sealed).len())
                    &&& final(w).written() == old(w).written() + framed(sealed).take(
                        sink_taken(old(w).room(), framed(sealed).len()) as int,
                    )
                    &&& final(w).room() == sink_room_after(old(w).room(), framed(sealed).len())
                },
    {
        let attr: FileAttr = match self.inodes.get_inode(ino) {
            Ok(attr) => attr,
            Err(e) => {
                return Err(e);
            },
        };
        if is_directory(attr.kind) {
            return Err(FsError::IsADirectory);
        }
        proof {
            assert(self@.files.contains_key(ino));
        }
        match self.contents.content(ino) {
            Some(bytes) => store_sealed(cipher, ino, bytes, w),
            None => Err(FsError::NotFound),
        }
    }

    /// Reads one record from `r`, opens it for `ino` and makes what it holds
    /// the content of `ino`, with the size that goes with it.
    /// [`FsError::NotFound`] where `ino` does not exist and
    /// [`FsError::IsADirectory`] where it is a directory, with nothing read;
    /// else the failure of reading or opening the record. A failed call
    /// leaves the content as it was.
    pub fn load_content<C: Cipher, R: ByteSource>(&mut self, ino: u64, cipher: &C, r: &mut R) -> (res:
        Result<(), FsError>)
        requires
            old(self).wf(),
        ensures
            final(self).wf(),
            final(r).fault() == old(r).fault(),
            match old(self)@.content_failure(ino) {
                Some(e) => res == Err::<(), FsError>(e) && final(self)@ == old(self)@
                    && final(r).pending() == old(r).pending(),
                None => final(r).pending() == old(r).pending().skip(
                    record_span(old(r).pending()),
                ) && match load_outcome(cipher, ino, old(r).pending(), old(r).fault()) {
                    Ok(plain) => res == Ok::<(), FsError>(()) && final(self)@ == old(
                        self,
                    )@.with_content(ino, plain),
                    Err(e) => res == Err::<(), FsError>(e) && final(self)@ == old(self)@,
                },
            },
    {
        let attr: FileAttr = match self.inodes.get_inode(ino) {
            Ok(attr) => attr,
            Err(e) => {
                return Err(e);
            },
        };
        if is_directory(attr.kind) {
            return Err(FsError::IsADirectory);
        }
        proof {
            assert(self@.files.contains_key(ino));
        }
        let plain: Vec<u8> = match load_sealed(cipher, ino, r) {
            Ok(plain) => plain,
            Err(e) => {
                return Err(e);
            },
        };
        let ghost loaded = plain@;
        let ghost len = plain.len();
        let _ = self.contents.replace(ino, plain);
        self.sync_size(ino);
        proof {
            let goal = old(self)@.with_content(ino, loaded);
            lemma_with_content_valid(old(self)@, ino, loaded);
            assert(self@.attrs =~= goal.attrs);
            assert(self@.files =~= goal.files);
        }
        Ok(())
    }
}

} // verus!
