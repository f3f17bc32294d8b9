//! The engine as a mathematical object: its state, what makes a state
//! consistent, and what each operation returns and turns a state into.

use vstd::prelude::*;
use crate::error::{FsError, NO_SPACE};
use crate::encryptedfs::content::{read_span, resized, written_at};
use crate::encryptedfs::dir_table::{
    entries_from, has_name, position_of, tables_wf, with_entry, without_entry,
};
use crate::encryptedfs::inode_store::table_wf;
use crate::encryptedfs::types::{
    changed_attr, initial_attr, root_attr, CreateFileAttr, EntryPlusView, EntryView, FileAttr,
    FileType, SetFileAttr, ROOT_INODE,
};

verus! {


/// Everything the engine holds.
pub struct FsState {
    /// The attributes of each inode.
    pub attrs: Map<u64, FileAttr>,
    /// The number that the next new inode gets.
    pub next_ino: u64,
    /// The entries of each directory, in the order in which they were added.
    pub dirs: Map<u64, Seq<EntryView>>,
    /// The content of each inode that is not a directory.
    pub files: Map<u64, Seq<u8>>,
    /// For each inode that an entry points to, the directory that holds the
    /// entry.
    pub parents: Map<u64, u64>,
}

impl FsState {
    /// `ino` exists and is a directory.
    pub open spec fn is_dir(self, ino: u64) -> bool {
        self.attrs.contains_key(ino) && self.attrs[ino].kind == FileType::Directory
    }

    /// `ino` exists and is not a directory.
    pub open spec fn is_file(self, ino: u64) -> bool {
        self.attrs.contains_key(ino) && self.attrs[ino].kind != FileType::Directory
    }

    /// Directory `d` has an entry at place `i`.
    pub open spec fn is_entry(self, d: u64, i: int) -> bool {
        self.dirs.contains_key(d) && 0 <= i < self.dirs[d].len()
    }

    /// Directory `d` has an entry that points to `ino`.
    pub open spec fn has_link(self, d: u64, ino: u64) -> bool {
        exists|i: int| #[trigger] self.is_entry(d, i) && self.dirs[d][i].ino == ino
    }

    /// Some directory entry points to `ino`.
    pub open spec fn referenced(self, ino: u64) -> bool {
        exists|d: u64, i: int| #[trigger] self.is_entry(d, i) && self.dirs[d][i].ino == ino
    }

    /// The directory that holds the entry of `ino`; the root for an inode
    /// without an entry, as the root itself is.
    pub open spec fn parent_of(self, ino: u64) -> u64 {
        if self.parents.contains_key(ino) {
            self.parents[ino]
        } else {
            ROOT_INODE
        }
    }

    /// The inode that is reached from `ino` by going to the parent `steps`
    /// times.
    pub open spec fn ancestor(self, ino: u64, steps: nat) -> u64
        decreases steps,
    {
        if steps == 0 {
            ino
        } else {
            self.ancestor(self.parent_of(ino), (steps - 1) as nat)
        }
    }

    /// `ino` is `top` or lies somewhere below it.
    pub open spec fn is_within(self, top: u64, ino: u64) -> bool {
        exists|steps: nat| #[trigger] self.ancestor(ino, steps) == top
    }

    /// `rank` grows from every directory to what its entries point to.
    pub open spec fn ranked(self, rank: spec_fn(u64) -> nat) -> bool {
        forall|ino: u64| #[trigger]
            self.parents.contains_key(ino) ==> rank(ino) > rank(self.parents[ino])
    }

    /// No directory lies below itself.
    pub open spec fn acyclic(self) -> bool {
        exists|rank: spec_fn(u64) -> nat| #[trigger] self.ranked(rank)
    }

    /// The entry of `parent` that carries `name`.
    pub open spec fn entry_named(self, parent: u64, name: Seq<char>) -> EntryView {
        self.dirs[parent][position_of(self.dirs[parent], name)]
    }

    /// The length of the content of `ino` as its attributes must give it.
    pub open spec fn content_len(self, ino: u64) -> nat {
        if self.files.contains_key(ino) {
            self.files[ino].len()
        } else {
            0
        }
    }

    /// What holds of the engine whether or not every inode is linked.
    ///
    /// The root exists and is a directory. Exactly the directories have an
    /// entry table and exactly the other inodes have content, whose length
    /// is the inode's size. Names are unique within a directory. Every entry
    /// points to an inode that exists, of the kind that the entry gives,
    /// other than the root and other than the directory that holds the
    /// entry. No two entries point to the same inode, and every link count
    /// is one. The record of parents is that of the entries, and no
    /// directory lies below itself.
    pub open spec fn coherent(self) -> bool {
        &&& table_wf(self.attrs, self.next_ino)
        &&& tables_wf(self.dirs)
        &&& self.is_dir(ROOT_INODE)
        &&& forall|ino: u64| #[trigger] self.dirs.contains_key(ino) <==> self.is_dir(ino)
        &&& forall|ino: u64| #[trigger] self.files.contains_key(ino) <==> self.is_file(ino)
        &&& forall|ino: u64| #[trigger]
            self.attrs.contains_key(ino) ==> self.attrs[ino].nlink == 1 && self.attrs[ino].size
                == self.content_len(ino)
        &&& forall|d: u64, i: int| #[trigger]
            self.is_entry(d, i) ==> {
                let e = self.dirs[d][i];
                &&& e.ino != ROOT_INODE
                &&& e.ino != d
                &&& self.attrs.contains_key(e.ino)
                &&& self.attrs[e.ino].kind == e.kind
                &&& self.parents.contains_key(e.ino)
                &&& self.parents[e.ino] == d
            }
        &&& forall|d1: u64, i1: int, d2: u64, i2: int|
            #[trigger] self.is_entry(d1, i1) && #[trigger] self.is_entry(d2, i2)
                && self.dirs[d1][i1].ino == self.dirs[d2][i2].ino ==> d1 == d2 && i1 == i2
        &&& forall|ino: u64| #[trigger]
            self.parents.contains_key(ino) ==> self.has_link(self.parents[ino], ino)
        &&& self.acyclic()
    }

    /// What holds of the engine between any two operations: it is coherent,
    /// and every inode but the root is pointed to by an entry. With
    /// coherence that entry is the only one, so that the link count of an
    /// inode is the number of entries that point to it, and going from
    /// parent to parent ends at the root.
    pub open spec fn valid(self) -> bool {
        &&& self.coherent()
        &&& forall|ino: u64| #[trigger]
            self.attrs.contains_key(ino) && ino != ROOT_INODE ==> self.parents.contains_key(ino)
    }

    /// The engine in the middle of an operation that has taken the entry of
    /// `loose` away: coherent, and every inode but the root and `loose` is
    /// pointed to by an entry.
    pub open spec fn detached(self, loose: u64) -> bool {
        &&& self.coherent()
        &&& self.attrs.contains_key(loose)
        &&& loose != ROOT_INODE
        &&& !self.parents.contains_key(loose)
        &&& forall|ino: u64| #[trigger]
            self.attrs.contains_key(ino) && ino != ROOT_INODE && ino != loose
                ==> self.parents.contains_key(ino)
    }

    /// The state that a new engine starts in: the root directory and nothing
    /// else.
    pub open spec fn initial() -> FsState {
        FsState {
            attrs: Map::<u64, FileAttr>::empty().insert(
                ROOT_INODE,
                root_attr(),
            ),
            next_ino: (ROOT_INODE + 1) as u64,
            dirs: Map::<u64, Seq<EntryView>>::empty().insert(ROOT_INODE, Seq::empty()),
            files: Map::empty(),
            parents: Map::empty(),
        }
    }

    /// What creating `name` under `parent` returns: the number and the
    /// attributes of the new inode, or the first of the errors that applies.
    pub open spec fn create_outcome(self, parent: u64, name: Seq<char>, init: CreateFileAttr) -> Result<
        (u64, FileAttr),
        FsError,
    > {
        if name.len() == 0 {
            Err(FsError::InvalidArgument)
        } else if !self.attrs.contains_key(parent) {
            Err(FsError::NotFound)
        } else if !self.is_dir(parent) {
            Err(FsError::NotADirectory)
        } else if has_name(self.dirs[parent], name) {
            Err(FsError::AlreadyExists)
        } else if self.next_ino == u64::MAX {
            Err(FsError::IoFailure(NO_SPACE))
        } else {
            Ok((self.next_ino, initial_attr(self.next_ino, init)))
        }
    }

    /// The state after `name` was created under `parent`.
    pub open spec fn after_create(self, parent: u64, name: Seq<char>, init: CreateFileAttr) -> FsState {
        let ino = self.next_ino;
        let linked = with_entry(self.dirs, parent, EntryView { ino, name, kind: init.kind });
        FsState {
            attrs: self.attrs.insert(ino, initial_attr(ino, init)),
            next_ino: (ino + 1) as u64,
            dirs: if init.kind == FileType::Directory {
                linked.insert(ino, Seq::empty())
            } else {
                linked
            },
            files: if init.kind == FileType::Directory {
                self.files
            } else {
                self.files.insert(ino, Seq::empty())
            },
            parents: self.parents.insert(ino, parent),
        }
    }

    /// The state with the entry `name` of `parent` gone and nothing else
    /// changed.
    pub open spec fn unlinked(self, parent: u64, name: Seq<char>) -> FsState {
        FsState {
            dirs: without_entry(self.dirs, parent, name),
            parents: self.parents.remove(self.entry_named(parent, name).ino),
            ..self
        }
    }

    /// The state with a new entry `name` of `parent` that points to `ino`,
    /// and nothing else changed.
    pub open spec fn linked(self, parent: u64, name: Seq<char>, ino: u64) -> FsState {
        FsState {
            dirs: with_entry(
                self.dirs,
                parent,
                EntryView { ino, name, kind: self.attrs[ino].kind },
            ),
            parents: self.parents.insert(ino, parent),
            ..self
        }
    }

    /// The state without the inode `ino`, its table and its content.
    pub open spec fn deleted(self, ino: u64) -> FsState {
        FsState {
            attrs: self.attrs.remove(ino),
            next_ino: self.next_ino,
            dirs: self.dirs.remove(ino),
            files: self.files.remove(ino),
            parents: self.parents.remove(ino),
        }
    }

    /// Whether `ino` is a directory with entries.
    pub open spec fn is_full_dir(self, ino: u64) -> bool {
        self.dirs.contains_key(ino) && self.dirs[ino].len() > 0
    }

    /// What removing the entry `name` of `parent` returns.
    pub open spec fn remove_outcome(self, parent: u64, name: Seq<char>) -> Result<(), FsError> {
        if !self.attrs.contains_key(parent) {
            Err(FsError::NotFound)
        } else if !self.is_dir(parent) {
            Err(FsError::NotADirectory)
        } else if !has_name(self.dirs[parent], name) {
            Err(FsError::NotFound)
        } else if self.is_full_dir(self.entry_named(parent, name).ino) {
            Err(FsError::InvalidArgument)
        } else {
            Ok(())
        }
    }

    /// The state after the entry `name` of `parent` was removed: the entry
    /// is gone, and with its last link the inode.
    pub open spec fn after_remove(self, parent: u64, name: Seq<char>) -> FsState {
        self.unlinked(parent, name).deleted(self.entry_named(parent, name).ino)
    }

    /// What renaming the entry `old_name` of `old_parent` to `new_name` of
    /// `new_parent` returns.
    pub open spec fn rename_outcome(
        self,
        old_parent: u64,
        old_name: Seq<char>,
        new_parent: u64,
        new_name: Seq<char>,
    ) -> Result<(), FsError> {
        if new_name.len() == 0 {
            Err(FsError::InvalidArgument)
        } else if !self.attrs.contains_key(old_parent) || !self.attrs.contains_key(new_parent) {
            Err(FsError::NotFound)
        } else if !self.is_dir(old_parent) || !self.is_dir(new_parent) {
            Err(FsError::NotADirectory)
        } else if !has_name(self.dirs[old_parent], old_name) {
            Err(FsError::NotFound)
        } else if self.is_within(self.entry_named(old_parent, old_name).ino, new_parent) {
            Err(FsError::InvalidArgument)
        } else if !has_name(self.dirs[new_parent], new_name) {
            Ok(())
        } else {
            let source = self.entry_named(old_parent, old_name);
            let target = self.entry_named(new_parent, new_name);
            if target.ino == source.ino {
                Ok(())
            } else if source.kind == FileType::Directory && target.kind != FileType::Directory {
                Err(FsError::NotADirectory)
            } else if source.kind != FileType::Directory && target.kind == FileType::Directory {
                Err(FsError::IsADirectory)
            } else if self.is_full_dir(target.ino) {
                Err(FsError::AlreadyExists)
            } else {
                Ok(())
            }
        }
    }

    /// The state after the entry `old_name` of `old_parent` was moved to
    /// `new_name` of `new_parent`, where that name is free.
    pub open spec fn after_move(
        self,
        old_parent: u64,
        old_name: Seq<char>,
        new_parent: u64,
        new_name: Seq<char>,
    ) -> FsState {
        self.unlinked(old_parent, old_name).linked(
            new_parent,
            new_name,
            self.entry_named(old_parent, old_name).ino,
        )
    }

    /// The state after a rename: what the new name pointed to before is
    /// removed, then the entry is moved. A rename of an entry to itself
    /// changes nothing.
    pub open spec fn after_rename(
        self,
        old_parent: u64,
        old_name: Seq<char>,
        new_parent: u64,
        new_name: Seq<char>,
    ) -> FsState {
        if !has_name(self.dirs[new_parent], new_name) {
            self.after_move(old_parent, old_name, new_parent, new_name)
        } else if self.entry_named(new_parent, new_name).ino == self.entry_named(
            old_parent,
            old_name,
        ).ino {
            self
        } else {
            self.after_remove(new_parent, new_name).after_move(
                old_parent,
                old_name,
                new_parent,
                new_name,
            )
        }
    }

    /// The state in which `ino` has `content`, and the size that goes with
    /// it.
    pub open spec fn with_content(self, ino: u64, content: Seq<u8>) -> FsState {
        FsState {
            attrs: self.attrs.insert(
                ino,
                FileAttr { size: content.len() as u64, ..self.attrs[ino] },
            ),
            files: self.files.insert(ino, content),
            ..self
        }
    }

    /// What reading up to `want` bytes of `ino` at `offset` returns.
    pub open spec fn read_outcome(self, ino: u64, offset: u64, want: nat) -> Result<usize, FsError> {
        if !self.attrs.contains_key(ino) {
            Err(FsError::NotFound)
        } else if self.is_dir(ino) {
            Err(FsError::IsADirectory)
        } else {
            Ok(read_span(self.files[ino], offset, want).len() as usize)
        }
    }

    /// What writing `len` bytes into `ino` at `offset` returns.
    pub open spec fn write_outcome(self, ino: u64, offset: u64, len: nat) -> Result<usize, FsError> {
        if !self.attrs.contains_key(ino) {
            Err(FsError::NotFound)
        } else if self.is_dir(ino) {
            Err(FsError::IsADirectory)
        } else if offset + len > usize::MAX {
            Err(FsError::InvalidArgument)
        } else {
            Ok(len as usize)
        }
    }

    /// The state after `data` was written into `ino` at `offset`.
    pub open spec fn after_write(self, ino: u64, offset: u64, data: Seq<u8>) -> FsState {
        self.with_content(ino, written_at(self.files[ino], offset as nat, data))
    }

    /// What cutting or growing `ino` to `size` bytes returns.
    pub open spec fn truncate_outcome(self, ino: u64, size: u64) -> Result<(), FsError> {
        if !self.attrs.contains_key(ino) {
            Err(FsError::NotFound)
        } else if self.is_dir(ino) {
            Err(FsError::IsADirectory)
        } else if size > usize::MAX {
            Err(FsError::InvalidArgument)
        } else {
            Ok(())
        }
    }

    /// The state after `ino` was cut or grown to `size` bytes.
    pub open spec fn after_truncate(self, ino: u64, size: u64) -> FsState {
        self.with_content(ino, resized(self.files[ino], size as nat))
    }

    /// What changing the attributes of `ino` by `set` returns. A change of
    /// size is a truncation and fails as one.
    pub open spec fn update_outcome(self, ino: u64, set: SetFileAttr) -> Result<FileAttr, FsError> {
        if !self.attrs.contains_key(ino) {
            Err(FsError::NotFound)
        } else {
            match set.size {
                Some(size) => match self.truncate_outcome(ino, size) {
                    Ok(_) => Ok(changed_attr(self.attrs[ino], set)),
                    Err(e) => Err(e),
                },
                None => Ok(changed_attr(self.attrs[ino], set)),
            }
        }
    }

    /// The state after the attributes of `ino` were changed by `set`.
    pub open spec fn after_update(self, ino: u64, set: SetFileAttr) -> FsState {
        let sized = match set.size {
            Some(size) => self.after_truncate(ino, size),
            None => self,
        };
        FsState { attrs: sized.attrs.insert(ino, changed_attr(self.attrs[ino], set)), ..sized }
    }

    /// Whether `parent` is a directory with an entry under `name`.
    pub open spec fn has_entry(self, parent: u64, name: Seq<char>) -> bool {
        self.dirs.contains_key(parent) && has_name(self.dirs[parent], name)
    }

    /// What looking up `name` under `parent` returns.
    pub open spec fn find_outcome(self, parent: u64, name: Seq<char>) -> Result<
        (u64, FileType),
        FsError,
    > {
        if !self.attrs.contains_key(parent) {
            Err(FsError::NotFound)
        } else if !self.is_dir(parent) {
            Err(FsError::NotADirectory)
        } else if !has_name(self.dirs[parent], name) {
            Err(FsError::NotFound)
        } else {
            Ok((self.entry_named(parent, name).ino, self.entry_named(parent, name).kind))
        }
    }

    /// What listing `parent` returns where it does not return entries.
    pub open spec fn list_failure(self, parent: u64) -> Option<FsError> {
        if !self.attrs.contains_key(parent) {
            Some(FsError::NotFound)
        } else if !self.is_dir(parent) {
            Some(FsError::NotADirectory)
        } else {
            None
        }
    }

    /// The entries of `parent` from the place `cursor` on.
    pub open spec fn listing(self, parent: u64, cursor: u64) -> Seq<EntryView> {
        entries_from(self.dirs[parent], cursor)
    }

    /// The entries of `parent` from the place `cursor` on, each with the
    /// attributes of the inode it points to.
    pub open spec fn listing_plus(self, parent: u64, cursor: u64) -> Seq<EntryPlusView> {
        self.listing(parent, cursor).map_values(
            |e: EntryView|
                EntryPlusView { ino: e.ino, name: e.name, kind: e.kind, attr: self.attrs[e.ino] },
        )
    }

    /// Why `ino` has no content to work on, if it has none.
    pub open spec fn content_failure(self, ino: u64) -> Option<FsError> {
        if !self.attrs.contains_key(ino) {
            Some(FsError::NotFound)
        } else if self.is_dir(ino) {
            Some(FsError::IsADirectory)
        } else {
            None
        }
    }

    /// The state after an entry was created under `parent` for each of
    /// `names`, in their order.
    pub open spec fn after_creates(
        self,
        parent: u64,
        names: Seq<Seq<char>>,
        init: CreateFileAttr,
    ) -> FsState
        decreases names.len(),
    {
        if names.len() == 0 {
            self
        } else {
            self.after_creates(parent, names.drop_last(), init).after_create(
                parent,
                names.last(),
                init,
            )
        }
    }
}

} // verus!
