//! The inode store: one attribute record per inode, and the counter that
//! numbers new inodes.

use vstd::prelude::*;
use std::collections::HashMap;
use crate::error::{FsError, NO_SPACE};
use crate::encryptedfs::types::{
    changed_attr, initial_attr, CreateFileAttr, FileAttr, SetFileAttr, ROOT_INODE,
};

verus! {

broadcast use vstd::std_specs::hash::group_hash_axioms;

/// Every record sits under its own number, and every number in use lies
/// below the counter, so that the counter never hands out a number twice.
pub open spec fn table_wf(attrs: Map<u64, FileAttr>, next_ino: u64) -> bool {
    &&& next_ino >= ROOT_INODE
    &&& forall|ino: u64| #[trigger]
        attrs.contains_key(ino) ==> attrs[ino].ino == ino && ROOT_INODE <= ino < next_ino
}

/// `attr` with one link less.
pub open spec fn with_link_dropped(attr: FileAttr) -> FileAttr {
    FileAttr { nlink: if attr.nlink > 0 { (attr.nlink - 1) as u32 } else { 0 }, ..attr }
}

/// The attribute records of all inodes.
pub struct InodeStore {
    records: HashMap<u64, FileAttr>,
    next_ino: u64,
}

impl InodeStore {
    /// The record of each inode that exists.
    pub closed spec fn attrs(&self) -> Map<u64, FileAttr> {
        self.records@
    }

    /// The number that the next new inode gets.
    pub closed spec fn next_ino(&self) -> u64 {
        self.next_ino
    }

    pub open spec fn wf(&self) -> bool {
        table_wf(self.attrs(), self.next_ino())
    }

    /// A store without inodes, whose first inode will be the root.
    pub fn new() -> (res: Self)
        ensures
            res.wf(),
            res.attrs() == Map::<u64, FileAttr>::empty(),
            res.next_ino() == ROOT_INODE,
    {
        InodeStore { records: HashMap::new(), next_ino: ROOT_INODE }
    }

    /// The attributes of `ino`, or [`FsError::NotFound`].
    pub fn get_inode(&self, ino: u64) -> (res: Result<FileAttr, FsError>)
        ensures
            res == if self.attrs().contains_key(ino) {
                Ok::<FileAttr, FsError>(self.attrs()[ino])
            } else {
                Err::<FileAttr, FsError>(FsError::NotFound)
            },
    {
        match self.records.get(&ino) {
            Some(attr) => Ok(*attr),
            None => Err(FsError::NotFound),
        }
    }

    /// Makes an inode under the next free number, with the attributes that a
    /// new object starts with, and returns both. Numbers are never used
    /// again; when they have run out the store stays as it is and the call
    /// fails with [`FsError::IoFailure`] of [`NO_SPACE`].
    pub fn create_inode(&mut self, init: CreateFileAttr) -> (res: Result<(u64, FileAttr), FsError>)
        requires
            old(self).wf(),
        ensures
            final(self).wf(),
            old(self).next_ino() == u64::MAX ==> res == Err::<(u64, FileAttr), FsError>(
                FsError::IoFailure(NO_SPACE),
            ) && final(self).attrs() == old(self).attrs() && final(self).next_ino() == old(
                self,
            ).next_ino(),
            old(self).next_ino() < u64::MAX ==> res == Ok::<(u64, FileAttr), FsError>(
                (old(self).next_ino(), initial_attr(old(self).next_ino(), init)),
            ) && final(self).attrs() == old(self).attrs().insert(
                old(self).next_ino(),
                initial_attr(old(self).next_ino(), init),
            ) && final(self).next_ino() == old(self).next_ino() + 1,
            !old(self).attrs().contains_key(old(self).next_ino()),
    {
        if self.next_ino == u64::MAX {
            return Err(FsError::IoFailure(NO_SPACE));
        }
        let ino: u64 = self.next_ino;
        let attr = FileAttr {
            ino,
            kind: init.kind,
            size: 0,
            perm: init.perm,
            uid: init.uid,
            gid: init.gid,
            atime: init.time,
            mtime: init.time,
            crtime: init.time,
            nlink: 1,
        };
        self.records.insert(ino, attr);
        self.next_ino = ino + 1;
        Ok((ino, attr))
    }

    /// Applies `set` to the attributes of `ino` in one step and returns the
    /// new attributes; [`FsError::NotFound`] where there is no such inode.
    pub fn update_inode(&mut self, ino: u64, set: SetFileAttr) -> (res: Result<FileAttr, FsError>)
        requires
            old(self).wf(),
        ensures
            final(self).wf(),
            final(self).next_ino() == old(self).next_ino(),
            !old(self).attrs().contains_key(ino) ==> res == Err::<FileAttr, FsError>(
                FsError::NotFound,
            ) && final(self).attrs() == old(self).attrs(),
            old(self).attrs().contains_key(ino) ==> res == Ok::<FileAttr, FsError>(
                changed_attr(old(self).attrs()[ino], set),
            ) && final(self).attrs() == old(self).attrs().insert(
                ino,
                changed_attr(old(self).attrs()[ino], set),
            ),
    {
        let attr: FileAttr = match self.records.get(&ino) {
            Some(attr) => *attr,
            None => {
                return Err(FsError::NotFound);
            },
        };
        let changed = FileAttr {
            ino: attr.ino,
            kind: attr.kind,
            size: match set.size {
                Some(v) => v,
                None => attr.size,
            },
            perm: match set.perm {
                Some(v) => v,
                None => attr.perm,
            },
            uid: match set.uid {
                Some(v) => v,
                None => attr.uid,
            },
            gid: match set.gid {
                Some(v) => v,
                None => attr.gid,
            },
            atime: match set.atime {
                Some(v) => v,
                None => attr.atime,
            },
            mtime: match set.mtime {
                Some(v) => v,
                None => attr.mtime,
            },
            crtime: match set.crtime {
                Some(v) => v,
                None => attr.crtime,
            },
            nlink: attr.nlink,
        };
        self.records.insert(ino, changed);
        Ok(changed)
    }

    /// Removes the record of `ino`; [`FsError::NotFound`] where there is
    /// none. Whether anything still points to the inode is for the caller to
    /// know.
    pub fn delete_inode(&mut self, ino: u64) -> (res: Result<(), FsError>)
        requires
            old(self).wf(),
        ensures
            final(self).wf(),
            final(self).next_ino() == old(self).next_ino(),
            final(self).attrs() == old(self).attrs().remove(ino),
            res == if old(self).attrs().contains_key(ino) {
                Ok::<(), FsError>(())
            } else {
                Err::<(), FsError>(FsError::NotFound)
            },
    {
        match self.records.remove(&ino) {
            Some(_) => Ok(()),
            None => {
                proof {
                    assert(self.attrs() =~= old(self).attrs().remove(ino));
                }
                Err(FsError::NotFound)
            },
        }
    }

    /// Takes one link from `ino` and returns how many are left. With the last
    /// link the record goes too. [`FsError::NotFound`] where there is no such
    /// inode.
    pub fn drop_link(&mut self, ino: u64) -> (res: Result<u32, FsError>)
        requires
            old(self).wf(),
        ensures
            final(self).wf(),
            final(self).next_ino() == old(self).next_ino(),
            !old(self).attrs().contains_key(ino) ==> res == Err::<u32, FsError>(FsError::NotFound)
                && final(self).attrs() == old(self).attrs(),
            old(self).attrs().contains_key(ino) ==> res == Ok::<u32, FsError>(
                with_link_dropped(old(self).attrs()[ino]).nlink,
            ) && final(self).attrs() == if with_link_dropped(old(self).attrs()[ino]).nlink == 0 {
                old(self).attrs().remove(ino)
            } else {
                old(self).attrs().insert(ino, with_link_dropped(old(self).attrs()[ino]))
            },
    {
        let attr: FileAttr = match self.records.get(&ino) {
            Some(attr) => *attr,
            None => {
                return Err(FsError::NotFound);
            },
        };
        let left: u32 = if attr.nlink > 0 {
            attr.nlink - 1
        } else {
            0
        };
        if left == 0 {
            self.records.remove(&ino);
        } else {
            self.records.insert(ino, FileAttr { nlink: left, ..attr });
        }
        Ok(left)
    }
}

} // verus!
