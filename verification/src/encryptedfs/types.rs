//! The records that the engine keeps and hands out.

use vstd::prelude::*;

verus! {

/// Number of the root directory. It always exists and no entry points to it.
pub const ROOT_INODE: u64 = 1;

/// Permission bits of the root directory.
pub const ROOT_PERM: u16 = 0o755;

/// What kind of object an inode describes.
#[derive(Clone, Copy, Debug, PartialEq, Eq, Structural)]
pub enum FileType {
    RegularFile,
    Directory,
    Symlink,
}

/// The attributes of one filesystem object.
#[derive(Clone, Copy, Debug, PartialEq, Eq, Structural)]
pub struct FileAttr {
    /// Inode number.
    pub ino: u64,
    pub kind: FileType,
    /// Length of the content in bytes, as readers see it.
    pub size: u64,
    /// Permission bits.
    pub perm: u16,
    /// Owner.
    pub uid: u32,
    /// Group.
    pub gid: u32,
    /// Time of the last access.
    pub atime: u64,
    /// Time of the last change of the content.
    pub mtime: u64,
    /// Time of creation.
    pub crtime: u64,
    /// Number of directory entries that point to the object.
    pub nlink: u32,
}

/// What a caller chooses when an object is created.
#[derive(Clone, Copy, Debug, PartialEq, Eq, Structural)]
pub struct CreateFileAttr {
    pub kind: FileType,
    pub perm: u16,
    pub uid: u32,
    pub gid: u32,
    /// The moment of creation; all three timestamps start from it.
    pub time: u64,
}

/// A change of attributes: each field that is `Some` replaces the attribute
/// of its name, the others stay.
#[derive(Clone, Copy, Debug, PartialEq, Eq, Structural)]
pub struct SetFileAttr {
    pub size: Option<u64>,
    pub perm: Option<u16>,
    pub uid: Option<u32>,
    pub gid: Option<u32>,
    pub atime: Option<u64>,
    pub mtime: Option<u64>,
    pub crtime: Option<u64>,
}

/// The attributes that a new object with number `ino` starts with: no
/// content, one link, every timestamp at the moment of creation.
pub open spec fn initial_attr(ino: u64, init: CreateFileAttr) -> FileAttr {
    FileAttr {
        ino,
        kind: init.kind,
        size: 0,
        perm: init.perm,
        uid: init.uid,
        gid: init.gid,
        atime: init.time,
        mtime: init.time,
        crtime: init.time,
        nlink: 1,
    }
}

/// The attributes of the root directory as it is first made.
pub open spec fn root_attr() -> FileAttr {
    initial_attr(
        ROOT_INODE,
        CreateFileAttr { kind: FileType::Directory, perm: ROOT_PERM, uid: 0, gid: 0, time: 0 },
    )
}

/// `attr` after the change `set`.
pub open spec fn changed_attr(attr: FileAttr, set: SetFileAttr) -> FileAttr {
    FileAttr {
        ino: attr.ino,
        kind: attr.kind,
        size: match set.size {
            Some(v) => v,
            None => attr.size,
        },
        perm: match set.perm {
            Some(v) => v,
            None => attr.perm,
        },
        uid: match set.uid {
            Some(v) => v,
            None => attr.uid,
        },
        gid: match set.gid {
            Some(v) => v,
            None => attr.gid,
        },
        atime: match set.atime {
            Some(v) => v,
            None => attr.atime,
        },
        mtime: match set.mtime {
            Some(v) => v,
            None => attr.mtime,
        },
        crtime: match set.crtime {
            Some(v) => v,
            None => attr.crtime,
        },
        nlink: attr.nlink,
    }
}

impl SetFileAttr {
    /// The change that changes nothing.
    pub fn none() -> (res: Self)
        ensures
            res == (SetFileAttr {
                size: None,
                perm: None,
                uid: None,
                gid: None,
                atime: None,
                mtime: None,
                crtime: None,
            }),
            forall|attr: FileAttr| changed_attr(attr, res) == attr,
    {
        SetFileAttr {
            size: None,
            perm: None,
            uid: None,
            gid: None,
            atime: None,
            mtime: None,
            crtime: None,
        }
    }
}

/// A named reference from a directory to an inode, in the form that
/// contracts speak of.
pub struct EntryView {
    pub ino: u64,
    pub name: Seq<char>,
    pub kind: FileType,
}

/// A named reference from a directory to an inode.
#[derive(Debug, PartialEq, Eq)]
pub struct DirectoryEntry {
    pub ino: u64,
    pub name: String,
    pub kind: FileType,
}

impl View for DirectoryEntry {
    type V = EntryView;

    open spec fn view(&self) -> EntryView {
        EntryView { ino: self.ino, name: self.name@, kind: self.kind }
    }
}

impl Clone for DirectoryEntry {
    fn clone(&self) -> (res: Self)
        ensures
            res@ == self@,
    {
        DirectoryEntry { ino: self.ino, name: self.name.clone(), kind: self.kind }
    }
}

/// A directory entry together with the attributes of the inode it points to.
#[derive(Debug, PartialEq, Eq)]
pub struct DirectoryEntryPlus {
    pub ino: u64,
    pub name: String,
    pub kind: FileType,
    pub attr: FileAttr,
}

/// A directory entry with attributes, in the form that contracts speak of.
pub struct EntryPlusView {
    pub ino: u64,
    pub name: Seq<char>,
    pub kind: FileType,
    pub attr: FileAttr,
}

impl View for DirectoryEntryPlus {
    type V = EntryPlusView;

    open spec fn view(&self) -> EntryPlusView {
        EntryPlusView { ino: self.ino, name: self.name@, kind: self.kind, attr: self.attr }
    }
}

} // verus!
