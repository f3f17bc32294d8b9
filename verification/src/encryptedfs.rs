//! The engine: an inode store, directory tables and file contents, the
//! operations that keep the three consistent, and the sealed records that
//! carry them to a backing store.

pub mod types;
pub mod inode_store;
pub mod content;
pub mod dir_table;
pub mod state;
pub mod consistency;
pub mod theorems;
pub mod record;
pub mod dir_record;
pub mod engine;

pub use engine::EncryptedFs;
pub use types::{
    CreateFileAttr, DirectoryEntry, DirectoryEntryPlus, FileAttr, FileType, SetFileAttr, ROOT_INODE,
};
