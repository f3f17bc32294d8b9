//! The logical core of an encrypted filesystem.
//!
//! [`stream_util`] moves exact numbers of bytes between streams.
//! [`encryptedfs`] builds on it: an inode store, directory tables and file
//! contents behind one engine, and the sealed records in which attributes
//! and content go to a backing store and come back.
//!
//! Key material never enters this crate. Whoever owns it hands in a
//! [`encryptedfs::record::Cipher`], and the backing store is reached through
//! the [`stream_util::ByteSource`] and [`stream_util::ByteSink`] traits.

pub mod error;
pub mod stream_util;
pub mod mem_stream;
pub mod encryptedfs;
