//! A library for reading, modifying and writing KeePass v1.x (`.kdb`)
//! password database files: a single-file, AES-encrypted container that
//! holds a tree of groups and their credential entries.
//!
//! The crate covers the on-disk codec and the in-memory model: the
//! fixed-layout binary header, the key-derivation and encryption
//! pipeline with its integrity checks, the tag-length-value body codec
//! for groups and entries, the reconstruction of the group hierarchy
//! from a flat level-ordered stream (and the reverse flattening), and
//! obfuscated in-memory storage of secrets with best-effort zeroisation.
//!
//! File and keyfile bytes are handed in and out as plain byte vectors;
//! reading and writing the filesystem is left to the caller.

pub mod body;
pub mod crypter;
pub mod db;
pub mod crypto;
pub mod endian;
pub mod entry;
pub mod error;
pub mod group;
pub mod header;
pub mod secstr;
pub mod tree;
pub mod tstamp;
pub mod utf8;
