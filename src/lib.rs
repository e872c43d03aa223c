//! A small inode file system over a fixed-size block store.
//!
//! - `disk`: the block store interface, with its model as a sequence of
//!   blocks, and a store held in memory.
//! - `layout`: the on-disk format: superblock, inode records, indirect
//!   blocks, and their encoding.
//! - `fs`: the file system: format, mount (which rebuilds the free-block map
//!   from the inode table), create, remove, stat, read and write.
//! - `laws`: properties that relate several operations.

pub mod disk;
pub mod layout;
pub mod fs;
pub mod laws;
