//! An in-memory, permissioned virtual file system.
//!
//! The tree of files and directories is an owned value: a `VFS` is mutated
//! through `&mut self`, so one caller at a time acts on it. Callers that share
//! a `VFS` across threads wrap the whole of it in one lock, which makes every
//! operation a single critical section (check and mutation cannot be split by
//! another caller). No operation takes a lock of its own, so none can fail on
//! one.
//!
//! A node's name is its key in its parent directory: renaming re-keys the
//! entry, and the old path no longer leads to it. Paths follow one grammar
//! (see `path`) in every operation.

pub mod perms;
mod clock;
pub mod node;
pub mod path;
pub mod vfs;
pub mod codec;
pub mod graphics;
pub mod window_manager;
pub mod kern;
