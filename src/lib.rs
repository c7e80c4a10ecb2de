//! An inode-based filesystem over a volume of fixed-size blocks: allocation
//! bitmaps, on-disk inodes with direct and indirect block pointers, directory
//! entries, and the inode handles through which files and directories are used.
//! Beside it, the decisions of the process-management system calls.
use vstd::prelude::*;

pub mod bitmap;
pub mod block_cache;
pub mod layout;
pub mod efs;
pub mod dirent;
pub mod vfs;
pub mod syscall;

verus! {

} // verus!
