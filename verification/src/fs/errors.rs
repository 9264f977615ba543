//! What the filesystem adapter can fail with.

use vstd::prelude::*;
use crate::blockfile::error::BlockFileError;
use crate::webdav::WebDAVError;

verus! {

/// The errors of the filesystem adapter. The kernel hears of each of
/// them as "no such entry".
#[derive(Debug)]
pub enum FSError {
    /// The server, or what it sent, failed.
    WebDAV(WebDAVError),
    /// The local cache file failed.
    IO(BlockFileError),
    /// No inode has the number asked for.
    INodeNotExists,
    /// The folder has no child of this name.
    FileNotFoundInInode(String),
    /// The operation does not fit the inode, whose path this is.
    InvalidOperation(String),
}

} // verus!
