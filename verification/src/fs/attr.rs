//! The attributes of an inode as the kernel asks for them.

use vstd::prelude::*;

verus! {

/// The kind of a file.
#[derive(Clone, Copy, Debug, PartialEq, Eq, Structural)]
pub enum FileType {
    NamedPipe,
    CharDevice,
    BlockDevice,
    Directory,
    RegularFile,
    Symlink,
    Socket,
}

/// A point in time: seconds and nanoseconds since the start of 1970.
#[derive(Clone, Copy, Debug, PartialEq, Eq, Structural)]
pub struct Time {
    pub secs: u64,
    pub nanos: u32,
}

/// The attributes of an inode.
#[derive(Clone, Copy, Debug, PartialEq, Eq, Structural)]
pub struct FileAttr {
    /// Inode number.
    pub ino: u64,
    /// Size in bytes.
    pub size: u64,
    /// Size in blocks.
    pub blocks: u64,
    /// Time of last access.
    pub atime: Time,
    /// Time of last modification.
    pub mtime: Time,
    /// Time of last change.
    pub ctime: Time,
    /// Time of creation.
    pub crtime: Time,
    /// Kind of file.
    pub kind: FileType,
    /// Permissions.
    pub perm: u16,
    /// Number of hard links.
    pub nlink: u32,
    /// User id.
    pub uid: u32,
    /// Group id.
    pub gid: u32,
    /// Device number.
    pub rdev: u32,
    /// Block size.
    pub blksize: u32,
    /// Flags.
    pub flags: u32,
}

/// `SystemTime::now`, told as the time since the start of 1970, which
/// `duration_since` measures; a clock set before 1970 reads as 1970.
/// Of the result the contract says only that its nanoseconds are less
/// than a second.
#[verifier::external_body]
pub(crate) fn now() -> (time: Time)
    ensures
        time.nanos < 1_000_000_000,
{
    match std::time::SystemTime::now().duration_since(std::time::UNIX_EPOCH) {
        Ok(since) => Time { secs: since.as_secs(), nanos: since.subsec_nanos() },
        Err(_) => Time { secs: 0, nanos: 0 },
    }
}

/// The time `secs` seconds after the start of 1970.
pub open spec fn at_second(secs: u64) -> Time {
    Time { secs, nanos: 0 }
}

/// The attributes of a folder with inode number `ino`, owned by `uid`
/// and `gid`, last looked at at `atime` and made and changed at `mtime`.
pub open spec fn directory_attr(
    ino: u64,
    size: u64,
    uid: u32,
    gid: u32,
    atime: Time,
    mtime: Time,
) -> FileAttr {
    FileAttr {
        ino,
        size,
        blocks: 0,
        atime,
        mtime,
        ctime: mtime,
        crtime: mtime,
        kind: FileType::Directory,
        perm: 0o755,
        nlink: 2,
        uid,
        gid,
        rdev: 0,
        blksize: 512,
        flags: 0,
    }
}

/// The attributes of a regular file of `size` bytes with inode number
/// `ino`, owned by `uid` and `gid`, last looked at at `atime` and made
/// and changed at `mtime`.
pub open spec fn file_attr(
    ino: u64,
    size: u64,
    uid: u32,
    gid: u32,
    atime: Time,
    mtime: Time,
) -> FileAttr {
    FileAttr {
        ino,
        size,
        blocks: 0,
        atime,
        mtime,
        ctime: mtime,
        crtime: mtime,
        kind: FileType::RegularFile,
        perm: 0o664,
        nlink: 2,
        uid,
        gid,
        rdev: 0,
        blksize: 512,
        flags: 0,
    }
}

} // verus!
