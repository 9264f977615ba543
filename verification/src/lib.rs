//! A read-only WebDAV mount, reduced to its decisions.
//!
//! A remote tree is shown as a local filesystem. Folders are listed on
//! the server when they are first looked into; file contents are
//! fetched in aligned blocks of 16 MiB when they are first read, and
//! kept in one sparse cache file for each remote file.
//!
//! This library holds what is decided on the way, and every function in
//! it carries a contract:
//!
//! - [`blockfile`]: the format of the cache file and the engine that
//!   reads and writes it, with the laws that hold of it: what was
//!   written is what is read, physical slots are packed and follow the
//!   order of first writes, no read succeeds over a block that was
//!   never written.
//! - [`webdav`]: the entries of a listing as the filesystem needs them,
//!   the value of a range request, and the body of its response on the
//!   way into a block file.
//! - [`fs`]: the metadata cache, name lookups and directory listings,
//!   the registry of cache files, and the answers to the kernel.
//! - [`text`]: text compared, and paths put together and taken apart.
//!
//! The network, the kernel bridge, the local disk and the locks stay
//! with the caller. It hands over what came in (the bytes of a cache
//! file, a listing, a chunk of a response) and is told what to do next.

pub mod blockfile;
pub mod fs;
pub mod text;
pub mod webdav;
