//! The filesystem adapter without the kernel: errors, the metadata
//! cache, directory listings and the bookkeeping of downloads.

pub mod attr;
pub mod errors;
pub mod inode_info_map;
pub mod order;
pub mod webdav_fs;
pub mod webdav_fs_explorer;
pub mod webdav_fs_file_downloader;
