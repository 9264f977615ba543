use fusedav_rs::blockfile::error::BlockFileError;
use fusedav_rs::blockfile::BlockFile;
use fusedav_rs::fs::attr::{FileAttr, FileType, Time};
use fusedav_rs::fs::errors::FSError;
use fusedav_rs::fs::inode_info_map::{InodeInfo, InodeInfoMap};
use fusedav_rs::fs::order::{sort_by_path, sort_path, sort_webdav_list};
use fusedav_rs::fs::webdav_fs::{read_data, readdir_entries};
use fusedav_rs::fs::webdav_fs_explorer::{ListItemInfo, WebDAVFSExplorer};
use fusedav_rs::text::{file_name_of, join_path, remove_all, str_eq, text_less};
use fusedav_rs::webdav::{WebDAVDirectory, WebDAVError, WebDAVFile, WebDAVList};

const NOW: Time = Time { secs: 1_700_000_000, nanos: 5 };

fn file(path: &str, size: u64) -> WebDAVList {
    WebDAVList::File(WebDAVFile {
        href: format!("http://host{}", path),
        path: path.to_string(),
        last_modified: 1_600_000_000,
        content_length: size,
        content_type: "application/octet-stream".to_string(),
    })
}

fn folder(path: &str, used: Option<u64>) -> WebDAVList {
    WebDAVList::Folder(WebDAVDirectory {
        href: format!("http://host{}", path),
        path: path.to_string(),
        last_modified: 1_500_000_000,
        quota_used_bytes: used,
        quota_available_bytes: None,
    })
}

fn attr(ino: u64, kind: FileType) -> FileAttr {
    FileAttr {
        ino,
        size: 0,
        blocks: 0,
        atime: NOW,
        mtime: NOW,
        ctime: NOW,
        crtime: NOW,
        kind,
        perm: 0o644,
        nlink: 1,
        uid: 0,
        gid: 0,
        rdev: 0,
        blksize: 512,
        flags: 0,
    }
}

#[test]
fn texts_are_compared_byte_by_byte() {
    assert!(str_eq("", ""));
    assert!(str_eq("été", "été"));
    assert!(!str_eq("a", "b"));
    assert!(!str_eq("a", "ab"));
    assert!(!str_eq("ab", "a"));
    let samples = ["", "a", "b", "ab", "a/", "a/b", "B", "é", "e", "zz", "/a", "/a/b", "/a.txt"];
    for a in samples {
        for b in samples {
            assert_eq!(text_less(a, b), a < b, "{:?} {:?}", a, b);
            assert_eq!(str_eq(a, b), a == b, "{:?} {:?}", a, b);
        }
    }
}

#[test]
fn occurrences_are_removed_as_the_standard_library_removes_them() {
    assert_eq!(remove_all("http://host/dav/a", "http://host/dav"), "/a");
    assert_eq!(remove_all("/dav/a/dav/b", "/dav"), "/a/b");
    assert_eq!(remove_all("aaa", "aa"), "a");
    assert_eq!(remove_all("abc", ""), "abc");
    assert_eq!(remove_all("", "x"), "");
    assert_eq!(remove_all("xx", "xx"), "");
    let texts = ["", "a", "aa", "aaa", "aaaa", "abab", "ababa", "aab", "baa", "été", "ééé", "/a/b/a/b", "abcabcab"];
    let patterns = ["", "a", "aa", "ab", "ba", "aba", "é", "éé", "/a", "b/", "abc", "abcabcabc", "x"];
    for text in texts {
        for pattern in patterns {
            assert_eq!(remove_all(text, pattern), text.replace(pattern, ""), "{:?} {:?}", text, pattern);
        }
    }
}

#[test]
fn paths_are_joined_as_the_standard_library_joins_them() {
    assert_eq!(join_path("/tmp", "x"), "/tmp/x");
    assert_eq!(join_path("/tmp/", "x"), "/tmp/x");
    assert_eq!(join_path("", "x"), "x");
    assert_eq!(join_path("/tmp", "/abs"), "/abs");
    assert_eq!(join_path("/tmp", ""), "/tmp/");
    for dir in ["", "/", "a", "a/", "/a/b", "/a/b/", "é", "./d", "//"] {
        for name in ["", "n", "n/m", "/n", "é", ".", "..", "5e0b9c2e-0000-4000-8000-000000000000"] {
            let expected = std::path::Path::new(dir).join(name);
            assert_eq!(join_path(dir, name), expected.to_str().unwrap(), "{:?} {:?}", dir, name);
        }
    }
}

#[test]
fn file_names_are_found_as_the_standard_library_finds_them() {
    assert_eq!(file_name_of("/a/b.txt"), Some("b.txt".to_string()));
    assert_eq!(file_name_of("/a/b/"), Some("b".to_string()));
    assert_eq!(file_name_of("/"), None);
    assert_eq!(file_name_of(""), None);
    assert_eq!(file_name_of("a/.."), None);
    let samples = [
        "", "/", "//", "a", "a/", "a//", "/a", "/a/", "a/b", "a/b/", "a//b//", ".", "..", "./",
        "../", "/.", "/..", "a/.", "a/..", "a/./", "a/../", "./a", "../a", "a/./b/.", ".//.",
        "./.", "/./", "..a", "a..", "...", "a/...", ".a", "a.", "/é/ü", "/é/ü/", "a b/c d",
        "/a/./.", "a/b/./", "./././", ".../.", "a/.b", "a/b.", "a/..b", "x/./..//.",
    ];
    for path in samples {
        let expected = std::path::Path::new(path)
            .file_name()
            .map(|name| name.to_str().unwrap().to_string());
        assert_eq!(file_name_of(path), expected, "{:?}", path);
    }
}

#[test]
fn an_inode_is_listed_under_its_last_component() {
    let name = |path: &str| InodeInfo::new(attr(9, FileType::RegularFile), path.to_string()).file_name();
    assert_eq!(name("/"), "/");
    assert_eq!(name("/a/b.txt"), "b.txt");
    assert_eq!(name("/music/été/"), "été");
    assert_eq!(name(""), "");
    assert_eq!(name("/a/.."), "");
    let info = InodeInfo::new(attr(9, FileType::Symlink), "/x".to_string());
    assert_eq!(info.share().path, "/x");
    assert_eq!(info.share().file_attr, attr(9, FileType::Symlink));
}

#[test]
fn a_listing_is_sorted_by_path() {
    let list = vec![
        folder("/b/", None),
        WebDAVList::Unknown,
        file("/a.txt", 1),
        file("/c", 2),
        file("/a", 3),
        file("/B", 4),
    ];
    let sorted: Vec<&str> = sort_by_path(&list).into_iter().map(sort_path).collect();
    assert_eq!(sorted, vec!["/B", "/a", "/a.txt", "/b/", "/c"]);
    assert_eq!(sort_by_path(&Vec::new()).len(), 0);
    assert_eq!(sort_by_path(&vec![WebDAVList::Unknown]).len(), 0);

    assert!(sort_webdav_list(&file("/a", 0), &file("/b", 0)));
    assert!(!sort_webdav_list(&file("/b", 0), &file("/a", 0)));
    assert!(!sort_webdav_list(&file("/a", 0), &folder("/a", None)));
    assert!(sort_webdav_list(&WebDAVList::Unknown, &file("/a", 0)));
    assert_eq!(sort_path(&WebDAVList::Unknown), "");
}

#[test]
fn entries_with_the_same_path_keep_their_order() {
    let list = vec![file("/x", 1), file("/a", 2), file("/x", 3), file("/a", 4), file("/x", 5)];
    let sizes: Vec<u64> = sort_by_path(&list)
        .into_iter()
        .map(|entry| match entry {
            WebDAVList::File(f) => f.content_length,
            _ => 0,
        })
        .collect();
    assert_eq!(sizes, vec![2, 4, 1, 3, 5]);
}

#[test]
fn a_fresh_cache_knows_the_root() {
    let map = InodeInfoMap::new_at(1000, 100, NOW);
    let root = map.find_by_ino(1).unwrap();
    assert_eq!(root.path, "/");
    assert_eq!(
        root.file_attr,
        FileAttr {
            ino: 1,
            size: 4096,
            blocks: 0,
            atime: NOW,
            mtime: NOW,
            ctime: NOW,
            crtime: NOW,
            kind: FileType::Directory,
            perm: 0o755,
            nlink: 2,
            uid: 1000,
            gid: 100,
            rdev: 0,
            blksize: 512,
            flags: 0,
        }
    );
    assert_eq!(InodeInfoMap::root_directory_attr(1000, 100, NOW), root.file_attr);
    assert_eq!(map.parent(1).unwrap().file_attr.ino, 1);
    assert!(map.find_by_ino(2).is_none());
    assert!(map.parent(2).is_none());
    assert!(!map.is_cached_dir(1));
    assert!(map.childs(1).is_none());
    assert!(map.find_by_path(1, "a").is_none());

    let map = InodeInfoMap::new(7, 8);
    let root = map.find_by_ino(1).unwrap();
    assert_eq!((root.file_attr.uid, root.file_attr.gid), (7, 8));
    assert_eq!(root.file_attr.kind, FileType::Directory);
    assert!(root.file_attr.atime.secs > 1_600_000_000);
    assert!(root.file_attr.atime.nanos < 1_000_000_000);
}

#[test]
fn a_listing_becomes_inodes_in_the_order_of_paths() {
    let mut map = InodeInfoMap::new_at(1000, 100, NOW);
    let later = Time { secs: NOW.secs + 60, nanos: 0 };
    map.update_cache_at(
        1,
        vec![folder("/b/", Some(77)), file("/a.txt", 10), WebDAVList::Unknown, folder("/c/", None)],
        later,
    );
    assert!(map.is_cached_dir(1));
    let children = map.childs(1).unwrap();
    let seen: Vec<(u64, &str)> =
        children.iter().map(|c| (c.file_attr.ino, c.path.as_str())).collect();
    assert_eq!(seen, vec![(2, "/a.txt"), (3, "/b/"), (4, "/c/")]);

    let a = map.find_by_ino(2).unwrap();
    assert_eq!(
        a.file_attr,
        FileAttr {
            ino: 2,
            size: 10,
            blocks: 0,
            atime: later,
            mtime: Time { secs: 1_600_000_000, nanos: 0 },
            ctime: Time { secs: 1_600_000_000, nanos: 0 },
            crtime: Time { secs: 1_600_000_000, nanos: 0 },
            kind: FileType::RegularFile,
            perm: 0o664,
            nlink: 2,
            uid: 1000,
            gid: 100,
            rdev: 0,
            blksize: 512,
            flags: 0,
        }
    );
    let b = map.find_by_ino(3).unwrap();
    assert_eq!(
        b.file_attr,
        FileAttr {
            ino: 3,
            size: 77,
            blocks: 0,
            atime: later,
            mtime: Time { secs: 1_500_000_000, nanos: 0 },
            ctime: Time { secs: 1_500_000_000, nanos: 0 },
            crtime: Time { secs: 1_500_000_000, nanos: 0 },
            kind: FileType::Directory,
            perm: 0o755,
            nlink: 2,
            uid: 1000,
            gid: 100,
            rdev: 0,
            blksize: 512,
            flags: 0,
        }
    );
    assert_eq!(map.find_by_ino(4).unwrap().file_attr.size, 4096);
    assert!(map.find_by_ino(5).is_none());

    assert_eq!(map.parent(3).unwrap().file_attr.ino, 1);
    assert_eq!(map.find_by_path(1, "b").unwrap().file_attr.ino, 3);
    assert_eq!(map.find_by_path(1, "a.txt").unwrap().file_attr.ino, 2);
    assert!(map.find_by_path(1, "a").is_none());
    assert!(map.find_by_path(3, "a.txt").is_none());

    map.update_cache_at(3, vec![file("/b/z", 1), file("/b/y", 2)], later);
    let seen: Vec<(u64, String)> =
        map.childs(3).unwrap().iter().map(|c| (c.file_attr.ino, c.file_name())).collect();
    assert_eq!(seen, vec![(5, "y".to_string()), (6, "z".to_string())]);
    assert_eq!(map.parent(6).unwrap().path, "/b/");
    assert_eq!(map.childs(1).unwrap().len(), 3);

    // A second listing of a folder is put behind the first.
    map.update_cache_at(3, vec![file("/b/x", 3)], later);
    let seen: Vec<u64> = map.childs(3).unwrap().iter().map(|c| c.file_attr.ino).collect();
    assert_eq!(seen, vec![5, 6, 7]);
}

#[test]
fn an_empty_listing_leaves_the_folder_unlisted() {
    let mut map = InodeInfoMap::new_at(0, 0, NOW);
    map.update_cache_at(1, Vec::new(), NOW);
    assert!(!map.is_cached_dir(1));
    map.update_cache_at(1, vec![WebDAVList::Unknown], NOW);
    assert!(!map.is_cached_dir(1));
    map.update_cache(1, vec![file("/f", 1)]);
    assert!(map.is_cached_dir(1));
    assert_eq!(map.find_by_path(1, "f").unwrap().file_attr.ino, 2);
}

#[test]
fn an_entry_takes_the_next_number() {
    let mut map = InodeInfoMap::new_at(3, 4, NOW);
    assert!(map.convert_at(&WebDAVList::Unknown, NOW).is_none());
    let first = map.convert_at(&file("/f", 9), NOW).unwrap();
    assert_eq!((first.file_attr.ino, first.file_attr.size), (2, 9));
    assert_eq!(first.path, "/f");
    let second = map.convert_web_dav_list_to_file_attr(&folder("/d/", None)).unwrap();
    assert_eq!((second.file_attr.ino, second.file_attr.kind), (3, FileType::Directory));
    assert_eq!((second.file_attr.uid, second.file_attr.gid), (3, 4));
    assert!(map.convert_web_dav_list_to_file_attr(&WebDAVList::Unknown).is_none());
    // Converting alone registers nothing.
    assert!(map.find_by_ino(2).is_none());
}

#[test]
fn the_explorer_answers_from_the_cache() {
    let mut explorer = WebDAVFSExplorer::new(1000, 100);
    assert_eq!(explorer.update_dir_cache_if_not_exists(1).unwrap(), Some("/".to_string()));
    assert!(matches!(explorer.update_dir_cache_if_not_exists(5), Err(FSError::INodeNotExists)));
    assert!(matches!(explorer.list(1), Err(FSError::INodeNotExists)));
    assert!(matches!(explorer.getattr(2), Err(FSError::INodeNotExists)));
    match explorer.lookup(1, "docs") {
        Err(FSError::FileNotFoundInInode(name)) => assert_eq!(name, "docs"),
        _ => panic!("nothing is listed yet"),
    }

    // The first entry of a listing is the folder itself.
    assert!(matches!(
        explorer.update_dir_cache(1, Err(WebDAVError::IO(BlockFileError::ReadOnly))),
        Err(FSError::WebDAV(WebDAVError::IO(BlockFileError::ReadOnly)))
    ));
    assert!(matches!(
        explorer.update_dir_cache(1, Err(WebDAVError::ReqwestDAV(reqwest_dav::Error::MissingAuthContext))),
        Err(FSError::WebDAV(WebDAVError::ReqwestDAV(reqwest_dav::Error::MissingAuthContext)))
    ));
    assert_eq!(explorer.update_dir_cache_if_not_exists(1).unwrap(), Some("/".to_string()));
    explorer
        .update_dir_cache(1, Ok(vec![folder("/", None), folder("/docs/", None), file("/a b", 5)]))
        .unwrap();
    assert_eq!(explorer.update_dir_cache_if_not_exists(1).unwrap(), None);
    assert_eq!(explorer.getattr(1).unwrap().path, "/");

    let docs = explorer.lookup(1, "docs").unwrap();
    assert_eq!((docs.file_attr.ino, docs.path.as_str()), (3, "/docs/"));
    let file_info = explorer.lookup(1, "a b").unwrap();
    assert_eq!((file_info.file_attr.ino, file_info.file_attr.size), (2, 5));
    assert_eq!(explorer.getattr(2).unwrap().file_attr, file_info.file_attr);

    let names: Vec<(u64, String)> =
        explorer.list(1).unwrap().into_iter().map(|item| (item.attr.ino, item.name)).collect();
    assert_eq!(
        names,
        vec![
            (1, ".".to_string()),
            (1, "..".to_string()),
            (2, "a b".to_string()),
            (3, "docs".to_string())
        ]
    );

    assert_eq!(explorer.update_dir_cache_if_not_exists(3).unwrap(), Some("/docs/".to_string()));
    match explorer.update_dir_cache_if_not_exists(2) {
        Err(FSError::InvalidOperation(path)) => assert_eq!(path, "/a b"),
        _ => panic!("a file has no listing"),
    }

    explorer
        .update_dir_cache(3, Ok(vec![folder("/docs/", None), file("/docs/r.md", 1)]))
        .unwrap();
    let names: Vec<(u64, String)> =
        explorer.list(3).unwrap().into_iter().map(|item| (item.attr.ino, item.name)).collect();
    assert_eq!(
        names,
        vec![(3, ".".to_string()), (1, "..".to_string()), (4, "r.md".to_string())]
    );

    // A listing without entries leaves everything as it was.
    explorer.update_dir_cache(4, Ok(Vec::new())).unwrap();
    assert!(matches!(explorer.list(4), Err(FSError::INodeNotExists)));
}

#[test]
fn list_items_carry_the_attributes() {
    let info = InodeInfo::new(attr(12, FileType::Directory), "/a/b/".to_string());
    let dot = ListItemInfo::new_working_dir_from(&info);
    assert_eq!((dot.attr, dot.name.as_str()), (info.file_attr, "."));
    let dots = ListItemInfo::new_parent_dir_from(&info);
    assert_eq!((dots.attr, dots.name.as_str()), (info.file_attr, ".."));
    let child = ListItemInfo::new_child_from(&info);
    assert_eq!((child.attr, child.name.as_str()), (info.file_attr, "b"));
}

#[test]
fn a_read_is_answered_with_a_buffer_of_the_size_asked_for() {
    let mut file = BlockFile::create(20, 16).unwrap();
    file.write(b"0123456789abcdefghij", 0).unwrap();
    let mut file = file.reopen(false);
    assert_eq!(read_data(&mut file, 0, 4).unwrap(), b"0123".to_vec());
    assert_eq!(read_data(&mut file, 14, 4).unwrap(), b"efgh".to_vec());
    assert_eq!(read_data(&mut file, 18, 5).unwrap(), b"ij\0\0\0".to_vec());
    assert_eq!(read_data(&mut file, 20, 2).unwrap(), vec![0u8; 2]);
    assert_eq!(read_data(&mut file, 0, 0).unwrap(), Vec::<u8>::new());
    assert!(matches!(
        read_data(&mut file, 21, 1),
        Err(FSError::IO(BlockFileError::InvalidPosition))
    ));
    assert!(matches!(
        read_data(&mut file, -1, 1),
        Err(FSError::IO(BlockFileError::InvalidPosition))
    ));
    let mut holes = BlockFile::create(64, 16).unwrap();
    assert!(matches!(
        read_data(&mut holes, 0, 1),
        Err(FSError::IO(BlockFileError::BlockNotAllocated))
    ));
}

#[test]
fn a_directory_is_read_from_a_place_on() {
    let items = |n: u64| -> Vec<ListItemInfo> {
        (0..n)
            .map(|i| ListItemInfo {
                attr: attr(10 + i, if i % 2 == 0 { FileType::Directory } else { FileType::RegularFile }),
                name: format!("n{}", i),
            })
            .collect()
    };
    let seen = |offset: i64| -> Vec<(u64, i64, FileType, String)> {
        readdir_entries(items(3), offset)
            .into_iter()
            .map(|e| (e.ino, e.offset, e.kind, e.name))
            .collect()
    };
    assert_eq!(
        seen(0),
        vec![
            (10, 1, FileType::Directory, "n0".to_string()),
            (11, 2, FileType::RegularFile, "n1".to_string()),
            (12, 3, FileType::Directory, "n2".to_string()),
        ]
    );
    assert_eq!(seen(2), vec![(12, 3, FileType::Directory, "n2".to_string())]);
    assert_eq!(seen(3), Vec::new());
    assert_eq!(seen(4), Vec::new());
    assert_eq!(seen(i64::MAX), Vec::new());
    assert_eq!(seen(-1), Vec::new());
    assert_eq!(readdir_entries(Vec::new(), 0).len(), 0);
}
