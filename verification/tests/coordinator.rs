use fusedav_rs::blockfile::error::BlockFileError;
use fusedav_rs::blockfile::BlockFile;
use fusedav_rs::fs::errors::FSError;
use fusedav_rs::fs::webdav_fs_file_downloader::{
    Download, WebDAVFSFileDownloader, WebDAVFSFileHandle, BLOCK_SIZE,
};
use fusedav_rs::webdav::transfer::{
    content_range_total, range_bounds, range_header, response_total, Transfer,
};
use fusedav_rs::webdav::WebDAVError;

const MIB: u64 = 1024 * 1024;

/// Stands for the server: the body of a range response, in chunks.
fn body(begin: u64, length: u64, file_size: u64) -> Vec<Vec<u8>> {
    let end = (begin + length).min(file_size);
    let mut chunks = Vec::new();
    let mut at = begin;
    while at < end {
        let n = (end - at).min(3 * MIB + 17);
        chunks.push((at..at + n).map(|i| (i % 251) as u8).collect());
        at += n;
    }
    chunks
}

fn fetch(file: &mut BlockFile, begin: u64, length: u64, file_size: u64) {
    let mut transfer = Transfer::new(file_size, begin).unwrap();
    for chunk in body(begin, length, file_size) {
        transfer.store(file, &chunk).unwrap();
    }
    assert_eq!(transfer.offset(), (begin + length).min(file_size));
}

#[test]
fn the_second_read_of_a_fetched_block_fetches_nothing() {
    let mut downloader = WebDAVFSFileDownloader::new("/tmp/cache".to_string());
    let mut requests: Vec<(u64, u64)> = Vec::new();

    // The first caller finds no cache file: one is made, and the first block is fetched.
    let (handle, image) = match downloader.download("/a", 32 * MIB, 0, 4096).unwrap() {
        Download::Fetch { handle, mut file, begin, length } => {
            assert_eq!(range_header(begin, length), "bytes=0-16777215");
            requests.push(range_bounds(begin, length));
            fetch(&mut file, begin, length, 32 * MIB);
            (handle, file.into_image())
        }
        _ => panic!("a new path is fetched"),
    };
    assert_eq!(requests, vec![(0, 16777215)]);

    // The second caller is told to open the same cache file, and finds the bytes ready.
    let second = match downloader.download("/a", 32 * MIB, 0, 4096).unwrap() {
        Download::Open(handle) => handle,
        _ => panic!("a known path is opened"),
    };
    assert_eq!(second.real_path(), handle.real_path());
    let mut file = second.get_file_for_write(image.clone()).unwrap();
    assert_eq!(file.is_data_ready(0, 4096), Ok(true));
    assert_eq!(file.is_data_ready(0, 4096), Ok(true));
    match WebDAVFSFileDownloader::resume(second, file, 0, 4096).unwrap() {
        Download::Ready(ready) => assert_eq!(ready.real_path(), handle.real_path()),
        _ => panic!("the bytes are there"),
    }
    assert_eq!(requests.len(), 1);

    // A read in the second block fetches that block, and no other.
    let third = match downloader.download("/a", 32 * MIB, 20 * MIB, 1024).unwrap() {
        Download::Open(handle) => handle,
        _ => panic!("a known path is opened"),
    };
    let file = third.get_file_for_write(image).unwrap();
    let mut file = match WebDAVFSFileDownloader::resume(third, file, 20 * MIB, 1024).unwrap() {
        Download::Fetch { handle: fetched, file, begin, length } => {
            assert_eq!(fetched.real_path(), handle.real_path());
            assert_eq!(range_header(begin, length), "bytes=16777216-33554431");
            requests.push(range_bounds(begin, length));
            file
        }
        _ => panic!("the second block is missing"),
    };
    assert_eq!(requests, vec![(0, 16777215), (16777216, 33554431)]);
    fetch(&mut file, 16 * MIB, 16 * MIB, 32 * MIB);

    let mut file = handle.get_file(file.into_image()).unwrap();
    assert_eq!(file.is_data_ready(0, 32 * MIB), Ok(true));
    let mut buf = vec![0u8; 1024];
    assert_eq!(file.read(&mut buf, 20 * MIB), Ok(1024));
    let expected: Vec<u8> = (20 * MIB..20 * MIB + 1024).map(|i| (i % 251) as u8).collect();
    assert_eq!(buf, expected);
}

#[test]
fn a_new_path_gets_a_fresh_cache_file_in_the_cache_folder() {
    let mut downloader = WebDAVFSFileDownloader::new("/tmp/cache".to_string());
    assert!(downloader.find("/a").is_none());
    let path = match downloader.download("/a", 100, 10, 20).unwrap() {
        Download::Fetch { handle, file, begin, length } => {
            assert_eq!((begin, length), (0, BLOCK_SIZE as u64));
            assert_eq!(file.file_size(), 100);
            assert_eq!(file.block_size(), BLOCK_SIZE);
            assert_eq!(file.block_count(), 1);
            assert!(file.writable());
            assert!(!file.block_info(0).unwrap().used);
            handle.real_path().to_string()
        }
        _ => panic!("a new path is fetched"),
    };
    assert!(path.starts_with("/tmp/cache/"));
    assert_eq!(path.len(), "/tmp/cache/".len() + 36);
    for (i, c) in path["/tmp/cache/".len()..].chars().enumerate() {
        if [8, 13, 18, 23].contains(&i) {
            assert_eq!(c, '-');
        } else {
            assert!(c.is_ascii_digit() || ('a'..='f').contains(&c));
        }
    }
    assert_eq!(downloader.find("/a").unwrap().real_path(), path);
    assert!(downloader.find("/b").is_none());

    let other = match downloader.download("/b", 100, 0, 1).unwrap() {
        Download::Fetch { handle, .. } => handle.real_path().to_string(),
        _ => panic!("a new path is fetched"),
    };
    assert_ne!(other, path);
    assert_eq!(downloader.find("/a").unwrap().real_path(), path);
    assert_eq!(downloader.find("/b").unwrap().real_path(), other);
}

#[test]
fn temp_paths_differ() {
    let downloader = WebDAVFSFileDownloader::new("cache/".to_string());
    let a = downloader.gen_temp_path();
    let b = downloader.gen_temp_path();
    assert!(a.starts_with("cache/") && !a.starts_with("cache//"));
    assert_ne!(a, b);
}

#[test]
fn register_at_uses_the_path_given() {
    let mut downloader = WebDAVFSFileDownloader::new("/tmp".to_string());
    match downloader.register_at("/x", "/tmp/x.cache".to_string(), 40 * MIB, 17 * MIB, 1024) {
        Ok(Download::Fetch { handle, file, begin, length }) => {
            assert_eq!(handle.real_path(), "/tmp/x.cache");
            assert_eq!((begin, length), (16 * MIB, 16 * MIB));
            assert_eq!(file.block_count(), 3);
        }
        _ => panic!("a new path is fetched"),
    }
    assert_eq!(downloader.find("/x").unwrap().real_path(), "/tmp/x.cache");
}

#[test]
fn a_file_too_large_for_the_header_is_not_registered() {
    let mut downloader = WebDAVFSFileDownloader::new("/tmp".to_string());
    assert!(matches!(
        downloader.download("/big", u64::MAX, 0, 1),
        Err(FSError::IO(BlockFileError::FileTooLarge))
    ));
    assert!(downloader.find("/big").is_none());
}

#[test]
fn a_range_that_cannot_be_named_is_not_registered() {
    let mut downloader = WebDAVFSFileDownloader::new("/tmp".to_string());
    assert!(matches!(
        downloader.download("/far", 100, u64::MAX - 10, 5),
        Err(FSError::IO(BlockFileError::InvalidPosition))
    ));
    assert!(matches!(
        downloader.download("/far", 100, u64::MAX - 2, 5),
        Err(FSError::IO(BlockFileError::InvalidPosition))
    ));
    assert!(downloader.find("/far").is_none());
}

#[test]
fn a_probe_at_the_end_of_the_file_finds_nothing_to_fetch() {
    let handle = WebDAVFSFileHandle::new("/tmp/f".to_string());
    for (offset, size) in [(100u64, 1u32), (100, 0), (101, 1), (0, 0), (u64::MAX, u32::MAX)] {
        let file = BlockFile::create(100, 16).unwrap();
        assert!(matches!(
            WebDAVFSFileDownloader::resume(handle.share(), file, offset, size),
            Ok(Download::Ready(_))
        ));
    }
}

#[test]
fn resume_reports_a_probe_that_leaves_the_table() {
    let handle = WebDAVFSFileHandle::new("/tmp/f".to_string());
    let mut image = BlockFile::create(32, 16).unwrap().into_image();
    image[4..12].copy_from_slice(&1000u64.to_be_bytes());
    let file = handle.get_file_for_write(image).unwrap();
    assert!(matches!(
        WebDAVFSFileDownloader::resume(handle, file, 100, 1),
        Err(FSError::IO(BlockFileError::InvalidPosition))
    ));
}

#[test]
fn a_handle_opens_what_the_cache_file_holds() {
    let handle = WebDAVFSFileHandle::new("/tmp/f".to_string());
    assert_eq!(handle.share().real_path(), "/tmp/f");
    assert_eq!(handle.clone().real_path(), "/tmp/f");
    let mut file = BlockFile::create(100, 16).unwrap();
    file.write(b"abc", 0).unwrap();
    let image = file.into_image();
    assert!(!handle.get_file(image.clone()).unwrap().writable());
    assert!(handle.get_file_for_write(image.clone()).unwrap().writable());
    assert!(matches!(
        handle.get_file(b"nothing of the kind".to_vec()),
        Err(FSError::IO(BlockFileError::InvalidFormat))
    ));
    assert!(matches!(
        handle.get_file_for_write(image[..25].to_vec()),
        Err(FSError::IO(BlockFileError::UnexpectedEof))
    ));
}

#[test]
fn the_end_of_a_fetch_is_the_answer_for_the_reader() {
    let handle = WebDAVFSFileHandle::new("/tmp/f".to_string());
    assert_eq!(
        WebDAVFSFileDownloader::complete(handle.share(), Ok(())).unwrap().real_path(),
        "/tmp/f"
    );
    assert!(matches!(
        WebDAVFSFileDownloader::complete(
            handle.share(),
            Err(WebDAVError::IO(BlockFileError::InvalidPosition))
        ),
        Err(FSError::WebDAV(WebDAVError::IO(BlockFileError::InvalidPosition)))
    ));
    assert!(matches!(
        WebDAVFSFileDownloader::complete(
            handle,
            Err(WebDAVError::ReqwestDAV(reqwest_dav::Error::MissingAuthContext))
        ),
        Err(FSError::WebDAV(WebDAVError::ReqwestDAV(reqwest_dav::Error::MissingAuthContext)))
    ));
}

#[test]
fn an_empty_object_is_not_transferred() {
    assert!(Transfer::new(0, 0).is_none());
    assert!(Transfer::new(0, 77).is_none());
    assert_eq!(Transfer::new(1, 77).unwrap().offset(), 77);
}

#[test]
fn chunks_are_written_one_behind_the_other() {
    let mut file = BlockFile::create(100, 16).unwrap();
    let mut transfer = Transfer::new(100, 16).unwrap();
    transfer.store(&mut file, b"0123456789").unwrap();
    assert_eq!(transfer.offset(), 26);
    transfer.store(&mut file, b"").unwrap();
    assert_eq!(transfer.offset(), 26);
    transfer.store(&mut file, b"abcdefghijklmnopqrstuvwxyz").unwrap();
    assert_eq!(transfer.offset(), 52);
    let mut buf = vec![0u8; 36];
    assert_eq!(file.read(&mut buf, 16), Ok(36));
    assert_eq!(buf, b"0123456789abcdefghijklmnopqrstuvwxyz".to_vec());
    assert_eq!(file.is_data_ready(16, 36), Ok(true));
    assert_eq!(file.is_data_ready(0, 1), Ok(false));
}

#[test]
fn a_failed_chunk_leaves_the_position() {
    let mut file = BlockFile::create(20, 16).unwrap();
    let mut transfer = Transfer::new(20, 16).unwrap();
    assert!(matches!(
        transfer.store(&mut file, &[1u8; 17]),
        Err(WebDAVError::IO(BlockFileError::InvalidPosition))
    ));
    assert_eq!(transfer.offset(), 16);

    let mut file = file.reopen(false);
    let mut transfer = Transfer::new(20, 0).unwrap();
    assert!(matches!(
        transfer.store(&mut file, b"x"),
        Err(WebDAVError::IO(BlockFileError::ReadOnly))
    ));
    assert_eq!(transfer.offset(), 0);
}

#[test]
fn range_requests_name_their_first_and_last_byte() {
    assert_eq!(range_bounds(0, 16777216), (0, 16777215));
    assert_eq!(range_bounds(16777216, 16777216), (16777216, 33554431));
    assert_eq!(range_bounds(5, 1), (5, 5));
    assert_eq!(range_bounds(u64::MAX, 1), (u64::MAX, u64::MAX));
}

#[test]
fn the_range_header_names_the_first_and_the_last_byte() {
    assert_eq!(range_header(0, 16777216), "bytes=0-16777215");
    assert_eq!(range_header(16777216, 16777216), "bytes=16777216-33554431");
    assert_eq!(range_header(0, 1), "bytes=0-0");
    assert_eq!(range_header(9, 2), "bytes=9-10");
    assert_eq!(range_header(1000, 9001), "bytes=1000-10000");
    assert_eq!(
        range_header(u64::MAX, 1),
        "bytes=18446744073709551615-18446744073709551615"
    );
    for (offset, size) in [(0u64, 10u64), (7, 93), (99, 1), (12345678901234, 987654321)] {
        assert_eq!(range_header(offset, size), format!("bytes={}-{}", offset, offset + size - 1));
    }
}

#[test]
fn the_total_stands_behind_the_last_slash() {
    assert_eq!(content_range_total("bytes 0-16777215/33554432"), Some(33554432));
    assert_eq!(content_range_total("bytes 0-0/0"), Some(0));
    assert_eq!(content_range_total("bytes 0-99/*"), None);
    assert_eq!(content_range_total("1234"), Some(1234));
    assert_eq!(content_range_total("a/b/+7"), Some(7));
    assert_eq!(content_range_total("/00012"), Some(12));
    assert_eq!(content_range_total(""), None);
    assert_eq!(content_range_total("bytes 0-99/"), None);
    assert_eq!(content_range_total("/+"), None);
    assert_eq!(content_range_total("/-1"), None);
    assert_eq!(content_range_total("/1 "), None);
    assert_eq!(content_range_total("/ 1"), None);
    assert_eq!(content_range_total("/1+"), None);
    assert_eq!(content_range_total("/18446744073709551615"), Some(u64::MAX));
    assert_eq!(content_range_total("/18446744073709551616"), None);
    assert_eq!(content_range_total("/99999999999999999999999"), None);
    assert_eq!(content_range_total("/١٢"), None);
}

#[test]
fn a_response_without_a_content_range_announces_nothing() {
    assert_eq!(response_total(None), Some(0));
    assert_eq!(response_total(Some("bytes 0-9/10")), Some(10));
    assert_eq!(response_total(Some("bytes 0-9/0")), Some(0));
    assert_eq!(response_total(Some("bytes 0-9/*")), None);
    assert!(Transfer::new(response_total(None).unwrap(), 0).is_none());
}

#[test]
fn the_total_is_read_as_the_standard_library_reads_it() {
    let samples = [
        "bytes 0-1/2", "0", "+0", "++0", "-0", "/", "//", "a/1/", "a/1/2", "1/a", "007",
        "18446744073709551615", "18446744073709551616", "184467440737095516150", "1_000", "0x10",
        " 1", "1\n", "é/5", "5/é",
    ];
    for value in samples {
        let expected = value.split('/').last().unwrap().parse::<u64>().ok();
        assert_eq!(content_range_total(value), expected, "{:?}", value);
    }
}
