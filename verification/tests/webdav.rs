use fusedav_rs::webdav::{
    to_unsigned, trim_host, ListEntity, ListFile, ListFolder, WebDAVClient, WebDAVError,
    WebDAVList,
};

fn file(href: &str) -> ListEntity {
    ListEntity::File(ListFile {
        href: href.to_string(),
        last_modified: 1_700_000_000,
        content_length: 1234,
        content_type: "text/plain".to_string(),
    })
}

fn folder(href: &str, used: Option<i64>, available: Option<i64>) -> ListEntity {
    ListEntity::Folder(ListFolder {
        href: href.to_string(),
        last_modified: -5,
        quota_used_bytes: used,
        quota_available_bytes: available,
    })
}

#[test]
fn a_file_is_listed_below_the_root() {
    let entry = WebDAVList::try_from("http://host/dav", file("http://host/dav/a%20b/c.txt"));
    match entry.unwrap() {
        WebDAVList::File(f) => {
            assert_eq!(f.href, "http://host/dav/a%20b/c.txt");
            assert_eq!(f.path, "/a b/c.txt");
            assert_eq!(f.last_modified, 1_700_000_000);
            assert_eq!(f.content_length, 1234);
            assert_eq!(f.content_type, "text/plain");
        }
        _ => panic!("a file stays a file"),
    }
}

#[test]
fn a_folder_is_listed_below_the_root() {
    let entry = WebDAVList::try_from("/dav", folder("/dav/music/%C3%A9t%C3%A9/", Some(77), None));
    match entry.unwrap() {
        WebDAVList::Folder(d) => {
            assert_eq!(d.href, "/dav/music/%C3%A9t%C3%A9/");
            assert_eq!(d.path, "/music/été/");
            assert_eq!(d.last_modified, -5);
            assert_eq!(d.quota_used_bytes, Some(77));
            assert_eq!(d.quota_available_bytes, None);
        }
        _ => panic!("a folder stays a folder"),
    }
}

#[test]
fn every_occurrence_of_the_root_is_left_out() {
    match WebDAVList::try_from("/dav", file("/dav/a/dav/b")).unwrap() {
        WebDAVList::File(f) => assert_eq!(f.path, "/a/b"),
        _ => panic!("a file stays a file"),
    }
    match WebDAVList::try_from("", file("/plain")).unwrap() {
        WebDAVList::File(f) => assert_eq!(f.path, "/plain"),
        _ => panic!("a file stays a file"),
    }
}

#[test]
fn negative_numbers_are_read_as_unsigned() {
    assert_eq!(to_unsigned(0), 0);
    assert_eq!(to_unsigned(5), 5);
    assert_eq!(to_unsigned(i64::MAX), i64::MAX as u64);
    assert_eq!(to_unsigned(-1), u64::MAX);
    assert_eq!(to_unsigned(i64::MIN), 1u64 << 63);
    match WebDAVList::try_from("", folder("/f", Some(-1), Some(-2))).unwrap() {
        WebDAVList::Folder(d) => {
            assert_eq!(d.quota_used_bytes, Some(u64::MAX));
            assert_eq!(d.quota_available_bytes, Some(u64::MAX - 1));
        }
        _ => panic!("a folder stays a folder"),
    }
    let negative = ListEntity::File(ListFile {
        href: "/n".to_string(),
        last_modified: 0,
        content_length: -1,
        content_type: String::new(),
    });
    match WebDAVList::from_ref("", &negative).unwrap() {
        WebDAVList::File(f) => assert_eq!(f.content_length, u64::MAX),
        _ => panic!("a file stays a file"),
    }
}

#[test]
fn a_path_that_is_no_utf8_is_an_encoding_error() {
    assert!(matches!(
        WebDAVList::try_from("/dav", file("/dav/%ff")),
        Err(WebDAVError::EncodingError(_))
    ));
    assert!(matches!(
        WebDAVList::try_from("/dav", folder("/dav/%C3", None, None)),
        Err(WebDAVError::EncodingError(_))
    ));
}

#[test]
fn one_slash_at_the_end_of_the_address_is_dropped() {
    assert_eq!(trim_host("http://host/dav/".to_string()), "http://host/dav");
    assert_eq!(trim_host("http://host/dav".to_string()), "http://host/dav");
    assert_eq!(trim_host("http://host//".to_string()), "http://host/");
    assert_eq!(trim_host("/".to_string()), "");
    assert_eq!(trim_host(String::new()), "");
    assert_eq!(trim_host("é/".to_string()), "é");
}

#[test]
fn a_client_lists_below_its_address() {
    let client = WebDAVClient::new(
        "http://host.invalid/dav/".to_string(),
        "name".to_string(),
        "secret".to_string(),
    )
    .unwrap();
    assert_eq!(client.host_name(), "http://host.invalid/dav");
    assert_eq!(client.client().host, "http://host.invalid/dav");
    assert_eq!(client.clone().host_name(), "http://host.invalid/dav");

    let listed = client
        .list(vec![
            folder("http://host.invalid/dav/", None, None),
            file("http://host.invalid/dav/x%2By"),
            folder("http://host.invalid/dav/sub/", Some(1), Some(2)),
        ])
        .unwrap();
    assert_eq!(listed.len(), 3);
    let paths: Vec<String> = listed
        .iter()
        .map(|entry| match entry {
            WebDAVList::File(f) => f.path.clone(),
            WebDAVList::Folder(d) => d.path.clone(),
            WebDAVList::Unknown => String::new(),
        })
        .collect();
    assert_eq!(paths, vec!["/", "/x+y", "/sub/"]);
    assert!(matches!(listed[0], WebDAVList::Folder(_)));
    assert!(matches!(listed[1], WebDAVList::File(_)));

    assert!(matches!(
        client.list(vec![file("http://host.invalid/dav/ok"), file("/%80"), file("/later")]),
        Err(WebDAVError::EncodingError(_))
    ));
    assert_eq!(client.list(Vec::new()).unwrap().len(), 0);
}
