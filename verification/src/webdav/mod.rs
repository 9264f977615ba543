//! What the WebDAV server says, as the filesystem needs it: the entries
//! of a listing, and the body of a range response on its way into a
//! block file.
//!
//! The requests themselves are the caller's business. It hands over
//! what came back and is told what to do with it.

pub mod transfer;

use vstd::prelude::*;
use crate::blockfile::error::BlockFileError;
use crate::text::{remove_all, removed};

verus! {

/// The error type of the WebDAV client library, carried through as it is.
#[verifier::external_type_specification]
#[verifier::external_body]
pub struct ExDavError(reqwest_dav::Error);

/// The client of the WebDAV client library, carried through as it is.
#[verifier::external_type_specification]
#[verifier::external_body]
pub struct ExDavClient(reqwest_dav::Client);

/// `Clone` of the client of the WebDAV client library. Nothing is
/// claimed of the copy.
pub assume_specification[ <reqwest_dav::Client as std::clone::Clone>::clone ](
    client: &reqwest_dav::Client,
) -> reqwest_dav::Client
;

/// The error of a text that is no UTF-8, carried through as it is.
#[verifier::external_type_specification]
#[verifier::external_body]
pub struct ExFromUtf8Error(std::string::FromUtf8Error);

/// A file as the server lists it. Times are seconds since 1970.
#[derive(Debug, Clone)]
pub struct ListFile {
    pub href: String,
    pub last_modified: i64,
    pub content_length: i64,
    pub content_type: String,
}

/// A folder as the server lists it. Times are seconds since 1970.
#[derive(Debug, Clone)]
pub struct ListFolder {
    pub href: String,
    pub last_modified: i64,
    pub quota_used_bytes: Option<i64>,
    pub quota_available_bytes: Option<i64>,
}

/// An entry as the server lists it.
#[derive(Debug, Clone)]
pub enum ListEntity {
    File(ListFile),
    Folder(ListFolder),
}

/// An entry of a listing, with its path below the root of the mount.
#[derive(Debug, Clone)]
pub enum WebDAVList {
    File(WebDAVFile),
    Folder(WebDAVDirectory),
    Unknown,
}

/// A remote file.
#[derive(Debug, Clone)]
pub struct WebDAVFile {
    pub href: String,
    pub path: String,
    pub last_modified: i64,
    pub content_length: u64,
    pub content_type: String,
}

/// A remote folder.
#[derive(Debug, Clone)]
pub struct WebDAVDirectory {
    pub href: String,
    pub path: String,
    pub last_modified: i64,
    pub quota_used_bytes: Option<u64>,
    pub quota_available_bytes: Option<u64>,
}

/// What can go wrong between the server and the block file.
#[derive(Debug)]
pub enum WebDAVError {
    ReqwestDAV(reqwest_dav::Error),
    IO(BlockFileError),
    EncodingError(std::string::FromUtf8Error),
}

/// `text` with its percent escapes undone, if what comes out is UTF-8.
pub uninterp spec fn percent_decoded(text: Seq<char>) -> Option<Seq<char>>;

/// `urlencoding::decode`: undoes `%xx` escapes and reads the bytes as
/// UTF-8. The contract names the result, says that the call fails
/// exactly where there is none, and that a text without `%` comes back
/// as it is.
#[verifier::external_body]
fn percent_decode(text: &str) -> (r: Result<String, std::string::FromUtf8Error>)
    ensures
        r is Ok ==> percent_decoded(text@) == Some((r->Ok_0)@),
        r is Err ==> percent_decoded(text@) is None,
        !text@.contains('%') ==> r is Ok && (r->Ok_0)@ == text@,
{
    urlencoding::decode(text).map(|path| path.into_owned())
}

/// A signed number read as the unsigned number of the same 64 bits.
pub open spec fn as_unsigned(x: i64) -> u64 {
    if x >= 0 {
        x as u64
    } else {
        (x + 0x1_0000_0000_0000_0000) as u64
    }
}

/// A signed number read as the unsigned number of the same 64 bits.
pub fn to_unsigned(x: i64) -> (r: u64)
    ensures
        r == as_unsigned(x),
{
    if x >= 0 {
        x as u64
    } else {
        ((x + i64::MAX) + 1) as u64 + 0x8000_0000_0000_0000
    }
}

/// The number in `x`, if there is one, read as unsigned.
pub open spec fn as_unsigned_option(x: Option<i64>) -> Option<u64> {
    match x {
        Some(x) => Some(as_unsigned(x)),
        None => None,
    }
}

/// `ClientBuilder::build` of the WebDAV client library, for a client
/// that signs in to `host` by name and password. The call refuses only
/// a builder without a host, and this one has a host: the contract
/// says that a client comes back, and nothing of the client.
#[verifier::external_body]
fn build_client(host: String, user: String, password: String) -> (r: Result<
    reqwest_dav::Client,
    reqwest_dav::Error,
>)
    ensures
        r is Ok,
{
    reqwest_dav::ClientBuilder::new().set_auth(reqwest_dav::Auth::Basic(user, password)).set_host(
        host,
    ).build()
}

/// `url` without the slash at its end, if it has one there.
pub open spec fn trimmed(url: Seq<char>) -> Seq<char> {
    if url.len() > 0 && url.last() == '/' {
        url.drop_last()
    } else {
        url
    }
}

/// `url` without the slash at its end, if it has one there.
pub fn trim_host(url: String) -> (host: String)
    ensures
        host@ == trimmed(url@),
{
    let len = url.as_str().unicode_len();
    if len > 0 && url.as_str().get_char(len - 1) == '/' {
        let host = url.as_str().substring_char(0, len - 1);
        assert(host@ =~= url@.drop_last());
        host.to_owned()
    } else {
        url
    }
}

/// The handle to a WebDAV server: the client that talks to it, and the
/// address that the client was made for.
#[derive(Clone)]
pub struct WebDAVClient {
    client: reqwest_dav::Client,
    host: String,
}

impl WebDAVClient {
    /// The address of the server, without a slash at its end.
    pub closed spec fn host(&self) -> Seq<char> {
        self.host@
    }

    /// The client of the client library that this handle holds: the
    /// one that was built for it.
    pub closed spec fn held(&self) -> reqwest_dav::Client {
        self.client
    }

    /// A client for the server at `url`, which signs in by name and
    /// password. A slash at the end of `url` is dropped.
    pub fn new(url: String, user: String, password: String) -> (r: Result<
        WebDAVClient,
        WebDAVError,
    >)
        ensures
            r is Ok,
            (r->Ok_0).host() == trimmed(url@),
    {
        let host = trim_host(url);
        let built = build_client(host.clone(), user, password);
        WebDAVClient::from_built(host, built)
    }

    /// The client for `host` that the client library built, or the
    /// error with which it refused.
    pub fn from_built(host: String, built: Result<reqwest_dav::Client, reqwest_dav::Error>) -> (r:
        Result<WebDAVClient, WebDAVError>)
        ensures
            built is Ok ==> r is Ok && (r->Ok_0).host() == host@ && (r->Ok_0).held()
                == built->Ok_0,
            built is Err ==> r is Err && (r->Err_0) is ReqwestDAV && (r->Err_0)->ReqwestDAV_0
                == built->Err_0,
    {
        match built {
            Ok(client) => Ok(WebDAVClient { client, host }),
            Err(e) => Err(WebDAVError::ReqwestDAV(e)),
        }
    }

    /// The client that talks to the server: the one that this handle
    /// holds, for the caller to send its requests with.
    pub fn client(&self) -> (client: &reqwest_dav::Client)
        ensures
            *client == self.held(),
    {
        &self.client
    }

    /// The address of the server.
    pub fn host_name(&self) -> (host: &str)
        ensures
            host@ == self.host(),
    {
        self.host.as_str()
    }

    /// The entries of a listing that the server gave, each with its
    /// path below the address of the server. It fails with the first
    /// entry whose path is no UTF-8 once its escapes are undone.
    pub fn list(&self, entities: Vec<ListEntity>) -> (r: Result<Vec<WebDAVList>, WebDAVError>)
        ensures
            (forall|i: int|
                0 <= i < entities@.len() ==> percent_decoded(
                    WebDAVList::raw_path(self.host(), #[trigger] entities@[i]),
                ) is Some) ==> r is Ok && (r->Ok_0)@.len() == entities@.len() && forall|i: int|
                0 <= i < entities@.len() ==> (#[trigger] (r->Ok_0)@[i]).is_entry_of(
                    self.host(),
                    entities@[i],
                ),
            (exists|i: int|
                0 <= i < entities@.len() && percent_decoded(
                    WebDAVList::raw_path(self.host(), #[trigger] entities@[i]),
                ) is None) ==> r is Err && (r->Err_0) is EncodingError,
    {
        let mut result: Vec<WebDAVList> = Vec::new();
        let mut i: usize = 0;
        while i < entities.len()
            invariant
                i <= entities@.len(),
                result@.len() == i,
                forall|j: int|
                    0 <= j < i ==> percent_decoded(
                        WebDAVList::raw_path(self.host(), #[trigger] entities@[j]),
                    ) is Some,
                forall|j: int|
                    0 <= j < i ==> (#[trigger] result@[j]).is_entry_of(self.host(), entities@[j]),
            decreases entities@.len() - i,
        {
            match WebDAVList::from_ref(self.host.as_str(), &entities[i]) {
                Ok(entry) => result.push(entry),
                Err(e) => return Err(e),
            }
            i += 1;
        }
        Ok(result)
    }
}

impl WebDAVList {
    /// The path of the entry below `root`, before its escapes are undone.
    pub open spec fn raw_path(root: Seq<char>, value: ListEntity) -> Seq<char> {
        match value {
            ListEntity::File(f) => removed(f.href@, root),
            ListEntity::Folder(f) => removed(f.href@, root),
        }
    }

    /// Whether this entry is what `value` says, with the path below `root`.
    pub open spec fn is_entry_of(self, root: Seq<char>, value: ListEntity) -> bool {
        match value {
            ListEntity::File(f) => self matches WebDAVList::File(file) && file.href@ == f.href@
                && Some(file.path@) == percent_decoded(removed(f.href@, root))
                && file.last_modified == f.last_modified && file.content_length == as_unsigned(
                f.content_length,
            ) && file.content_type@ == f.content_type@,
            ListEntity::Folder(f) => self matches WebDAVList::Folder(folder) && folder.href@
                == f.href@ && Some(folder.path@) == percent_decoded(removed(f.href@, root))
                && folder.last_modified == f.last_modified && folder.quota_used_bytes
                == as_unsigned_option(f.quota_used_bytes) && folder.quota_available_bytes
                == as_unsigned_option(f.quota_available_bytes),
        }
    }

    /// The entry that `value` stands for: its path is its address
    /// without `root`, with the percent escapes undone. It fails where
    /// the path is no UTF-8 once the escapes are undone.
    pub fn try_from(root: &str, value: ListEntity) -> (r: Result<WebDAVList, WebDAVError>)
        ensures
            percent_decoded(WebDAVList::raw_path(root@, value)) is Some ==> r is Ok && (
            r->Ok_0).is_entry_of(root@, value),
            percent_decoded(WebDAVList::raw_path(root@, value)) is None ==> r is Err && (
            r->Err_0) is EncodingError,
    {
        WebDAVList::from_ref(root, &value)
    }

    /// The entry that `value` stands for, as `try_from` gives it.
    pub fn from_ref(root: &str, value: &ListEntity) -> (r: Result<WebDAVList, WebDAVError>)
        ensures
            percent_decoded(WebDAVList::raw_path(root@, *value)) is Some ==> r is Ok && (
            r->Ok_0).is_entry_of(root@, *value),
            percent_decoded(WebDAVList::raw_path(root@, *value)) is None ==> r is Err && (
            r->Err_0) is EncodingError,
    {
        match value {
            ListEntity::File(f) => {
                let href = remove_all(f.href.as_str(), root);
                match percent_decode(href.as_str()) {
                    Ok(path) => Ok(
                        WebDAVList::File(
                            WebDAVFile {
                                href: f.href.clone(),
                                path,
                                last_modified: f.last_modified,
                                content_length: to_unsigned(f.content_length),
                                content_type: f.content_type.clone(),
                            },
                        ),
                    ),
                    Err(e) => Err(WebDAVError::EncodingError(e)),
                }
            },
            ListEntity::Folder(f) => {
                let href = remove_all(f.href.as_str(), root);
                match percent_decode(href.as_str()) {
                    Ok(path) => Ok(
                        WebDAVList::Folder(
                            WebDAVDirectory {
                                href: f.href.clone(),
                                path,
                                last_modified: f.last_modified,
                                quota_used_bytes: match f.quota_used_bytes {
                                    Some(x) => Some(to_unsigned(x)),
                                    None => None,
                                },
                                quota_available_bytes: match f.quota_available_bytes {
                                    Some(x) => Some(to_unsigned(x)),
                                    None => None,
                                },
                            },
                        ),
                    ),
                    Err(e) => Err(WebDAVError::EncodingError(e)),
                }
            },
        }
    }
}

} // verus!
