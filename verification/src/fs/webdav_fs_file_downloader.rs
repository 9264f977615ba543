//! The download coordinator: which remote path has which cache file,
//! and what is to be fetched for a read.
//!
//! The coordinator decides and the caller acts. For a read of a remote
//! path the caller asks [`WebDAVFSFileDownloader::download`]. A path
//! that has no cache file yet gets one, and the answer names the range
//! to fetch. For a path that has one the answer is to open it; with
//! the file opened, [`WebDAVFSFileDownloader::resume`] says whether the
//! bytes are there or which range is to be fetched, and
//! [`WebDAVFSFileDownloader::complete`] turns the end of the fetch into
//! the answer for the reader. Ranges are whole blocks of 16 MiB. The
//! caller holds the locks: one around the coordinator, one for each
//! handle while its file is fetched into.

use vstd::prelude::*;
use crate::blockfile::error::BlockFileError;
use crate::blockfile::layout::{block_count_for, created, parse, BlockFileView, HeaderView};
use crate::blockfile::BlockFile;
use crate::fs::errors::FSError;
use crate::text::{join_path, joined, str_eq};
use crate::webdav::WebDAVError;

verus! {

/// The size of the blocks in which remote files are fetched and kept.
pub const BLOCK_SIZE: u32 = 16777216;

/// Whether `name` has the form in which a UUID is written: 32 digits
/// to base 16 in lower case, in groups of 8, 4, 4, 4 and 12 with a
/// hyphen between them.
pub open spec fn is_uuid_text(name: Seq<char>) -> bool {
    &&& name.len() == 36
    &&& forall|i: int|
        0 <= i < 36 ==> if i == 8 || i == 13 || i == 18 || i == 23 {
            #[trigger] name[i] == '-'
        } else {
            '0' <= name[i] <= '9' || 'a' <= name[i] <= 'f'
        }
}

/// `Uuid::new_v4` of the uuid library, written out as text: a name
/// made from random bits. Of the name the contract says only that it
/// has the form of a UUID.
#[verifier::external_body]
fn random_name() -> (name: String)
    ensures
        is_uuid_text(name@),
{
    uuid::Uuid::new_v4().to_string()
}

/// The cache file of a remote path, named by its local path.
#[derive(Clone)]
pub struct WebDAVFSFileHandle {
    real_path: String,
}

impl WebDAVFSFileHandle {
    /// The local path of the cache file.
    pub closed spec fn path(&self) -> Seq<char> {
        self.real_path@
    }

    /// The handle of the cache file at `real_path`.
    pub fn new(real_path: String) -> (handle: Self)
        ensures
            handle.path() == real_path@,
    {
        WebDAVFSFileHandle { real_path }
    }

    /// The local path of the cache file.
    pub fn real_path(&self) -> (path: &str)
        ensures
            path@ == self.path(),
    {
        self.real_path.as_str()
    }

    /// Another handle of the same cache file.
    pub fn share(&self) -> (handle: Self)
        ensures
            handle.path() == self.path(),
    {
        WebDAVFSFileHandle { real_path: self.real_path.clone() }
    }

    /// The block file that the bytes of the cache file hold, opened
    /// for reading.
    pub fn get_file(&self, image: Vec<u8>) -> (r: Result<BlockFile, FSError>)
        ensures
            match r {
                Ok(file) => file.wf() && !file.is_writable() && file.image() == image@ && parse(
                    image@,
                ) == Ok::<BlockFileView, BlockFileError>(file@),
                Err(e) => e is IO && parse(image@) == Err::<BlockFileView, BlockFileError>(e->IO_0),
            },
    {
        match BlockFile::open(image, false) {
            Ok(file) => Ok(file),
            Err(err) => Err(FSError::IO(err)),
        }
    }

    /// The block file that the bytes of the cache file hold, opened
    /// for writing.
    pub fn get_file_for_write(&self, image: Vec<u8>) -> (r: Result<BlockFile, FSError>)
        ensures
            match r {
                Ok(file) => file.wf() && file.is_writable() && file.image() == image@ && parse(
                    image@,
                ) == Ok::<BlockFileView, BlockFileError>(file@),
                Err(e) => e is IO && parse(image@) == Err::<BlockFileView, BlockFileError>(e->IO_0),
            },
    {
        match BlockFile::open(image, true) {
            Ok(file) => Ok(file),
            Err(err) => Err(FSError::IO(err)),
        }
    }
}

/// What the caller does next for a read.
pub enum Download {
    /// The remote path has a cache file. Open it for writing and go
    /// on with `resume`.
    Open(WebDAVFSFileHandle),
    /// The bytes asked for are in the cache file.
    Ready(WebDAVFSFileHandle),
    /// Fetch `length` bytes of the remote file from `begin` on and
    /// write them to `file`, which belongs at the path of `handle`.
    Fetch { handle: WebDAVFSFileHandle, file: BlockFile, begin: u64, length: u64 },
}

/// Whether the block range of the `size` bytes at `offset` can be
/// written in 64-bit numbers.
pub open spec fn range_fits(header: HeaderView, offset: u64, size: u32) -> bool {
    offset + size <= u64::MAX && header.block_range(offset as nat, size as nat).1 <= u64::MAX
}

/// Whether `answer` tells to fetch, into `file` under `path`, the block
/// range of the `size` bytes at `offset`, which is not empty.
pub open spec fn fetches(
    answer: Result<Download, FSError>,
    path: Seq<char>,
    file: BlockFileView,
    offset: u64,
    size: u32,
) -> bool {
    &&& answer is Ok
    &&& answer->Ok_0 is Fetch
    &&& (answer->Ok_0)->handle.path() == path
    &&& (answer->Ok_0)->file.wf()
    &&& (answer->Ok_0)->file@ == file
    &&& (answer->Ok_0)->length >= 1
    &&& (answer->Ok_0)->begin == file.header.block_range(offset as nat, size as nat).0
    &&& (answer->Ok_0)->begin + (answer->Ok_0)->length == file.header.block_range(
        offset as nat,
        size as nat,
    ).1
}

/// Whether `answer` fails with the block-file error `e`.
pub open spec fn fails_with(answer: Result<Download, FSError>, e: BlockFileError) -> bool {
    answer is Err && answer->Err_0 is IO && (answer->Err_0)->IO_0 == e
}

/// Whether a cache file can be made for a remote file of `file_size`
/// bytes: its block table fits the header.
pub open spec fn cache_file_fits(file_size: u64) -> bool {
    block_count_for(file_size, BLOCK_SIZE) <= u32::MAX && 20 + 9 * block_count_for(
        file_size,
        BLOCK_SIZE,
    ) <= usize::MAX
}

/// What registering the remote path `uri` with a fresh cache file at
/// `real_path` comes to, for a read of `size` bytes at `offset`: the
/// answer, and the registry after it.
pub open spec fn registers(
    before: Map<Seq<char>, Seq<char>>,
    after: Map<Seq<char>, Seq<char>>,
    answer: Result<Download, FSError>,
    uri: Seq<char>,
    real_path: Seq<char>,
    file_size: u64,
    offset: u64,
    size: u32,
) -> bool {
    let file = created(file_size, BLOCK_SIZE);
    if !cache_file_fits(file_size) {
        fails_with(answer, BlockFileError::FileTooLarge) && after == before
    } else if !range_fits(file.header, offset, size) {
        fails_with(answer, BlockFileError::InvalidPosition) && after == before
    } else {
        fetches(answer, real_path, file, offset, size) && (answer->Ok_0)->file.is_writable()
            && after == before.insert(uri, real_path)
    }
}

/// A remote path and the handle of its cache file.
struct CacheEntry {
    uri_path: String,
    handle: WebDAVFSFileHandle,
}

/// The cache file path that `pairs` gives for the remote path `uri`:
/// that of the last pair with this path.
pub open spec fn lookup(pairs: Seq<(Seq<char>, Seq<char>)>, uri: Seq<char>) -> Option<Seq<char>>
    decreases pairs.len(),
{
    if pairs.len() == 0 {
        None
    } else if pairs.last().0 == uri {
        Some(pairs.last().1)
    } else {
        lookup(pairs.drop_last(), uri)
    }
}

/// The coordinator's registry: the folder for cache files, and the
/// cache file of each remote path that was asked for.
pub struct WebDAVFSFileDownloader {
    temp_path: String,
    path_to_cache_map: Vec<CacheEntry>,
}

impl View for WebDAVFSFileDownloader {
    type V = Map<Seq<char>, Seq<char>>;

    /// The local path of the cache file of each registered remote path.
    closed spec fn view(&self) -> Map<Seq<char>, Seq<char>> {
        Map::new(
            |uri: Seq<char>| lookup(self.pairs(), uri) is Some,
            |uri: Seq<char>| lookup(self.pairs(), uri)->Some_0,
        )
    }
}

impl WebDAVFSFileDownloader {
    /// The registered pairs of remote path and cache file path, in the
    /// order in which they were registered.
    pub closed spec fn pairs(&self) -> Seq<(Seq<char>, Seq<char>)> {
        Seq::new(
            self.path_to_cache_map@.len(),
            |i: int| (self.path_to_cache_map@[i].uri_path@, self.path_to_cache_map@[i].handle.path()),
        )
    }

    /// The folder in which cache files are made.
    pub closed spec fn temp_dir(&self) -> Seq<char> {
        self.temp_path@
    }

    /// No remote path is registered twice.
    pub closed spec fn wf(&self) -> bool {
        forall|i: int, j: int|
            0 <= i < j < self.pairs().len() ==> (#[trigger] self.pairs()[i]).0 != (
            #[trigger] self.pairs()[j]).0
    }

    /// A coordinator that makes its cache files in `temp_path` and
    /// knows no remote path yet.
    pub fn new(temp_path: String) -> (downloader: Self)
        ensures
            downloader.wf(),
            downloader.temp_dir() == temp_path@,
            downloader@ == Map::<Seq<char>, Seq<char>>::empty(),
    {
        let downloader = WebDAVFSFileDownloader { temp_path, path_to_cache_map: Vec::new() };
        assert(downloader@ =~= Map::<Seq<char>, Seq<char>>::empty());
        downloader
    }

    /// The handle of the cache file of `uri_path`, if the path is
    /// registered.
    pub fn find(&self, uri_path: &str) -> (handle: Option<WebDAVFSFileHandle>)
        ensures
            handle is Some <==> self@.contains_key(uri_path@),
            handle is Some ==> (handle->Some_0).path() == self@[uri_path@],
    {
        let mut i: usize = self.path_to_cache_map.len();
        assert(self.pairs().take(i as int) =~= self.pairs());
        while i > 0
            invariant
                i <= self.path_to_cache_map@.len(),
                lookup(self.pairs(), uri_path@) == lookup(self.pairs().take(i as int), uri_path@),
            decreases i,
        {
            i -= 1;
            proof {
                assert(self.pairs().take(i + 1).drop_last() =~= self.pairs().take(i as int));
            }
            let entry = &self.path_to_cache_map[i];
            if str_eq(entry.uri_path.as_str(), uri_path) {
                return Some(entry.handle.share());
            }
        }
        None
    }

    /// What to do for a read of `size` bytes at `offset` of the remote
    /// file `uri_path`, which is `file_size` bytes long. A registered
    /// path is to be opened. Any other path is registered with a fresh
    /// cache file at a new path in the folder for cache files.
    pub fn download(&mut self, uri_path: &str, file_size: u64, offset: u64, size: u32) -> (r:
        Result<Download, FSError>)
        requires
            old(self).wf(),
        ensures
            final(self).wf(),
            final(self).temp_dir() == old(self).temp_dir(),
            old(self)@.contains_key(uri_path@) ==> final(self)@ == old(self)@ && r is Ok && r->Ok_0
                is Open && (r->Ok_0)->Open_0.path() == old(self)@[uri_path@],
            !old(self)@.contains_key(uri_path@) ==> exists|name: Seq<char>|
                is_uuid_text(name) && registers(
                    old(self)@,
                    final(self)@,
                    r,
                    uri_path@,
                    joined(old(self).temp_dir(), name),
                    file_size,
                    offset,
                    size,
                ),
    {
        match self.find(uri_path) {
            Some(handle) => Ok(Download::Open(handle)),
            None => {
                let temp_path = self.gen_temp_path();
                self.register_at(uri_path, temp_path, file_size, offset, size)
            },
        }
    }

    /// Registers `uri_path` with a fresh cache file at `real_path` and
    /// says what to fetch for a read of `size` bytes at `offset`. The
    /// path is not registered where the cache file cannot be made or
    /// the range cannot be named.
    pub fn register_at(
        &mut self,
        uri_path: &str,
        real_path: String,
        file_size: u64,
        offset: u64,
        size: u32,
    ) -> (r: Result<Download, FSError>)
        requires
            old(self).wf(),
            !old(self)@.contains_key(uri_path@),
        ensures
            final(self).wf(),
            final(self).temp_dir() == old(self).temp_dir(),
            registers(
                old(self)@,
                final(self)@,
                r,
                uri_path@,
                real_path@,
                file_size,
                offset,
                size,
            ),
    {
        let file = match BlockFile::create(file_size, BLOCK_SIZE) {
            Ok(file) => file,
            Err(err) => return Err(FSError::IO(err)),
        };
        let (begin, end) = match file.checked_block_range_from(offset, size as u64) {
            Some(range) => range,
            None => return Err(FSError::IO(BlockFileError::InvalidPosition)),
        };
        let handle = WebDAVFSFileHandle::new(real_path);
        let ghost before = self.pairs();
        let ghost view = self@;
        self.path_to_cache_map.push(
            CacheEntry { uri_path: uri_path.to_owned(), handle: handle.share() },
        );
        proof {
            let after = self.pairs();
            assert(after.drop_last() =~= before);
            assert(after.last() == (uri_path@, real_path@));
            assert(self@ =~= view.insert(uri_path@, real_path@));
            assert forall|i: int, j: int| 0 <= i < j < after.len() implies (#[trigger] after[i]).0
                != (#[trigger] after[j]).0 by {
                if j == after.len() - 1 {
                    lemma_lookup_finds(before, i);
                } else {
                    assert(after[i] == before[i] && after[j] == before[j]);
                }
            }
            file.lemma_image_parses();
            file@.header.lemma_block_range(offset as nat, size as nat);
        }
        Ok(Download::Fetch { handle, file, begin, length: end - begin })
    }

    /// What to do for a read of `size` bytes at `offset`, now that the
    /// cache file of `handle` is opened as `file`: nothing, if the bytes
    /// are there; else to fetch their block range.
    pub fn resume(handle: WebDAVFSFileHandle, file: BlockFile, offset: u64, size: u32) -> (r:
        Result<Download, FSError>)
        requires
            file.wf(),
        ensures
            match file@.is_data_ready(offset as nat, size as nat) {
                Err(e) => fails_with(r, e),
                Ok(true) => r is Ok && r->Ok_0 is Ready && (r->Ok_0)->Ready_0.path()
                    == handle.path(),
                Ok(false) => if range_fits(file@.header, offset, size) {
                    fetches(r, handle.path(), file@, offset, size) && (r->Ok_0)->file.is_writable()
                        == file.is_writable() && (r->Ok_0)->file.image() == file.image()
                } else {
                    fails_with(r, BlockFileError::InvalidPosition)
                },
            },
    {
        let mut file = file;
        match file.is_data_ready(offset, size as u64) {
            Ok(ready) => {
                if ready {
                    return Ok(Download::Ready(handle));
                }
            },
            Err(err) => return Err(FSError::IO(err)),
        }
        let (begin, end) = match file.checked_block_range_from(offset, size as u64) {
            Some(range) => range,
            None => return Err(FSError::IO(BlockFileError::InvalidPosition)),
        };
        proof {
            file.lemma_image_parses();
            file@.header.lemma_block_range(offset as nat, size as nat);
        }
        Ok(Download::Fetch { handle, file, begin, length: end - begin })
    }

    /// The end of a fetch into the cache file of `handle`: the handle,
    /// or the error with which the fetch failed. The handle stays
    /// registered either way.
    pub fn complete(handle: WebDAVFSFileHandle, fetched: Result<(), WebDAVError>) -> (r: Result<
        WebDAVFSFileHandle,
        FSError,
    >)
        ensures
            fetched is Ok ==> r is Ok && (r->Ok_0).path() == handle.path(),
            fetched is Err ==> r is Err && r->Err_0 is WebDAV && (r->Err_0)->WebDAV_0
                == fetched->Err_0,
    {
        match fetched {
            Ok(_) => Ok(handle),
            Err(x) => Err(FSError::WebDAV(x)),
        }
    }

    /// A new path for a cache file: a random name, of the form of a
    /// UUID, in the folder for cache files.
    pub fn gen_temp_path(&self) -> (path: String)
        ensures
            exists|name: Seq<char>| is_uuid_text(name) && path@ == joined(self.temp_dir(), name),
    {
        let name = random_name();
        let path = join_path(self.temp_path.as_str(), name.as_str());
        assert(is_uuid_text(name@) && path@ == joined(self.temp_dir(), name@));
        path
    }
}

/// A path that stands in `pairs` is found there.
pub proof fn lemma_lookup_finds(pairs: Seq<(Seq<char>, Seq<char>)>, i: int)
    requires
        0 <= i < pairs.len(),
    ensures
        lookup(pairs, pairs[i].0) is Some,
    decreases pairs.len(),
{
    if i < pairs.len() - 1 && pairs.last().0 != pairs[i].0 {
        lemma_lookup_finds(pairs.drop_last(), i);
    }
}

} // verus!
