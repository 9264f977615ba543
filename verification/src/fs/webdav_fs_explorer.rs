//! Looking around in the remote tree: name lookups, attributes and
//! directory listings, answered from the metadata cache.
//!
//! A folder is listed on the server once, when it is first looked
//! into. The explorer says which folder is to be listed; the caller
//! asks the server and hands the listing over.

use vstd::prelude::*;
use crate::fs::attr::{FileAttr, FileType, Time};
use crate::fs::errors::FSError;
use crate::fs::inode_info_map::{name_of, InodeInfo, InodeInfoMap, InodeInfoView, InodeMapView};
use crate::webdav::{WebDAVError, WebDAVList};

verus! {

/// An entry of a directory listing: the attributes of the inode and
/// the name under which it is listed.
pub struct ListItemInfo {
    pub attr: FileAttr,
    pub name: String,
}

/// An entry of a directory listing as a value.
pub struct ListItemView {
    pub attr: FileAttr,
    pub name: Seq<char>,
}

impl View for ListItemInfo {
    type V = ListItemView;

    open spec fn view(&self) -> ListItemView {
        ListItemView { attr: self.attr, name: self.name@ }
    }
}

/// The entry `..` for the folder `info`.
pub open spec fn parent_item(info: InodeInfoView) -> ListItemView {
    ListItemView { attr: info.file_attr, name: seq!['.', '.'] }
}

/// The entry `.` for the folder `info`.
pub open spec fn working_item(info: InodeInfoView) -> ListItemView {
    ListItemView { attr: info.file_attr, name: seq!['.'] }
}

/// The entry for the child `info`, under its own name.
pub open spec fn child_item(info: InodeInfoView) -> ListItemView {
    ListItemView { attr: info.file_attr, name: name_of(info.path) }
}

impl ListItemInfo {
    /// The entry `..` for the folder `inode_info`.
    pub fn new_parent_dir_from(inode_info: &InodeInfo) -> (item: ListItemInfo)
        ensures
            item@ == parent_item(inode_info@),
    {
        proof {
            reveal_strlit("..");
        }
        let item = ListItemInfo { attr: inode_info.file_attr, name: "..".to_owned() };
        assert(item.name@ =~= seq!['.', '.']);
        item
    }

    /// The entry `.` for the folder `inode_info`.
    pub fn new_working_dir_from(inode_info: &InodeInfo) -> (item: ListItemInfo)
        ensures
            item@ == working_item(inode_info@),
    {
        proof {
            reveal_strlit(".");
        }
        let item = ListItemInfo { attr: inode_info.file_attr, name: ".".to_owned() };
        assert(item.name@ =~= seq!['.']);
        item
    }

    /// The entry for the child `inode_info`, under its own name.
    pub fn new_child_from(inode_info: &InodeInfo) -> (item: ListItemInfo)
        ensures
            item@ == child_item(inode_info@),
    {
        ListItemInfo { attr: inode_info.file_attr, name: inode_info.file_name() }
    }
}

impl InodeMapView {
    /// The listing of folder `ino`: the folder itself as `.`, its
    /// parent as `..`, then its children in the order in which they
    /// were taken in.
    pub open spec fn listing(self, ino: u64) -> Seq<ListItemView> {
        let dot = if self.infos.contains_key(ino) {
            seq![working_item(self.infos[ino])]
        } else {
            Seq::empty()
        };
        let dots = match self.parent(ino) {
            Some(parent) => seq![parent_item(parent)],
            None => Seq::empty(),
        };
        dot + dots + self.child_infos(self.children_of(ino)).map_values(
            |info: InodeInfoView| child_item(info),
        )
    }

    /// The listing that the server gave for a folder, without its
    /// first entry, which is the folder itself.
    pub open spec fn children_listed(list: Seq<WebDAVList>) -> Seq<WebDAVList> {
        if list.len() == 0 {
            list
        } else {
            list.skip(1)
        }
    }
}

/// The explorer: the metadata cache and the questions put to it.
pub struct WebDAVFSExplorer {
    inode_info_map: InodeInfoMap,
}

impl View for WebDAVFSExplorer {
    type V = InodeMapView;

    closed spec fn view(&self) -> InodeMapView {
        self.inode_info_map@
    }
}

impl WebDAVFSExplorer {
    /// An explorer that knows the root, which belongs to `user_id` and
    /// `group_id`.
    pub fn new(user_id: u32, group_id: u32) -> (explorer: WebDAVFSExplorer)
        ensures
            explorer@.wf(),
            exists|time: Time| explorer@ == InodeMapView::root_only(user_id, group_id, time),
    {
        WebDAVFSExplorer { inode_info_map: InodeInfoMap::new(user_id, group_id) }
    }

    /// The child of folder `parent` with the name `target`, from the
    /// cache.
    pub fn lookup(&self, parent: u64, target: &str) -> (r: Result<InodeInfo, FSError>)
        ensures
            match self@.find_by_path(parent, target@) {
                Some(info) => r is Ok && (r->Ok_0)@ == info,
                None => r is Err && r->Err_0 is FileNotFoundInInode && (
                r->Err_0)->FileNotFoundInInode_0@ == target@,
            },
    {
        match self.inode_info_map.find_by_path(parent, target) {
            Some(inode_info) => Ok(inode_info.share()),
            None => Err(FSError::FileNotFoundInInode(target.to_owned())),
        }
    }

    /// The listing of folder `ino`, from the cache. It fails where the
    /// folder has not been listed on the server.
    pub fn list(&self, ino: u64) -> (r: Result<Vec<ListItemInfo>, FSError>)
        ensures
            self@.lists.contains_key(ino) ==> r is Ok && (r->Ok_0)@.len() == self@.listing(
                ino,
            ).len() && forall|i: int|
                0 <= i < (r->Ok_0)@.len() ==> (#[trigger] (r->Ok_0)@[i])@ == self@.listing(ino)[i],
            !self@.lists.contains_key(ino) ==> r is Err && r->Err_0 is INodeNotExists,
    {
        let mut result: Vec<ListItemInfo> = Vec::new();
        match self.inode_info_map.find_by_ino(ino) {
            Some(x) => result.push(ListItemInfo::new_working_dir_from(x)),
            None => {},
        }
        match self.inode_info_map.parent(ino) {
            Some(x) => result.push(ListItemInfo::new_parent_dir_from(x)),
            None => {},
        }
        let children = match self.inode_info_map.childs(ino) {
            Some(children) => children,
            None => return Err(FSError::INodeNotExists),
        };
        let ghost head = result@;
        let ghost infos = self@.child_infos(self@.children_of(ino));
        let ghost expected = self@.listing(ino);
        let mut i: usize = 0;
        assert(expected.len() == head.len() + infos.len());
        assert forall|k: int| 0 <= k < head.len() implies (#[trigger] head[k])@ == expected[k] by {}
        while i < children.len()
            invariant
                i <= children@.len(),
                children@.len() == infos.len(),
                forall|k: int| 0 <= k < children@.len() ==> (#[trigger] children@[k])@ == infos[k],
                result@.len() == head.len() + i,
                expected == self@.listing(ino),
                expected.len() == head.len() + infos.len(),
                forall|k: int| 0 <= k < infos.len() ==> expected[head.len() + k] == child_item(
                    #[trigger] infos[k],
                ),
                forall|k: int| 0 <= k < head.len() ==> (#[trigger] head[k])@ == expected[k],
                forall|k: int| 0 <= k < head.len() ==> result@[k] == head[k],
                forall|k: int|
                    0 <= k < i ==> (#[trigger] result@[head.len() + k])@ == child_item(infos[k]),
            decreases children@.len() - i,
        {
            result.push(ListItemInfo::new_child_from(children[i]));
            i += 1;
        }
        proof {
            assert(result@.len() == expected.len());
            assert forall|k: int| 0 <= k < result@.len() implies (#[trigger] result@[k])@
                == expected[k] by {
                if k >= head.len() {
                    let c = k - head.len();
                    assert(result@[head.len() + c]@ == child_item(infos[c]));
                    assert(expected[head.len() + c] == child_item(infos[c]));
                } else {
                    assert(result@[k] == head[k]);
                    assert(head[k]@ == expected[k]);
                }
            }
        }
        Ok(result)
    }

    /// The inode with number `ino`, from the cache.
    pub fn getattr(&self, ino: u64) -> (r: Result<InodeInfo, FSError>)
        ensures
            self@.infos.contains_key(ino) ==> r is Ok && (r->Ok_0)@ == self@.infos[ino],
            !self@.infos.contains_key(ino) ==> r is Err && r->Err_0 is INodeNotExists,
    {
        match self.inode_info_map.find_by_ino(ino) {
            Some(x) => Ok(x.share()),
            None => Err(FSError::INodeNotExists),
        }
    }

    /// What is to be listed on the server before folder `ino` can be
    /// looked into: nothing, if it has been listed; else its path. It
    /// fails where there is no such inode, or the inode is no folder.
    pub fn update_dir_cache_if_not_exists(&self, ino: u64) -> (r: Result<Option<String>, FSError>)
        ensures
            self@.lists.contains_key(ino) ==> r is Ok && r->Ok_0 is None,
            !self@.lists.contains_key(ino) && !self@.infos.contains_key(ino) ==> r is Err
                && r->Err_0 is INodeNotExists,
            !self@.lists.contains_key(ino) && self@.infos.contains_key(ino)
                && self@.infos[ino].file_attr.kind == FileType::Directory ==> r is Ok && r->Ok_0
                is Some && (r->Ok_0)->Some_0@ == self@.infos[ino].path,
            !self@.lists.contains_key(ino) && self@.infos.contains_key(ino)
                && self@.infos[ino].file_attr.kind != FileType::Directory ==> r is Err
                && r->Err_0 is InvalidOperation && (r->Err_0)->InvalidOperation_0@
                == self@.infos[ino].path,
    {
        if self.inode_info_map.is_cached_dir(ino) {
            return Ok(None);
        }
        let info = match self.inode_info_map.find_by_ino(ino) {
            Some(info) => info,
            None => return Err(FSError::INodeNotExists),
        };
        match info.file_attr.kind {
            FileType::Directory => Ok(Some(info.path.clone())),
            _ => Err(FSError::InvalidOperation(info.path.clone())),
        }
    }

    /// Takes in what the server answered when it was asked to list
    /// folder `ino`. The first entry of a listing is the folder itself
    /// and is left out. An error of the server is passed on, and the
    /// cache stays as it was.
    pub fn update_dir_cache(&mut self, ino: u64, listing: Result<Vec<WebDAVList>, WebDAVError>) -> (r:
        Result<(), FSError>)
        ensures
            old(self)@.wf() ==> final(self)@.wf(),
            listing is Ok ==> r is Ok && exists|time: Time|
                final(self)@ == old(self)@.update(
                    ino,
                    InodeMapView::children_listed((listing->Ok_0)@),
                    time,
                ),
            listing is Err ==> r is Err && r->Err_0 is WebDAV && (r->Err_0)->WebDAV_0
                == listing->Err_0 && final(self)@ == old(self)@,
    {
        let list = match listing {
            Ok(list) => list,
            Err(e) => return Err(FSError::WebDAV(e)),
        };
        let ghost given = list@;
        let ghost before = self@;
        let mut children = list;
        if children.len() > 0 {
            children.remove(0);
        }
        assert(children@ =~= InodeMapView::children_listed(given)) by {
            if given.len() > 0 {
                assert(given.remove(0) =~= given.skip(1));
            }
        }
        let ghost listed = children@;
        self.inode_info_map.update_cache(ino, children);
        proof {
            let time = choose|time: Time| self@ == before.update(ino, listed, time);
            assert(self@ == before.update(ino, InodeMapView::children_listed(given), time));
        }
        Ok(())
    }
}

} // verus!
