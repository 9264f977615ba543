//! The metadata cache: every inode that was seen, the children of the
//! folders that were listed, and the parent of every inode.
//!
//! Inode numbers are handed out in the order in which entries are
//! taken in, from 2 on; 1 is the root.

use std::collections::HashMap;
use vstd::prelude::*;
use crate::fs::attr::{at_second, directory_attr, file_attr, now, FileAttr, FileType, Time};
use crate::fs::order::{known_items, sort_by_path, sorted_by_path};
use crate::text::{file_name_of, final_component, str_eq};
use crate::webdav::{as_unsigned, to_unsigned, WebDAVList};

verus! {

broadcast use vstd::std_specs::hash::group_hash_axioms;

/// An inode: its attributes and its remote path.
#[derive(Debug, Clone)]
pub struct InodeInfo {
    pub file_attr: FileAttr,
    pub path: String,
}

/// An inode as a value.
pub struct InodeInfoView {
    pub file_attr: FileAttr,
    pub path: Seq<char>,
}

impl View for InodeInfo {
    type V = InodeInfoView;

    open spec fn view(&self) -> InodeInfoView {
        InodeInfoView { file_attr: self.file_attr, path: self.path@ }
    }
}

/// The name under which the inode at `path` is listed: the last
/// component of the path; `/` for the root; nothing where the path has
/// no last component.
pub open spec fn name_of(path: Seq<char>) -> Seq<char> {
    if path == seq!['/'] {
        path
    } else {
        match final_component(path) {
            Some(name) => name,
            None => Seq::empty(),
        }
    }
}

/// The value of an inode that may be there.
pub open spec fn view_of(info: Option<&InodeInfo>) -> Option<InodeInfoView> {
    match info {
        Some(info) => Some(info@),
        None => None,
    }
}

impl InodeInfo {
    /// The inode with these attributes at this path.
    pub fn new(file_attr: FileAttr, path: String) -> (info: InodeInfo)
        ensures
            info@ == (InodeInfoView { file_attr, path: path@ }),
    {
        InodeInfo { file_attr, path }
    }

    /// The name under which the inode is listed.
    pub fn file_name(&self) -> (name: String)
        ensures
            name@ == name_of(self.path@),
    {
        proof {
            reveal_strlit("/");
            reveal_strlit("");
        }
        if str_eq(self.path.as_str(), "/") {
            assert("/"@ =~= seq!['/']);
            "/".to_owned()
        } else {
            assert("/"@ =~= seq!['/']);
            match file_name_of(self.path.as_str()) {
                Some(name) => name,
                None => "".to_owned(),
            }
        }
    }

    /// A copy of the inode.
    pub fn share(&self) -> (info: InodeInfo)
        ensures
            info@ == self@,
    {
        InodeInfo { file_attr: self.file_attr, path: self.path.clone() }
    }
}

/// The metadata cache as a value.
pub struct InodeMapView {
    /// The inodes by number.
    pub infos: Map<u64, InodeInfoView>,
    /// The numbers of the children of each folder that was listed, in
    /// the order of the listing.
    pub lists: Map<u64, Seq<u64>>,
    /// The number of the folder in which each inode was listed.
    pub parents: Map<u64, u64>,
    /// The number that the next inode gets.
    pub next_ino: u64,
    /// The owner of every inode.
    pub uid: u32,
    /// The group of every inode.
    pub gid: u32,
}

impl InodeMapView {
    /// Every inode that the cache knows, and every inode that has a
    /// parent, has a number below the one that the next inode gets.
    pub open spec fn wf(self) -> bool {
        &&& forall|ino: u64| #[trigger] self.infos.contains_key(ino) ==> ino < self.next_ino
        &&& forall|ino: u64| #[trigger] self.parents.contains_key(ino) ==> ino < self.next_ino
    }

    /// Taking an entry in keeps a sound cache sound, and leaves every
    /// inode that it knew, with its parent, as it was.
    pub proof fn lemma_with_item(self, current: u64, item: WebDAVList, now: Time)
        requires
            self.wf(),
        ensures
            self.with_item(current, item, now).wf(),
            self.with_item(current, item, now).next_ino >= self.next_ino,
            forall|ino: u64|
                self.infos.contains_key(ino) ==> #[trigger] self.with_item(
                    current,
                    item,
                    now,
                ).infos.contains_key(ino) && self.with_item(current, item, now).infos[ino]
                    == self.infos[ino],
            forall|ino: u64|
                self.parents.contains_key(ino) ==> #[trigger] self.with_item(
                    current,
                    item,
                    now,
                ).parents.contains_key(ino) && self.with_item(current, item, now).parents[ino]
                    == self.parents[ino],
    {
    }

    /// Taking entries in keeps a sound cache sound, and leaves every
    /// inode that it knew, with its parent, as it was.
    pub proof fn lemma_with_items(self, current: u64, items: Seq<WebDAVList>, now: Time)
        requires
            self.wf(),
        ensures
            self.with_items(current, items, now).wf(),
            self.with_items(current, items, now).next_ino >= self.next_ino,
            forall|ino: u64|
                self.infos.contains_key(ino) ==> #[trigger] self.with_items(
                    current,
                    items,
                    now,
                ).infos.contains_key(ino) && self.with_items(current, items, now).infos[ino]
                    == self.infos[ino],
            forall|ino: u64|
                self.parents.contains_key(ino) ==> #[trigger] self.with_items(
                    current,
                    items,
                    now,
                ).parents.contains_key(ino) && self.with_items(current, items, now).parents[ino]
                    == self.parents[ino],
        decreases items.len(),
    {
        if items.len() > 0 {
            let before = self.with_items(current, items.drop_last(), now);
            self.lemma_with_items(current, items.drop_last(), now);
            before.lemma_with_item(current, items.last(), now);
            let after = self.with_items(current, items, now);
            assert forall|ino: u64| self.infos.contains_key(ino) implies #[trigger] after.infos.contains_key(
                ino,
            ) && after.infos[ino] == self.infos[ino] by {
                assert(before.infos.contains_key(ino));
            }
            assert forall|ino: u64| self.parents.contains_key(ino) implies #[trigger] after.parents.contains_key(
                ino,
            ) && after.parents[ino] == self.parents[ino] by {
                assert(before.parents.contains_key(ino));
            }
        }
    }

    /// Taking a listing in keeps a sound cache sound: the inodes that
    /// it knew keep their numbers, their attributes, their paths and
    /// their parents.
    pub proof fn lemma_update(self, current: u64, list: Seq<WebDAVList>, now: Time)
        requires
            self.wf(),
        ensures
            self.update(current, list, now).wf(),
            forall|ino: u64|
                self.infos.contains_key(ino) ==> #[trigger] self.update(
                    current,
                    list,
                    now,
                ).infos.contains_key(ino) && self.update(current, list, now).infos[ino]
                    == self.infos[ino],
            forall|ino: u64|
                self.parents.contains_key(ino) ==> #[trigger] self.update(
                    current,
                    list,
                    now,
                ).parents.contains_key(ino) && self.update(current, list, now).parents[ino]
                    == self.parents[ino],
    {
        self.lemma_with_items(current, sorted_by_path(known_items(list)), now);
    }

    /// The children of folder `ino` that were listed; none if the
    /// folder was not listed.
    pub open spec fn children_of(self, ino: u64) -> Seq<u64> {
        if self.lists.contains_key(ino) {
            self.lists[ino]
        } else {
            Seq::empty()
        }
    }

    /// The inodes with the numbers in `list` that the cache knows, in
    /// the order of `list`.
    pub open spec fn child_infos(self, list: Seq<u64>) -> Seq<InodeInfoView>
        decreases list.len(),
    {
        if list.len() == 0 {
            Seq::empty()
        } else if self.infos.contains_key(list.last()) {
            self.child_infos(list.drop_last()).push(self.infos[list.last()])
        } else {
            self.child_infos(list.drop_last())
        }
    }

    /// The first inode among those with the numbers in `list` that is
    /// listed under the name `target`.
    pub open spec fn named_child(self, list: Seq<u64>, target: Seq<char>) -> Option<InodeInfoView>
        decreases list.len(),
    {
        if list.len() == 0 {
            None
        } else if self.infos.contains_key(list[0]) && name_of(self.infos[list[0]].path) == target {
            Some(self.infos[list[0]])
        } else {
            self.named_child(list.skip(1), target)
        }
    }

    /// The child of folder `parent` that is listed under the name
    /// `target`.
    pub open spec fn find_by_path(self, parent: u64, target: Seq<char>) -> Option<InodeInfoView> {
        self.named_child(self.children_of(parent), target)
    }

    /// The folder in which inode `ino` was listed.
    pub open spec fn parent(self, ino: u64) -> Option<InodeInfoView> {
        if self.parents.contains_key(ino) && self.infos.contains_key(self.parents[ino]) {
            Some(self.infos[self.parents[ino]])
        } else {
            None
        }
    }

    /// The inode that `item` becomes when it is taken in at time `now`:
    /// it gets the next number, its size and time of modification from
    /// the listing, and `now` as its time of access. An unknown entry
    /// becomes no inode, and no entry does once the numbers are used up.
    pub open spec fn entry(self, item: WebDAVList, now: Time) -> Option<InodeInfoView> {
        if self.next_ino == u64::MAX {
            None
        } else {
            match item {
                WebDAVList::File(f) => Some(
                    InodeInfoView {
                        file_attr: file_attr(
                            self.next_ino,
                            f.content_length,
                            self.uid,
                            self.gid,
                            now,
                            at_second(as_unsigned(f.last_modified)),
                        ),
                        path: f.path@,
                    },
                ),
                WebDAVList::Folder(d) => Some(
                    InodeInfoView {
                        file_attr: directory_attr(
                            self.next_ino,
                            match d.quota_used_bytes {
                                Some(used) => used,
                                None => 4096,
                            },
                            self.uid,
                            self.gid,
                            now,
                            at_second(as_unsigned(d.last_modified)),
                        ),
                        path: d.path@,
                    },
                ),
                WebDAVList::Unknown => None,
            }
        }
    }

    /// The cache after `item` was taken in as a child of folder
    /// `current`.
    pub open spec fn with_item(self, current: u64, item: WebDAVList, now: Time) -> InodeMapView {
        match self.entry(item, now) {
            None => self,
            Some(info) => InodeMapView {
                infos: self.infos.insert(self.next_ino, info),
                lists: self.lists.insert(current, self.children_of(current).push(self.next_ino)),
                parents: self.parents.insert(self.next_ino, current),
                next_ino: (self.next_ino + 1) as u64,
                ..self
            },
        }
    }

    /// The cache after `items` were taken in, one after the other, as
    /// children of folder `current`.
    pub open spec fn with_items(self, current: u64, items: Seq<WebDAVList>, now: Time) -> InodeMapView
        decreases items.len(),
    {
        if items.len() == 0 {
            self
        } else {
            self.with_items(current, items.drop_last(), now).with_item(current, items.last(), now)
        }
    }

    /// The cache after the listing `list` of folder `current` was taken
    /// in: its files and folders, sorted by path.
    pub open spec fn update(self, current: u64, list: Seq<WebDAVList>, now: Time) -> InodeMapView {
        self.with_items(current, sorted_by_path(known_items(list)), now)
    }

    /// The cache that knows the root and nothing else.
    pub open spec fn root_only(uid: u32, gid: u32, now: Time) -> InodeMapView {
        InodeMapView {
            infos: Map::empty().insert(
                1u64,
                InodeInfoView {
                    file_attr: directory_attr(1, 4096, uid, gid, now, now),
                    path: seq!['/'],
                },
            ),
            lists: Map::empty(),
            parents: Map::empty().insert(1u64, 1u64),
            next_ino: 2,
            uid,
            gid,
        }
    }
}

/// The metadata cache.
pub struct InodeInfoMap {
    ino_info_map: HashMap<u64, InodeInfo>,
    ino_item_list_map: HashMap<u64, Vec<u64>>,
    ino_parent_map: HashMap<u64, u64>,
    next_ino_id: u64,
    user_id: u32,
    group_id: u32,
}

impl View for InodeInfoMap {
    type V = InodeMapView;

    closed spec fn view(&self) -> InodeMapView {
        InodeMapView {
            infos: Map::new(
                |ino: u64| self.ino_info_map@.contains_key(ino),
                |ino: u64| self.ino_info_map@[ino]@,
            ),
            lists: Map::new(
                |ino: u64| self.ino_item_list_map@.contains_key(ino),
                |ino: u64| self.ino_item_list_map@[ino]@,
            ),
            parents: self.ino_parent_map@,
            next_ino: self.next_ino_id,
            uid: self.user_id,
            gid: self.group_id,
        }
    }
}

impl InodeInfoMap {
    /// A cache that knows the root, which belongs to `user_id` and
    /// `group_id` and has the present time as its times.
    pub fn new(user_id: u32, group_id: u32) -> (map: InodeInfoMap)
        ensures
            map@.wf(),
            exists|time: Time| map@ == InodeMapView::root_only(user_id, group_id, time),
    {
        let time = now();
        let map = InodeInfoMap::new_at(user_id, group_id, time);
        assert(map@ == InodeMapView::root_only(user_id, group_id, time));
        map
    }

    /// A cache that knows the root, which belongs to `user_id` and
    /// `group_id` and has `time` as its times.
    pub fn new_at(user_id: u32, group_id: u32, time: Time) -> (map: InodeInfoMap)
        ensures
            map@.wf(),
            map@ == InodeMapView::root_only(user_id, group_id, time),
    {
        proof {
            reveal_strlit("/");
        }
        let root = InodeInfo::new(
            InodeInfoMap::root_directory_attr(user_id, group_id, time),
            "/".to_owned(),
        );
        assert(root.path@ =~= seq!['/']);
        let mut ino_info_map: HashMap<u64, InodeInfo> = HashMap::new();
        ino_info_map.insert(1, root);
        let mut ino_parent_map: HashMap<u64, u64> = HashMap::new();
        ino_parent_map.insert(1, 1);
        let map = InodeInfoMap {
            ino_info_map,
            ino_item_list_map: HashMap::new(),
            ino_parent_map,
            next_ino_id: 2,
            user_id,
            group_id,
        };
        proof {
            let expected = InodeMapView::root_only(user_id, group_id, time);
            assert(map@.infos =~= expected.infos);
            assert(map@.lists =~= expected.lists);
            assert(map@.parents =~= expected.parents);
        }
        map
    }

    /// The child of folder `parent` that is listed under the name
    /// `target`: the first one, in the order of the listing.
    pub fn find_by_path(&self, parent: u64, target: &str) -> (info: Option<&InodeInfo>)
        ensures
            view_of(info) == self@.find_by_path(parent, target@),
    {
        let ino_item_list = match self.ino_item_list_map.get(&parent) {
            Some(list) => list,
            None => {
                return None;
            },
        };
        let ghost list = ino_item_list@;
        let mut i: usize = 0;
        assert(list.skip(0) =~= list);
        while i < ino_item_list.len()
            invariant
                i <= list.len(),
                list == ino_item_list@,
                self@.find_by_path(parent, target@) == self@.named_child(
                    list.skip(i as int),
                    target@,
                ),
            decreases list.len() - i,
        {
            proof {
                assert(list.skip(i as int).skip(1) =~= list.skip(i + 1));
            }
            match self.ino_info_map.get(&ino_item_list[i]) {
                Some(inode_info) => {
                    let name = inode_info.file_name();
                    if str_eq(name.as_str(), target) {
                        return Some(inode_info);
                    }
                },
                None => {},
            }
            i += 1;
        }
        None
    }

    /// The inode with number `ino`.
    pub fn find_by_ino(&self, ino: u64) -> (info: Option<&InodeInfo>)
        ensures
            info is Some <==> self@.infos.contains_key(ino),
            info is Some ==> (info->Some_0)@ == self@.infos[ino],
    {
        self.ino_info_map.get(&ino)
    }

    /// The folder in which inode `ino` was listed.
    pub fn parent(&self, ino: u64) -> (info: Option<&InodeInfo>)
        ensures
            view_of(info) == self@.parent(ino),
    {
        match self.ino_parent_map.get(&ino) {
            Some(parent) => self.ino_info_map.get(parent),
            None => None,
        }
    }

    /// Whether folder `ino` has been listed.
    pub fn is_cached_dir(&self, ino: u64) -> (cached: bool)
        ensures
            cached == self@.lists.contains_key(ino),
    {
        self.ino_item_list_map.contains_key(&ino)
    }

    /// The children of folder `ino` in the order of its listing, if it
    /// has been listed.
    pub fn childs(&self, ino: u64) -> (children: Option<Vec<&InodeInfo>>)
        ensures
            children is Some <==> self@.lists.contains_key(ino),
            children is Some ==> (children->Some_0)@.len() == self@.child_infos(
                self@.lists[ino],
            ).len() && forall|i: int|
                0 <= i < (children->Some_0)@.len() ==> (#[trigger] (children->Some_0)@[i])@
                    == self@.child_infos(self@.lists[ino])[i],
    {
        match self.ino_item_list_map.get(&ino) {
            Some(ino_item_list) => {
                let ghost list = ino_item_list@;
                let mut result: Vec<&InodeInfo> = Vec::new();
                let mut i: usize = 0;
                assert(list.take(0) =~= Seq::<u64>::empty());
                while i < ino_item_list.len()
                    invariant
                        i <= list.len(),
                        list == ino_item_list@,
                        result@.len() == self@.child_infos(list.take(i as int)).len(),
                        forall|k: int|
                            0 <= k < result@.len() ==> (#[trigger] result@[k])@
                                == self@.child_infos(list.take(i as int))[k],
                    decreases list.len() - i,
                {
                    proof {
                        assert(list.take(i + 1).drop_last() =~= list.take(i as int));
                        assert(list.take(i + 1).last() == list[i as int]);
                    }
                    match self.ino_info_map.get(&ino_item_list[i]) {
                        Some(attr) => {
                            result.push(attr);
                        },
                        None => {},
                    }
                    i += 1;
                }
                assert(list.take(i as int) =~= list);
                Some(result)
            },
            None => None,
        }
    }

    /// Takes the listing `list` of folder `current_ino` in: its files
    /// and folders become inodes, in the order of their paths, with the
    /// present time as their time of access.
    pub fn update_cache(&mut self, current_ino: u64, list: Vec<WebDAVList>)
        ensures
            old(self)@.wf() ==> final(self)@.wf(),
            exists|time: Time| final(self)@ == old(self)@.update(current_ino, list@, time),
    {
        let time = now();
        proof {
            if self@.wf() {
                self@.lemma_update(current_ino, list@, time);
            }
        }
        self.update_cache_at(current_ino, list, time);
        assert(self@ == old(self)@.update(current_ino, list@, time));
    }

    /// Takes the listing `list` of folder `current_ino` in: its files
    /// and folders become inodes, in the order of their paths, with
    /// `time` as their time of access.
    pub fn update_cache_at(&mut self, current_ino: u64, list: Vec<WebDAVList>, time: Time)
        ensures
            old(self)@.wf() ==> final(self)@.wf(),
            final(self)@ == old(self)@.update(current_ino, list@, time),
    {
        proof {
            if self@.wf() {
                self@.lemma_update(current_ino, list@, time);
            }
        }
        let sorted = sort_by_path(&list);
        let ghost items = sorted_by_path(known_items(list@));
        let mut i: usize = 0;
        assert(items.take(0) =~= Seq::<WebDAVList>::empty());
        while i < sorted.len()
            invariant
                i <= sorted@.len(),
                sorted@.len() == items.len(),
                forall|k: int| 0 <= k < sorted@.len() ==> *(#[trigger] sorted@[k]) == items[k],
                self@ == old(self)@.with_items(current_ino, items.take(i as int), time),
            decreases sorted@.len() - i,
        {
            let item = sorted[i];
            proof {
                assert(items.take(i + 1).drop_last() =~= items.take(i as int));
                assert(items.take(i + 1).last() == *item);
            }
            let ghost before = self@;
            match self.convert_at(item, time) {
                Some(inode_info) => {
                    let ino = inode_info.file_attr.ino;
                    let mut ino_item_list = match self.ino_item_list_map.remove(&current_ino) {
                        Some(list) => list,
                        None => Vec::new(),
                    };
                    ino_item_list.push(ino);
                    self.ino_item_list_map.insert(current_ino, ino_item_list);
                    self.ino_parent_map.insert(ino, current_ino);
                    self.ino_info_map.insert(ino, inode_info);
                    proof {
                        let after = before.with_item(current_ino, *item, time);
                        assert(self@.infos =~= after.infos);
                        assert(self@.lists =~= after.lists);
                        assert(self@.parents =~= after.parents);
                    }
                },
                None => {},
            }
            i += 1;
        }
        assert(items.take(i as int) =~= items);
    }

    /// The inode that `item` becomes when it is taken in at the
    /// present time. The number it got is used up.
    pub fn convert_web_dav_list_to_file_attr(&mut self, item: &WebDAVList) -> (info: Option<
        InodeInfo,
    >)
        ensures
            old(self)@.wf() ==> final(self)@.wf(),
            exists|time: Time|
                #![trigger old(self)@.entry(*item, time)]
                match old(self)@.entry(*item, time) {
                    Some(entry) => info is Some && (info->Some_0)@ == entry && final(self)@ == (
                    InodeMapView { next_ino: (old(self)@.next_ino + 1) as u64, ..old(self)@ }),
                    None => info is None && final(self)@ == old(self)@,
                },
    {
        let time = now();
        let info = self.convert_at(item, time);
        assert(match old(self)@.entry(*item, time) {
            Some(entry) => info is Some && (info->Some_0)@ == entry && self@ == (InodeMapView {
                next_ino: (old(self)@.next_ino + 1) as u64,
                ..old(self)@
            }),
            None => info is None && self@ == old(self)@,
        });
        info
    }

    /// The inode that `item` becomes when it is taken in at `time`.
    /// The number it got is used up.
    pub fn convert_at(&mut self, item: &WebDAVList, time: Time) -> (info: Option<InodeInfo>)
        ensures
            old(self)@.wf() ==> final(self)@.wf(),
            match old(self)@.entry(*item, time) {
                Some(entry) => info is Some && (info->Some_0)@ == entry && final(self)@ == (
                InodeMapView { next_ino: (old(self)@.next_ino + 1) as u64, ..old(self)@ }),
                None => info is None && final(self)@ == old(self)@,
            },
    {
        if let WebDAVList::Unknown = item {
            return None;
        }
        if self.next_ino_id == u64::MAX {
            return None;
        }
        let next_inode_id = self.next_ino_id;
        self.next_ino_id += 1;
        proof {
            let expected = InodeMapView { next_ino: (old(self)@.next_ino + 1) as u64, ..old(self)@ };
            assert(self@.infos =~= expected.infos);
            assert(self@.lists =~= expected.lists);
        }
        match item {
            WebDAVList::File(f) => {
                let modified = Time { secs: to_unsigned(f.last_modified), nanos: 0 };
                Some(
                    InodeInfo::new(
                        FileAttr {
                            ino: next_inode_id,
                            size: f.content_length,
                            blocks: 0,
                            atime: time,
                            mtime: modified,
                            ctime: modified,
                            crtime: modified,
                            kind: FileType::RegularFile,
                            perm: 0o664,
                            nlink: 2,
                            uid: self.user_id,
                            gid: self.group_id,
                            rdev: 0,
                            flags: 0,
                            blksize: 512,
                        },
                        f.path.clone(),
                    ),
                )
            },
            WebDAVList::Folder(d) => {
                let modified = Time { secs: to_unsigned(d.last_modified), nanos: 0 };
                Some(
                    InodeInfo::new(
                        FileAttr {
                            ino: next_inode_id,
                            size: match d.quota_used_bytes {
                                Some(used) => used,
                                None => 4096,
                            },
                            blocks: 0,
                            atime: time,
                            mtime: modified,
                            ctime: modified,
                            crtime: modified,
                            kind: FileType::Directory,
                            perm: 0o755,
                            nlink: 2,
                            uid: self.user_id,
                            gid: self.group_id,
                            rdev: 0,
                            flags: 0,
                            blksize: 512,
                        },
                        d.path.clone(),
                    ),
                )
            },
            WebDAVList::Unknown => None,
        }
    }

    /// The attributes of the root, owned by `user_id` and `group_id`,
    /// with every time set to `time`.
    pub fn root_directory_attr(user_id: u32, group_id: u32, time: Time) -> (attr: FileAttr)
        ensures
            attr == directory_attr(1, 4096, user_id, group_id, time, time),
    {
        FileAttr {
            ino: 1,
            size: 4096,
            blocks: 0,
            atime: time,
            mtime: time,
            ctime: time,
            crtime: time,
            kind: FileType::Directory,
            perm: 0o755,
            nlink: 2,
            uid: user_id,
            gid: group_id,
            rdev: 0,
            blksize: 512,
            flags: 0,
        }
    }
}

} // verus!
