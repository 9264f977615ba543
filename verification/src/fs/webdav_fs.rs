//! What the adapter answers to the kernel: the bytes of a read, and
//! the entries of a directory from a given place on.

use vstd::prelude::*;
use crate::blockfile::image::splice;
use crate::blockfile::BlockFile;
use crate::fs::attr::FileType;
use crate::fs::errors::FSError;
use crate::fs::webdav_fs_explorer::{ListItemInfo, ListItemView};
use crate::webdav::{as_unsigned, to_unsigned};

verus! {

/// An entry of a directory as the kernel takes it: the inode number,
/// the place behind the entry, the kind and the name.
pub struct DirEntry {
    pub ino: u64,
    pub offset: i64,
    pub kind: FileType,
    pub name: String,
}

/// An entry of a directory as a value.
pub struct DirEntryView {
    pub ino: u64,
    pub offset: i64,
    pub kind: FileType,
    pub name: Seq<char>,
}

impl View for DirEntry {
    type V = DirEntryView;

    open spec fn view(&self) -> DirEntryView {
        DirEntryView { ino: self.ino, offset: self.offset, kind: self.kind, name: self.name@ }
    }
}

/// The place behind entry `i` of a directory: `i + 1`, as far as it
/// can be written in 63 bits.
pub open spec fn place_behind(i: int) -> i64 {
    if i + 1 <= i64::MAX {
        (i + 1) as i64
    } else {
        i64::MAX
    }
}

/// How many entries a directory read from place `offset` on skips. A
/// negative place skips them all.
pub open spec fn skipped(offset: i64, len: nat) -> nat {
    if 0 <= offset <= len {
        offset as nat
    } else {
        len
    }
}

/// The entries that a directory read from place `offset` on is
/// answered with, as long as the kernel takes them.
pub open spec fn entries_from(list: Seq<ListItemView>, offset: i64) -> Seq<DirEntryView> {
    let skip = skipped(offset, list.len());
    Seq::new(
        (list.len() - skip) as nat,
        |k: int|
            DirEntryView {
                ino: list[skip + k].attr.ino,
                offset: place_behind(skip + k),
                kind: list[skip + k].attr.kind,
                name: list[skip + k].name,
            },
    )
}

/// The bytes that answer a read of `size` bytes at `offset`: a buffer
/// of `size` zeros into which the block file has read what it holds
/// there.
pub fn read_data(file: &mut BlockFile, offset: i64, size: u32) -> (r: Result<Vec<u8>, FSError>)
    requires
        old(file).wf(),
    ensures
        final(file).wf(),
        final(file)@ == old(file)@,
        final(file).image() == old(file).image(),
        final(file).is_writable() == old(file).is_writable(),
        match old(file)@.read(as_unsigned(offset) as nat, size as nat).error {
            Some(e) => r is Err && r->Err_0 is IO && (r->Err_0)->IO_0 == e,
            None => r is Ok && (r->Ok_0)@ == splice(
                Seq::new(size as nat, |i: int| 0u8),
                0,
                old(file)@.read(as_unsigned(offset) as nat, size as nat).bytes,
            ),
        },
{
    let mut buf: Vec<u8> = vec![0u8; size as usize];
    assert(buf@ =~= Seq::new(size as nat, |i: int| 0u8));
    match file.read(buf.as_mut_slice(), to_unsigned(offset)) {
        Ok(_) => Ok(buf),
        Err(err) => Err(FSError::IO(err)),
    }
}

/// The entries of the listing `list` from place `offset` on, each with
/// the place behind it.
pub fn readdir_entries(list: Vec<ListItemInfo>, offset: i64) -> (entries: Vec<DirEntry>)
    ensures
        entries@.len() == entries_from(list@.map_values(|item: ListItemInfo| item@), offset).len(),
        forall|k: int|
            0 <= k < entries@.len() ==> (#[trigger] entries@[k])@ == entries_from(
                list@.map_values(|item: ListItemInfo| item@),
                offset,
            )[k],
{
    let ghost views = list@.map_values(|item: ListItemInfo| item@);
    let len = list.len();
    let skip: usize = if offset < 0 || offset as u64 > len as u64 {
        len
    } else {
        offset as usize
    };
    let mut entries: Vec<DirEntry> = Vec::new();
    let mut i: usize = skip;
    while i < len
        invariant
            skip <= i <= len,
            len == list@.len(),
            skip == skipped(offset, list@.len()),
            views == list@.map_values(|item: ListItemInfo| item@),
            entries@.len() == i - skip,
            forall|k: int|
                0 <= k < entries@.len() ==> (#[trigger] entries@[k])@ == entries_from(
                    views,
                    offset,
                )[k],
        decreases len - i,
    {
        let info = &list[i];
        let place: i64 = if i as u64 >= i64::MAX as u64 {
            i64::MAX
        } else {
            (i + 1) as i64
        };
        entries.push(
            DirEntry { ino: info.attr.ino, offset: place, kind: info.attr.kind, name: info.name.clone() },
        );
        i += 1;
    }
    entries
}

} // verus!
