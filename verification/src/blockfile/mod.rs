//! The sparse block-cache file: its on-disk format and the engine that
//! reads and writes it at arbitrary byte offsets.
//!
//! A block file keeps one remote object. Its logical address space is
//! cut into blocks of a fixed size; a block gets a physical slot in the
//! data region when it is first written to, so the file holds only what
//! was fetched. The bytes of the file live in an [`image::Image`]; the
//! caller brings them from disk and takes them back.

pub mod codec;
pub mod content;
pub mod error;
pub mod image;
pub mod layout;
pub mod model;
pub mod packing;
pub mod touch;

use vstd::prelude::*;
use crate::blockfile::codec::{lemma_u32_be_round_trip, lemma_u64_be_round_trip, u32_to_be, u64_to_be};
use crate::blockfile::error::BlockFileError;
use crate::blockfile::image::{lemma_fetch_skip, splice, store, Image};
use crate::blockfile::layout::{
    block_count_for,
    created,
    declared_count,
    empty_entry,
    entry_at,
    entry_bytes,
    entry_pos,
    has_signature,
    header_bytes,
    header_of,
    holds_header,
    lemma_entry_frame,
    lemma_entry_round_trip,
    lemma_next_free_allocate,
    lemma_next_free_bounds,
    lemma_next_free_limit,
    lemma_next_free_unused,
    lemma_next_free_usage,
    lemma_store_block,
    next_free,
    parse,
    signature,
    table_bytes,
    BlockEntry,
    BlockFileView,
    HeaderView,
};
use crate::blockfile::content::{lemma_block_split, lemma_chunk_end};
use crate::blockfile::model::usage_after;
use crate::blockfile::packing::{lemma_touch_keeps_packed, lemma_used_count_bound};

verus! {

/// One entry of the block table, together with its place in the table.
pub struct BlockInfo {
    /// The logical block that the entry belongs to.
    pub block_info_index: u32,
    /// Whether the block has a physical slot.
    pub used: bool,
    /// The physical slot of the block.
    pub block_index: u32,
    /// The number of bytes ever written to the block.
    pub usage: u32,
}

impl View for BlockInfo {
    type V = BlockEntry;

    open spec fn view(&self) -> BlockEntry {
        BlockEntry { used: self.used, block_index: self.block_index, usage: self.usage }
    }
}

impl BlockInfo {
    /// The place of this entry in the table.
    pub open spec fn table_index(&self) -> u32 {
        self.block_info_index
    }

    /// Reads entry `index` of the table in `file`.
    pub fn from(file: &Image, index: u32) -> (r: Result<BlockInfo, BlockFileError>)
        ensures
            entry_pos(index as int) + 9 <= file@.len() ==> r is Ok && (r->Ok_0)@ == entry_at(
                file@,
                index as int,
            ) && (r->Ok_0).table_index() == index,
            entry_pos(index as int) + 9 > file@.len() ==> r == Err::<BlockInfo, BlockFileError>(
                BlockFileError::UnexpectedEof,
            ),
    {
        let pos = BlockFileHeader::first_block_info_start_pos() + BlockInfo::size() * (index as u64);
        if file.len() < 9 || pos > (file.len() - 9) as u64 {
            return Err(BlockFileError::UnexpectedEof);
        }
        let flag = match file.read_u8(pos) {
            Ok(x) => x,
            Err(e) => return Err(e),
        };
        let block_index = match file.read_u32(pos + 1) {
            Ok(x) => x,
            Err(e) => return Err(e),
        };
        let usage = match file.read_u32(pos + 5) {
            Ok(x) => x,
            Err(e) => return Err(e),
        };
        Ok(BlockInfo { block_info_index: index, used: flag == 1, block_index, usage })
    }

    /// Stores this entry at its place in the table in `file`.
    pub fn write(&self, file: &mut Image) -> (r: Result<(), BlockFileError>)
        ensures
            entry_pos(self.table_index() as int) + 9 <= usize::MAX ==> r == Ok::<
                (),
                BlockFileError,
            >(()) && final(file)@ == store(
                old(file)@,
                entry_pos(self.table_index() as int),
                entry_bytes(self@),
            ),
            entry_pos(self.table_index() as int) + 9 > usize::MAX ==> r == Err::<
                (),
                BlockFileError,
            >(BlockFileError::FileTooLarge) && final(file)@ == old(file)@,
    {
        let pos = BlockFileHeader::first_block_info_start_pos() + BlockInfo::size() * (
        self.block_info_index as u64);
        if pos > (usize::MAX - 9) as u64 {
            return Err(BlockFileError::FileTooLarge);
        }
        let ghost before = file@;
        let flag: u8 = if self.used {
            1
        } else {
            0
        };
        match file.write_u8(pos, flag) {
            Ok(_) => {},
            Err(e) => return Err(e),
        }
        match file.write_u32(pos + 1, self.block_index) {
            Ok(_) => {},
            Err(e) => return Err(e),
        }
        match file.write_u32(pos + 5, self.usage) {
            Ok(_) => {},
            Err(e) => return Err(e),
        }
        assert(file@ =~= store(before, pos as int, entry_bytes(self@)));
        Ok(())
    }

    /// Replaces this entry by what `file` holds at its place.
    pub fn reload(&mut self, file: &Image) -> (r: Result<(), BlockFileError>)
        ensures
            final(self).table_index() == old(self).table_index(),
            entry_pos(old(self).table_index() as int) + 9 <= file@.len() ==> r == Ok::<
                (),
                BlockFileError,
            >(()) && final(self)@ == entry_at(file@, old(self).table_index() as int),
            entry_pos(old(self).table_index() as int) + 9 > file@.len() ==> r == Err::<
                (),
                BlockFileError,
            >(BlockFileError::UnexpectedEof) && final(self)@ == old(self)@,
    {
        match BlockInfo::from(file, self.block_info_index) {
            Ok(info) => {
                *self = info;
                Ok(())
            },
            Err(e) => Err(e),
        }
    }

    /// The number of bytes that an entry takes in the table.
    pub fn size() -> (n: u64)
        ensures
            n == 9,
    {
        9
    }
}

/// The number of blocks is the number of whole blocks, and one more
/// if bytes are left over.
pub proof fn lemma_block_count(file_size: u64, block_size: u32)
    requires
        block_size > 0,
    ensures
        block_count_for(file_size, block_size) == file_size as int / block_size as int + if file_size
            as int % block_size as int == 0 {
            0int
        } else {
            1int
        },
{
    let s = file_size as int;
    let b = block_size as int;
    let q = s / b;
    let r = s % b;
    assert(s == b * q + r && 0 <= r < b) by (nonlinear_arith)
        requires
            b > 0,
            q == s / b,
            r == s % b,
    ;
    if r == 0 {
        assert((b * q + b - 1) / b == q) by (nonlinear_arith)
            requires
                b > 0,
        ;
    } else {
        assert((b * q + r + b - 1) / b == q + 1) by (nonlinear_arith)
            requires
                b > 0,
                0 < r < b,
        ;
    }
}

/// The entries that a list of table entries stands for.
pub open spec fn entries_of(list: Seq<BlockInfo>) -> Seq<BlockEntry> {
    Seq::new(list.len(), |i: int| list[i]@)
}

/// The header of a block file in memory: the sizes, the block table,
/// and the physical slot that the next allocation hands out.
pub struct BlockFileHeader {
    block_info_list: Vec<BlockInfo>,
    file_size: u64,
    block_size: u32,
    next_block_index: u64,
}

impl View for BlockFileHeader {
    type V = HeaderView;

    closed spec fn view(&self) -> HeaderView {
        HeaderView {
            file_size: self.file_size,
            block_size: self.block_size,
            entries: entries_of(self.block_info_list@),
        }
    }
}

impl BlockFileHeader {
    /// The table entries.
    pub closed spec fn infos(&self) -> Seq<BlockInfo> {
        self.block_info_list@
    }

    /// The logical size of the file.
    pub closed spec fn logical_size(&self) -> u64 {
        self.file_size
    }

    /// The size of a block.
    pub closed spec fn block_len(&self) -> u32 {
        self.block_size
    }

    /// The physical slot that the next allocation hands out.
    pub closed spec fn next_slot(&self) -> u64 {
        self.next_block_index
    }

    /// The header is one the engine can work with, every entry knows
    /// its place, and the next slot lies just above the slots in use.
    pub closed spec fn wf(&self) -> bool {
        &&& self@.wf()
        &&& forall|i: int|
            0 <= i < self.block_info_list@.len() ==> (
            #[trigger] self.block_info_list@[i]).block_info_index == i
        &&& self.next_block_index == self@.next_block_index()
    }

    /// The view of a header holds what its accessors give: the sizes,
    /// and the entries of the table.
    pub proof fn lemma_view(&self)
        ensures
            self@.file_size == self.logical_size(),
            self@.block_size == self.block_len(),
            self@.entries == entries_of(self.infos()),
            self@.entries.len() == self.infos().len(),
    {
    }

    /// In a sound header the view is sound, every entry knows its
    /// place, and the next slot is the one just above the slots in use.
    pub proof fn lemma_wf(&self)
        requires
            self.wf(),
        ensures
            self@.wf(),
            forall|i: int|
                0 <= i < self.infos().len() ==> (#[trigger] self.infos()[i]).table_index() == i,
            self.next_slot() == self@.next_block_index(),
    {
    }

    /// A header for a file of `file_size` bytes in blocks of
    /// `block_size` bytes, with no block allocated.
    pub fn new(file_size: u64, block_size: u32) -> (header: Self)
        requires
            block_size > 0,
            block_count_for(file_size, block_size) <= u32::MAX,
            20 + 9 * block_count_for(file_size, block_size) <= usize::MAX,
        ensures
            header.wf(),
            header@ == (HeaderView {
                file_size,
                block_size,
                entries: Seq::new(block_count_for(file_size, block_size), |i: int| empty_entry()),
            }),
    {
        let block_count = BlockFileHeader::block_count(file_size, block_size);
        let mut empty_blocks: Vec<BlockInfo> = Vec::new();
        let mut index: u64 = 0;
        while index < block_count
            invariant
                index <= block_count <= u32::MAX,
                empty_blocks@.len() == index,
                forall|i: int|
                    0 <= i < index ==> (#[trigger] empty_blocks@[i])@ == empty_entry()
                        && empty_blocks@[i].table_index() == i,
            decreases block_count - index,
        {
            empty_blocks.push(
                BlockInfo { block_info_index: index as u32, used: false, block_index: 0, usage: 0 },
            );
            index += 1;
        }
        let header = BlockFileHeader {
            block_info_list: empty_blocks,
            file_size,
            block_size,
            next_block_index: 0,
        };
        proof {
            assert(header@.entries =~= Seq::new(
                block_count_for(file_size, block_size),
                |i: int| empty_entry(),
            ));
            lemma_next_free_unused(header@.entries);
            assert(header@.next_block_index() * header@.block_size == 0) by (nonlinear_arith)
                requires
                    header@.next_block_index() == 0,
            ;
        }
        header
    }

    /// The number of blocks that cover `file_size` bytes.
    fn block_count(file_size: u64, block_size: u32) -> (count: u64)
        requires
            block_size > 0,
        ensures
            count == block_count_for(file_size, block_size),
    {
        proof {
            lemma_block_count(file_size, block_size);
        }
        let whole = file_size / (block_size as u64);
        if file_size % (block_size as u64) == 0 {
            whole
        } else {
            assert(whole < u64::MAX) by (nonlinear_arith)
                requires
                    whole == file_size as int / block_size as int,
                    file_size as int % block_size as int != 0,
                    block_size > 0,
                    file_size <= u64::MAX,
            ;
            whole + 1
        }
    }

    /// The number of bytes before the data region.
    pub fn get_header_size(&self) -> (n: u64)
        requires
            self.infos().len() <= u32::MAX,
        ensures
            n == self@.header_size(),
    {
        BlockFileHeader::first_block_info_start_pos() + (self.block_info_list.len() as u64)
            * BlockInfo::size()
    }

    /// The entry of the block that holds position `pos`, for the
    /// caller to read or change.
    pub fn get_mut_block_info(&mut self, pos: u64) -> (r: Result<&mut BlockInfo, BlockFileError>)
        requires
            old(self).block_len() > 0,
        ensures
            final(self).logical_size() == old(self).logical_size(),
            final(self).block_len() == old(self).block_len(),
            final(self).next_slot() == old(self).next_slot(),
            r is Ok <==> old(self)@.block_of(pos as nat) < old(self).infos().len(),
            r is Ok ==> ({
                let block = old(self)@.block_of(pos as nat);
                &&& *(r->Ok_0) == old(self).infos()[block]
                &&& final(self).infos() == old(self).infos().update(block, *final(r->Ok_0))
            }),
            r is Err ==> ({
                &&& r->Err_0 == BlockFileError::InvalidPosition
                &&& final(self).infos() == old(self).infos()
            }),
    {
        BlockFileHeader::get_mut_block_info_from(
            self.block_info_list.as_mut_slice(),
            self.block_size as u64,
            pos,
        )
    }

    /// The entry of the block that holds position `pos`, which gets the
    /// next free physical slot if it has none yet. Where the slots in
    /// use were packed they stay packed, with one slot more if the
    /// block had none.
    pub fn get_mut_or_allocate_block(&mut self, pos: u64) -> (r: Result<
        &mut BlockInfo,
        BlockFileError,
    >)
        requires
            old(self).wf(),
        ensures
            final(self).logical_size() == old(self).logical_size(),
            final(self).block_len() == old(self).block_len(),
            old(self)@.allocation_error(pos as nat) is Some ==> ({
                &&& r is Err
                &&& Some(r->Err_0) == old(self)@.allocation_error(pos as nat)
                &&& final(self).infos() == old(self).infos()
                &&& final(self).next_slot() == old(self).next_slot()
            }),
            old(self)@.allocation_error(pos as nat) is None ==> ({
                let block = old(self)@.block_of(pos as nat);
                let touched = old(self)@.touched(block);
                &&& r is Ok
                &&& (r->Ok_0)@ == touched
                &&& (r->Ok_0).table_index() == block
                &&& final(self).infos() == old(self).infos().update(block, *final(r->Ok_0))
                &&& final(self).next_slot() == next_free(old(self)@.entries.update(block, touched))
            }),
            old(self)@.allocation_error(pos as nat) is None && old(self)@.packed() ==> ({
                let block = old(self)@.block_of(pos as nat);
                let after = HeaderView {
                    entries: old(self)@.entries.update(block, old(self)@.touched(block)),
                    ..old(self)@
                };
                &&& after.packed()
                &&& after.next_block_index() == old(self)@.next_block_index()
                    + if old(self)@.entries[block].used {
                    0int
                } else {
                    1int
                }
                &&& after.next_block_index() <= after.entries.len()
            }),
    {
        let ghost before = self@;
        let ghost i = pos as int / self.block_size as int;
        let block_size = self.block_size as u64;
        let header_size = self.get_header_size();
        let next = self.next_block_index;
        proof {
            lemma_next_free_limit(before.entries);
            if before.allocation_error(pos as nat) is None && before.packed() {
                let touched = before.touched(i);
                lemma_touch_keeps_packed(before, i, 0);
                assert(BlockEntry { usage: usage_after(touched.usage, 0), ..touched } == touched);
                lemma_used_count_bound(before.entries.update(i, touched));
            }
        }
        let room = next <= u32::MAX as u64 && BlockFileHeader::slot_fits(
            header_size,
            next + 1,
            block_size,
        );
        match BlockFileHeader::get_mut_block_info_from(
            self.block_info_list.as_mut_slice(),
            block_size,
            pos,
        ) {
            Ok(block_info) => {
                if !block_info.used {
                    if !room {
                        return Err(BlockFileError::FileTooLarge);
                    }
                    block_info.used = true;
                    block_info.block_index = next as u32;
                    block_info.usage = 0;
                    self.next_block_index = next + 1;
                    proof {
                        lemma_next_free_allocate(before.entries, i, 0);
                    }
                } else {
                    proof {
                        assert(before.entries.update(i, before.entries[i]) =~= before.entries);
                    }
                }
                Ok(block_info)
            },
            Err(e) => Err(e),
        }
    }

    /// Whether `count` slots of `block_size` bytes behind a header of
    /// `header_size` bytes can all be addressed.
    fn slot_fits(header_size: u64, count: u64, block_size: u64) -> (fits: bool)
        requires
            count <= u32::MAX + 1,
            block_size <= u32::MAX,
        ensures
            fits == (header_size + count * block_size <= usize::MAX),
    {
        assert(count * block_size <= (u32::MAX + 1) * u32::MAX) by (nonlinear_arith)
            requires
                count <= u32::MAX + 1,
                block_size <= u32::MAX,
        ;
        let span = count * block_size;
        span <= usize::MAX as u64 && header_size <= usize::MAX as u64 - span
    }

    /// The entry in `block_info_list` of the block that holds position
    /// `pos`, where blocks are `block_size` bytes long.
    pub fn get_mut_block_info_from(
        block_info_list: &mut [BlockInfo],
        block_size: u64,
        pos: u64,
    ) -> (r: Result<&mut BlockInfo, BlockFileError>)
        requires
            block_size > 0,
        ensures
            r is Ok <==> pos / block_size < old(block_info_list)@.len(),
            r is Ok ==> ({
                let block = pos as int / block_size as int;
                &&& *(r->Ok_0) == old(block_info_list)@[block]
                &&& final(block_info_list)@ == old(block_info_list)@.update(block, *final(r->Ok_0))
            }),
            r is Err ==> ({
                &&& r->Err_0 == BlockFileError::InvalidPosition
                &&& final(block_info_list)@ == old(block_info_list)@
            }),
    {
        let block_info_index = pos / block_size;
        if block_info_index < block_info_list.len() as u64 {
            Ok(&mut block_info_list[block_info_index as usize])
        } else {
            Err(BlockFileError::InvalidPosition)
        }
    }

    /// The largest physical slot among the used entries of
    /// `block_info_list`, if any entry is used.
    pub fn find_last_block_index(block_info_list: &[BlockInfo]) -> (last: Option<u32>)
        ensures
            last is None ==> next_free(entries_of(block_info_list@)) == 0,
            last is Some ==> next_free(entries_of(block_info_list@)) == last->Some_0 + 1,
    {
        let mut last: Option<u32> = None;
        let mut i: usize = 0;
        let ghost entries = entries_of(block_info_list@);
        while i < block_info_list.len()
            invariant
                i <= block_info_list@.len(),
                entries == entries_of(block_info_list@),
                last is None ==> next_free(entries.take(i as int)) == 0,
                last is Some ==> next_free(entries.take(i as int)) == last->Some_0 + 1,
            decreases block_info_list@.len() - i,
        {
            let block_info = &block_info_list[i];
            proof {
                assert(entries.take(i + 1).drop_last() =~= entries.take(i as int));
                assert(entries.take(i + 1).last() == block_info@);
            }
            if block_info.used {
                let raise = match last {
                    Some(m) => block_info.block_index > m,
                    None => true,
                };
                if raise {
                    last = Some(block_info.block_index);
                }
            }
            i += 1;
        }
        proof {
            assert(entries.take(i as int) =~= entries);
        }
        last
    }

    /// Where the signature lies.
    pub fn signatire_pose() -> (pos: u64)
        ensures
            pos == 0,
    {
        0
    }

    /// Where the logical size lies.
    pub fn file_size_pos() -> (pos: u64)
        ensures
            pos == 4,
    {
        4
    }

    /// Where the block size lies.
    pub fn block_size_pose() -> (pos: u64)
        ensures
            pos == 12,
    {
        12
    }

    /// Where the number of table entries lies.
    pub fn block_info_list_len_start_pos() -> (pos: u64)
        ensures
            pos == 16,
    {
        16
    }

    /// Where the table begins.
    pub fn first_block_info_start_pos() -> (pos: u64)
        ensures
            pos == 20,
    {
        20
    }
}

impl BlockFileHeader {
    /// Reads the header that `file` holds.
    fn from(file: &Image) -> (r: Result<BlockFileHeader, BlockFileError>)
        ensures
            match r {
                Ok(header) => header.wf() && parse(file@) is Ok && (parse(file@)->Ok_0).header
                    == header@,
                Err(e) => parse(file@) == Err::<BlockFileView, BlockFileError>(e),
            },
    {
        match BlockFileHeader::validate_file_header(file) {
            Ok(_) => {},
            Err(e) => return Err(e),
        }
        let file_size = match BlockFileHeader::read_file_size_from(file) {
            Ok(x) => x,
            Err(e) => return Err(e),
        };
        let block_size = match BlockFileHeader::read_block_size_from(file) {
            Ok(x) => x,
            Err(e) => return Err(e),
        };
        let block_info_list = match BlockFileHeader::read_block_info_list_from(file) {
            Ok(x) => x,
            Err(e) => return Err(e),
        };
        let next_block_index: u64 = match BlockFileHeader::find_last_block_index(
            block_info_list.as_slice(),
        ) {
            Some(last_block_index) => last_block_index as u64 + 1,
            None => 0,
        };
        if block_size == 0 {
            return Err(BlockFileError::InvalidFormat);
        }
        let header_size = BlockFileHeader::first_block_info_start_pos() + (
        block_info_list.len() as u64) * BlockInfo::size();
        if !BlockFileHeader::slot_fits(header_size, next_block_index, block_size as u64) {
            return Err(BlockFileError::FileTooLarge);
        }
        Ok(BlockFileHeader { block_info_list, file_size, block_size, next_block_index })
    }

    /// Stores the whole header in `file`, which is empty.
    fn write_file_header(&self, file: &mut Image) -> (r: Result<(), BlockFileError>)
        requires
            self.wf(),
            old(file)@.len() == 0,
        ensures
            r == Ok::<(), BlockFileError>(()),
            final(file)@ == header_bytes(self@),
            final(file)@.len() == self@.header_size(),
            has_signature(final(file)@),
            holds_header(final(file)@),
            header_of(final(file)@) == self@,
    {
        let sig: [u8; 4] = [0x46, 0x44, 0x72, 0x73];
        match file.write(BlockFileHeader::signatire_pose(), sig.as_slice(), 0, 4) {
            Ok(_) => {},
            Err(e) => return Err(e),
        }
        match file.write_u64(BlockFileHeader::file_size_pos(), self.file_size) {
            Ok(_) => {},
            Err(e) => return Err(e),
        }
        match file.write_u32(BlockFileHeader::block_size_pose(), self.block_size) {
            Ok(_) => {},
            Err(e) => return Err(e),
        }
        let ghost fixed = file@;
        proof {
            lemma_u64_be_round_trip(self.file_size);
            lemma_u32_be_round_trip(self.block_size);
            assert(fixed.subrange(0, 4) =~= signature());
            assert(fixed.subrange(4, 12) =~= u64_to_be(self.file_size));
            assert(fixed.subrange(12, 16) =~= u32_to_be(self.block_size));
        }
        match self.write_all_block_info(file) {
            Ok(_) => {},
            Err(e) => return Err(e),
        }
        proof {
            assert(file@.subrange(0, 4) =~= fixed.subrange(0, 4));
            assert(file@.subrange(4, 12) =~= fixed.subrange(4, 12));
            assert(file@.subrange(12, 16) =~= fixed.subrange(12, 16));
            assert(header_of(file@).entries =~= self@.entries);
            let fixed_part = signature() + u64_to_be(self.file_size) + u32_to_be(self.block_size);
            assert(fixed =~= fixed_part);
            let counted_part = fixed_part + u32_to_be(self@.entries.len() as u32);
            assert(file@.subrange(0, 20) =~= counted_part);
            assert(file@ =~= counted_part + table_bytes(self@.entries));
        }
        Ok(())
    }

    /// Checks that `file` begins with the signature.
    fn validate_file_header(file: &Image) -> (r: Result<(), BlockFileError>)
        ensures
            has_signature(file@) ==> r == Ok::<(), BlockFileError>(()),
            !has_signature(file@) ==> r == Err::<(), BlockFileError>(BlockFileError::InvalidFormat),
    {
        let mut header: Vec<u8> = vec![0u8; 4];
        let n = file.read(BlockFileHeader::signatire_pose(), header.as_mut_slice(), 0, 4);
        proof {
            if n == 4 {
                assert(file@.subrange(0, 4) =~= header@);
            }
        }
        if header[0] == 0x46 && header[1] == 0x44 && header[2] == 0x72 && header[3] == 0x73 {
            assert(header@ =~= signature());
            Ok(())
        } else {
            Err(BlockFileError::InvalidFormat)
        }
    }

    /// The logical size that `file` declares.
    fn read_file_size_from(file: &Image) -> (r: Result<u64, BlockFileError>)
        ensures
            file@.len() >= 12 ==> r == Ok::<u64, BlockFileError>(header_of(file@).file_size),
            file@.len() < 12 ==> r == Err::<u64, BlockFileError>(BlockFileError::UnexpectedEof),
    {
        file.read_u64(BlockFileHeader::file_size_pos())
    }

    /// The block size that `file` declares.
    fn read_block_size_from(file: &Image) -> (r: Result<u32, BlockFileError>)
        ensures
            file@.len() >= 16 ==> r == Ok::<u32, BlockFileError>(header_of(file@).block_size),
            file@.len() < 16 ==> r == Err::<u32, BlockFileError>(BlockFileError::UnexpectedEof),
    {
        file.read_u32(BlockFileHeader::block_size_pose())
    }

    /// The block table that `file` holds.
    fn read_block_info_list_from(file: &Image) -> (r: Result<Vec<BlockInfo>, BlockFileError>)
        ensures
            holds_header(file@) ==> r is Ok && entries_of((r->Ok_0)@) == header_of(file@).entries
                && forall|i: int|
                0 <= i < (r->Ok_0)@.len() ==> (#[trigger] (r->Ok_0)@[i]).table_index() == i,
            !holds_header(file@) ==> r == Err::<Vec<BlockInfo>, BlockFileError>(
                BlockFileError::UnexpectedEof,
            ),
    {
        let block_info_list_len = match file.read_u32(
            BlockFileHeader::block_info_list_len_start_pos(),
        ) {
            Ok(x) => x,
            Err(e) => return Err(e),
        };
        let mut block_info_list: Vec<BlockInfo> = Vec::new();
        let mut i: u32 = 0;
        while i < block_info_list_len
            invariant
                i <= block_info_list_len,
                block_info_list_len == declared_count(file@),
                file@.len() >= 20,
                file@.len() >= 20 + 9 * i,
                block_info_list@.len() == i,
                forall|j: int|
                    0 <= j < i ==> (#[trigger] block_info_list@[j])@ == entry_at(file@, j)
                        && block_info_list@[j].table_index() == j,
            decreases block_info_list_len - i,
        {
            match BlockInfo::from(file, i) {
                Ok(info) => block_info_list.push(info),
                Err(e) => return Err(e),
            }
            i += 1;
        }
        proof {
            assert(entries_of(block_info_list@) =~= header_of(file@).entries);
        }
        Ok(block_info_list)
    }

    /// Stores the number of entries and the entries themselves in
    /// `file`, which ends where the count begins.
    fn write_all_block_info(&self, file: &mut Image) -> (r: Result<(), BlockFileError>)
        requires
            self.wf(),
            old(file)@.len() == 16,
        ensures
            r == Ok::<(), BlockFileError>(()),
            final(file)@.len() == self@.header_size(),
            forall|k: int| 0 <= k < 16 ==> #[trigger] final(file)@[k] == old(file)@[k],
            declared_count(final(file)@) == self@.entries.len(),
            final(file)@.subrange(16, 20) == u32_to_be(self@.entries.len() as u32),
            final(file)@.subrange(20, final(file)@.len() as int) == table_bytes(self@.entries),
            forall|j: int|
                0 <= j < self@.entries.len() ==> entry_at(final(file)@, j) == #[trigger] self@.entries[j],
    {
        let len = self.block_info_list.len();
        proof {
            lemma_u32_be_round_trip(len as u32);
        }
        match file.write_u32(BlockFileHeader::block_info_list_len_start_pos(), len as u32) {
            Ok(_) => {},
            Err(e) => return Err(e),
        }
        let ghost counted = file@;
        assert(counted.subrange(16, 20) =~= u32_to_be(len as u32));
        let mut index: usize = 0;
        while index < len
            invariant
                self.wf(),
                index <= len,
                len == self.block_info_list@.len(),
                file@.len() == 20 + 9 * index,
                counted.len() == 20,
                forall|k: int| 0 <= k < 16 ==> #[trigger] counted[k] == old(file)@[k],
                forall|k: int| 0 <= k < 20 ==> #[trigger] file@[k] == counted[k],
                forall|j: int|
                    0 <= j < index ==> entry_at(file@, j) == #[trigger] self@.entries[j],
                forall|k: int|
                    20 <= k < 20 + 9 * index ==> #[trigger] file@[k] == table_bytes(
                        self@.entries,
                    )[k - 20],
            decreases len - index,
        {
            let block_info = &self.block_info_list[index];
            let ghost before = file@;
            match block_info.write(file) {
                Ok(_) => {},
                Err(e) => return Err(e),
            }
            proof {
                lemma_entry_round_trip(before, index as int, block_info@);
                assert forall|j: int| 0 <= j < index implies entry_at(file@, j)
                    == #[trigger] self@.entries[j] by {
                    lemma_entry_frame(before, file@, j);
                }
                assert(self@.entries[index as int] == block_info@);
                assert forall|k: int| 20 <= k < 20 + 9 * (index + 1) implies #[trigger] file@[k]
                    == table_bytes(self@.entries)[k - 20] by {
                    if k >= 20 + 9 * index {
                        assert((k - 20) / 9 == index as int);
                        assert((k - 20) % 9 == k - entry_pos(index as int));
                    } else {
                        assert(file@[k] == before[k]);
                    }
                }
            }
            index += 1;
        }
        proof {
            assert(file@.subrange(16, 20) =~= counted.subrange(16, 20));
            assert(file@.subrange(20, file@.len() as int) =~= table_bytes(self@.entries));
        }
        Ok(())
    }
}

/// A block file: the header in memory and the image that holds header
/// and data.
pub struct BlockFile {
    header: BlockFileHeader,
    file: Image,
    writable: bool,
}

impl View for BlockFile {
    type V = BlockFileView;

    closed spec fn view(&self) -> BlockFileView {
        BlockFileView {
            header: self.header@,
            data: self.file@.skip(self.header@.header_size() as int),
        }
    }
}

impl BlockFile {
    /// The header in memory is sound and says what the image says.
    pub closed spec fn wf(&self) -> bool {
        &&& self.header.wf()
        &&& has_signature(self.file@)
        &&& holds_header(self.file@)
        &&& header_of(self.file@) == self.header@
    }

    /// Whether the file was opened for writing.
    pub closed spec fn is_writable(&self) -> bool {
        self.writable
    }

    /// The bytes of the file, header and data.
    pub closed spec fn image(&self) -> Seq<u8> {
        self.file@
    }

    /// The image of a sound block file is read as the value of that
    /// file, which the engine can work with.
    pub proof fn lemma_image_parses(&self)
        requires
            self.wf(),
        ensures
            parse(self.image()) == Ok::<BlockFileView, BlockFileError>(self@),
            self@.wf(),
    {
        self.file.lemma_len_fits();
    }

    /// A fresh block file for `file_size` bytes in blocks of
    /// `block_size` bytes. Its image is the header and nothing else:
    /// the signature, the sizes, the number of blocks, and a table of
    /// zeros. It fails where the number of blocks does not fit the
    /// header.
    pub fn create(file_size: u64, block_size: u32) -> (r: Result<BlockFile, BlockFileError>)
        requires
            block_size > 0,
        ensures
            match r {
                Ok(file) => file.wf() && file.is_writable() && file@ == created(
                    file_size,
                    block_size,
                ) && file.image() == header_bytes(created(file_size, block_size).header),
                Err(e) => e == BlockFileError::FileTooLarge,
            },
            r is Ok <==> block_count_for(file_size, block_size) <= u32::MAX && 20 + 9
                * block_count_for(file_size, block_size) <= usize::MAX,
    {
        let block_count = BlockFileHeader::block_count(file_size, block_size);
        if block_count > u32::MAX as u64 || 20 + 9 * block_count > usize::MAX as u64 {
            return Err(BlockFileError::FileTooLarge);
        }
        let mut file = Image::new();
        let header = BlockFileHeader::new(file_size, block_size);
        match header.write_file_header(&mut file) {
            Ok(_) => {},
            Err(e) => return Err(e),
        }
        let created_file = BlockFile { header, file, writable: true };
        proof {
            assert(created_file@.data =~= Seq::<u8>::empty());
        }
        Ok(created_file)
    }

    /// The block file that `image` holds.
    pub fn open(image: Vec<u8>, write: bool) -> (r: Result<BlockFile, BlockFileError>)
        ensures
            match r {
                Ok(file) => file.wf() && file.is_writable() == write && file.image() == image@
                    && parse(image@) == Ok::<BlockFileView, BlockFileError>(file@),
                Err(e) => parse(image@) == Err::<BlockFileView, BlockFileError>(e),
            },
    {
        let file = Image::from_bytes(image);
        match BlockFileHeader::from(&file) {
            Ok(header) => Ok(BlockFile { header, file, writable: write }),
            Err(e) => Err(e),
        }
    }

    /// Closes the file and gives its bytes up.
    pub fn into_image(self) -> (bytes: Vec<u8>)
        requires
            self.wf(),
        ensures
            bytes@ == self.image(),
            parse(bytes@) == Ok::<BlockFileView, BlockFileError>(self@),
    {
        proof {
            self.lemma_image_parses();
        }
        self.file.into_bytes()
    }

    /// Closes the file and opens it again from its bytes, for writing
    /// if `write` says so. What was written stays: the file opened is
    /// the file closed.
    pub fn reopen(self, write: bool) -> (file: BlockFile)
        requires
            self.wf(),
        ensures
            file.wf(),
            file@ == self@,
            file.image() == self.image(),
            file.is_writable() == write,
    {
        match BlockFile::open(self.into_image(), write) {
            Ok(file) => file,
            Err(_) => vstd::pervasive::unreached(),
        }
    }

    /// The logical size of the file.
    pub fn file_size(&self) -> (size: u64)
        ensures
            size == self@.header.file_size,
    {
        self.header.file_size
    }

    /// The size of a block.
    pub fn block_size(&self) -> (size: u32)
        ensures
            size == self@.header.block_size,
    {
        self.header.block_size
    }

    /// The number of logical blocks.
    pub fn block_count(&self) -> (count: usize)
        ensures
            count == self@.header.entries.len(),
    {
        self.header.block_info_list.len()
    }

    /// The table entry of logical block `index`, if the table has one.
    pub fn block_info(&self, index: usize) -> (info: Option<&BlockInfo>)
        ensures
            index < self@.header.entries.len() ==> info is Some && (info->Some_0)@
                == self@.header.entries[index as int],
            index >= self@.header.entries.len() ==> info is None,
    {
        if index < self.header.block_info_list.len() {
            Some(&self.header.block_info_list[index])
        } else {
            None
        }
    }

    /// Whether the file can be written to.
    pub fn writable(&self) -> (writable: bool)
        ensures
            writable == self.is_writable(),
    {
        self.writable
    }

    /// The bytes of the file, borrowed.
    pub fn as_bytes(&self) -> (bytes: &[u8])
        requires
            self.wf(),
        ensures
            bytes@ == self.image(),
            parse(bytes@) == Ok::<BlockFileView, BlockFileError>(self@),
    {
        proof {
            self.lemma_image_parses();
        }
        self.file.as_slice()
    }

    /// Whether the `size` bytes at `begin`, cut at the logical size,
    /// lie in blocks that have all been written. A range of which
    /// nothing is left once it is cut is ready. Each entry is read from
    /// the image again before it is looked at.
    pub fn is_data_ready(&mut self, begin: u64, size: u64) -> (r: Result<bool, BlockFileError>)
        requires
            old(self).wf(),
        ensures
            final(self).wf(),
            final(self)@ == old(self)@,
            final(self).image() == old(self).image(),
            final(self).is_writable() == old(self).is_writable(),
            r == old(self)@.is_data_ready(begin as nat, size as nat),
    {
        if self.header.file_size <= begin {
            return Ok(true);
        }
        let rest = self.header.file_size - begin;
        let clipped = if rest < size {
            rest
        } else {
            size
        };
        if clipped == 0 {
            return Ok(true);
        }
        let (first, last) = self.find_block_info_range(begin, clipped);
        if last >= self.header.block_info_list.len() as u64 {
            return Err(BlockFileError::InvalidPosition);
        }
        let last = last as usize;
        let mut i: usize = first as usize;
        let ghost expected = self@.all_used(first as int, last as int);
        while i <= last
            invariant
                self.wf(),
                self@ == old(self)@,
                expected == old(self)@.all_used(first as int, last as int),
                old(self)@.is_data_ready(begin as nat, size as nat) == Ok::<bool, BlockFileError>(
                    expected,
                ),
                self.file@ == old(self).file@,
                self.writable == old(self).writable,
                first <= i <= last + 1,
                last < self.header.block_info_list@.len() <= u32::MAX,
                forall|j: int| first <= j < i ==> (#[trigger] self@.header.entries[j]).used,
            decreases last + 1 - i,
        {
            let ghost before = self.header.block_info_list@;
            proof {
                assert(header_of(self.file@).entries[i as int] == before[i as int]@);
            }
            let block_info = &mut self.header.block_info_list[i];
            match block_info.reload(&self.file) {
                Ok(_) => {},
                Err(e) => return Err(e),
            }
            if !block_info.used {
                proof {
                    assert(self.header.block_info_list@ =~= before);
                    assert(!self@.header.entries[i as int].used);
                }
                return Ok(false);
            }
            proof {
                assert(self.header.block_info_list@ =~= before);
                assert(self@.header.entries[i as int].used);
            }
            i += 1;
        }
        Ok(true)
    }

    /// Reads into `buf` from logical position `offset` on, up to the
    /// logical size, and returns how many bytes it read. It fails where
    /// `offset` lies past the logical size or a block in the range was
    /// never written. Where the data of a block ends early it reads no
    /// further, and returns what it read if every block in the rest of
    /// the range was written.
    pub fn read(&mut self, buf: &mut [u8], offset: u64) -> (r: Result<usize, BlockFileError>)
        requires
            old(self).wf(),
        ensures
            final(self).wf(),
            final(self)@ == old(self)@,
            final(self).image() == old(self).image(),
            final(self).is_writable() == old(self).is_writable(),
            final(buf)@ == splice(
                old(buf)@,
                0,
                old(self)@.read(offset as nat, old(buf)@.len()).bytes,
            ),
            r == match old(self)@.read(offset as nat, old(buf)@.len()).error {
                None => Ok::<usize, BlockFileError>(
                    old(self)@.read(offset as nat, old(buf)@.len()).bytes.len() as usize,
                ),
                Some(e) => Err::<usize, BlockFileError>(e),
            },
    {
        let ghost view = self@;
        let ghost outcome = view.read(offset as nat, buf@.len());
        if self.header.file_size < offset {
            assert(buf@ =~= splice(buf@, 0, outcome.bytes));
            return Err(BlockFileError::InvalidPosition);
        }
        let rest = self.header.file_size - offset;
        let end: usize = if buf.len() as u64 <= rest {
            buf.len()
        } else {
            rest as usize
        };
        let mut total_read_size: usize = 0;
        let ghost mut so_far: Seq<u8> = Seq::empty();
        assert(buf@ =~= splice(old(buf)@, 0, so_far));
        while total_read_size < end
            invariant
                self.wf(),
                self@ == view,
                self.file@ == old(self).file@,
                self.writable == old(self).writable,
                view == old(self)@,
                view.header.block_size > 0,
                outcome == view.read(offset as nat, old(buf)@.len()),
                total_read_size <= end <= buf@.len(),
                buf@.len() == old(buf)@.len(),
                offset + end <= u64::MAX,
                so_far.len() == total_read_size,
                buf@ == splice(old(buf)@, 0, so_far),
                outcome.bytes == so_far + view.read_chunks(
                    (offset + total_read_size) as nat,
                    (end - total_read_size) as nat,
                ).bytes,
                outcome.error == view.read_chunks(
                    (offset + total_read_size) as nat,
                    (end - total_read_size) as nat,
                ).error,
            decreases end - total_read_size,
        {
            let pos = offset + total_read_size as u64;
            let ghost chunks = view.read_chunks(pos as nat, (end - total_read_size) as nat);
            let ghost earlier = so_far;
            let want = self.chunk_len(pos, end - total_read_size);
            let n = match self.read_block(buf, total_read_size, total_read_size + want, pos) {
                Ok(n) => n,
                Err(e) => {
                    proof {
                        assert(so_far + chunks.bytes =~= so_far);
                    }
                    return Err(e);
                },
            };
            let ghost got = view.block_bytes(pos as nat, (end - total_read_size) as nat);
            proof {
                assert(buf@ =~= splice(old(buf)@, 0, so_far + got));
                so_far = so_far + got;
            }
            total_read_size += n;
            if n < want {
                proof {
                    lemma_block_split(pos as int, view.header.block_size as int);
                    assert(so_far + Seq::<u8>::empty() =~= so_far);
                }
                return match self.first_hole(pos + want as u64, end - (total_read_size - n) - want) {
                    Some(e) => Err(e),
                    None => Ok(total_read_size),
                };
            }
            proof {
                let rest = view.read_chunks(
                    (offset + total_read_size) as nat,
                    (end - total_read_size) as nat,
                );
                assert(so_far + rest.bytes =~= earlier + (got + rest.bytes));
            }
        }
        proof {
            assert(so_far + Seq::<u8>::empty() =~= so_far);
        }
        Ok(total_read_size)
    }

    /// How many of `remaining` bytes at `pos` lie in the block of `pos`.
    fn chunk_len(&self, pos: u64, remaining: usize) -> (n: usize)
        requires
            self.wf(),
        ensures
            n == self@.header.chunk_len(pos as nat, remaining as nat),
            remaining > 0 ==> n > 0,
    {
        proof {
            self.lemma_image_parses();
        }
        let block_size = self.header.block_size as u64;
        let room = (block_size - pos % block_size) as usize;
        if remaining <= room {
            remaining
        } else {
            room
        }
    }

    /// Why the `remaining` bytes at `pos` cannot all be read, if they
    /// cannot. The entry of each block is read from the image before it
    /// is looked at.
    fn first_hole(&mut self, pos: u64, remaining: usize) -> (hole: Option<BlockFileError>)
        requires
            old(self).wf(),
            pos + remaining <= u64::MAX,
        ensures
            final(self).wf(),
            final(self)@ == old(self)@,
            final(self).image() == old(self).image(),
            final(self).is_writable() == old(self).is_writable(),
            hole == old(self)@.header.first_hole(pos as nat, remaining as nat),
    {
        proof {
            self.lemma_image_parses();
        }
        let mut at: u64 = pos;
        let mut left: usize = remaining;
        while left > 0
            invariant
                self.wf(),
                self@ == old(self)@,
                self.file@ == old(self).file@,
                self.writable == old(self).writable,
                self@.header.block_size > 0,
                at + left <= u64::MAX,
                old(self)@.header.first_hole(pos as nat, remaining as nat) == self@.header.first_hole(
                    at as nat,
                    left as nat,
                ),
            decreases left,
        {
            match self.locate(at) {
                Ok(_) => {},
                Err(e) => return Some(e),
            }
            let n = self.chunk_len(at, left);
            at += n as u64;
            left -= n;
        }
        None
    }

    /// Where in the image the byte at logical position `pos` lies,
    /// after reading the entry of its block from the image. A block
    /// without an entry or without a slot has no such place.
    fn locate(&mut self, pos: u64) -> (r: Result<u64, BlockFileError>)
        requires
            old(self).wf(),
        ensures
            final(self).wf(),
            final(self)@ == old(self)@,
            final(self).image() == old(self).image(),
            final(self).is_writable() == old(self).is_writable(),
            old(self)@.header.hole_error(pos as nat) is Some ==> r is Err && Some(r->Err_0)
                == old(self)@.header.hole_error(pos as nat),
            old(self)@.header.hole_error(pos as nat) is None ==> r == Ok::<u64, BlockFileError>(
                (old(self)@.header.header_size() + old(self)@.header.slot_pos(
                    old(self)@.header.entries[old(self)@.header.block_of(pos as nat)],
                    pos as nat,
                )) as u64,
            ) && 0 <= old(self)@.header.slot_pos(
                old(self)@.header.entries[old(self)@.header.block_of(pos as nat)],
                pos as nat,
            ) <= usize::MAX - old(self)@.header.header_size(),
    {
        let ghost view = self@;
        let ghost list = self.header.block_info_list@;
        let ghost i = pos as int / self.header.block_size as int;
        let header_size = self.header.get_header_size();
        let block_size = self.header.block_size as u64;
        let block_cursor = pos % block_size;
        proof {
            self.lemma_image_parses();
            if 0 <= i < list.len() {
                assert(header_of(self.file@).entries[i] == list[i]@);
            }
        }
        let block_info = match self.header.get_mut_block_info(pos) {
            Ok(block_info) => block_info,
            Err(e) => {
                proof {
                    assert(self.header.block_info_list@ =~= list);
                }
                return Err(e);
            },
        };
        match block_info.reload(&self.file) {
            Ok(_) => {},
            Err(e) => {
                return Err(e);
            },
        }
        let ghost entry = block_info@;
        proof {
            assert(*block_info == list[i]);
            if entry.used {
                lemma_next_free_bounds(view.header.entries, i);
                lemma_slot_bound(
                    header_size as int,
                    entry.block_index as int,
                    view.header.next_block_index() as int,
                    block_size as int,
                );
            }
        }
        let at = BlockFile::seek_position(header_size, block_size, block_info, block_cursor);
        proof {
            assert(self.header.block_info_list@ =~= list);
        }
        at
    }

    /// Reads into `buf[from..to]` what the block of `pos` holds from
    /// `pos` on, after reading the entry of the block from the image.
    fn read_block(&mut self, buf: &mut [u8], from: usize, to: usize, pos: u64) -> (r: Result<
        usize,
        BlockFileError,
    >)
        requires
            old(self).wf(),
            from < to <= old(buf)@.len(),
            to - from == old(self)@.header.chunk_len(pos as nat, (to - from) as nat),
        ensures
            final(self).wf(),
            final(self)@ == old(self)@,
            final(self).image() == old(self).image(),
            final(self).is_writable() == old(self).is_writable(),
            old(self)@.header.hole_error(pos as nat) is Some ==> r is Err && Some(r->Err_0)
                == old(self)@.header.hole_error(pos as nat) && final(buf)@ == old(buf)@,
            old(self)@.header.hole_error(pos as nat) is None ==> r == Ok::<usize, BlockFileError>(
                old(self)@.block_bytes(pos as nat, (to - from) as nat).len() as usize,
            ) && final(buf)@ == splice(
                old(buf)@,
                from as int,
                old(self)@.block_bytes(pos as nat, (to - from) as nat),
            ),
    {
        let ghost view = self@;
        let at = match self.locate(pos) {
            Ok(at) => at,
            Err(e) => return Err(e),
        };
        proof {
            self.lemma_image_parses();
        }
        let n = self.file.read(at, buf, from, to);
        proof {
            lemma_fetch_skip(
                self.file@,
                view.header.header_size() as int,
                view.header.slot_pos(
                    view.header.entries[view.header.block_of(pos as nat)],
                    pos as nat,
                ),
                to - from,
            );
        }
        Ok(n)
    }

    /// Writes `buf` at logical position `offset` and returns how many
    /// bytes it wrote. A block gets the next free physical slot when it
    /// is first written to; after each block the usage counter of its
    /// entry grows by the bytes written, and the entry is stored. It
    /// fails where the range leaves the table, where no slot can be
    /// handed out, and on a file opened for reading; blocks written
    /// before the failure stay written. A write that fails at its
    /// first block leaves every byte of the file as it was.
    pub fn write(&mut self, buf: &[u8], offset: u64) -> (r: Result<usize, BlockFileError>)
        requires
            old(self).wf(),
        ensures
            final(self).wf(),
            final(self).is_writable() == old(self).is_writable(),
            buf@.len() > 0 && !old(self).is_writable() ==> r == Err::<usize, BlockFileError>(
                BlockFileError::ReadOnly,
            ) && final(self)@ == old(self)@ && final(self).image() == old(self).image(),
            buf@.len() == 0 || old(self).is_writable() ==> final(self)@ == old(self)@.write(
                offset as nat,
                buf@,
            ).file && r == match old(self)@.write(offset as nat, buf@).error {
                None => Ok::<usize, BlockFileError>(
                    old(self)@.write(offset as nat, buf@).written as usize,
                ),
                Some(e) => Err::<usize, BlockFileError>(e),
            },
            old(self)@.write(offset as nat, buf@).written == 0 ==> final(self).image() == old(self).image(),
    {
        proof {
            self.lemma_image_parses();
        }
        if buf.len() == 0 {
            return Ok(0);
        }
        if !self.writable {
            return Err(BlockFileError::ReadOnly);
        }
        let ghost start = self@;
        let ghost outcome = start.write(offset as nat, buf@);
        let mut total_wrote_size: usize = 0;
        assert(buf@.skip(0) =~= buf@);
        while total_wrote_size < buf.len()
            invariant
                self.wf(),
                self.writable,
                old(self).writable,
                self@.header.block_size > 0,
                old(self)@.header.block_size > 0,
                outcome == old(self)@.write(offset as nat, buf@),
                total_wrote_size == 0 ==> self.file@ == old(self).file@,
                total_wrote_size <= buf@.len(),
                offset + total_wrote_size <= u64::MAX,
                outcome.file == self@.write(
                    (offset + total_wrote_size) as nat,
                    buf@.skip(total_wrote_size as int),
                ).file,
                outcome.written == total_wrote_size + self@.write(
                    (offset + total_wrote_size) as nat,
                    buf@.skip(total_wrote_size as int),
                ).written,
                outcome.error == self@.write(
                    (offset + total_wrote_size) as nat,
                    buf@.skip(total_wrote_size as int),
                ).error,
            decreases buf@.len() - total_wrote_size,
        {
            let ghost current = self@;
            let ghost remaining = buf@.skip(total_wrote_size as int);
            let pos = offset + total_wrote_size as u64;
            let want = self.chunk_len(pos, buf.len() - total_wrote_size);
            let wrote_size = match self.write_block(
                buf,
                total_wrote_size,
                total_wrote_size + want,
                pos,
            ) {
                Ok(n) => n,
                Err(e) => {
                    proof {
                        assert(remaining.len() > 0);
                        assert(current.write(pos as nat, remaining).error == Some(e));
                        assert(current.write(pos as nat, remaining).file == current);
                    }
                    return Err(e);
                },
            };
            proof {
                assert(current.write(pos as nat, remaining).error == current.write_chunk(
                    pos as nat,
                    remaining.take(wrote_size as int),
                ).write((pos + wrote_size) as nat, remaining.skip(wrote_size as int)).error);
                assert(buf@.subrange(total_wrote_size as int, total_wrote_size + wrote_size)
                    =~= remaining.take(wrote_size as int));
                assert(buf@.skip(total_wrote_size + wrote_size) =~= remaining.skip(
                    wrote_size as int,
                ));
                self.lemma_image_parses();
            }
            total_wrote_size += wrote_size;
        }
        Ok(total_wrote_size)
    }

    /// Writes `buf[from..to]`, which stays inside the block of `pos`,
    /// to that block, which gets a slot if it has none, and stores the
    /// entry of the block.
    fn write_block(&mut self, buf: &[u8], from: usize, to: usize, pos: u64) -> (r: Result<
        usize,
        BlockFileError,
    >)
        requires
            old(self).wf(),
            from < to <= buf@.len(),
            to - from == old(self)@.header.chunk_len(pos as nat, (to - from) as nat),
        ensures
            final(self).wf(),
            final(self).is_writable() == old(self).is_writable(),
            old(self)@.header.allocation_error(pos as nat) is Some ==> r is Err && Some(r->Err_0)
                == old(self)@.header.allocation_error(pos as nat) && final(self)@ == old(self)@
                && final(self).image() == old(self).image(),
            old(self)@.header.allocation_error(pos as nat) is None ==> r == Ok::<
                usize,
                BlockFileError,
            >((to - from) as usize) && final(self)@ == old(self)@.write_chunk(
                pos as nat,
                buf@.subrange(from as int, to as int),
            ) && pos + (to - from) <= u64::MAX,
    {
        let ghost current = self@;
        let ghost image = self.file@;
        let ghost list = self.header.block_info_list@;
        let ghost i = pos as int / self.header.block_size as int;
        let header_size = self.header.get_header_size();
        let block_size = self.header.block_size as u64;
        let block_cursor = pos % block_size;
        proof {
            self.lemma_image_parses();
        }
        let block_info = match self.header.get_mut_or_allocate_block(pos) {
            Ok(block_info) => block_info,
            Err(e) => {
                proof {
                    assert(self.header.block_info_list@ =~= list);
                }
                return Err(e);
            },
        };
        let ghost touched = block_info@;
        proof {
            if current.header.entries[i].used {
                lemma_next_free_bounds(current.header.entries, i);
                lemma_slot_bound(
                    header_size as int,
                    touched.block_index as int,
                    current.header.next_block_index() as int,
                    block_size as int,
                );
            } else {
                lemma_slot_bound(
                    header_size as int,
                    touched.block_index as int,
                    (current.header.next_block_index() + 1) as int,
                    block_size as int,
                );
            }
        }
        let at = match BlockFile::seek_position(header_size, block_size, block_info, block_cursor) {
            Ok(at) => at,
            Err(e) => {
                return Err(e);
            },
        };
        let ghost want = to - from;
        let ghost chunk = buf@.subrange(from as int, to as int);
        let wrote_size = match self.file.write(at, buf, from, to) {
            Ok(n) => n,
            Err(e) => {
                return Err(e);
            },
        };
        let usage = block_info.usage as u64 + wrote_size as u64;
        block_info.usage = if usage <= u32::MAX as u64 {
            usage as u32
        } else {
            u32::MAX
        };
        let ghost info = *block_info;
        match block_info.write(&mut self.file) {
            Ok(_) => {},
            Err(e) => {
                return Err(e);
            },
        }
        proof {
            let entries = current.header.entries;
            let slot = current.header.slot_pos(touched, pos as nat);
            assert(at == header_size + slot);
            assert(slot >= 0) by (nonlinear_arith)
                requires
                    slot == touched.block_index * block_size + block_cursor,
            ;
            lemma_store_block(image, i, slot, chunk, info@);
            assert(info@ == BlockEntry { usage: usage_after(touched.usage, chunk.len()), ..touched });
            assert(self.header.block_info_list@ == list.update(i, info));
            assert(self.header@.entries =~= entries.update(i, info@));
            assert(self@ == current.write_chunk(pos as nat, chunk));
            // The next slot lies just above the slots in use.
            if entries[i].used {
                lemma_next_free_usage(entries, i, info.usage);
                assert(entries.update(i, touched) =~= entries);
            } else {
                lemma_next_free_allocate(entries, i, info.usage);
                lemma_next_free_allocate(entries, i, 0);
            }
            assert(self.header.next_block_index == next_free(self.header@.entries));
            assert(self.header@.wf());
            assert forall|j: int| 0 <= j < self.header.block_info_list@.len() implies (
            #[trigger] self.header.block_info_list@[j]).block_info_index == j by {
                if j != i {
                    assert(self.header.block_info_list@[j] == list[j]);
                }
            }
            lemma_chunk_end(
                pos as int,
                want as int,
                block_size as int,
                entries.len() as int,
            );
            assert(entries.len() * block_size <= u32::MAX * u32::MAX) by (nonlinear_arith)
                requires
                    entries.len() <= u32::MAX,
                    block_size <= u32::MAX,
            ;
        }
        Ok(wrote_size)
    }

    /// The smallest range of whole blocks that holds the `size` bytes
    /// at `offset`: its first byte, and the byte after its last. An
    /// empty range gives the block of `offset`.
    pub fn calc_block_range_from(&self, offset: u64, size: u64) -> (range: (u64, u64))
        requires
            self.wf(),
            offset + size <= u64::MAX,
            self@.header.block_range(offset as nat, size as nat).1 <= u64::MAX,
        ensures
            range.0 == self@.header.block_range(offset as nat, size as nat).0,
            range.1 == self@.header.block_range(offset as nat, size as nat).1,
    {
        let (begin, end) = self.find_block_info_range(offset, size);
        let block_size = self.header.block_size as u64;
        proof {
            assert(begin * block_size <= end * block_size) by (nonlinear_arith)
                requires
                    begin <= end,
                    block_size >= 0,
            ;
        }
        (begin * block_size, end * block_size + block_size)
    }

    /// The range that `calc_block_range_from` gives, where its ends can
    /// be written as 64-bit numbers.
    pub fn checked_block_range_from(&self, offset: u64, size: u64) -> (range: Option<(u64, u64)>)
        requires
            self.wf(),
        ensures
            range is Some <==> offset + size <= u64::MAX && self@.header.block_range(
                offset as nat,
                size as nat,
            ).1 <= u64::MAX,
            range is Some ==> (range->Some_0).0 == self@.header.block_range(
                offset as nat,
                size as nat,
            ).0 && (range->Some_0).1 == self@.header.block_range(offset as nat, size as nat).1,
    {
        if size > u64::MAX - offset {
            return None;
        }
        let (begin, end) = self.find_block_info_range(offset, size);
        let block_size = self.header.block_size as u64;
        proof {
            lemma_block_split(if size == 0 {
                offset as int
            } else {
                offset + size - 1
            }, block_size as int);
            assert(begin * block_size <= end * block_size) by (nonlinear_arith)
                requires
                    begin <= end,
                    block_size >= 0,
            ;
        }
        if end * block_size > u64::MAX - block_size {
            return None;
        }
        Some((begin * block_size, end * block_size + block_size))
    }

    /// The first and the last logical block that the `size` bytes at
    /// `offset` touch.
    fn find_block_info_range(&self, offset: u64, size: u64) -> (span: (u64, u64))
        requires
            self.wf(),
            offset + size <= u64::MAX,
        ensures
            span.0 == self@.header.block_span(offset as nat, size as nat).0,
            span.1 == self@.header.block_span(offset as nat, size as nat).1,
            span.0 <= span.1,
    {
        let end = if size == 0 {
            offset
        } else {
            offset + size - 1
        };
        let block_size = self.header.block_size as u64;
        let begin_block_info_index = offset / block_size;
        let end_block_info_index = end / block_size;
        proof {
            assert(offset as int / block_size as int <= end as int / block_size as int)
                by (nonlinear_arith)
                requires
                    offset <= end,
                    block_size > 0,
            ;
        }
        (begin_block_info_index, end_block_info_index)
    }

    /// Where in the image the byte at `block_cursor` of the block of
    /// `block_info` lies. A block without a slot has no such place.
    fn seek_position(
        header_size: u64,
        block_size: u64,
        block_info: &BlockInfo,
        block_cursor: u64,
    ) -> (r: Result<u64, BlockFileError>)
        requires
            block_cursor < block_size,
            block_info@.used ==> header_size + (block_info@.block_index + 1) * block_size
                <= usize::MAX,
        ensures
            block_info@.used ==> r == Ok::<u64, BlockFileError>(
                (header_size + block_info@.block_index * block_size + block_cursor) as u64,
            ),
            !block_info@.used ==> r == Err::<u64, BlockFileError>(
                BlockFileError::BlockNotAllocated,
            ),
    {
        if !block_info.used {
            return Err(BlockFileError::BlockNotAllocated);
        }
        proof {
            assert((block_info.block_index + 1) * block_size == block_info.block_index * block_size
                + block_size) by (nonlinear_arith);
            assert(0 <= block_info.block_index * block_size) by (nonlinear_arith);
        }
        let block_pos = block_info.block_index as u64 * block_size;
        Ok(header_size + block_pos + block_cursor)
    }
}

/// A slot below `next` ends at or before the end of slot `next - 1`.
proof fn lemma_slot_bound(header_size: int, slot: int, next: int, block_size: int)
    requires
        0 <= slot < next,
        block_size > 0,
    ensures
        header_size + (slot + 1) * block_size <= header_size + next * block_size,
        (slot + 1) * block_size == slot * block_size + block_size,
        0 <= slot * block_size,
{
    assert((slot + 1) * block_size <= next * block_size) by (nonlinear_arith)
        requires
            slot + 1 <= next,
            block_size > 0,
    ;
    assert((slot + 1) * block_size == slot * block_size + block_size) by (nonlinear_arith);
    assert(0 <= slot * block_size) by (nonlinear_arith)
        requires
            0 <= slot,
            block_size > 0,
    ;
}

} // verus!
