//! The block-file format: where each field lies and what a run of bytes
//! means when it is read as a block file.
//!
//! ```text
//! offset  size  field
//!  0      4     signature "FDrs"
//!  4      8     logical size
//! 12      4     block size
//! 16      4     number of table entries, N
//! 20      9*N   table: used flag (1), physical slot (4), usage (4)
//! 20+9*N  ...   data region, one slot of block size per allocated block
//! ```
//!
//! All integers are big-endian.

use vstd::prelude::*;
use crate::blockfile::codec::{
    lemma_u32_be_round_trip,
    u32_from_be,
    u32_to_be,
    u64_from_be,
    u64_to_be,
};
use crate::blockfile::error::BlockFileError;
use crate::blockfile::image::store;

verus! {

/// The four bytes every block file begins with.
pub open spec fn signature() -> Seq<u8> {
    seq![0x46u8, 0x44u8, 0x72u8, 0x73u8]
}

/// One entry of the block table: whether the logical block has a
/// physical slot, which one, and how many bytes were ever written to it.
pub struct BlockEntry {
    pub used: bool,
    pub block_index: u32,
    pub usage: u32,
}

/// What the header of a block file says.
pub struct HeaderView {
    pub file_size: u64,
    pub block_size: u32,
    pub entries: Seq<BlockEntry>,
}

/// A block file as a value: its header and the bytes of its data region.
pub struct BlockFileView {
    pub header: HeaderView,
    pub data: Seq<u8>,
}

/// The entry that nobody has written to yet.
pub open spec fn empty_entry() -> BlockEntry {
    BlockEntry { used: false, block_index: 0, usage: 0 }
}

/// The number of blocks needed to cover `file_size` bytes.
pub open spec fn block_count_for(file_size: u64, block_size: u32) -> nat
    recommends
        block_size > 0,
{
    ((file_size + block_size - 1) / (block_size as int)) as nat
}

/// One more than the largest physical slot among the used entries,
/// zero if no entry is used.
pub open spec fn next_free(entries: Seq<BlockEntry>) -> nat
    decreases entries.len(),
{
    if entries.len() == 0 {
        0
    } else {
        let rest = next_free(entries.drop_last());
        let e = entries.last();
        if e.used && e.block_index >= rest {
            (e.block_index + 1) as nat
        } else {
            rest
        }
    }
}

/// The nine bytes that hold an entry in the table.
pub open spec fn entry_bytes(e: BlockEntry) -> Seq<u8> {
    seq![if e.used { 1u8 } else { 0u8 }] + u32_to_be(e.block_index) + u32_to_be(e.usage)
}

/// The bytes of a table: the nine bytes of each entry, one entry
/// behind the other.
pub open spec fn table_bytes(entries: Seq<BlockEntry>) -> Seq<u8> {
    Seq::new(9 * entries.len(), |k: int| entry_bytes(entries[k / 9])[k % 9])
}

/// The bytes of a header: the signature, the logical size in eight
/// bytes, the block size and the number of entries in four bytes each,
/// all big-endian, and the table.
pub open spec fn header_bytes(header: HeaderView) -> Seq<u8> {
    signature() + u64_to_be(header.file_size) + u32_to_be(header.block_size) + u32_to_be(
        header.entries.len() as u32,
    ) + table_bytes(header.entries)
}

/// The table of a fresh file consists of zeros.
pub proof fn lemma_fresh_table_is_zero(file_size: u64, block_size: u32)
    ensures
        table_bytes(created(file_size, block_size).header.entries).len() == 9 * block_count_for(
            file_size,
            block_size,
        ),
        forall|k: int|
            0 <= k < 9 * block_count_for(file_size, block_size) ==> #[trigger] table_bytes(
                created(file_size, block_size).header.entries,
            )[k] == 0u8,
{
    let entries = created(file_size, block_size).header.entries;
    assert forall|k: int| 0 <= k < 9 * block_count_for(file_size, block_size) implies #[trigger] table_bytes(
        entries,
    )[k] == 0u8 by {
        assert(entries[k / 9] == empty_entry());
        assert(u32_to_be(0) =~= seq![0u8, 0u8, 0u8, 0u8]);
        assert(entry_bytes(empty_entry()) =~= seq![0u8, 0u8, 0u8, 0u8, 0u8, 0u8, 0u8, 0u8, 0u8]);
    }
}

/// The position of table entry `i`.
pub open spec fn entry_pos(i: int) -> int {
    20 + 9 * i
}

/// Table entry `i` as `image` holds it.
pub open spec fn entry_at(image: Seq<u8>, i: int) -> BlockEntry {
    let p = entry_pos(i);
    BlockEntry {
        used: image[p] == 1u8,
        block_index: u32_from_be(image.subrange(p + 1, p + 5)),
        usage: u32_from_be(image.subrange(p + 5, p + 9)),
    }
}

/// The number of table entries that `image` declares.
pub open spec fn declared_count(image: Seq<u8>) -> nat {
    u32_from_be(image.subrange(16, 20)) as nat
}

/// The header that `image` holds, for an image long enough to hold it.
pub open spec fn header_of(image: Seq<u8>) -> HeaderView {
    HeaderView {
        file_size: u64_from_be(image.subrange(4, 12)),
        block_size: u32_from_be(image.subrange(12, 16)),
        entries: Seq::new(declared_count(image), |i: int| entry_at(image, i)),
    }
}

/// Whether `image` begins with the signature.
pub open spec fn has_signature(image: Seq<u8>) -> bool {
    image.len() >= 4 && image.subrange(0, 4) == signature()
}

/// Whether `image` is long enough for the header it declares.
pub open spec fn holds_header(image: Seq<u8>) -> bool {
    image.len() >= 20 && image.len() >= 20 + 9 * declared_count(image)
}

impl HeaderView {
    /// The number of logical blocks, N.
    pub open spec fn block_count(self) -> nat {
        self.entries.len()
    }

    /// The size of the header, the table included: where the data
    /// region begins.
    pub open spec fn header_size(self) -> nat {
        20 + 9 * self.entries.len()
    }

    /// The physical slot that the next first write to a block gets.
    pub open spec fn next_block_index(self) -> nat {
        next_free(self.entries)
    }

    /// Whether a slot can be handed out: its number fits the field of
    /// an entry, and the slot can be addressed.
    pub open spec fn can_allocate(self) -> bool {
        &&& self.next_block_index() <= u32::MAX
        &&& self.header_size() + (self.next_block_index() + 1) * self.block_size <= usize::MAX
    }

    /// The entry of block `i` once a write has touched it: as it is if
    /// the block is in use, else with the next free slot and no usage.
    pub open spec fn touched(self, i: int) -> BlockEntry {
        if self.entries[i].used {
            self.entries[i]
        } else {
            BlockEntry { used: true, block_index: self.next_block_index() as u32, usage: 0 }
        }
    }

    /// Why the block that holds position `pos` cannot be written to,
    /// if it cannot: the table has no entry for it, or it has no slot
    /// and none can be handed out.
    pub open spec fn allocation_error(self, pos: nat) -> Option<BlockFileError> {
        let i = pos as int / self.block_size as int;
        if i >= self.entries.len() {
            Some(BlockFileError::InvalidPosition)
        } else if !self.entries[i].used && !self.can_allocate() {
            Some(BlockFileError::FileTooLarge)
        } else {
            None
        }
    }

    /// A header that the engine can work with: the block size is not
    /// zero, the count fits its field, and every slot handed out so far
    /// can be addressed.
    pub open spec fn wf(self) -> bool {
        &&& self.block_size > 0
        &&& self.entries.len() <= u32::MAX
        &&& self.header_size() + self.next_block_index() * self.block_size <= usize::MAX
    }
}

impl BlockFileView {
    /// A block file that the engine can work with.
    pub open spec fn wf(self) -> bool {
        &&& self.header.wf()
        &&& self.header.header_size() + self.data.len() <= usize::MAX
    }
}

/// The block file that `create` makes: every block without a slot,
/// and no data.
pub open spec fn created(file_size: u64, block_size: u32) -> BlockFileView {
    BlockFileView {
        header: HeaderView {
            file_size,
            block_size,
            entries: Seq::new(block_count_for(file_size, block_size), |i: int| empty_entry()),
        },
        data: Seq::empty(),
    }
}

/// What `image` means as a block file, or why it is none.
pub open spec fn parse(image: Seq<u8>) -> Result<BlockFileView, BlockFileError> {
    if !has_signature(image) {
        Err(BlockFileError::InvalidFormat)
    } else if !holds_header(image) {
        Err(BlockFileError::UnexpectedEof)
    } else {
        let header = header_of(image);
        if header.block_size == 0 {
            Err(BlockFileError::InvalidFormat)
        } else if header.header_size() + header.next_block_index() * header.block_size > usize::MAX {
            Err(BlockFileError::FileTooLarge)
        } else {
            Ok(BlockFileView { header, data: image.skip(header.header_size() as int) })
        }
    }
}

/// Every used entry has a slot below `next_free`.
pub proof fn lemma_next_free_bounds(entries: Seq<BlockEntry>, i: int)
    requires
        0 <= i < entries.len(),
        entries[i].used,
    ensures
        entries[i].block_index < next_free(entries),
    decreases entries.len(),
{
    if i < entries.len() - 1 {
        lemma_next_free_bounds(entries.drop_last(), i);
    }
}

/// `next_free` is zero, or some used entry has the slot just below it.
pub proof fn lemma_next_free_witness(entries: Seq<BlockEntry>) -> (i: int)
    requires
        next_free(entries) > 0,
    ensures
        0 <= i < entries.len(),
        entries[i].used,
        entries[i].block_index + 1 == next_free(entries),
    decreases entries.len(),
{
    let e = entries.last();
    if e.used && e.block_index >= next_free(entries.drop_last()) {
        entries.len() - 1
    } else {
        lemma_next_free_witness(entries.drop_last())
    }
}

/// `next_free` never exceeds 2^32.
pub proof fn lemma_next_free_limit(entries: Seq<BlockEntry>)
    ensures
        next_free(entries) <= u32::MAX + 1,
    decreases entries.len(),
{
    if entries.len() > 0 {
        lemma_next_free_limit(entries.drop_last());
    }
}

/// Among entries of which none is used, no slot is taken.
pub proof fn lemma_next_free_unused(entries: Seq<BlockEntry>)
    requires
        forall|i: int| 0 <= i < entries.len() ==> !entries[i].used,
    ensures
        next_free(entries) == 0,
    decreases entries.len(),
{
    if entries.len() > 0 {
        lemma_next_free_unused(entries.drop_last());
    }
}

/// Giving the free slot to an unused entry moves `next_free` up by one.
pub proof fn lemma_next_free_allocate(entries: Seq<BlockEntry>, i: int, usage: u32)
    requires
        0 <= i < entries.len(),
        !entries[i].used,
        next_free(entries) <= u32::MAX,
    ensures
        next_free(
            entries.update(
                i,
                BlockEntry { used: true, block_index: next_free(entries) as u32, usage },
            ),
        ) == next_free(entries) + 1,
    decreases entries.len(),
{
    let next = next_free(entries);
    let e = BlockEntry { used: true, block_index: next as u32, usage };
    let updated = entries.update(i, e);
    if i == entries.len() - 1 {
        assert(updated.drop_last() =~= entries.drop_last());
    } else {
        let rest = entries.drop_last();
        assert(updated.drop_last() =~= rest.update(i, e));
        let last = entries.last();
        if last.used && last.block_index >= next_free(rest) {
            // The last entry decides `next`; the entry at `i` gets a slot above
            // everything in `rest`.
            lemma_next_free_raise(rest, i, e);
        } else {
            lemma_next_free_allocate(rest, i, usage);
        }
    }
}

/// An entry that takes a slot at or above `next_free` decides it.
pub proof fn lemma_next_free_raise(entries: Seq<BlockEntry>, i: int, e: BlockEntry)
    requires
        0 <= i < entries.len(),
        !entries[i].used,
        e.used,
        e.block_index >= next_free(entries),
    ensures
        next_free(entries.update(i, e)) == e.block_index + 1,
    decreases entries.len(),
{
    let updated = entries.update(i, e);
    if i == entries.len() - 1 {
        assert(updated.drop_last() =~= entries.drop_last());
    } else {
        let rest = entries.drop_last();
        assert(updated.drop_last() =~= rest.update(i, e));
        lemma_next_free_raise(rest, i, e);
    }
}

/// Changing only the usage counter of an entry leaves `next_free` as it is.
pub proof fn lemma_next_free_usage(entries: Seq<BlockEntry>, i: int, usage: u32)
    requires
        0 <= i < entries.len(),
    ensures
        next_free(entries.update(i, BlockEntry { usage, ..entries[i] })) == next_free(entries),
    decreases entries.len(),
{
    let e = BlockEntry { usage, ..entries[i] };
    let updated = entries.update(i, e);
    if i == entries.len() - 1 {
        assert(updated.drop_last() =~= entries.drop_last());
    } else {
        assert(updated.drop_last() =~= entries.drop_last().update(i, e));
        lemma_next_free_usage(entries.drop_last(), i, usage);
    }
}

/// An entry is the same in two images that agree on its nine bytes.
pub proof fn lemma_entry_frame(a: Seq<u8>, b: Seq<u8>, i: int)
    requires
        0 <= i,
        entry_pos(i) + 9 <= a.len(),
        entry_pos(i) + 9 <= b.len(),
        forall|k: int| entry_pos(i) <= k < entry_pos(i) + 9 ==> a[k] == b[k],
    ensures
        entry_at(a, i) == entry_at(b, i),
{
    let p = entry_pos(i);
    assert(a.subrange(p + 1, p + 5) =~= b.subrange(p + 1, p + 5));
    assert(a.subrange(p + 5, p + 9) =~= b.subrange(p + 5, p + 9));
}

/// An entry is read back as it was stored.
pub proof fn lemma_entry_round_trip(image: Seq<u8>, i: int, e: BlockEntry)
    requires
        0 <= i,
    ensures
        entry_at(store(image, entry_pos(i), entry_bytes(e)), i) == e,
{
    let p = entry_pos(i);
    let after = store(image, p, entry_bytes(e));
    lemma_u32_be_round_trip(e.block_index);
    lemma_u32_be_round_trip(e.usage);
    assert(after.subrange(p + 1, p + 5) =~= u32_to_be(e.block_index));
    assert(after.subrange(p + 5, p + 9) =~= u32_to_be(e.usage));
}

/// Storing an entry changes no other entry, no header field and no
/// byte of the data region.
pub proof fn lemma_store_entry(image: Seq<u8>, i: int, e: BlockEntry)
    requires
        holds_header(image),
        0 <= i < declared_count(image),
    ensures
        ({
            let after = store(image, entry_pos(i), entry_bytes(e));
            let h = header_of(image);
            &&& after.len() == image.len()
            &&& has_signature(image) ==> has_signature(after)
            &&& holds_header(after)
            &&& header_of(after) == HeaderView { entries: h.entries.update(i, e), ..h }
            &&& after.skip(h.header_size() as int) == image.skip(h.header_size() as int)
        }),
{
    let p = entry_pos(i);
    let after = store(image, p, entry_bytes(e));
    let h = header_of(image);
    assert(after.subrange(0, 4) =~= image.subrange(0, 4));
    assert(after.subrange(4, 12) =~= image.subrange(4, 12));
    assert(after.subrange(12, 16) =~= image.subrange(12, 16));
    assert(after.subrange(16, 20) =~= image.subrange(16, 20));
    lemma_entry_round_trip(image, i, e);
    assert forall|j: int| 0 <= j < declared_count(image) && j != i implies entry_at(after, j)
        == entry_at(image, j) by {
        let q = entry_pos(j);
        assert(after.subrange(q + 1, q + 5) =~= image.subrange(q + 1, q + 5));
        assert(after.subrange(q + 5, q + 9) =~= image.subrange(q + 5, q + 9));
    }
    assert(header_of(after).entries =~= h.entries.update(i, e));
    assert(after.skip(h.header_size() as int) =~= image.skip(h.header_size() as int));
}

/// Storing bytes in the data region leaves the header as it is and
/// changes the data region as the same store does on it alone.
pub proof fn lemma_store_data(image: Seq<u8>, start: int, chunk: Seq<u8>)
    requires
        holds_header(image),
        start >= 0,
    ensures
        ({
            let size = header_of(image).header_size() as int;
            let after = store(image, size + start, chunk);
            &&& has_signature(image) ==> has_signature(after)
            &&& holds_header(after)
            &&& header_of(after) == header_of(image)
            &&& after.skip(size) == store(image.skip(size), start, chunk)
        }),
{
    let size = header_of(image).header_size() as int;
    let after = store(image, size + start, chunk);
    assert(after.subrange(0, 4) =~= image.subrange(0, 4));
    assert(after.subrange(4, 12) =~= image.subrange(4, 12));
    assert(after.subrange(12, 16) =~= image.subrange(12, 16));
    assert(after.subrange(16, 20) =~= image.subrange(16, 20));
    assert forall|j: int| 0 <= j < declared_count(image) implies entry_at(after, j) == entry_at(
        image,
        j,
    ) by {
        let q = entry_pos(j);
        assert(after.subrange(q + 1, q + 5) =~= image.subrange(q + 1, q + 5));
        assert(after.subrange(q + 5, q + 9) =~= image.subrange(q + 5, q + 9));
    }
    assert(header_of(after).entries =~= header_of(image).entries);
    assert(after.skip(size) =~= store(image.skip(size), start, chunk));
}

/// Storing bytes in the data region and then the entry of their block
/// gives the image of the file with that entry and those bytes.
pub proof fn lemma_store_block(image: Seq<u8>, i: int, start: int, chunk: Seq<u8>, e: BlockEntry)
    requires
        has_signature(image),
        holds_header(image),
        0 <= i < declared_count(image),
        start >= 0,
    ensures
        ({
            let h = header_of(image);
            let size = h.header_size() as int;
            let after = store(store(image, size + start, chunk), entry_pos(i), entry_bytes(e));
            &&& has_signature(after)
            &&& holds_header(after)
            &&& header_of(after) == HeaderView { entries: h.entries.update(i, e), ..h }
            &&& after.skip(size) == store(image.skip(size), start, chunk)
        }),
{
    let size = header_of(image).header_size() as int;
    lemma_store_data(image, start, chunk);
    lemma_store_entry(store(image, size + start, chunk), i, e);
}

} // verus!
