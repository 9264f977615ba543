//! What a block file holds: the bytes that were written are the bytes
//! that are read, and no read delivers a byte of a block that was
//! never written.

use vstd::prelude::*;
use crate::blockfile::error::BlockFileError;
use crate::blockfile::layout::{
    block_count_for,
    created,
    lemma_next_free_bounds,
    BlockEntry,
    BlockFileView,
    HeaderView,
};
use crate::blockfile::model::{usage_after, ReadOutcome};
use crate::blockfile::packing::{
    lemma_created_intact,
    lemma_packed_can_allocate,
    lemma_touch_keeps_packed,
};

verus! {

/// A position is its block times the block size plus its cursor.
pub proof fn lemma_block_split(pos: int, size: int)
    requires
        0 <= pos,
        0 < size,
    ensures
        pos == (pos / size) * size + pos % size,
        0 <= pos % size < size,
        0 <= pos / size,
{
    assert(pos == (pos / size) * size + pos % size && 0 <= pos % size < size && 0 <= pos / size)
        by (nonlinear_arith)
        requires
            0 <= pos,
            0 < size,
    ;
}

/// Moving on inside a block changes the cursor and not the block.
pub proof fn lemma_same_block(pos: int, k: int, size: int)
    requires
        0 <= pos,
        0 < size,
        0 <= k,
        pos % size + k < size,
    ensures
        (pos + k) / size == pos / size,
        (pos + k) % size == pos % size + k,
{
    lemma_block_split(pos, size);
    let q = pos / size;
    let r = pos % size + k;
    assert((q * size + r) / size == q && (q * size + r) % size == r) by (nonlinear_arith)
        requires
            0 <= r < size,
            0 <= q,
    ;
}

/// A position below `count` blocks lies in a block below `count`.
pub proof fn lemma_block_below(pos: int, size: int, count: int)
    requires
        0 <= pos,
        0 < size,
        pos < count * size,
    ensures
        pos / size < count,
{
    assert(pos / size < count) by (nonlinear_arith)
        requires
            0 <= pos,
            0 < size,
            pos < count * size,
    ;
}

/// Places in different slots differ.
pub proof fn lemma_slots_apart(p: int, c: int, q: int, d: int, size: int)
    requires
        p != q,
        0 <= c < size,
        0 <= d < size,
    ensures
        p * size + c != q * size + d,
{
    assert(p * size + c != q * size + d) by (nonlinear_arith)
        requires
            p != q,
            0 <= c < size,
            0 <= d < size,
    ;
}

impl BlockFileView {
    /// What a block write does to the file, byte by byte: the bytes of
    /// the chunk are in the file, at their logical positions; every
    /// other byte that the file held is still there; the file stays
    /// intact.
    pub proof fn lemma_chunk_effect(self, pos: nat, chunk: Seq<u8>)
        requires
            self.intact(),
            chunk.len() > 0,
            self.header.cursor_of(pos) + chunk.len() <= self.header.block_size,
            pos + chunk.len() <= self.header.entries.len() * self.header.block_size,
        ensures
            self.header.allocation_error(pos) is None,
            self.write_chunk(pos, chunk).intact(),
            self.write_chunk(pos, chunk).header.file_size == self.header.file_size,
            self.write_chunk(pos, chunk).header.block_size == self.header.block_size,
            self.write_chunk(pos, chunk).header.entries.len() == self.header.entries.len(),
            forall|j: nat|
                pos <= j < pos + chunk.len() ==> #[trigger] self.write_chunk(pos, chunk).byte_at(j)
                    == Some(chunk[j - pos]),
            forall|j: nat|
                !(pos <= j < pos + chunk.len()) && self.byte_at(j) is Some ==> #[trigger] self.write_chunk(
                    pos,
                    chunk,
                ).byte_at(j) == self.byte_at(j),
    {
        let h = self.header;
        let size = h.block_size as int;
        let count = h.entries.len() as int;
        let i = h.block_of(pos);
        let c = h.cursor_of(pos);
        let after = self.write_chunk(pos, chunk);
        lemma_block_split(pos as int, size);
        lemma_block_below(pos as int, size, count);
        if !h.entries[i].used {
            lemma_packed_can_allocate(h, i);
        }
        let e = h.touched(i);
        let slot = e.block_index as int;
        let start = h.slot_pos(e, pos);
        lemma_touch_keeps_packed(h, i, chunk.len());
        // The slot of the block ends inside the data region that can be addressed.
        let next_after = after.header.next_block_index() as int;
        assert(after.header.entries[i].used && after.header.entries[i].block_index == slot);
        lemma_next_free_bounds(after.header.entries, i);
        assert((slot + 1) * size <= next_after * size) by (nonlinear_arith)
            requires
                slot + 1 <= next_after,
                size > 0,
        ;
        assert((slot + 1) * size == slot * size + size) by (nonlinear_arith);
        assert(0 <= slot * size) by (nonlinear_arith)
            requires
                0 <= slot,
                0 < size,
        ;
        lemma_used_at_most(after.header);
        assert(next_after * size <= count * size) by (nonlinear_arith)
            requires
                next_after <= count,
                size > 0,
        ;
        assert(after.wf());
        assert forall|j: nat| pos <= j < pos + chunk.len() implies #[trigger] after.byte_at(j)
            == Some(chunk[j - pos]) by {
            lemma_same_block(pos as int, j - pos, size);
        }
        assert forall|j: nat|
            !(pos <= j < pos + chunk.len()) && self.byte_at(j) is Some implies #[trigger] after.byte_at(
            j,
        ) == self.byte_at(j) by {
            let b = h.block_of(j);
            let d = h.cursor_of(j);
            lemma_block_split(j as int, size);
            let q = h.entries[b].block_index as int;
            if b == i {
                // Same block, and so the same slot: the cursors differ.
                assert(after.header.entries[b].block_index == q);
                assert(q * size + d < start || q * size + d >= start + chunk.len());
            } else {
                assert(after.header.entries[b] == h.entries[b]);
                if h.entries[i].used {
                    assert(q != slot);
                } else {
                    lemma_next_free_bounds(h.entries, b);
                }
                lemma_slots_apart(q, d, slot, c, size);
                assert(q * size + d < start || q * size + d >= start + chunk.len())
                    by (nonlinear_arith)
                    requires
                        q != slot,
                        0 <= d < size,
                        0 <= c,
                        c + chunk.len() <= size,
                        start == slot * size + c,
                ;
            }
        }
    }
}

impl BlockFileView {
    /// A write that stays inside the table succeeds on an intact file,
    /// and does this to it, byte by byte: the bytes written are in the
    /// file, at their logical positions; every other byte that the file
    /// held is still there; the file stays intact.
    pub proof fn lemma_write_effect(self, offset: nat, buf: Seq<u8>)
        requires
            self.intact(),
            offset + buf.len() <= self.header.entries.len() * self.header.block_size,
        ensures
            self.write(offset, buf).error is None,
            self.write(offset, buf).written == buf.len(),
            self.write(offset, buf).file.intact(),
            self.write(offset, buf).file.header.file_size == self.header.file_size,
            self.write(offset, buf).file.header.block_size == self.header.block_size,
            self.write(offset, buf).file.header.entries.len() == self.header.entries.len(),
            forall|j: nat|
                offset <= j < offset + buf.len() ==> #[trigger] self.write(offset, buf).file.byte_at(
                    j,
                ) == Some(buf[j - offset]),
            forall|j: nat|
                !(offset <= j < offset + buf.len()) && self.byte_at(j) is Some
                    ==> #[trigger] self.write(offset, buf).file.byte_at(j) == self.byte_at(j),
        decreases buf.len(),
    {
        if buf.len() > 0 {
            let size = self.header.block_size as int;
            lemma_block_split(offset as int, size);
            let n = self.header.chunk_len(offset, buf.len());
            let chunk = buf.take(n as int);
            let rest = buf.skip(n as int);
            let first = self.write_chunk(offset, chunk);
            self.lemma_chunk_effect(offset, chunk);
            first.lemma_write_effect(offset + n, rest);
            let out = self.write(offset, buf);
            assert(out.file == first.write(offset + n, rest).file);
            assert forall|j: nat| offset <= j < offset + buf.len() implies #[trigger] out.file.byte_at(
                j,
            ) == Some(buf[j - offset]) by {
                if j < offset + n {
                    assert(first.byte_at(j) == Some(chunk[j - offset]));
                } else {
                    assert(rest[j - (offset + n)] == buf[j - offset]);
                }
            }
            assert forall|j: nat|
                !(offset <= j < offset + buf.len()) && self.byte_at(j) is Some implies
                #[trigger] out.file.byte_at(j) == self.byte_at(j) by {
                assert(first.byte_at(j) == self.byte_at(j));
            }
        }
    }

    /// A block write on a sound file leaves a sound file of the same
    /// sizes, in which the block is marked as written, no block has
    /// lost its mark, and no usage counter has gone down.
    pub proof fn lemma_chunk_marks(self, pos: nat, chunk: Seq<u8>)
        requires
            self.wf(),
            self.header.allocation_error(pos) is None,
            chunk.len() > 0,
            self.header.cursor_of(pos) + chunk.len() <= self.header.block_size,
        ensures
            self.write_chunk(pos, chunk).wf(),
            self.write_chunk(pos, chunk).header.file_size == self.header.file_size,
            self.write_chunk(pos, chunk).header.block_size == self.header.block_size,
            self.write_chunk(pos, chunk).header.entries.len() == self.header.entries.len(),
            self.write_chunk(pos, chunk).header.entries[self.header.block_of(pos)].used,
            forall|i: int|
                0 <= i < self.header.entries.len() && self.header.entries[i].used ==> (
                #[trigger] self.write_chunk(pos, chunk).header.entries[i]).used && self.write_chunk(
                    pos,
                    chunk,
                ).header.entries[i].usage >= self.header.entries[i].usage,
            pos + chunk.len() <= self.header.entries.len() * self.header.block_size,
    {
        let h = self.header;
        let size = h.block_size as int;
        let i = h.block_of(pos);
        let e = h.touched(i);
        let entry = BlockEntry { usage: usage_after(e.usage, chunk.len()), ..e };
        let after = self.write_chunk(pos, chunk);
        let slot = e.block_index as int;
        let next = h.next_block_index() as int;
        lemma_block_split(pos as int, size);
        if h.entries[i].used {
            lemma_next_free_bounds(h.entries, i);
            crate::blockfile::layout::lemma_next_free_usage(h.entries, i, entry.usage);
            assert((slot + 1) * size <= next * size) by (nonlinear_arith)
                requires
                    slot + 1 <= next,
                    size > 0,
            ;
        } else {
            crate::blockfile::layout::lemma_next_free_allocate(h.entries, i, entry.usage);
        }
        assert((slot + 1) * size == slot * size + size) by (nonlinear_arith);
        assert(0 <= slot * size) by (nonlinear_arith)
            requires
                0 <= slot,
                0 < size,
        ;
        lemma_chunk_end(pos as int, chunk.len() as int, size, h.entries.len() as int);
    }

    /// A write on a sound file leaves a sound file of the same sizes.
    /// Every block that it wrote to is marked as written, no block has
    /// lost its mark, and no usage counter has gone down.
    pub proof fn lemma_write_marks(self, offset: nat, buf: Seq<u8>)
        requires
            self.wf(),
        ensures
            self.write(offset, buf).file.wf(),
            self.write(offset, buf).written <= buf.len(),
            self.write(offset, buf).error is None ==> self.write(offset, buf).written == buf.len(),
            self.write(offset, buf).file.header.file_size == self.header.file_size,
            self.write(offset, buf).file.header.block_size == self.header.block_size,
            self.write(offset, buf).file.header.entries.len() == self.header.entries.len(),
            forall|i: int|
                0 <= i < self.header.entries.len() && self.header.entries[i].used ==> (
                #[trigger] self.write(offset, buf).file.header.entries[i]).used && self.write(
                    offset,
                    buf,
                ).file.header.entries[i].usage >= self.header.entries[i].usage,
            forall|j: nat|
                offset <= j < offset + self.write(offset, buf).written ==> 0
                    <= #[trigger] self.header.block_of(j) < self.header.entries.len() && self.write(
                    offset,
                    buf,
                ).file.header.entries[self.header.block_of(j)].used,
        decreases buf.len(),
    {
        if buf.len() > 0 && self.header.allocation_error(offset) is None {
            let size = self.header.block_size as int;
            lemma_block_split(offset as int, size);
            let n = self.header.chunk_len(offset, buf.len());
            let chunk = buf.take(n as int);
            let rest = buf.skip(n as int);
            let first = self.write_chunk(offset, chunk);
            self.lemma_chunk_marks(offset, chunk);
            first.lemma_write_marks(offset + n, rest);
            let out = self.write(offset, buf);
            let tail = first.write(offset + n, rest);
            assert(out.file == tail.file);
            assert forall|j: nat| offset <= j < offset + out.written implies 0
                <= #[trigger] self.header.block_of(j) < self.header.entries.len()
                && out.file.header.entries[self.header.block_of(j)].used by {
                if j < offset + n {
                    lemma_same_block(offset as int, j - offset, size);
                    assert(first.header.entries[self.header.block_of(offset)].used);
                } else {
                    assert(first.header.block_of(j) == self.header.block_of(j));
                }
            }
        }
    }

    /// Slots follow the order of first writes. A write leaves every
    /// slot that was handed out where it is; the blocks that it writes
    /// to for the first time get the slots from the next free one on,
    /// a block with a smaller number before a block with a larger one;
    /// and it leaves the entries of the blocks before its first block
    /// as they are.
    pub proof fn lemma_write_slots(self, offset: nat, buf: Seq<u8>)
        requires
            self.wf(),
        ensures
            self.write(offset, buf).file.header.next_block_index()
                >= self.header.next_block_index(),
            forall|i: int|
                0 <= i < self.header.entries.len() && self.header.entries[i].used ==> (
                #[trigger] self.write(offset, buf).file.header.entries[i]).block_index
                    == self.header.entries[i].block_index,
            forall|i: int|
                0 <= i < self.header.entries.len() && !self.header.entries[i].used && (
                #[trigger] self.write(offset, buf).file.header.entries[i]).used
                    ==> self.header.next_block_index() <= self.write(
                    offset,
                    buf,
                ).file.header.entries[i].block_index < self.write(
                    offset,
                    buf,
                ).file.header.next_block_index(),
            forall|i: int, j: int|
                0 <= i < j < self.header.entries.len() && !self.header.entries[i].used
                    && !self.header.entries[j].used && (#[trigger] self.write(
                    offset,
                    buf,
                ).file.header.entries[i]).used && (#[trigger] self.write(
                    offset,
                    buf,
                ).file.header.entries[j]).used ==> self.write(
                    offset,
                    buf,
                ).file.header.entries[i].block_index < self.write(
                    offset,
                    buf,
                ).file.header.entries[j].block_index,
            forall|i: int|
                0 <= i < self.header.entries.len() && i < self.header.block_of(offset) ==> (
                #[trigger] self.write(offset, buf).file.header.entries[i]) == self.header.entries[i],
        decreases buf.len(),
    {
        if buf.len() > 0 && self.header.allocation_error(offset) is None {
            let h = self.header;
            let size = h.block_size as int;
            let b = h.block_of(offset);
            lemma_block_split(offset as int, size);
            let n = h.chunk_len(offset, buf.len());
            let chunk = buf.take(n as int);
            let rest = buf.skip(n as int);
            let first = self.write_chunk(offset, chunk);
            let e = h.touched(b);
            let entry = BlockEntry { usage: usage_after(e.usage, chunk.len()), ..e };
            self.lemma_chunk_marks(offset, chunk);
            if h.entries[b].used {
                crate::blockfile::layout::lemma_next_free_usage(h.entries, b, entry.usage);
            } else {
                crate::blockfile::layout::lemma_next_free_allocate(h.entries, b, entry.usage);
            }
            first.lemma_write_slots(offset + n, rest);
            first.lemma_write_marks(offset + n, rest);
            let out = self.write(offset, buf);
            let tail = first.write(offset + n, rest);
            assert(out.file == tail.file);
            assert(first.header.block_of(offset + n) >= b) by (nonlinear_arith)
                requires
                    first.header.block_of(offset + n) == (offset + n) as int / size,
                    b == offset as int / size,
                    size > 0,
                    n >= 0,
            ;
            assert forall|i: int|
                0 <= i < h.entries.len() && !h.entries[i].used && (
                #[trigger] out.file.header.entries[i]).used implies h.next_block_index()
                <= out.file.header.entries[i].block_index < out.file.header.next_block_index() by {
                if i == b {
                    assert(first.header.entries[i].used);
                    lemma_next_free_bounds(out.file.header.entries, i);
                } else {
                    assert(first.header.entries[i] == h.entries[i]);
                }
            }
            assert forall|i: int, j: int|
                0 <= i < j < h.entries.len() && !h.entries[i].used && !h.entries[j].used && (
                #[trigger] out.file.header.entries[i]).used && (
                #[trigger] out.file.header.entries[j]).used implies out.file.header.entries[i].block_index
                < out.file.header.entries[j].block_index by {
                if i == b {
                    assert(first.header.entries[i].used);
                    assert(first.header.entries[j] == h.entries[j]);
                } else {
                    assert(first.header.entries[i] == h.entries[i]);
                    if j == b {
                        assert(i < first.header.block_of(offset + n));
                        assert(out.file.header.entries[i] == first.header.entries[i]);
                    } else {
                        assert(first.header.entries[j] == h.entries[j]);
                    }
                }
            }
            assert forall|i: int|
                0 <= i < h.entries.len() && h.entries[i].used implies (
                #[trigger] out.file.header.entries[i]).block_index == h.entries[i].block_index by {
                assert(first.header.entries[i].used);
                assert(first.header.entries[i].block_index == h.entries[i].block_index);
            }
            assert forall|i: int| 0 <= i < h.entries.len() && i < b implies (
            #[trigger] out.file.header.entries[i]) == h.entries[i] by {
                assert(first.header.entries[i] == h.entries[i]);
            }
        }
    }

    /// Over a sequence of writes no slot that was handed out moves, and
    /// the blocks written to for the first time get slots above the
    /// ones in use before: a block that was first written earlier has
    /// the smaller slot.
    pub proof fn lemma_writes_slots(self, writes: Seq<(nat, Seq<u8>)>)
        requires
            self.wf(),
        ensures
            self.write_all(writes).wf(),
            self.write_all(writes).header.entries.len() == self.header.entries.len(),
            self.write_all(writes).header.next_block_index() >= self.header.next_block_index(),
            forall|i: int|
                0 <= i < self.header.entries.len() && self.header.entries[i].used ==> (
                #[trigger] self.write_all(writes).header.entries[i]).used && self.write_all(
                    writes,
                ).header.entries[i].block_index == self.header.entries[i].block_index,
            forall|i: int|
                0 <= i < self.header.entries.len() && !self.header.entries[i].used && (
                #[trigger] self.write_all(writes).header.entries[i]).used
                    ==> self.header.next_block_index() <= self.write_all(
                    writes,
                ).header.entries[i].block_index,
        decreases writes.len(),
    {
        if writes.len() > 0 {
            let before = self.write_all(writes.drop_last());
            self.lemma_writes_slots(writes.drop_last());
            before.lemma_write_marks(writes.last().0, writes.last().1);
            before.lemma_write_slots(writes.last().0, writes.last().1);
            let after = self.write_all(writes);
            assert forall|i: int|
                0 <= i < self.header.entries.len() && !self.header.entries[i].used && (
                #[trigger] after.header.entries[i]).used implies self.header.next_block_index()
                <= after.header.entries[i].block_index by {
                if before.header.entries[i].used {
                    assert(after.header.entries[i].block_index
                        == before.header.entries[i].block_index);
                }
            }
            assert forall|i: int|
                0 <= i < self.header.entries.len() && self.header.entries[i].used implies (
                #[trigger] after.header.entries[i]).used && after.header.entries[i].block_index
                == self.header.entries[i].block_index by {
                assert(before.header.entries[i].used);
            }
        }
    }

    /// A range that lies in blocks marked as written is ready.
    pub proof fn lemma_marked_range_is_ready(self, lo: nat, hi: nat, offset: nat, size: nat)
        requires
            self.wf(),
            forall|j: nat|
                lo <= j < hi ==> 0 <= #[trigger] self.header.block_of(j) < self.header.entries.len()
                    && self.header.entries[self.header.block_of(j)].used,
            lo <= offset <= self.header.file_size,
            self.clipped(offset, size) >= 1,
            offset + self.clipped(offset, size) <= hi,
        ensures
            self.is_data_ready(offset, size) == Ok::<bool, BlockFileError>(true),
    {
        let last = (offset + self.clipped(offset, size) - 1) as nat;
        self.lemma_marked_span(lo, hi, offset);
        assert(self.all_used(self.header.block_of(offset), self.header.block_of(last)));
    }

    /// The blocks of a range of positions that all lie in blocks
    /// marked as written are all marked as written.
    pub proof fn lemma_marked_span(self, lo: nat, hi: nat, offset: nat)
        requires
            self.wf(),
            forall|j: nat|
                lo <= j < hi ==> 0 <= #[trigger] self.header.block_of(j) < self.header.entries.len()
                    && self.header.entries[self.header.block_of(j)].used,
            lo <= offset,
        ensures
            forall|last: nat|
                offset <= last < hi ==> self.header.block_of(last) < self.header.entries.len()
                    && #[trigger] self.all_used(self.header.block_of(offset), self.header.block_of(last)),
    {
        let size = self.header.block_size as int;
        assert forall|last: nat| offset <= last < hi implies self.header.block_of(last)
            < self.header.entries.len() && #[trigger] self.all_used(
            self.header.block_of(offset),
            self.header.block_of(last),
        ) by {
            let first_block = self.header.block_of(offset);
            let last_block = self.header.block_of(last);
            assert(self.header.block_of(last) < self.header.entries.len());
            assert forall|i: int| first_block <= i <= last_block implies (
            #[trigger] self.header.entries[i]).used by {
                // Block `i` begins in the range, or holds its first byte.
                let j = if i == first_block {
                    offset
                } else {
                    (i * size) as nat
                };
                lemma_block_split(offset as int, size);
                lemma_block_split(last as int, size);
                if i != first_block {
                    assert(offset < i * size <= last) by (nonlinear_arith)
                        requires
                            first_block < i <= last_block,
                            offset == first_block * size + offset as int % size,
                            last == last_block * size + last as int % size,
                            0 <= offset as int % size < size,
                            0 <= last as int % size < size,
                    ;
                    assert((i * size) / size == i) by (nonlinear_arith)
                        requires
                            size > 0,
                    ;
                }
                assert(self.header.block_of(j) == i);
            }
        }
    }

    /// A range that touches a block which was never written is not
    /// ready.
    pub proof fn lemma_unwritten_is_not_ready(self, begin: nat, size: nat, block: int)
        requires
            self.clipped(begin, size) >= 1,
            self.header.block_span(begin, self.clipped(begin, size)).1 < self.header.entries.len(),
            self.header.block_span(begin, self.clipped(begin, size)).0 <= block
                <= self.header.block_span(begin, self.clipped(begin, size)).1,
            !self.header.entries[block].used,
        ensures
            self.is_data_ready(begin, size) == Ok::<bool, BlockFileError>(false),
    {
    }

    /// The bytes of a range that was written in full lie in blocks that
    /// are ready.
    pub proof fn lemma_written_range_is_ready(self, offset: nat, buf: Seq<u8>)
        requires
            self.wf(),
            buf.len() > 0,
            offset + buf.len() <= self.header.file_size,
            self.write(offset, buf).error is None,
        ensures
            self.write(offset, buf).file.is_data_ready(offset, buf.len()) == Ok::<
                bool,
                BlockFileError,
            >(true),
    {
        let out = self.write(offset, buf);
        self.lemma_write_marks(offset, buf);
        assert forall|j: nat| offset <= j < offset + buf.len() implies 0
            <= #[trigger] out.file.header.block_of(j) < out.file.header.entries.len()
            && out.file.header.entries[out.file.header.block_of(j)].used by {
            assert(out.file.header.block_of(j) == self.header.block_of(j));
        }
        out.file.lemma_marked_range_is_ready(offset, offset + buf.len(), offset, buf.len());
    }

    /// A run of chunks on a sound file leaves a sound file of the same
    /// sizes. Every block that it wrote to is marked as written, no
    /// block has lost its mark, and no usage counter has gone down.
    pub proof fn lemma_stream_marks(self, begin: nat, chunks: Seq<Seq<u8>>)
        requires
            self.wf(),
        ensures
            self.stream(begin, chunks).file.wf(),
            self.stream(begin, chunks).file.header.file_size == self.header.file_size,
            self.stream(begin, chunks).file.header.block_size == self.header.block_size,
            self.stream(begin, chunks).file.header.entries.len() == self.header.entries.len(),
            forall|i: int|
                0 <= i < self.header.entries.len() && self.header.entries[i].used ==> (
                #[trigger] self.stream(begin, chunks).file.header.entries[i]).used && self.stream(
                    begin,
                    chunks,
                ).file.header.entries[i].usage >= self.header.entries[i].usage,
            forall|j: nat|
                begin <= j < begin + self.stream(begin, chunks).written ==> 0
                    <= #[trigger] self.header.block_of(j) < self.header.entries.len() && self.stream(
                    begin,
                    chunks,
                ).file.header.entries[self.header.block_of(j)].used,
        decreases chunks.len(),
    {
        if chunks.len() > 0 {
            let earlier = self.stream(begin, chunks.drop_last());
            self.lemma_stream_marks(begin, chunks.drop_last());
            if earlier.error is None {
                earlier.file.lemma_write_marks(begin + earlier.written, chunks.last());
                let out = self.stream(begin, chunks);
                assert forall|j: nat| begin <= j < begin + out.written implies 0
                    <= #[trigger] self.header.block_of(j) < self.header.entries.len()
                    && out.file.header.entries[self.header.block_of(j)].used by {
                    if j < begin + earlier.written {
                        assert(earlier.file.header.entries[self.header.block_of(j)].used);
                    } else {
                        assert(earlier.file.header.block_of(j) == self.header.block_of(j));
                    }
                }
            }
        }
    }

    /// Single flight, one call after the other: once the body of a
    /// range response was written, every read inside the range finds
    /// its bytes ready, and nothing is fetched for it again.
    pub proof fn lemma_streamed_range_is_ready(
        self,
        begin: nat,
        chunks: Seq<Seq<u8>>,
        offset: nat,
        size: nat,
    )
        requires
            self.wf(),
            begin <= offset <= self.header.file_size,
            self.clipped(offset, size) >= 1,
            offset + self.clipped(offset, size) <= begin + self.stream(begin, chunks).written,
        ensures
            self.stream(begin, chunks).file.is_data_ready(offset, size) == Ok::<
                bool,
                BlockFileError,
            >(true),
    {
        let out = self.stream(begin, chunks);
        self.lemma_stream_marks(begin, chunks);
        assert forall|j: nat| begin <= j < begin + out.written implies 0
            <= #[trigger] out.file.header.block_of(j) < out.file.header.entries.len()
            && out.file.header.entries[out.file.header.block_of(j)].used by {
            assert(out.file.header.block_of(j) == self.header.block_of(j));
        }
        out.file.lemma_marked_range_is_ready(begin, begin + out.written, offset, size);
    }

    /// Once the block range of a read was fetched, as far as the file
    /// goes, the read finds its bytes ready, and so does every other
    /// read inside the range.
    pub proof fn lemma_fetched_block_range_is_ready(
        self,
        chunks: Seq<Seq<u8>>,
        offset: nat,
        size: nat,
        other_offset: nat,
        other_size: nat,
    )
        requires
            self.wf(),
            offset <= self.header.file_size,
            self.header.block_range(offset, size).0 + self.stream(
                self.header.block_range(offset, size).0 as nat,
                chunks,
            ).written >= self.header.block_range(offset, size).1 || self.header.block_range(
                offset,
                size,
            ).0 + self.stream(self.header.block_range(offset, size).0 as nat, chunks).written
                >= self.header.file_size,
            self.header.block_range(offset, size).0 <= other_offset <= self.header.file_size,
            other_offset + other_size <= self.header.block_range(offset, size).1,
            self.clipped(other_offset, other_size) >= 1,
        ensures
            self.clipped(offset, size) >= 1 ==> self.stream(
                self.header.block_range(offset, size).0 as nat,
                chunks,
            ).file.is_data_ready(offset, size) == Ok::<bool, BlockFileError>(true),
            self.stream(self.header.block_range(offset, size).0 as nat, chunks).file.is_data_ready(
                other_offset,
                other_size,
            ) == Ok::<bool, BlockFileError>(true),
    {
        let begin = self.header.block_range(offset, size).0 as nat;
        self.header.lemma_block_range(offset, size);
        self.lemma_stream_marks(begin, chunks);
        if self.clipped(offset, size) >= 1 {
            self.lemma_streamed_range_is_ready(begin, chunks, offset, size);
        }
        self.lemma_streamed_range_is_ready(begin, chunks, other_offset, other_size);
    }

    /// The file after a sequence of writes on an intact file is intact:
    /// its slots are packed.
    pub proof fn lemma_writes_keep_intact(self, writes: Seq<(nat, Seq<u8>)>)
        requires
            self.intact(),
        ensures
            self.write_all(writes).intact(),
            self.write_all(writes).header.file_size == self.header.file_size,
            self.write_all(writes).header.block_size == self.header.block_size,
            self.write_all(writes).header.entries.len() == self.header.entries.len(),
        decreases writes.len(),
    {
        if writes.len() > 0 {
            self.lemma_writes_keep_intact(writes.drop_last());
            self.write_all(writes.drop_last()).lemma_write_intact(
                writes.last().0,
                writes.last().1,
            );
        }
    }

    /// A write leaves an intact file intact, whether it succeeds or not.
    pub proof fn lemma_write_intact(self, offset: nat, buf: Seq<u8>)
        requires
            self.intact(),
        ensures
            self.write(offset, buf).file.intact(),
            self.write(offset, buf).file.header.file_size == self.header.file_size,
            self.write(offset, buf).file.header.block_size == self.header.block_size,
            self.write(offset, buf).file.header.entries.len() == self.header.entries.len(),
        decreases buf.len(),
    {
        if buf.len() > 0 && self.header.allocation_error(offset) is None {
            let size = self.header.block_size as int;
            lemma_block_split(offset as int, size);
            let n = self.header.chunk_len(offset, buf.len());
            let chunk = buf.take(n as int);
            lemma_chunk_end(offset as int, n as int, size, self.header.entries.len() as int);
            self.lemma_chunk_effect(offset, chunk);
            self.write_chunk(offset, chunk).lemma_write_intact(offset + n, buf.skip(n as int));
        }
    }
}

/// The byte that the writes of `writes` wrote last at position `pos`,
/// if one of them wrote there.
pub open spec fn latest(writes: Seq<(nat, Seq<u8>)>, pos: nat) -> Option<u8>
    decreases writes.len(),
{
    if writes.len() == 0 {
        None
    } else if writes.last().0 <= pos < writes.last().0 + writes.last().1.len() {
        Some(writes.last().1[pos - writes.last().0])
    } else {
        latest(writes.drop_last(), pos)
    }
}

impl BlockFileView {
    /// After a sequence of writes that stay inside the table, which
    /// may overlap, an intact file holds at every position the byte
    /// that was written there last, and where none was written the
    /// byte that it held before.
    pub proof fn lemma_latest_bytes_are_held(self, writes: Seq<(nat, Seq<u8>)>)
        requires
            self.intact(),
            forall|k: int|
                0 <= k < writes.len() ==> (#[trigger] writes[k]).0 + writes[k].1.len()
                    <= self.header.entries.len() * self.header.block_size,
        ensures
            self.write_all(writes).intact(),
            self.write_all(writes).header.file_size == self.header.file_size,
            forall|pos: nat|
                latest(writes, pos) is Some ==> #[trigger] self.write_all(writes).byte_at(pos)
                    == latest(writes, pos),
            forall|pos: nat|
                latest(writes, pos) is None && self.byte_at(pos) is Some
                    ==> #[trigger] self.write_all(writes).byte_at(pos) == self.byte_at(pos),
        decreases writes.len(),
    {
        self.lemma_writes_keep_intact(writes);
        if writes.len() > 0 {
            let earlier = writes.drop_last();
            assert forall|k: int| 0 <= k < earlier.len() implies (#[trigger] earlier[k]).0
                + earlier[k].1.len() <= self.header.entries.len() * self.header.block_size by {
                assert(earlier[k] == writes[k]);
            }
            self.lemma_latest_bytes_are_held(earlier);
            self.lemma_writes_keep_intact(earlier);
            let before = self.write_all(earlier);
            let (offset, data) = writes.last();
            assert(writes[writes.len() - 1] == (offset, data));
            before.lemma_write_effect(offset, data);
            let after = self.write_all(writes);
            assert forall|pos: nat| latest(writes, pos) is Some implies #[trigger] after.byte_at(
                pos,
            ) == latest(writes, pos) by {
                if !(offset <= pos < offset + data.len()) {
                    assert(before.byte_at(pos) == latest(earlier, pos));
                }
            }
            assert forall|pos: nat|
                latest(writes, pos) is None && self.byte_at(pos) is Some implies
                #[trigger] after.byte_at(pos) == self.byte_at(pos) by {
                assert(before.byte_at(pos) == self.byte_at(pos));
            }
        }
    }

    /// Persistence: after a sequence of writes that stay inside the
    /// table, a read of a range that lies inside what was written and
    /// below the logical size delivers, byte for byte, what was written
    /// there last. Closing and opening the file changes nothing of it,
    /// since the file opened is the file closed.
    pub proof fn lemma_read_delivers_latest(
        self,
        writes: Seq<(nat, Seq<u8>)>,
        offset: nat,
        want: nat,
    )
        requires
            self.intact(),
            forall|k: int|
                0 <= k < writes.len() ==> (#[trigger] writes[k]).0 + writes[k].1.len()
                    <= self.header.entries.len() * self.header.block_size,
            offset + want <= self.header.file_size,
            forall|pos: nat| offset <= pos < offset + want ==> (#[trigger] latest(writes, pos)) is Some,
        ensures
            self.write_all(writes).read(offset, want) == (ReadOutcome {
                bytes: Seq::new(want, |k: int| latest(writes, (offset + k) as nat)->Some_0),
                error: None,
            }),
    {
        let after = self.write_all(writes);
        self.lemma_latest_bytes_are_held(writes);
        assert forall|pos: nat| offset <= pos < offset + want implies (#[trigger] after.byte_at(
            pos,
        )) is Some by {
            assert(latest(writes, pos) is Some);
        }
        after.lemma_read_chunks_held(offset, want);
        let held = Seq::new(want, |k: int| after.byte_at((offset + k) as nat)->Some_0);
        let written = Seq::new(want, |k: int| latest(writes, (offset + k) as nat)->Some_0);
        assert forall|k: int| 0 <= k < want implies #[trigger] held[k] == written[k] by {
            assert(latest(writes, (offset + k) as nat) is Some);
            assert(after.byte_at((offset + k) as nat) == latest(writes, (offset + k) as nat));
        }
        assert(held =~= written);
    }
}

/// The writes that carry the pieces of `s` named by `ranges`, each a
/// first position and the position after the last.
pub open spec fn pieces(s: Seq<u8>, ranges: Seq<(int, int)>) -> Seq<(nat, Seq<u8>)> {
    Seq::new(ranges.len(), |r: int| (ranges[r].0 as nat, s.subrange(ranges[r].0, ranges[r].1)))
}

/// Whether position `j` lies in one of `ranges`.
pub open spec fn covered(ranges: Seq<(int, int)>, j: int) -> bool {
    exists|r: int| 0 <= r < ranges.len() && (#[trigger] ranges[r]).0 <= j < ranges[r].1
}

impl BlockFileView {
    /// After the pieces of `s` were written, in the order given, the
    /// file holds `s` wherever a piece lies.
    pub proof fn lemma_pieces_written(self, s: Seq<u8>, ranges: Seq<(int, int)>)
        requires
            self.intact(),
            s.len() <= self.header.file_size,
            forall|r: int|
                0 <= r < ranges.len() ==> 0 <= (#[trigger] ranges[r]).0 <= ranges[r].1 <= s.len(),
        ensures
            self.write_all(pieces(s, ranges)).intact(),
            self.write_all(pieces(s, ranges)).header.file_size == self.header.file_size,
            forall|r: int, j: nat|
                0 <= r < ranges.len() && (#[trigger] ranges[r]).0 <= j < ranges[r].1
                    ==> #[trigger] self.write_all(pieces(s, ranges)).byte_at(j) == Some(s[j as int]),
        decreases ranges.len(),
    {
        let writes = pieces(s, ranges);
        self.lemma_writes_keep_intact(writes);
        if ranges.len() > 0 {
            let earlier = ranges.drop_last();
            assert(writes.drop_last() =~= pieces(s, earlier));
            self.lemma_pieces_written(s, earlier);
            let before = self.write_all(pieces(s, earlier));
            let (a, b) = ranges.last();
            let piece = s.subrange(a, b);
            assert(writes.last() == (a as nat, piece));
            before.lemma_write_effect(a as nat, piece);
            let after = self.write_all(writes);
            assert forall|r: int, j: nat|
                0 <= r < ranges.len() && (#[trigger] ranges[r]).0 <= j < ranges[r].1 implies
                #[trigger] after.byte_at(j) == Some(s[j as int]) by {
                if a <= j < b {
                    assert(piece[j - a] == s[j as int]);
                } else {
                    assert(r < earlier.len());
                    assert(earlier[r] == ranges[r]);
                    assert(before.byte_at(j) == Some(s[j as int]));
                }
            }
        }
    }

    /// Reading a range of which the file holds every byte delivers
    /// these bytes.
    pub proof fn lemma_read_chunks_held(self, pos: nat, remaining: nat)
        requires
            self.wf(),
            forall|j: nat| pos <= j < pos + remaining ==> (#[trigger] self.byte_at(j)) is Some,
        ensures
            self.read_chunks(pos, remaining) == (ReadOutcome {
                bytes: Seq::new(remaining, |k: int| self.byte_at((pos + k) as nat)->Some_0),
                error: None,
            }),
        decreases remaining,
    {
        let expected = Seq::new(remaining, |k: int| self.byte_at((pos + k) as nat)->Some_0);
        if remaining == 0 {
            assert(expected =~= Seq::<u8>::empty());
        } else {
            let h = self.header;
            let size = h.block_size as int;
            lemma_block_split(pos as int, size);
            let n = h.chunk_len(pos, remaining);
            let e = h.entries[h.block_of(pos)];
            let start = h.slot_pos(e, pos);
            assert(self.byte_at(pos) is Some);
            let last = (pos + n - 1) as nat;
            assert(self.byte_at(last) is Some);
            lemma_same_block(pos as int, n - 1, size);
            let got = self.block_bytes(pos, remaining);
            assert(got.len() == n);
            self.lemma_read_chunks_held(pos + n, (remaining - n) as nat);
            let rest = self.read_chunks(pos + n, (remaining - n) as nat);
            assert forall|k: int| 0 <= k < remaining implies (got + rest.bytes)[k] == expected[k] by {
                if k < n {
                    lemma_same_block(pos as int, k, size);
                    assert(self.byte_at((pos + k) as nat) is Some);
                }
            }
            assert(got + rest.bytes =~= expected);
        }
    }

    /// Round trip: after the pieces of `s` were written to an intact
    /// file, in any order, reading from the start delivers `s`. The
    /// pieces may lie anywhere in `s` as long as they cover it.
    pub proof fn lemma_round_trip(self, s: Seq<u8>, ranges: Seq<(int, int)>)
        requires
            self.intact(),
            s.len() <= self.header.file_size,
            forall|r: int|
                0 <= r < ranges.len() ==> 0 <= (#[trigger] ranges[r]).0 <= ranges[r].1 <= s.len(),
            forall|j: int| 0 <= j < s.len() ==> #[trigger] covered(ranges, j),
        ensures
            self.write_all(pieces(s, ranges)).read(0, s.len()) == (ReadOutcome {
                bytes: s,
                error: None,
            }),
    {
        let after = self.write_all(pieces(s, ranges));
        self.lemma_pieces_written(s, ranges);
        assert forall|j: nat| 0 <= j < s.len() implies #[trigger] after.byte_at(j) == Some(
            s[j as int],
        ) by {
            assert(covered(ranges, j as int));
            let r = choose|r: int|
                0 <= r < ranges.len() && (#[trigger] ranges[r]).0 <= j < ranges[r].1;
            assert(ranges[r].0 <= j < ranges[r].1);
        }
        after.lemma_read_chunks_held(0, s.len());
        assert(Seq::new(s.len(), |k: int| after.byte_at((0 + k) as nat)->Some_0) =~= s);
    }

    /// Round trip on a fresh file: after the pieces of `s` were written
    /// to a file just made, in any order, reading from the start
    /// delivers `s`. The file is one whose table fits the header and
    /// whose data region can be addressed in full.
    pub proof fn lemma_fresh_round_trip(
        file_size: u64,
        block_size: u32,
        s: Seq<u8>,
        ranges: Seq<(int, int)>,
    )
        requires
            block_size > 0,
            block_count_for(file_size, block_size) <= u32::MAX,
            20 + 9 * block_count_for(file_size, block_size) + block_count_for(
                file_size,
                block_size,
            ) * block_size <= usize::MAX,
            s.len() <= file_size,
            forall|r: int|
                0 <= r < ranges.len() ==> 0 <= (#[trigger] ranges[r]).0 <= ranges[r].1 <= s.len(),
            forall|j: int| 0 <= j < s.len() ==> #[trigger] covered(ranges, j),
        ensures
            created(file_size, block_size).write_all(pieces(s, ranges)).read(0, s.len())
                == (ReadOutcome { bytes: s, error: None }),
    {
        lemma_created_intact(file_size, block_size);
        created(file_size, block_size).lemma_round_trip(s, ranges);
    }

    /// No stale bytes: every byte that a read delivers is the byte that
    /// the file holds at that position, in a block that was written.
    pub proof fn lemma_read_delivers_held_bytes(self, offset: nat, want: nat)
        requires
            self.wf(),
        ensures
            self.read(offset, want).bytes.len() <= want,
            offset + self.read(offset, want).bytes.len() <= self.header.file_size
                || self.read(offset, want).bytes.len() == 0,
            forall|j: nat|
                offset <= j < offset + self.read(offset, want).bytes.len() ==> #[trigger] self.byte_at(
                    j,
                ) == Some(self.read(offset, want).bytes[j - offset]),
    {
        if offset <= self.header.file_size {
            self.lemma_read_chunks_deliver(offset, self.clipped(offset, want));
        }
    }

    /// Every byte that a read of blocks delivers is the byte that the
    /// file holds at that position.
    pub proof fn lemma_read_chunks_deliver(self, pos: nat, remaining: nat)
        requires
            self.wf(),
        ensures
            self.read_chunks(pos, remaining).bytes.len() <= remaining,
            forall|j: nat|
                pos <= j < pos + self.read_chunks(pos, remaining).bytes.len()
                    ==> #[trigger] self.byte_at(j) == Some(
                    self.read_chunks(pos, remaining).bytes[j - pos],
                ),
        decreases remaining,
    {
        if remaining > 0 && self.header.hole_error(pos) is None {
            let h = self.header;
            let size = h.block_size as int;
            lemma_block_split(pos as int, size);
            let n = h.chunk_len(pos, remaining);
            let got = self.block_bytes(pos, remaining);
            let out = self.read_chunks(pos, remaining);
            assert forall|j: nat| pos <= j < pos + got.len() implies #[trigger] self.byte_at(j)
                == Some(got[j - pos]) by {
                lemma_same_block(pos as int, j - pos, size);
            }
            if got.len() == n {
                self.lemma_read_chunks_deliver(pos + n, (remaining - n) as nat);
                let rest = self.read_chunks(pos + n, (remaining - n) as nat);
                assert forall|j: nat| pos <= j < pos + out.bytes.len() implies #[trigger] self.byte_at(
                    j,
                ) == Some(out.bytes[j - pos]) by {
                    if j >= pos + n {
                        assert(out.bytes[j - pos] == rest.bytes[j - (pos + n)]);
                    }
                }
            }
        }
    }

    /// A read fails exactly where a block that its range touches cannot
    /// be read, and with the error of the first such block.
    pub proof fn lemma_read_error(self, pos: nat, remaining: nat)
        requires
            self.header.block_size > 0,
        ensures
            self.read_chunks(pos, remaining).error == self.header.first_hole(pos, remaining),
        decreases remaining,
    {
        if remaining > 0 && self.header.hole_error(pos) is None {
            let size = self.header.block_size as int;
            lemma_block_split(pos as int, size);
            let n = self.header.chunk_len(pos, remaining);
            self.lemma_read_error(pos + n, (remaining - n) as nat);
        }
    }

    /// No stale bytes: a read that touches a block without an entry or
    /// a block that was never written fails. Where every block touched
    /// has an entry, the error says that a block was not written.
    pub proof fn lemma_read_of_hole_fails(self, offset: nat, want: nat, hole: nat)
        requires
            self.header.block_size > 0,
            offset <= hole < offset + self.clipped(offset, want),
            self.header.hole_error(hole) is Some,
        ensures
            self.read(offset, want).error is Some,
            self.header.block_of(hole) < self.header.entries.len() ==> self.read(
                offset,
                want,
            ).error == Some(BlockFileError::BlockNotAllocated),
    {
        self.lemma_read_error(offset, self.clipped(offset, want));
        self.header.lemma_first_hole(offset, self.clipped(offset, want), hole);
    }

    /// A read that touches no block that cannot be read does not fail.
    pub proof fn lemma_read_without_hole(self, offset: nat, want: nat)
        requires
            self.header.block_size > 0,
            offset <= self.header.file_size,
            forall|pos: nat|
                offset <= pos < offset + self.clipped(offset, want) ==> (
                #[trigger] self.header.hole_error(pos)) is None,
        ensures
            self.read(offset, want).error is None,
    {
        self.lemma_read_error(offset, self.clipped(offset, want));
        self.header.lemma_no_hole(offset, self.clipped(offset, want));
    }
}

impl HeaderView {
    /// A range that touches a block which cannot be read has a first
    /// such block. Where the block has an entry, so has every block
    /// before it, and the error says that a block was not written.
    pub proof fn lemma_first_hole(self, pos: nat, remaining: nat, hole: nat)
        requires
            self.block_size > 0,
            pos <= hole < pos + remaining,
            self.hole_error(hole) is Some,
        ensures
            self.first_hole(pos, remaining) is Some,
            self.block_of(hole) < self.entries.len() ==> self.first_hole(pos, remaining) == Some(
                BlockFileError::BlockNotAllocated,
            ),
        decreases remaining,
    {
        let size = self.block_size as int;
        lemma_block_split(pos as int, size);
        lemma_block_split(hole as int, size);
        assert(self.block_of(pos) <= self.block_of(hole)) by (nonlinear_arith)
            requires
                pos <= hole,
                size > 0,
                self.block_of(pos) == pos as int / size,
                self.block_of(hole) == hole as int / size,
        ;
        if self.hole_error(pos) is None {
            let n = self.chunk_len(pos, remaining);
            if hole < pos + n {
                lemma_same_block(pos as int, hole - pos, size);
            }
            self.lemma_first_hole(pos + n, (remaining - n) as nat, hole);
        }
    }

    /// A range of which every position lies in a block that can be
    /// read has no first block that cannot.
    pub proof fn lemma_no_hole(self, pos: nat, remaining: nat)
        requires
            self.block_size > 0,
            forall|at: nat| pos <= at < pos + remaining ==> (#[trigger] self.hole_error(at)) is None,
        ensures
            self.first_hole(pos, remaining) is None,
        decreases remaining,
    {
        if remaining > 0 {
            let size = self.block_size as int;
            lemma_block_split(pos as int, size);
            assert(self.hole_error(pos) is None);
            let n = self.chunk_len(pos, remaining);
            self.lemma_no_hole(pos + n, (remaining - n) as nat);
        }
    }
}

/// A chunk that stays inside its block ends inside the table's range.
pub proof fn lemma_chunk_end(pos: int, want: int, size: int, count: int)
    requires
        0 <= pos,
        size > 0,
        0 <= want <= size - pos % size,
        pos / size < count,
    ensures
        pos + want <= count * size,
{
    let i = pos / size;
    lemma_block_split(pos, size);
    assert((i + 1) * size <= count * size) by (nonlinear_arith)
        requires
            i + 1 <= count,
            size > 0,
    ;
    assert((i + 1) * size == i * size + size) by (nonlinear_arith);
}

/// In a packed table the next free slot is at most the number of
/// entries.
pub proof fn lemma_used_at_most(header: HeaderView)
    requires
        header.packed(),
    ensures
        header.next_block_index() <= header.entries.len(),
{
    crate::blockfile::packing::lemma_used_count_bound(header.entries);
}

} // verus!
