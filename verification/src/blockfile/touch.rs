//! The blocks that a sequence of writes touches: these and no others
//! are marked as written, their number is the number of slots in use,
//! and a block that was touched earlier has the smaller slot.

use vstd::prelude::*;
use crate::blockfile::content::lemma_block_split;
use crate::blockfile::error::BlockFileError;
use crate::blockfile::layout::{
    block_count_for,
    created,
    lemma_next_free_bounds,
    BlockEntry,
    BlockFileView,
};
use crate::blockfile::packing::{lemma_created_intact, lemma_slots_are_a_prefix, used_count};

verus! {

/// Whether the `len` bytes at `offset` meet block `block`, where
/// blocks are `size` bytes long.
pub open spec fn write_touches(offset: nat, len: nat, block: int, size: int) -> bool {
    len > 0 && offset as int / size <= block <= (offset + len - 1) / size
}

/// Whether one of `writes` meets block `block`.
pub open spec fn touched(writes: Seq<(nat, Seq<u8>)>, block: int, size: int) -> bool
    decreases writes.len(),
{
    if writes.len() == 0 {
        false
    } else {
        touched(writes.drop_last(), block, size) || write_touches(
            writes.last().0,
            writes.last().1.len(),
            block,
            size,
        )
    }
}

/// The place in `writes` of the first write that meets block `block`;
/// -1 if none does.
pub open spec fn first_touch(writes: Seq<(nat, Seq<u8>)>, block: int, size: int) -> int
    decreases writes.len(),
{
    if writes.len() == 0 {
        -1
    } else if first_touch(writes.drop_last(), block, size) >= 0 {
        first_touch(writes.drop_last(), block, size)
    } else if write_touches(writes.last().0, writes.last().1.len(), block, size) {
        writes.len() - 1
    } else {
        -1
    }
}

/// Whether block `a` was touched before block `b`: by an earlier
/// write, or by the same write and with the smaller number, since a
/// write goes through its blocks from the first to the last.
pub open spec fn touched_before(writes: Seq<(nat, Seq<u8>)>, a: int, b: int, size: int) -> bool {
    let first_a = first_touch(writes, a, size);
    let first_b = first_touch(writes, b, size);
    first_a >= 0 && first_b >= 0 && (first_a < first_b || (first_a == first_b && a < b))
}

/// How many of the first `count` blocks one of `writes` meets.
pub open spec fn touched_count(writes: Seq<(nat, Seq<u8>)>, count: nat, size: int) -> nat
    decreases count,
{
    if count == 0 {
        0
    } else {
        touched_count(writes, (count - 1) as nat, size) + if touched(writes, count - 1, size) {
            1nat
        } else {
            0nat
        }
    }
}

/// A block is touched exactly if it has a first touch, which is one
/// of the writes.
pub proof fn lemma_first_touch(writes: Seq<(nat, Seq<u8>)>, block: int, size: int)
    ensures
        touched(writes, block, size) <==> first_touch(writes, block, size) >= 0,
        -1 <= first_touch(writes, block, size) < writes.len(),
    decreases writes.len(),
{
    if writes.len() > 0 {
        lemma_first_touch(writes.drop_last(), block, size);
    }
}

impl BlockFileView {
    /// Whether every one of `writes`, made one after the other,
    /// succeeds.
    pub open spec fn all_ok(self, writes: Seq<(nat, Seq<u8>)>) -> bool
        decreases writes.len(),
    {
        if writes.len() == 0 {
            true
        } else {
            self.all_ok(writes.drop_last()) && self.write_all(writes.drop_last()).write(
                writes.last().0,
                writes.last().1,
            ).error is None
        }
    }

    /// A write leaves the entries of the blocks behind its last byte
    /// as they are.
    pub proof fn lemma_write_leaves_later_blocks(self, offset: nat, buf: Seq<u8>)
        requires
            self.wf(),
            buf.len() > 0,
        ensures
            forall|i: int|
                0 <= i < self.header.entries.len() && i > self.header.block_of(
                    (offset + buf.len() - 1) as nat,
                ) ==> (#[trigger] self.write(offset, buf).file.header.entries[i])
                    == self.header.entries[i],
        decreases buf.len(),
    {
        if self.header.allocation_error(offset) is None {
            let h = self.header;
            let size = h.block_size as int;
            lemma_block_split(offset as int, size);
            let n = h.chunk_len(offset, buf.len());
            let chunk = buf.take(n as int);
            let rest = buf.skip(n as int);
            let first = self.write_chunk(offset, chunk);
            let last = (offset + buf.len() - 1) as nat;
            self.lemma_chunk_marks(offset, chunk);
            assert(h.block_of(offset) <= h.block_of(last)) by (nonlinear_arith)
                requires
                    offset <= last,
                    size > 0,
                    h.block_of(offset) == offset as int / size,
                    h.block_of(last) == last as int / size,
            ;
            if rest.len() > 0 {
                first.lemma_write_leaves_later_blocks(offset + n, rest);
                first.lemma_write_marks(offset + n, rest);
                assert(first.header.block_of((offset + n + rest.len() - 1) as nat) == h.block_of(
                    last,
                ));
            }
            let out = self.write(offset, buf);
            assert(out.file == first.write(offset + n, rest).file);
            assert forall|i: int| 0 <= i < h.entries.len() && i > h.block_of(last) implies (
            #[trigger] out.file.header.entries[i]) == h.entries[i] by {
                assert(first.header.entries[i] == h.entries[i]);
            }
        }
    }

    /// A write that succeeds marks the blocks that it meets as written,
    /// all of which have an entry, and leaves the entries of all other
    /// blocks as they are.
    pub proof fn lemma_write_touches(self, offset: nat, buf: Seq<u8>)
        requires
            self.wf(),
            self.write(offset, buf).error is None,
        ensures
            forall|i: int|
                #[trigger] write_touches(offset, buf.len(), i, self.header.block_size as int) ==> 0
                    <= i < self.header.entries.len() && self.write(
                    offset,
                    buf,
                ).file.header.entries[i].used,
            forall|i: int|
                0 <= i < self.header.entries.len() && !write_touches(
                    offset,
                    buf.len(),
                    i,
                    self.header.block_size as int,
                ) ==> (#[trigger] self.write(offset, buf).file.header.entries[i])
                    == self.header.entries[i],
    {
        let size = self.header.block_size as int;
        let out = self.write(offset, buf);
        if buf.len() > 0 {
            let last = (offset + buf.len() - 1) as nat;
            self.lemma_write_marks(offset, buf);
            self.lemma_write_slots(offset, buf);
            self.lemma_write_leaves_later_blocks(offset, buf);
            lemma_block_split(offset as int, size);
            lemma_block_split(last as int, size);
            assert forall|i: int| #[trigger] write_touches(offset, buf.len(), i, size) implies 0
                <= i < self.header.entries.len() && out.file.header.entries[i].used by {
                // Block `i` begins in the range, or holds its first byte.
                let first_block = self.header.block_of(offset);
                let last_block = self.header.block_of(last);
                let j = if i == first_block {
                    offset
                } else {
                    (i * size) as nat
                };
                if i != first_block {
                    assert(offset < i * size <= last) by (nonlinear_arith)
                        requires
                            first_block < i <= last_block,
                            offset == first_block * size + offset as int % size,
                            last == last_block * size + last as int % size,
                            0 <= offset as int % size < size,
                            0 <= last as int % size < size,
                    ;
                    assert((i * size) / size == i) by (nonlinear_arith)
                        requires
                            size > 0,
                    ;
                }
                assert(self.header.block_of(j) == i);
            }
        }
    }

    /// After writes that all succeed, the blocks marked as written are
    /// those that were marked before and those that a write met; the
    /// entries of all other blocks are as they were.
    pub proof fn lemma_writes_touch(self, writes: Seq<(nat, Seq<u8>)>)
        requires
            self.wf(),
            self.all_ok(writes),
        ensures
            self.write_all(writes).wf(),
            self.write_all(writes).header.file_size == self.header.file_size,
            self.write_all(writes).header.block_size == self.header.block_size,
            self.write_all(writes).header.entries.len() == self.header.entries.len(),
            forall|i: int|
                #[trigger] touched(writes, i, self.header.block_size as int) ==> 0 <= i
                    < self.header.entries.len() && self.write_all(writes).header.entries[i].used,
            forall|i: int|
                0 <= i < self.header.entries.len() && self.header.entries[i].used ==> (
                #[trigger] self.write_all(writes).header.entries[i]).used,
            forall|i: int|
                0 <= i < self.header.entries.len() && !touched(
                    writes,
                    i,
                    self.header.block_size as int,
                ) ==> (#[trigger] self.write_all(writes).header.entries[i]) == self.header.entries[i],
        decreases writes.len(),
    {
        if writes.len() > 0 {
            let earlier = writes.drop_last();
            let before = self.write_all(earlier);
            let (offset, data) = writes.last();
            let size = self.header.block_size as int;
            self.lemma_writes_touch(earlier);
            before.lemma_write_marks(offset, data);
            before.lemma_write_touches(offset, data);
            let after = self.write_all(writes);
            let out = before.write(offset, data);
            assert(after == out.file);
            assert forall|i: int| #[trigger] touched(writes, i, size) implies 0 <= i
                < self.header.entries.len() && after.header.entries[i].used by {
                if touched(earlier, i, size) {
                    assert(before.header.entries[i].used);
                    assert(out.file.header.entries[i].used);
                } else {
                    assert(write_touches(offset, data.len(), i, size));
                    assert(out.file.header.entries[i].used);
                }
            }
            assert forall|i: int|
                0 <= i < self.header.entries.len() && self.header.entries[i].used implies (
                #[trigger] after.header.entries[i]).used by {
                assert(before.header.entries[i].used);
                assert(out.file.header.entries[i].used);
            }
            assert forall|i: int|
                0 <= i < self.header.entries.len() && !touched(writes, i, size) implies (
                #[trigger] after.header.entries[i]) == self.header.entries[i] by {
                assert(before.header.entries[i] == self.header.entries[i]);
                assert(out.file.header.entries[i] == before.header.entries[i]);
            }
        }
    }

    /// Slots are numbered in the order of first writes: on a file of
    /// which no block was written, after writes that all succeed, of
    /// two blocks that were touched the one that was touched first has
    /// the smaller slot.
    pub proof fn lemma_slots_follow_touches(self, writes: Seq<(nat, Seq<u8>)>, a: int, b: int)
        requires
            self.wf(),
            forall|i: int| 0 <= i < self.header.entries.len() ==> !(#[trigger] self.header.entries[i]).used,
            self.all_ok(writes),
            touched(writes, a, self.header.block_size as int),
            touched(writes, b, self.header.block_size as int),
            a != b,
        ensures
            self.write_all(writes).header.entries[a].used,
            self.write_all(writes).header.entries[b].used,
            self.write_all(writes).header.entries[a].block_index < self.write_all(
                writes,
            ).header.entries[b].block_index <==> touched_before(
                writes,
                a,
                b,
                self.header.block_size as int,
            ),
        decreases writes.len(),
    {
        let size = self.header.block_size as int;
        let earlier = writes.drop_last();
        let before = self.write_all(earlier);
        let (offset, data) = writes.last();
        let after = self.write_all(writes);
        let out = before.write(offset, data);
        assert(after == out.file);
        self.lemma_writes_touch(writes);
        self.lemma_writes_touch(earlier);
        before.lemma_write_slots(offset, data);
        before.lemma_write_marks(offset, data);
        lemma_first_touch(earlier, a, size);
        lemma_first_touch(earlier, b, size);
        lemma_first_touch(writes, a, size);
        lemma_first_touch(writes, b, size);
        let met_a = touched(earlier, a, size);
        let met_b = touched(earlier, b, size);
        assert(after.header.entries[a].used && after.header.entries[b].used);
        assert(out.file.header.entries[a].used && out.file.header.entries[b].used);
        if !met_a {
            assert(before.header.entries[a] == self.header.entries[a]);
            assert(!before.header.entries[a].used);
        } else {
            assert(before.header.entries[a].used);
            lemma_next_free_bounds(before.header.entries, a);
        }
        if !met_b {
            assert(before.header.entries[b] == self.header.entries[b]);
            assert(!before.header.entries[b].used);
        } else {
            assert(before.header.entries[b].used);
            lemma_next_free_bounds(before.header.entries, b);
        }
        if met_a && met_b {
            self.lemma_slots_follow_touches(earlier, a, b);
        }
    }

    /// Readiness after a sequence of writes: a range of which every
    /// block was marked as written before or was met by one of the
    /// writes, which all succeeded, is ready, however little of a block
    /// a write wrote.
    pub proof fn lemma_touched_range_is_ready(
        self,
        writes: Seq<(nat, Seq<u8>)>,
        begin: nat,
        size: nat,
    )
        requires
            self.wf(),
            self.all_ok(writes),
            self.clipped(begin, size) >= 1,
            forall|i: int|
                self.header.block_span(begin, self.clipped(begin, size)).0 <= i
                    <= self.header.block_span(begin, self.clipped(begin, size)).1 ==> 0 <= i
                    < self.header.entries.len() && (self.header.entries[i].used || #[trigger] touched(
                    writes,
                    i,
                    self.header.block_size as int,
                )),
        ensures
            self.write_all(writes).is_data_ready(begin, size) == Ok::<bool, BlockFileError>(true),
    {
        let after = self.write_all(writes);
        let bs = self.header.block_size as int;
        self.lemma_writes_touch(writes);
        let first = self.header.block_span(begin, self.clipped(begin, size)).0;
        let last = self.header.block_span(begin, self.clipped(begin, size)).1;
        assert(first <= last) by (nonlinear_arith)
            requires
                first == begin as int / bs,
                last == (begin + self.clipped(begin, size) - 1) / bs,
                self.clipped(begin, size) >= 1,
                bs > 0,
        ;
        let last_touched = touched(writes, last, bs);
        assert(last_touched == touched(writes, last, self.header.block_size as int));
        assert(0 <= last < self.header.entries.len());
        assert(after.clipped(begin, size) == self.clipped(begin, size));
        assert(after.header.block_span(begin, after.clipped(begin, size)) == (first, last));
        assert forall|i: int| first <= i <= last implies (#[trigger] after.header.entries[i]).used by {
            let met = touched(writes, i, bs);
            assert(met == touched(writes, i, self.header.block_size as int));
            assert(self.header.entries[i].used || met);
        }
        assert(after.all_used(first, last));
    }

    /// Readiness after a sequence of writes: a range that meets a
    /// block which was not marked as written before and which none of
    /// the writes met is not ready.
    pub proof fn lemma_untouched_range_is_not_ready(
        self,
        writes: Seq<(nat, Seq<u8>)>,
        begin: nat,
        size: nat,
        block: int,
    )
        requires
            self.wf(),
            self.all_ok(writes),
            self.clipped(begin, size) >= 1,
            self.header.block_span(begin, self.clipped(begin, size)).1 < self.header.entries.len(),
            self.header.block_span(begin, self.clipped(begin, size)).0 <= block
                <= self.header.block_span(begin, self.clipped(begin, size)).1,
            !self.header.entries[block].used,
            !touched(writes, block, self.header.block_size as int),
        ensures
            self.write_all(writes).is_data_ready(begin, size) == Ok::<bool, BlockFileError>(false),
    {
        let after = self.write_all(writes);
        self.lemma_writes_touch(writes);
        lemma_block_split(begin as int, self.header.block_size as int);
        assert(after.header.entries[block] == self.header.entries[block]);
    }
}

/// Where an entry is used exactly if its block was touched, the number
/// of used entries is the number of blocks touched.
pub proof fn lemma_used_count_is_touched_count(
    entries: Seq<BlockEntry>,
    writes: Seq<(nat, Seq<u8>)>,
    size: int,
)
    requires
        forall|i: int| 0 <= i < entries.len() ==> (#[trigger] entries[i]).used == touched(writes, i, size),
    ensures
        used_count(entries) == touched_count(writes, entries.len(), size),
    decreases entries.len(),
{
    if entries.len() > 0 {
        let rest = entries.drop_last();
        assert forall|i: int| 0 <= i < rest.len() implies (#[trigger] rest[i]).used == touched(
            writes,
            i,
            size,
        ) by {
            assert(rest[i] == entries[i]);
        }
        lemma_used_count_is_touched_count(rest, writes, size);
        assert(entries.last() == entries[entries.len() - 1]);
    }
}

/// Physical packing on a fresh file: after writes that all succeed,
/// with k the number of blocks that the writes met, exactly these
/// blocks are marked as written, the next free slot is k, and the slots
/// in use are 0, .., k-1, each used once.
pub proof fn lemma_fresh_slots_count_touched_blocks(
    file_size: u64,
    block_size: u32,
    writes: Seq<(nat, Seq<u8>)>,
    p: int,
)
    requires
        block_size > 0,
        block_count_for(file_size, block_size) <= u32::MAX,
        20 + 9 * block_count_for(file_size, block_size) + block_count_for(file_size, block_size)
            * block_size <= usize::MAX,
        created(file_size, block_size).all_ok(writes),
    ensures
        ({
            let after = created(file_size, block_size).write_all(writes);
            let k = touched_count(writes, block_count_for(file_size, block_size), block_size as int);
            &&& after.header.packed()
            &&& after.header.entries.len() == block_count_for(file_size, block_size)
            &&& forall|i: int|
                0 <= i < after.header.entries.len() ==> (#[trigger] after.header.entries[i]).used
                    == touched(writes, i, block_size as int)
            &&& used_count(after.header.entries) == k
            &&& after.header.next_block_index() == k
            &&& after.header.slot_taken(p) <==> 0 <= p < k
        }),
{
    let fresh = created(file_size, block_size);
    let after = fresh.write_all(writes);
    lemma_created_intact(file_size, block_size);
    fresh.lemma_writes_keep_intact(writes);
    fresh.lemma_writes_touch(writes);
    assert forall|i: int| 0 <= i < after.header.entries.len() implies (
    #[trigger] after.header.entries[i]).used == touched(writes, i, block_size as int) by {
        if !touched(writes, i, block_size as int) {
            assert(after.header.entries[i] == fresh.header.entries[i]);
        }
    }
    lemma_used_count_is_touched_count(after.header.entries, writes, block_size as int);
    lemma_slots_are_a_prefix(after.header, p);
}

} // verus!
