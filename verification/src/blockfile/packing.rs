//! Physical packing: the slots in use are the first ones, each used
//! once, and writing keeps it so.

use vstd::prelude::*;
use crate::blockfile::layout::{
    block_count_for,
    created,
    lemma_next_free_allocate,
    lemma_next_free_bounds,
    lemma_next_free_unused,
    lemma_next_free_usage,
    BlockEntry,
    BlockFileView,
    HeaderView,
};
use crate::blockfile::model::usage_after;

verus! {

/// The number of used entries.
pub open spec fn used_count(entries: Seq<BlockEntry>) -> nat
    decreases entries.len(),
{
    if entries.len() == 0 {
        0
    } else {
        used_count(entries.drop_last()) + if entries.last().used {
            1nat
        } else {
            0nat
        }
    }
}

impl HeaderView {
    /// Whether some used entry has physical slot `p`.
    pub open spec fn slot_taken(self, p: int) -> bool {
        exists|i: int| 0 <= i < self.entries.len() && (#[trigger] self.entries[i]).used
            && self.entries[i].block_index == p
    }

    /// The slots in use are packed: no two used entries share a slot,
    /// every slot below the next free one is taken, and the next free
    /// slot is the number of used entries.
    pub open spec fn packed(self) -> bool {
        &&& forall|i: int, j: int|
            0 <= i < self.entries.len() && 0 <= j < self.entries.len() && i != j && (
            #[trigger] self.entries[i]).used && (#[trigger] self.entries[j]).used
                ==> self.entries[i].block_index != self.entries[j].block_index
        &&& forall|p: int| 0 <= p < self.next_block_index() ==> #[trigger] self.slot_taken(p)
        &&& self.next_block_index() == used_count(self.entries)
    }
}

impl BlockFileView {
    /// A file as `create` and `write` leave it: sound, packed, with an
    /// entry for every block below the logical size, and with a data
    /// region that can be addressed in full.
    pub open spec fn intact(self) -> bool {
        &&& self.wf()
        &&& self.header.packed()
        &&& self.header.file_size <= self.header.entries.len() * self.header.block_size
        &&& self.header.header_size() + self.header.entries.len() * self.header.block_size
            <= usize::MAX
    }
}

/// No more entries are used than there are.
pub proof fn lemma_used_count_bound(entries: Seq<BlockEntry>)
    ensures
        used_count(entries) <= entries.len(),
    decreases entries.len(),
{
    if entries.len() > 0 {
        lemma_used_count_bound(entries.drop_last());
    }
}

/// Where an entry is unused, fewer entries are used than there are.
pub proof fn lemma_used_count_below(entries: Seq<BlockEntry>, i: int)
    requires
        0 <= i < entries.len(),
        !entries[i].used,
    ensures
        used_count(entries) < entries.len(),
    decreases entries.len(),
{
    if i == entries.len() - 1 {
        lemma_used_count_bound(entries.drop_last());
    } else {
        lemma_used_count_below(entries.drop_last(), i);
    }
}

/// Replacing one entry changes the count by what the entry changes.
pub proof fn lemma_used_count_update(entries: Seq<BlockEntry>, i: int, e: BlockEntry)
    requires
        0 <= i < entries.len(),
    ensures
        used_count(entries.update(i, e)) + (if entries[i].used {
            1nat
        } else {
            0nat
        }) == used_count(entries) + (if e.used {
            1nat
        } else {
            0nat
        }),
    decreases entries.len(),
{
    let updated = entries.update(i, e);
    if i == entries.len() - 1 {
        assert(updated.drop_last() =~= entries.drop_last());
    } else {
        assert(updated.drop_last() =~= entries.drop_last().update(i, e));
        lemma_used_count_update(entries.drop_last(), i, e);
    }
}

/// Among entries of which none is used, the count is zero.
pub proof fn lemma_used_count_unused(entries: Seq<BlockEntry>)
    requires
        forall|i: int| 0 <= i < entries.len() ==> !entries[i].used,
    ensures
        used_count(entries) == 0,
    decreases entries.len(),
{
    if entries.len() > 0 {
        lemma_used_count_unused(entries.drop_last());
    }
}

/// In a packed table the slots in use are exactly the slots below the
/// number of used entries: with k blocks written, they are 0, .., k-1.
pub proof fn lemma_slots_are_a_prefix(header: HeaderView, p: int)
    requires
        header.packed(),
    ensures
        header.slot_taken(p) <==> 0 <= p < used_count(header.entries),
{
    if header.slot_taken(p) {
        let i = choose|i: int|
            0 <= i < header.entries.len() && (#[trigger] header.entries[i]).used
                && header.entries[i].block_index == p;
        lemma_next_free_bounds(header.entries, i);
    }
}

/// A packed table with an unused entry can hand out a slot, provided
/// the data region can be addressed in full.
pub proof fn lemma_packed_can_allocate(header: HeaderView, i: int)
    requires
        header.wf(),
        header.packed(),
        header.header_size() + header.entries.len() * header.block_size <= usize::MAX,
        0 <= i < header.entries.len(),
        !header.entries[i].used,
    ensures
        header.can_allocate(),
        header.next_block_index() < header.entries.len(),
{
    lemma_used_count_below(header.entries, i);
    let next = header.next_block_index() as int;
    let count = header.entries.len() as int;
    let size = header.block_size as int;
    assert((next + 1) * size <= count * size) by (nonlinear_arith)
        requires
            next + 1 <= count,
            size > 0,
    ;
}

/// Touching a block and counting bytes on its entry keeps a packed
/// table packed.
pub proof fn lemma_touch_keeps_packed(header: HeaderView, i: int, n: nat)
    requires
        header.packed(),
        0 <= i < header.entries.len(),
        header.entries[i].used || header.next_block_index() <= u32::MAX,
    ensures
        ({
            let e = header.touched(i);
            let after = HeaderView {
                entries: header.entries.update(
                    i,
                    BlockEntry { usage: usage_after(e.usage, n), ..e },
                ),
                ..header
            };
            &&& after.packed()
            &&& after.next_block_index() == if header.entries[i].used {
                header.next_block_index()
            } else {
                header.next_block_index() + 1
            }
        }),
{
    let e = header.touched(i);
    let entry = BlockEntry { usage: usage_after(e.usage, n), ..e };
    let entries = header.entries;
    let after = HeaderView { entries: entries.update(i, entry), ..header };
    lemma_used_count_update(entries, i, entry);
    if entries[i].used {
        lemma_next_free_usage(entries, i, entry.usage);
        assert forall|p: int| 0 <= p < after.next_block_index() implies #[trigger] after.slot_taken(
            p,
        ) by {
            assert(header.slot_taken(p));
            let w = choose|w: int|
                0 <= w < entries.len() && (#[trigger] entries[w]).used && entries[w].block_index
                    == p;
            assert(after.entries[w].used && after.entries[w].block_index == p);
        }
    } else {
        lemma_next_free_allocate(entries, i, entry.usage);
        assert forall|a: int, b: int|
            0 <= a < after.entries.len() && 0 <= b < after.entries.len() && a != b && (
            #[trigger] after.entries[a]).used && (#[trigger] after.entries[b]).used implies after.entries[a].block_index
            != after.entries[b].block_index by {
            if a != i {
                lemma_next_free_bounds(entries, a);
            }
            if b != i {
                lemma_next_free_bounds(entries, b);
            }
        }
        assert forall|p: int| 0 <= p < after.next_block_index() implies #[trigger] after.slot_taken(
            p,
        ) by {
            if p == header.next_block_index() {
                assert(after.entries[i].used && after.entries[i].block_index == p);
            } else {
                assert(header.slot_taken(p));
                let w = choose|w: int|
                    0 <= w < entries.len() && (#[trigger] entries[w]).used
                        && entries[w].block_index == p;
                assert(after.entries[w].used && after.entries[w].block_index == p);
            }
        }
    }
}

/// A fresh file is intact, where its table fits the header and its
/// data region can be addressed in full.
pub proof fn lemma_created_intact(file_size: u64, block_size: u32)
    requires
        block_size > 0,
        block_count_for(file_size, block_size) <= u32::MAX,
        20 + 9 * block_count_for(file_size, block_size) + block_count_for(file_size, block_size)
            * block_size <= usize::MAX,
    ensures
        created(file_size, block_size).intact(),
{
    let v = created(file_size, block_size);
    let count = block_count_for(file_size, block_size) as int;
    let size = block_size as int;
    lemma_next_free_unused(v.header.entries);
    lemma_used_count_unused(v.header.entries);
    assert(0 * size == 0) by (nonlinear_arith);
    assert(count * size >= 0) by (nonlinear_arith)
        requires
            count >= 0,
            size > 0,
    ;
    assert(file_size <= count * size) by (nonlinear_arith)
        requires
            size > 0,
            count == (file_size + size - 1) / size,
    ;
}

} // verus!
