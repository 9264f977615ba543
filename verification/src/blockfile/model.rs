//! What reading and writing do to a block file, stated on its value.
//!
//! A transfer is cut at block boundaries. Each piece goes to the
//! physical slot of its block; a block without a slot gets the next
//! free one on its first write.

use vstd::prelude::*;
use crate::blockfile::error::BlockFileError;
use crate::blockfile::image::{fetch, store};
use crate::blockfile::layout::{BlockEntry, BlockFileView, HeaderView};

verus! {

/// How a write ended: the file after it, the number of bytes that
/// reached it, and the error that stopped it, if one did.
pub struct WriteOutcome {
    pub file: BlockFileView,
    pub written: nat,
    pub error: Option<BlockFileError>,
}

/// How a read ended: the bytes it delivered, and the error that
/// stopped it, if one did.
pub struct ReadOutcome {
    pub bytes: Seq<u8>,
    pub error: Option<BlockFileError>,
}

impl HeaderView {
    /// The logical block that holds position `pos`.
    pub open spec fn block_of(self, pos: nat) -> int {
        pos as int / self.block_size as int
    }

    /// The distance of `pos` from the start of its block.
    pub open spec fn cursor_of(self, pos: nat) -> int {
        pos as int % self.block_size as int
    }

    /// How many of `remaining` bytes at `pos` lie in the block of `pos`.
    pub open spec fn chunk_len(self, pos: nat, remaining: nat) -> nat {
        let room = self.block_size - self.cursor_of(pos);
        if remaining <= room {
            remaining
        } else {
            room as nat
        }
    }

    /// Where in the data region the byte at `pos` lies, given the
    /// entry of its block.
    pub open spec fn slot_pos(self, e: BlockEntry, pos: nat) -> int {
        e.block_index * self.block_size + self.cursor_of(pos)
    }

    /// Why the block that holds `pos` cannot be read, if it cannot: the
    /// table has no entry for it, or it was never written.
    pub open spec fn hole_error(self, pos: nat) -> Option<BlockFileError> {
        let i = self.block_of(pos);
        if i >= self.entries.len() {
            Some(BlockFileError::InvalidPosition)
        } else if !self.entries[i].used {
            Some(BlockFileError::BlockNotAllocated)
        } else {
            None
        }
    }

    /// Why the `remaining` bytes at `pos` cannot all be read, if they
    /// cannot: the error of the first block among those they touch
    /// that cannot be read.
    pub open spec fn first_hole(self, pos: nat, remaining: nat) -> Option<BlockFileError>
        decreases remaining,
        when self.block_size > 0
    {
        if remaining == 0 {
            None
        } else if self.hole_error(pos) is Some {
            self.hole_error(pos)
        } else {
            let n = self.chunk_len(pos, remaining);
            self.first_hole(pos + n, (remaining - n) as nat)
        }
    }

    /// The first and the last logical block that the `size` bytes at
    /// `offset` touch. An empty range touches the block of `offset`.
    pub open spec fn block_span(self, offset: nat, size: nat) -> (int, int) {
        let end = if size == 0 {
            offset
        } else {
            (offset + size - 1) as nat
        };
        (self.block_of(offset), self.block_of(end))
    }

    /// The smallest range of whole blocks that holds the `size` bytes
    /// at `offset`: its first byte, and the byte after its last.
    pub open spec fn block_range(self, offset: nat, size: nat) -> (int, int) {
        let (first, last) = self.block_span(offset, size);
        (first * self.block_size, last * self.block_size + self.block_size)
    }
}

/// The usage counter after `n` more bytes. It stops at its largest
/// value, so that it never goes down.
pub open spec fn usage_after(usage: u32, n: nat) -> u32 {
    if usage + n <= u32::MAX {
        (usage + n) as u32
    } else {
        u32::MAX
    }
}

impl BlockFileView {
    /// The file after `chunk` was written at `pos`, where the chunk
    /// stays inside the block of `pos` and that block can be written to.
    pub open spec fn write_chunk(self, pos: nat, chunk: Seq<u8>) -> BlockFileView {
        let i = self.header.block_of(pos);
        let e = self.header.touched(i);
        BlockFileView {
            header: HeaderView {
                entries: self.header.entries.update(
                    i,
                    BlockEntry { usage: usage_after(e.usage, chunk.len()), ..e },
                ),
                ..self.header
            },
            data: store(self.data, self.header.slot_pos(e, pos), chunk),
        }
    }

    /// What writing `buf` at `offset` does: block by block, until the
    /// bytes are used up or a block cannot be written to.
    pub open spec fn write(self, offset: nat, buf: Seq<u8>) -> WriteOutcome
        decreases buf.len(),
        when self.header.block_size > 0
    {
        if buf.len() == 0 {
            WriteOutcome { file: self, written: 0, error: None }
        } else if self.header.allocation_error(offset) is Some {
            WriteOutcome { file: self, written: 0, error: self.header.allocation_error(offset) }
        } else {
            let n = self.header.chunk_len(offset, buf.len());
            let rest = self.write_chunk(offset, buf.take(n as int)).write(
                offset + n,
                buf.skip(n as int),
            );
            WriteOutcome { written: n + rest.written, ..rest }
        }
    }

    /// The bytes that a read of `remaining` bytes at `pos` finds in the
    /// block of `pos`, which has a slot.
    pub open spec fn block_bytes(self, pos: nat, remaining: nat) -> Seq<u8> {
        fetch(
            self.data,
            self.header.slot_pos(self.header.entries[self.header.block_of(pos)], pos),
            self.header.chunk_len(pos, remaining) as int,
        )
    }

    /// The file after the writes of `writes`, one after the other,
    /// each of them an offset and the bytes to write there. A write
    /// that fails leaves what it wrote before it failed.
    pub open spec fn write_all(self, writes: Seq<(nat, Seq<u8>)>) -> BlockFileView
        decreases writes.len(),
    {
        if writes.len() == 0 {
            self
        } else {
            self.write_all(writes.drop_last()).write(writes.last().0, writes.last().1).file
        }
    }

    /// What writing `chunks` one behind the other does, the first of
    /// them at `begin`: the body of a response as it arrives. A chunk
    /// that fails ends the run.
    pub open spec fn stream(self, begin: nat, chunks: Seq<Seq<u8>>) -> WriteOutcome
        decreases chunks.len(),
    {
        if chunks.len() == 0 {
            WriteOutcome { file: self, written: 0, error: None }
        } else {
            let earlier = self.stream(begin, chunks.drop_last());
            if earlier.error is Some {
                earlier
            } else {
                let last = earlier.file.write(begin + earlier.written, chunks.last());
                WriteOutcome {
                    file: last.file,
                    written: earlier.written + last.written,
                    error: last.error,
                }
            }
        }
    }

    /// What reading `remaining` bytes at `pos` delivers, block by
    /// block. Where the data region ends inside a slot the read
    /// delivers no more bytes; it still fails if a block in the rest of
    /// the range cannot be read.
    pub open spec fn read_chunks(self, pos: nat, remaining: nat) -> ReadOutcome
        decreases remaining,
        when self.header.block_size > 0
    {
        if remaining == 0 {
            ReadOutcome { bytes: Seq::empty(), error: None }
        } else if self.header.hole_error(pos) is Some {
            ReadOutcome { bytes: Seq::empty(), error: self.header.hole_error(pos) }
        } else {
            let n = self.header.chunk_len(pos, remaining);
            let got = self.block_bytes(pos, remaining);
            if got.len() < n {
                ReadOutcome {
                    bytes: got,
                    error: self.header.first_hole(pos + n, (remaining - n) as nat),
                }
            } else {
                let rest = self.read_chunks(pos + n, (remaining - n) as nat);
                ReadOutcome { bytes: got + rest.bytes, error: rest.error }
            }
        }
    }

    /// How many bytes a read of `want` bytes at `offset` asks for once
    /// it is cut at the logical size.
    pub open spec fn clipped(self, offset: nat, want: nat) -> nat {
        if offset + want <= self.header.file_size {
            want
        } else if offset <= self.header.file_size {
            (self.header.file_size - offset) as nat
        } else {
            0
        }
    }

    /// What reading `want` bytes at `offset` delivers. A read that
    /// starts past the logical size fails; one that runs past it is cut.
    pub open spec fn read(self, offset: nat, want: nat) -> ReadOutcome {
        if offset > self.header.file_size {
            ReadOutcome { bytes: Seq::empty(), error: Some(BlockFileError::InvalidPosition) }
        } else {
            self.read_chunks(offset, self.clipped(offset, want))
        }
    }

    /// Whether every block from `first` to `last` has been written.
    pub open spec fn all_used(self, first: int, last: int) -> bool {
        forall|i: int| first <= i <= last ==> (#[trigger] self.header.entries[i]).used
    }

    /// Whether the `size` bytes at `begin`, cut at the logical size,
    /// lie in blocks that have all been written. A range of which
    /// nothing is left once it is cut meets no block, and is ready. A
    /// range that meets a block for which the table has no entry cannot
    /// be answered.
    pub open spec fn is_data_ready(self, begin: nat, size: nat) -> Result<bool, BlockFileError> {
        if self.clipped(begin, size) == 0 {
            Ok(true)
        } else {
            let (first, last) = self.header.block_span(begin, self.clipped(begin, size));
            if last >= self.header.entries.len() {
                Err(BlockFileError::InvalidPosition)
            } else {
                Ok(self.all_used(first, last))
            }
        }
    }

    /// The byte at logical position `pos`, if its block has a slot and
    /// the data region reaches that far.
    pub open spec fn byte_at(self, pos: nat) -> Option<u8> {
        let i = self.header.block_of(pos);
        if 0 <= i < self.header.entries.len() && self.header.entries[i].used
            && self.header.slot_pos(self.header.entries[i], pos) < self.data.len() {
            Some(self.data[self.header.slot_pos(self.header.entries[i], pos)])
        } else {
            None
        }
    }
}

impl HeaderView {
    /// Block-aligned fetch: the block range of the `size` bytes at
    /// `offset` begins at the block of `offset` and ends behind the
    /// block of the last byte; both ends are multiples of the block
    /// size; the range holds the bytes asked for, and no whole block
    /// more.
    pub proof fn lemma_block_range(self, offset: nat, size: nat)
        requires
            self.block_size > 0,
        ensures
            self.block_range(offset, size).0 == (offset as int / self.block_size as int)
                * self.block_size,
            size >= 1 ==> self.block_range(offset, size).1 == ((offset + size - 1)
                / self.block_size as int + 1) * self.block_size,
            size == 0 ==> self.block_range(offset, size).1 == (offset as int / self.block_size as int
                + 1) * self.block_size,
            self.block_range(offset, size).0 % self.block_size as int == 0,
            self.block_range(offset, size).1 % self.block_size as int == 0,
            0 <= self.block_range(offset, size).0 <= offset,
            offset + size <= self.block_range(offset, size).1,
            offset < self.block_range(offset, size).1,
            offset - self.block_range(offset, size).0 < self.block_size,
            size >= 1 ==> self.block_range(offset, size).1 - (offset + size) < self.block_size,
    {
        let b = self.block_size as int;
        let end = if size == 0 {
            offset as int
        } else {
            offset + size - 1
        };
        let first = offset as int / b;
        let last = end / b;
        assert(offset == first * b + offset as int % b && 0 <= offset as int % b < b && first >= 0)
            by (nonlinear_arith)
            requires
                b > 0,
                offset >= 0,
                first == offset as int / b,
        ;
        assert(end == last * b + end % b && 0 <= end % b < b) by (nonlinear_arith)
            requires
                b > 0,
                end >= 0,
                last == end / b,
        ;
        assert((first * b) % b == 0 && first * b >= 0) by (nonlinear_arith)
            requires
                b > 0,
                first >= 0,
        ;
        assert((last * b + b) % b == 0 && (last + 1) * b == last * b + b) by (nonlinear_arith)
            requires
                b > 0,
        ;
    }
}

} // verus!
