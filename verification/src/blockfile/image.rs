//! The bytes of a block file, held in memory.
//!
//! An [`Image`] behaves as a file does under positioned reads and
//! writes: a read past the end comes back short, a write past the end
//! grows the file and leaves zeros in the gap.

use vstd::prelude::*;
use crate::blockfile::codec::{decode_u32, encode_u32, u32_from_be, u32_to_be, u64_from_be, u64_to_be};
use crate::blockfile::error::BlockFileError;

verus! {

/// `data` after `chunk` was written at `start`. Bytes between the old
/// end and `start` are zero. An empty chunk changes nothing.
pub open spec fn store(data: Seq<u8>, start: int, chunk: Seq<u8>) -> Seq<u8> {
    if chunk.len() == 0 {
        data
    } else {
        Seq::new(
            if data.len() >= start + chunk.len() {
                data.len()
            } else {
                (start + chunk.len()) as nat
            },
            |k: int|
                if start <= k < start + chunk.len() {
                    chunk[k - start]
                } else if k < data.len() {
                    data[k]
                } else {
                    0u8
                },
        )
    }
}

/// What a read of `want` bytes at `start` returns: the bytes that
/// exist there, which are fewer than `want` if the data ends early.
pub open spec fn fetch(data: Seq<u8>, start: int, want: int) -> Seq<u8> {
    if start >= data.len() || want <= 0 {
        Seq::empty()
    } else if start + want <= data.len() {
        data.subrange(start, start + want)
    } else {
        data.subrange(start, data.len() as int)
    }
}

/// Reading behind a prefix of `data` is reading in what follows the
/// prefix.
pub proof fn lemma_fetch_skip(data: Seq<u8>, prefix: int, start: int, want: int)
    requires
        0 <= prefix <= data.len(),
        0 <= start,
    ensures
        fetch(data, prefix + start, want) == fetch(data.skip(prefix), start, want),
{
    assert(fetch(data, prefix + start, want) =~= fetch(data.skip(prefix), start, want));
}

/// `buf` after `bytes` were copied into it from index `from` on.
pub open spec fn splice(buf: Seq<u8>, from: int, bytes: Seq<u8>) -> Seq<u8> {
    Seq::new(
        buf.len(),
        |k: int|
            if from <= k < from + bytes.len() {
                bytes[k - from]
            } else {
                buf[k]
            },
    )
}

/// The contents of a block file as one run of bytes.
pub struct Image {
    bytes: Vec<u8>,
}

impl View for Image {
    type V = Seq<u8>;

    closed spec fn view(&self) -> Seq<u8> {
        self.bytes@
    }
}

impl Image {
    /// An image without bytes.
    pub fn new() -> (image: Image)
        ensures
            image@ == Seq::<u8>::empty(),
    {
        Image { bytes: Vec::new() }
    }

    /// The image that consists of `bytes`.
    pub fn from_bytes(bytes: Vec<u8>) -> (image: Image)
        ensures
            image@ == bytes@,
    {
        Image { bytes }
    }

    /// Gives the bytes up.
    pub fn into_bytes(self) -> (bytes: Vec<u8>)
        ensures
            bytes@ == self@,
    {
        self.bytes
    }

    /// The bytes, borrowed.
    pub fn as_slice(&self) -> (bytes: &[u8])
        ensures
            bytes@ == self@,
    {
        self.bytes.as_slice()
    }

    /// An image is never longer than memory can address.
    pub proof fn lemma_len_fits(&self)
        ensures
            self@.len() <= usize::MAX,
    {
        vstd::std_specs::vec::axiom_spec_len(&self.bytes);
    }

    /// The number of bytes.
    pub fn len(&self) -> (n: usize)
        ensures
            n == self@.len(),
    {
        self.bytes.len()
    }

    /// Copies up to `to - from` bytes found at `pos` into
    /// `buf[from..to]` and returns how many there were.
    pub fn read(&self, pos: u64, buf: &mut [u8], from: usize, to: usize) -> (n: usize)
        requires
            from <= to <= old(buf)@.len(),
        ensures
            n == fetch(self@, pos as int, to - from).len(),
            final(buf)@ == splice(old(buf)@, from as int, fetch(self@, pos as int, to - from)),
    {
        let len = self.bytes.len();
        if to == from || pos >= len as u64 {
            assert(buf@ =~= splice(buf@, from as int, fetch(self@, pos as int, to - from)));
            return 0;
        }
        let start = pos as usize;
        let want = to - from;
        let n = if want <= len - start {
            want
        } else {
            len - start
        };
        let ghost bytes = fetch(self@, pos as int, to - from);
        let buf_len = buf.len();
        let mut i: usize = 0;
        while i < n
            invariant
                i <= n,
                n == bytes.len(),
                buf@.len() == buf_len,
                from + n <= buf_len,
                len == self.bytes@.len(),
                start + n <= len,
                bytes == self.bytes@.subrange(start as int, start + n),
                buf@ == splice(old(buf)@, from as int, bytes.take(i as int)),
            decreases n - i,
        {
            buf[from + i] = self.bytes[start + i];
            i += 1;
            assert(buf@ =~= splice(old(buf)@, from as int, bytes.take(i as int)));
        }
        assert(bytes.take(n as int) =~= bytes);
        n
    }

    /// Writes `buf[from..to]` at `pos`, growing the image with zeros
    /// where `pos` lies past its end.
    pub fn write(&mut self, pos: u64, buf: &[u8], from: usize, to: usize) -> (r: Result<
        usize,
        BlockFileError,
    >)
        requires
            from <= to <= buf@.len(),
        ensures
            pos + (to - from) <= usize::MAX ==> r == Ok::<usize, BlockFileError>((to - from) as usize)
                && final(self)@ == store(old(self)@, pos as int, buf@.subrange(from as int, to as int)),
            pos + (to - from) > usize::MAX ==> r == Err::<usize, BlockFileError>(
                BlockFileError::FileTooLarge,
            ) && final(self)@ == old(self)@,
    {
        let n = to - from;
        if pos > (usize::MAX - n) as u64 {
            return Err(BlockFileError::FileTooLarge);
        }
        if n == 0 {
            return Ok(0);
        }
        let start = pos as usize;
        let ghost chunk = buf@.subrange(from as int, to as int);
        let ghost before = self@;
        if self.bytes.len() < start + n {
            self.bytes.resize(start + n, 0u8);
        }
        let ghost grown = self.bytes@;
        let buf_len = buf.len();
        let len = self.bytes.len();
        let mut i: usize = 0;
        while i < n
            invariant
                i <= n,
                n == chunk.len(),
                n == to - from,
                to <= buf_len,
                buf_len == buf@.len(),
                len == grown.len(),
                chunk == buf@.subrange(from as int, to as int),
                start == pos,
                self.bytes@.len() == grown.len(),
                grown.len() >= start + n,
                grown.len() == if before.len() >= start + n { before.len() } else { (start + n) as nat },
                forall|k: int|
                    0 <= k < grown.len() ==> grown[k] == if k < before.len() {
                        before[k]
                    } else {
                        0u8
                    },
                forall|k: int|
                    0 <= k < grown.len() ==> self.bytes@[k] == if start <= k < start + i {
                        chunk[k - start]
                    } else {
                        grown[k]
                    },
            decreases n - i,
        {
            self.bytes[start + i] = buf[from + i];
            i += 1;
        }
        assert(self@ =~= store(before, pos as int, chunk));
        Ok(n)
    }

    /// The byte at `pos`.
    pub fn read_u8(&self, pos: u64) -> (r: Result<u8, BlockFileError>)
        ensures
            pos < self@.len() ==> r == Ok::<u8, BlockFileError>(self@[pos as int]),
            pos >= self@.len() ==> r == Err::<u8, BlockFileError>(BlockFileError::UnexpectedEof),
    {
        if pos < self.bytes.len() as u64 {
            Ok(self.bytes[pos as usize])
        } else {
            Err(BlockFileError::UnexpectedEof)
        }
    }

    /// The big-endian 32-bit integer in the four bytes at `pos`.
    pub fn read_u32(&self, pos: u64) -> (r: Result<u32, BlockFileError>)
        ensures
            pos + 4 <= self@.len() ==> r == Ok::<u32, BlockFileError>(
                u32_from_be(self@.subrange(pos as int, pos + 4)),
            ),
            pos + 4 > self@.len() ==> r == Err::<u32, BlockFileError>(BlockFileError::UnexpectedEof),
    {
        let len = self.bytes.len();
        if len < 4 || pos > (len - 4) as u64 {
            return Err(BlockFileError::UnexpectedEof);
        }
        let p = pos as usize;
        let x = decode_u32(self.bytes[p], self.bytes[p + 1], self.bytes[p + 2], self.bytes[p + 3]);
        assert(self@.subrange(pos as int, pos + 4) =~= seq![
            self.bytes@[p as int],
            self.bytes@[p + 1],
            self.bytes@[p + 2],
            self.bytes@[p + 3],
        ]);
        Ok(x)
    }

    /// The big-endian 64-bit integer in the eight bytes at `pos`.
    pub fn read_u64(&self, pos: u64) -> (r: Result<u64, BlockFileError>)
        ensures
            pos + 8 <= self@.len() ==> r == Ok::<u64, BlockFileError>(
                u64_from_be(self@.subrange(pos as int, pos + 8)),
            ),
            pos + 8 > self@.len() ==> r == Err::<u64, BlockFileError>(BlockFileError::UnexpectedEof),
    {
        let len = self.bytes.len();
        if len < 8 || pos > (len - 8) as u64 {
            return Err(BlockFileError::UnexpectedEof);
        }
        let hi = match self.read_u32(pos) {
            Ok(x) => x,
            Err(e) => return Err(e),
        };
        let lo = match self.read_u32(pos + 4) {
            Ok(x) => x,
            Err(e) => return Err(e),
        };
        let ghost b = self@.subrange(pos as int, pos + 8);
        assert(b.subrange(0, 4) =~= self@.subrange(pos as int, pos + 4));
        assert(b.subrange(4, 8) =~= self@.subrange(pos + 4, pos + 8));
        Ok((hi as u64) * 0x1_0000_0000 + (lo as u64))
    }

    /// Writes one byte at `pos`.
    pub fn write_u8(&mut self, pos: u64, x: u8) -> (r: Result<(), BlockFileError>)
        ensures
            pos + 1 <= usize::MAX ==> r == Ok::<(), BlockFileError>(()) && final(self)@ == store(
                old(self)@,
                pos as int,
                seq![x],
            ),
            pos + 1 > usize::MAX ==> r == Err::<(), BlockFileError>(BlockFileError::FileTooLarge)
                && final(self)@ == old(self)@,
    {
        let b: [u8; 1] = [x];
        assert(b@.subrange(0, 1) =~= seq![x]);
        match self.write(pos, b.as_slice(), 0, 1) {
            Ok(_) => Ok(()),
            Err(e) => Err(e),
        }
    }

    /// Writes `x` at `pos` as four big-endian bytes.
    pub fn write_u32(&mut self, pos: u64, x: u32) -> (r: Result<(), BlockFileError>)
        ensures
            pos + 4 <= usize::MAX ==> r == Ok::<(), BlockFileError>(()) && final(self)@ == store(
                old(self)@,
                pos as int,
                u32_to_be(x),
            ),
            pos + 4 > usize::MAX ==> r == Err::<(), BlockFileError>(BlockFileError::FileTooLarge)
                && final(self)@ == old(self)@,
    {
        let b = encode_u32(x);
        assert(b@.subrange(0, 4) =~= u32_to_be(x));
        match self.write(pos, b.as_slice(), 0, 4) {
            Ok(_) => Ok(()),
            Err(e) => Err(e),
        }
    }

    /// Writes `x` at `pos` as eight big-endian bytes.
    pub fn write_u64(&mut self, pos: u64, x: u64) -> (r: Result<(), BlockFileError>)
        ensures
            pos + 8 <= usize::MAX ==> r == Ok::<(), BlockFileError>(()) && final(self)@ == store(
                old(self)@,
                pos as int,
                u64_to_be(x),
            ),
            pos + 8 > usize::MAX ==> r == Err::<(), BlockFileError>(BlockFileError::FileTooLarge)
                && final(self)@ == old(self)@,
    {
        if pos > (usize::MAX - 8) as u64 {
            return Err(BlockFileError::FileTooLarge);
        }
        let hi = (x / 0x1_0000_0000) as u32;
        let lo = (x % 0x1_0000_0000) as u32;
        let ghost before = self@;
        match self.write_u32(pos, hi) {
            Ok(_) => {},
            Err(e) => return Err(e),
        }
        match self.write_u32(pos + 4, lo) {
            Ok(_) => {},
            Err(e) => return Err(e),
        }
        assert(self@ =~= store(before, pos as int, u64_to_be(x)));
        Ok(())
    }
}

} // verus!
