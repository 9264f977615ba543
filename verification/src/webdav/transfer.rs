//! A range request and the body of its response on the way into a
//! block file.
//!
//! The caller sends the header `Range` with the value that
//! [`range_header`] gives, reads the total behind the slash of
//! `Content-Range` with [`content_range_total`], and hands each chunk
//! of the body to a [`Transfer`], which writes the chunks one behind
//! the other.

use vstd::prelude::*;
use vstd::string::StringExecFns;
use vstd::string::StringSliceAdditionalSpecFns;
use crate::blockfile::content::{lemma_block_split, lemma_chunk_end};
use crate::blockfile::error::BlockFileError;
use crate::blockfile::BlockFile;
use crate::webdav::WebDAVError;

verus! {

/// What follows the last `/` in `text`; all of `text` if it has none.
pub open spec fn last_segment(text: Seq<u8>) -> Seq<u8>
    decreases text.len(),
{
    if text.len() == 0 {
        text
    } else if text.last() == 0x2fu8 {
        Seq::empty()
    } else {
        last_segment(text.drop_last()).push(text.last())
    }
}

/// Whether every byte of `text` is a decimal digit.
pub open spec fn is_digits(text: Seq<u8>) -> bool {
    forall|i: int| 0 <= i < text.len() ==> 0x30 <= #[trigger] text[i] <= 0x39
}

/// The number that the decimal digits `digits` write.
pub open spec fn digits_value(digits: Seq<u8>) -> nat
    decreases digits.len(),
{
    if digits.len() == 0 {
        0
    } else {
        (digits_value(digits.drop_last()) * 10 + (digits.last() - 0x30)) as nat
    }
}

/// The number that `text` writes in decimal digits, with or without a
/// `+` before them, if it writes one that fits 64 bits.
pub open spec fn parsed_u64(text: Seq<u8>) -> Option<u64> {
    let digits = if text.len() > 0 && text[0] == 0x2bu8 {
        text.skip(1)
    } else {
        text
    };
    if digits.len() > 0 && is_digits(digits) && digits_value(digits) <= u64::MAX {
        Some(digits_value(digits) as u64)
    } else {
        None
    }
}

/// The total size that a `Content-Range` value of the form
/// `bytes first-last/total` gives.
pub open spec fn content_range_total_of(value: Seq<u8>) -> Option<u64> {
    parsed_u64(last_segment(value))
}

/// More digits write no smaller a number.
pub proof fn lemma_digits_value_grows(digits: Seq<u8>, k: int)
    requires
        is_digits(digits),
        0 <= k <= digits.len(),
    ensures
        digits_value(digits.take(k)) <= digits_value(digits),
    decreases digits.len(),
{
    if k == digits.len() {
        assert(digits.take(k) =~= digits);
    } else {
        assert(digits.drop_last().take(k) =~= digits.take(k));
        lemma_digits_value_grows(digits.drop_last(), k);
    }
}

/// The total size that the `Content-Range` value `value` gives: the
/// number behind its last slash. There is none where what stands there
/// is no number of 64 bits.
pub fn content_range_total(value: &str) -> (total: Option<u64>)
    ensures
        total == content_range_total_of(value.spec_bytes()),
{
    let bytes = value.as_bytes();
    let len = bytes.len();
    let mut start: usize = 0;
    let mut i: usize = 0;
    while i < len
        invariant
            i <= len,
            len == bytes@.len(),
            start <= i,
            last_segment(bytes@.take(i as int)) == bytes@.subrange(start as int, i as int),
        decreases len - i,
    {
        proof {
            assert(bytes@.take(i + 1).drop_last() =~= bytes@.take(i as int));
            assert(bytes@.subrange(start as int, i as int).push(bytes@[i as int])
                =~= bytes@.subrange(start as int, i + 1));
            assert(bytes@.subrange(i + 1, i + 1) =~= Seq::<u8>::empty());
        }
        if bytes[i] == 0x2f {
            start = i + 1;
        }
        i += 1;
    }
    let ghost segment = bytes@.subrange(start as int, len as int);
    assert(bytes@.take(len as int) =~= bytes@);
    assert(segment == last_segment(value.spec_bytes()));
    if start < len && bytes[start] == 0x2b {
        start += 1;
    }
    let ghost digits = bytes@.subrange(start as int, len as int);
    assert(digits =~= if segment.len() > 0 && segment[0] == 0x2bu8 {
        segment.skip(1)
    } else {
        segment
    });
    if start == len {
        return None;
    }
    let ghost expected = content_range_total_of(value.spec_bytes());
    let mut number: u64 = 0;
    let mut k: usize = start;
    assert(digits.take(0) =~= Seq::<u8>::empty());
    while k < len
        invariant
            start <= k <= len,
            len == bytes@.len(),
            digits == bytes@.subrange(start as int, len as int),
            expected == content_range_total_of(value.spec_bytes()),
            expected == if is_digits(digits) && digits_value(digits) <= u64::MAX {
                Some(digits_value(digits) as u64)
            } else {
                None
            },
            is_digits(digits.take(k - start)),
            number == digits_value(digits.take(k - start)),
        decreases len - k,
    {
        let b = bytes[k];
        proof {
            assert(digits.take(k + 1 - start).drop_last() =~= digits.take(k - start));
            assert(digits.take(k + 1 - start).last() == b);
        }
        if b < 0x30 || b > 0x39 {
            assert(!is_digits(digits)) by {
                assert(digits[k - start] == b);
            }
            return None;
        }
        let digit = (b - 0x30) as u64;
        if number > (u64::MAX - digit) / 10 {
            proof {
                if is_digits(digits) {
                    lemma_digits_value_grows(digits, k + 1 - start);
                }
            }
            return None;
        }
        number = number * 10 + digit;
        k += 1;
    }
    assert(digits.take(len - start) =~= digits);
    assert(expected == Some(number));
    Some(number)
}

/// The total size that a response announces: that of its
/// `Content-Range`, and zero where it has none.
pub open spec fn response_total_of(content_range: Option<Seq<u8>>) -> Option<u64> {
    match content_range {
        Some(value) => content_range_total_of(value),
        None => Some(0),
    }
}

/// The total size that a response with the header `Content-Range` of
/// value `content_range` announces. A response without the header
/// announces zero. There is none where the header holds no number.
pub fn response_total(content_range: Option<&str>) -> (total: Option<u64>)
    ensures
        total == response_total_of(
            match content_range {
                Some(value) => Some(value.spec_bytes()),
                None => None,
            },
        ),
{
    match content_range {
        Some(value) => content_range_total(value),
        None => Some(0),
    }
}

/// The first and the last byte of the range of `size` bytes at
/// `offset`, as a range request names them.
pub fn range_bounds(offset: u64, size: u64) -> (bounds: (u64, u64))
    requires
        size >= 1,
        offset + size - 1 <= u64::MAX,
    ensures
        bounds.0 == offset,
        bounds.1 == offset + size - 1,
{
    (offset, offset + (size - 1))
}

/// The character that writes the digit `d`.
pub open spec fn digit_char(d: int) -> char {
    if d == 0 {
        '0'
    } else if d == 1 {
        '1'
    } else if d == 2 {
        '2'
    } else if d == 3 {
        '3'
    } else if d == 4 {
        '4'
    } else if d == 5 {
        '5'
    } else if d == 6 {
        '6'
    } else if d == 7 {
        '7'
    } else if d == 8 {
        '8'
    } else {
        '9'
    }
}

/// `n` written in decimal digits.
pub open spec fn decimal(n: nat) -> Seq<char>
    decreases n,
{
    if n < 10 {
        seq![digit_char(n as int)]
    } else {
        decimal(n / 10).push(digit_char((n % 10) as int))
    }
}

/// The value of the header `Range` that asks for the bytes from
/// `first` to `last`.
pub open spec fn range_header_of(first: u64, last: u64) -> Seq<char> {
    seq!['b', 'y', 't', 'e', 's', '='] + decimal(first as nat) + seq!['-'] + decimal(last as nat)
}

/// The text that writes the digit `d`.
fn digit_str(d: u8) -> (text: &'static str)
    requires
        d < 10,
    ensures
        text@ == seq![digit_char(d as int)],
{
    proof {
        reveal_strlit("0");
        reveal_strlit("1");
        reveal_strlit("2");
        reveal_strlit("3");
        reveal_strlit("4");
        reveal_strlit("5");
        reveal_strlit("6");
        reveal_strlit("7");
        reveal_strlit("8");
        reveal_strlit("9");
    }
    let text = match d {
        0 => "0",
        1 => "1",
        2 => "2",
        3 => "3",
        4 => "4",
        5 => "5",
        6 => "6",
        7 => "7",
        8 => "8",
        _ => "9",
    };
    assert(text@ =~= seq![digit_char(d as int)]);
    text
}

/// Writes `n` in decimal digits behind `text`.
fn append_decimal(text: &mut String, n: u64)
    ensures
        final(text)@ == old(text)@ + decimal(n as nat),
    decreases n,
{
    if n >= 10 {
        append_decimal(text, n / 10);
    }
    text.append(digit_str((n % 10) as u8));
    assert(text@ =~= old(text)@ + decimal(n as nat));
}

/// The value of the header `Range` that asks for the `size` bytes at
/// `offset`: `bytes=` and the first and the last byte, with a dash
/// between them.
pub fn range_header(offset: u64, size: u64) -> (value: String)
    requires
        size >= 1,
        offset + size - 1 <= u64::MAX,
    ensures
        value@ == range_header_of(offset, (offset + size - 1) as u64),
{
    proof {
        reveal_strlit("bytes=");
        reveal_strlit("-");
    }
    let (first, last) = range_bounds(offset, size);
    let mut value = "bytes=".to_owned();
    assert(value@ =~= seq!['b', 'y', 't', 'e', 's', '=']);
    append_decimal(&mut value, first);
    value.append("-");
    append_decimal(&mut value, last);
    assert(value@ =~= range_header_of(first, last));
    value
}

/// The body of a range response on its way into a block file: where
/// the next chunk goes.
pub struct Transfer {
    offset: u64,
}

impl Transfer {
    /// The logical position in the block file at which the next chunk
    /// is written.
    pub closed spec fn position(&self) -> u64 {
        self.offset
    }

    /// The transfer of a body that begins at logical position `offset`.
    /// There is none where the response announces a total size of
    /// zero: the object is empty and nothing is written.
    pub fn new(total: u64, offset: u64) -> (transfer: Option<Transfer>)
        ensures
            total == 0 <==> transfer is None,
            transfer is Some ==> (transfer->Some_0).position() == offset,
    {
        if total == 0 {
            None
        } else {
            Some(Transfer { offset })
        }
    }

    /// The logical position at which the next chunk is written.
    pub fn offset(&self) -> (offset: u64)
        ensures
            offset == self.position(),
    {
        self.offset
    }

    /// Writes `chunk` to `file` behind what was written before, and
    /// moves on by its length. It fails where the write fails; the
    /// position then stays where it was.
    pub fn store(&mut self, file: &mut BlockFile, chunk: &[u8]) -> (r: Result<(), WebDAVError>)
        requires
            old(file).wf(),
        ensures
            final(file).wf(),
            final(file).is_writable() == old(file).is_writable(),
            chunk@.len() > 0 && !old(file).is_writable() ==> ({
                &&& r is Err
                &&& r->Err_0 is IO
                &&& (r->Err_0)->IO_0 == BlockFileError::ReadOnly
                &&& final(file)@ == old(file)@
                &&& final(self).position() == old(self).position()
            }),
            chunk@.len() == 0 || old(file).is_writable() ==> ({
                let outcome = old(file)@.write(old(self).position() as nat, chunk@);
                &&& final(file)@ == outcome.file
                &&& outcome.written == 0 ==> final(file).image() == old(file).image()
                &&& outcome.error is None ==> r is Ok && final(self).position()
                    == old(self).position() + chunk@.len()
                &&& outcome.error is Some ==> r is Err && r->Err_0 is IO && Some((r->Err_0)->IO_0)
                    == outcome.error && final(self).position() == old(self).position()
            }),
    {
        let ghost before = file@;
        let chunk_len = chunk.len();
        proof {
            file.lemma_image_parses();
            before.lemma_write_marks(self.offset as nat, chunk@);
        }
        let ghost outcome = before.write(self.offset as nat, chunk@);
        match file.write(chunk, self.offset) {
            Ok(n) => {
                proof {
                    if n > 0 {
                        let last = (self.offset + n - 1) as nat;
                        let size = before.header.block_size as int;
                        let count = before.header.entries.len() as int;
                        assert(before.header.block_of(last) < count);
                        lemma_block_split(last as int, size);
                        lemma_chunk_end(last as int, 1, size, count);
                        assert(count * size <= u32::MAX * u32::MAX) by (nonlinear_arith)
                            requires
                                0 <= count <= u32::MAX,
                                0 < size <= u32::MAX,
                        ;
                    }
                }
                self.offset = self.offset + n as u64;
                Ok(())
            },
            Err(e) => Err(WebDAVError::IO(e)),
        }
    }
}

} // verus!
