//! Byte-stream primitives over an in-memory database image: read one line,
//! or one complete compressed record, transparently continuing across
//! newline bytes that sit inside a multi-byte count header.

use vstd::prelude::*;

pub use crate::matcher::caseless_contains;

use crate::codec::{
    entry_complete, entry_len, entry_len_from, first_nl_from, lemma_first_nl_bounds,
    line_chunk_len,
};

verus! {

/// Error of the record reader: the data ended before the record did.
#[derive(Clone, Copy, Debug, PartialEq, Eq, Structural)]
pub enum ReadError {
    UnexpectedEof,
}

/// A buffered reader over an in-memory byte image of a database.
pub struct ByteReader {
    data: Vec<u8>,
    pos: usize,
}

impl ByteReader {
    /// The bytes not yet consumed.
    pub closed spec fn remaining(self) -> Seq<u8> {
        if self.pos <= self.data@.len() {
            self.data@.skip(self.pos as int)
        } else {
            Seq::empty()
        }
    }

    pub fn new(data: Vec<u8>) -> (r: ByteReader)
        ensures
            r.remaining() == data@,
    {
        let r = ByteReader { data, pos: 0 };
        proof {
            assert(r.remaining() =~= r.data@);
        }
        r
    }

    /// Number of bytes not yet consumed.
    pub fn remaining_len(&self) -> (n: usize)
        ensures
            n == self.remaining().len(),
    {
        if self.pos >= self.data.len() {
            0
        } else {
            self.data.len() - self.pos
        }
    }

    /// True when every byte has been consumed.
    pub fn eof(&self) -> (r: bool)
        ensures
            r == (self.remaining().len() == 0),
    {
        self.pos >= self.data.len()
    }
}

/// Appends bytes through the next newline (or to the end of the data) to
/// `buf` and returns how many were consumed.
fn read_until_nl(reader: &mut ByteReader, buf: &mut Vec<u8>) -> (n: usize)
    ensures
        n == line_chunk_len(old(reader).remaining()),
        final(buf)@ == old(buf)@ + old(reader).remaining().take(n as int),
        final(reader).remaining() == old(reader).remaining().skip(n as int),
{
    let ghost s = reader.remaining();
    let ghost p0 = reader.pos as int;
    proof {
        lemma_first_nl_bounds(s, 0);
    }
    if reader.pos >= reader.data.len() {
        assert(s.len() == 0);
        assert(final(buf)@ =~= old(buf)@ + s.take(0));
        assert(reader.remaining() =~= s.skip(0));
        return 0;
    }
    let mut n: usize = 0;
    while reader.pos < reader.data.len() && reader.data[reader.pos] != 10
        invariant
            reader.data == old(reader).data,
            p0 == old(reader).pos as int,
            reader.pos as int == p0 + n,
            p0 <= reader.data@.len(),
            reader.pos <= reader.data@.len(),
            s == reader.data@.skip(p0),
            n <= s.len(),
            forall|j: int| 0 <= j < n ==> s[j] != 10,
            buf@ == old(buf)@ + s.take(n as int),
        decreases reader.data@.len() - reader.pos,
    {
        let b = reader.data[reader.pos];
        buf.push(b);
        reader.pos = reader.pos + 1;
        n = n + 1;
        assert(buf@ =~= old(buf)@ + s.take(n as int));
    }
    if reader.pos < reader.data.len() {
        // the next byte is the newline: consume it too
        let b = reader.data[reader.pos];
        buf.push(b);
        reader.pos = reader.pos + 1;
        n = n + 1;
        assert(s[n - 1] == 10);
        assert(first_nl_from(s, 0) == n - 1) by {
            lemma_first_nl_bounds(s, 0);
        }
        assert(buf@ =~= old(buf)@ + s.take(n as int));
    } else {
        assert(n == s.len());
        assert(first_nl_from(s, 0) == -1) by {
            lemma_first_nl_bounds(s, 0);
        }
        assert(s.take(n as int) =~= s);
    }
    assert(reader.remaining() =~= s.skip(n as int));
    n
}

/// Reads one line: appends bytes through the next newline to `buf`, then
/// strips a trailing newline from `buf`. Returns the number of bytes
/// consumed, `0` at the end of the data.
pub fn read_line(reader: &mut ByteReader, buf: &mut Vec<u8>) -> (n: usize)
    ensures
        n == line_chunk_len(old(reader).remaining()),
        final(reader).remaining() == old(reader).remaining().skip(n as int),
        final(buf)@ == ({
            let joined = old(buf)@ + old(reader).remaining().take(n as int);
            if joined.len() > 0 && joined.last() == 10 {
                joined.drop_last()
            } else {
                joined
            }
        }),
{
    let n = read_until_nl(reader, buf);
    if buf.len() > 0 && buf[buf.len() - 1] == 10 {
        buf.pop();
    }
    n
}

/// Reads one line including its newline terminator, appending to `buf`;
/// returns the number of bytes consumed, `0` at the end of the data.
pub fn read_line_include_newline(reader: &mut ByteReader, buf: &mut Vec<u8>) -> (n: usize)
    ensures
        n == line_chunk_len(old(reader).remaining()),
        final(buf)@ == old(buf)@ + old(reader).remaining().take(n as int),
        final(reader).remaining() == old(reader).remaining().skip(n as int),
{
    read_until_nl(reader, buf)
}

/// True when the newline that ends `buf` really ends the record, rather than
/// sitting inside a `253`/`254`/`255` count header's extra bytes.
pub fn last_char_is_line_sep_newline(buf: &[u8]) -> (r: bool)
    requires
        buf@.len() > 0,
        buf@.last() == 10,
    ensures
        r == entry_complete(buf@),
{
    if buf.len() == 1 {
        return false;
    }
    let b0 = buf[0];
    if b0 == 253 {
        buf.len() > 3
    } else if b0 == 254 {
        buf.len() > 4
    } else if b0 == 255 {
        buf.len() > 5
    } else {
        true
    }
}

/// Reads one complete compressed record, terminator included, into the empty
/// `buf`. A newline may sit inside a multi-byte count header, so reading
/// continues until the accumulated buffer satisfies the completion rule.
/// Returns the number of bytes consumed, `Ok(0)` at the end of the data, and
/// `Err` when the data ends inside a record.
pub fn read_db_entry_include_newline(reader: &mut ByteReader, buf: &mut Vec<u8>) -> (r: Result<
    usize,
    ReadError,
>)
    requires
        old(buf)@.len() == 0,
    ensures
        ({
            let s = old(reader).remaining();
            let el = entry_len(s);
            match r {
                Ok(n) => {
                    &&& (n == 0 <==> s.len() == 0)
                    &&& (s.len() > 0 ==> n == el)
                    &&& final(buf)@ == s.take(n as int)
                    &&& final(reader).remaining() == s.skip(n as int)
                },
                Err(e) => {
                    &&& e == ReadError::UnexpectedEof
                    &&& s.len() > 0
                    &&& el == -1
                },
            }
        }),
{
    let ghost s = reader.remaining();
    let mut done = false;
    let mut failed = false;
    while !done && !failed
        invariant
            s == old(reader).remaining(),
            old(buf)@.len() == 0,
            buf@.len() <= s.len(),
            buf@ == s.take(buf@.len() as int),
            reader.remaining() == s.skip(buf@.len() as int),
            !done && !failed ==> forall|j: int|
                0 <= j < buf@.len() ==> !(s[j] == 10 && entry_complete(s.take(j + 1))),
            done ==> buf@.len() > 0 && s[buf@.len() - 1] == 10 && entry_complete(
                s.take(buf@.len() as int),
            ) && (forall|j: int|
                0 <= j < buf@.len() - 1 ==> !(s[j] == 10 && entry_complete(s.take(j + 1)))),
            failed ==> buf@.len() == s.len() && s.len() > 0 && (forall|j: int|
                0 <= j < s.len() ==> !(s[j] == 10 && entry_complete(s.take(j + 1)))),
            done ==> !failed,
        decreases s.len() - buf@.len() + (if done || failed { 0int } else { 1int }),
    {
        let ghost t0 = buf@.len() as int;
        let ghost rem = reader.remaining();
        let n = read_until_nl(reader, buf);
        proof {
            crate::codec::lemma_line_chunk_len_bounds(rem);
            lemma_first_nl_bounds(rem, 0);
        }
        if n == 0 {
            if buf.len() == 0 {
                assert(s.len() == 0);
                assert(buf@ =~= s.take(0));
                assert(reader.remaining() =~= s.skip(0));
                return Ok(0);
            }
            failed = true;
            assert(buf@.len() == s.len());
            assert(s.take(s.len() as int) =~= s);
        } else {
            let ghost t1 = buf@.len() as int;
            proof {
                assert(t1 == t0 + n);
                assert(buf@ =~= s.take(t1));
                assert(reader.remaining() =~= s.skip(t1));
                // bytes of this chunk before its last one are not newlines
                assert forall|j: int| t0 <= j < t1 - 1 implies s[j] != 10 by {
                    assert(s[j] == rem[j - t0]);
                }
            }
            let blen = buf.len();
            if buf[blen - 1] == 10 {
                if last_char_is_line_sep_newline(buf.as_slice()) {
                    done = true;
                } else {
                    assert(s[t1 - 1] == 10 && !entry_complete(s.take(t1)));
                }
            } else {
                // the data ended without a newline; the next read returns 0
                assert(s[t1 - 1] != 10);
                assert(first_nl_from(rem, 0) == -1);
                assert(t1 == s.len());
            }
        }
    }
    if failed {
        proof {
            crate::codec::lemma_entry_len_skip(s, 0, s.len() as int);
        }
        return Err(ReadError::UnexpectedEof);
    }
    let total = buf.len();
    proof {
        crate::codec::lemma_entry_len_skip(s, 0, total - 1);
        assert(entry_len_from(s, total - 1) == total as int);
    }
    Ok(total)
}

}
