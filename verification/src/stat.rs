//! A statistics pass: counts the records of a database image and its size.

use vstd::prelude::*;

use crate::codec::{entry_len, lemma_entry_len_bounds};
use crate::util::{read_db_entry_include_newline, ByteReader, ReadError};

verus! {

/// What the statistics pass reports.
#[derive(Debug, PartialEq, Eq, Structural)]
pub struct Stats {
    /// Number of records (one per indexed file).
    pub indexed_files: u64,
    /// Total size of the database in bytes.
    pub size_bytes: u64,
}

/// Error of the statistics pass: the database image is truncated.
#[derive(Debug, PartialEq, Eq, Structural)]
pub enum StatsError {
    IO(ReadError),
}

/// Number of complete records in a database image, or `None` when the image
/// ends inside a record.
pub open spec fn count_entries_spec(s: Seq<u8>) -> Option<nat>
    decreases s.len(),
{
    if s.len() == 0 {
        Some(0 as nat)
    } else {
        let el = entry_len(s);
        if el < 1 || el > s.len() {
            None
        } else {
            match count_entries_spec(s.skip(el)) {
                None => None,
                Some(c) => Some((c + 1) as nat),
            }
        }
    }
}

/// Scans the whole database image and reports the number of records and the
/// total number of bytes; a truncated image gives an `IO` error.
pub fn get_stats(database_file_reader: &mut ByteReader) -> (r: Result<Stats, StatsError>)
    ensures
        match r {
            Ok(st) => {
                &&& count_entries_spec(old(database_file_reader).remaining()) == Some(
                    st.indexed_files as nat,
                )
                &&& st.size_bytes as nat == old(database_file_reader).remaining().len()
            },
            Err(e) => {
                &&& count_entries_spec(old(database_file_reader).remaining()) is None
                &&& e == StatsError::IO(ReadError::UnexpectedEof)
            },
        },
        r is Ok ==> final(database_file_reader).remaining().len() == 0,
{
    let ghost s0 = database_file_reader.remaining();
    let total_len = database_file_reader.remaining_len();
    let mut lines: u64 = 0;
    let mut bytes: u64 = 0;
    while !database_file_reader.eof()
        invariant
            s0 == old(database_file_reader).remaining(),
            s0.len() == total_len,
            bytes as nat == s0.len() - database_file_reader.remaining().len(),
            lines <= bytes,
            ({
                match count_entries_spec(database_file_reader.remaining()) {
                    Some(c) => count_entries_spec(s0) == Some((c + lines) as nat),
                    None => count_entries_spec(s0) is None,
                }
            }),
        decreases database_file_reader.remaining().len(),
    {
        let ghost rem = database_file_reader.remaining();
        let mut buf: Vec<u8> = Vec::new();
        let n = match read_db_entry_include_newline(database_file_reader, &mut buf) {
            Ok(n) => n,
            Err(e) => {
                proof {
                    lemma_entry_len_bounds(rem, 0);
                }
                return Err(StatsError::IO(e));
            },
        };
        proof {
            lemma_entry_len_bounds(rem, 0);
        }
        assert(n >= 1);
        bytes = bytes + (n as u64);
        lines = lines + 1;
    }
    assert(count_entries_spec(database_file_reader.remaining()) == Some(0 as nat));
    Ok(Stats { indexed_files: lines, size_bytes: bytes })
}

}
