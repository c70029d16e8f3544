//! Mathematical model of the on-disk database format.
//!
//! A database is a concatenation of records. Each record is
//! `<count header><suffix bytes><0x0A>`, where the count header encodes `k`,
//! the number of leading bytes the record shares with the previous full
//! record, and the suffix holds the remaining bytes. The header rows are:
//! a single byte `0..=250` for a literal small count, `251` for the reserved
//! marker meaning `k == 10` (so that no record starts with a `0x0A` byte),
//! `252` followed by one byte for `251..=255`, and `253`/`254`/`255` followed
//! by two/three/four little-endian bytes for larger counts.

use vstd::prelude::*;

verus! {

/// Number of leading bytes shared by `a` and `b`.
pub open spec fn common_prefix_len(a: Seq<u8>, b: Seq<u8>) -> nat
    decreases a.len(),
{
    if a.len() == 0 || b.len() == 0 || a[0] != b[0] {
        0
    } else {
        1 + common_prefix_len(a.drop_first(), b.drop_first())
    }
}

pub proof fn lemma_common_prefix_len(a: Seq<u8>, b: Seq<u8>)
    ensures
        common_prefix_len(a, b) <= a.len(),
        common_prefix_len(a, b) <= b.len(),
        forall|j: int| 0 <= j < common_prefix_len(a, b) ==> a[j] == b[j],
        common_prefix_len(a, b) < a.len() && common_prefix_len(a, b) < b.len() ==> a[
            common_prefix_len(a, b) as int
        ] != b[common_prefix_len(a, b) as int],
    decreases a.len(),
{
    if a.len() == 0 || b.len() == 0 || a[0] != b[0] {
    } else {
        lemma_common_prefix_len(a.drop_first(), b.drop_first());
        assert forall|j: int| 0 <= j < common_prefix_len(a, b) implies a[j] == b[j] by {
            if j > 0 {
                assert(a.drop_first()[j - 1] == b.drop_first()[j - 1]);
            }
        }
    }
}

/// A scan that stops at the first mismatch (or at the end of either input)
/// has found exactly the common prefix length.
pub proof fn lemma_common_prefix_from_scan(a: Seq<u8>, b: Seq<u8>, n: int)
    requires
        0 <= n <= a.len(),
        n <= b.len(),
        forall|j: int| 0 <= j < n ==> a[j] == b[j],
        n == a.len() || n == b.len() || a[n] != b[n],
    ensures
        common_prefix_len(a, b) == n,
    decreases a.len(),
{
    if n == 0 {
        if a.len() > 0 && b.len() > 0 && a[0] == b[0] {
            assert(0 < a.len() && 0 < b.len() && a[0] != b[0]);
        }
    } else {
        assert(a[0] == b[0]);
        assert(forall|j: int| 0 <= j < n - 1 ==> a.drop_first()[j] == b.drop_first()[j]);
        lemma_common_prefix_from_scan(a.drop_first(), b.drop_first(), n - 1);
    }
}

/// The bytes of the count header that encodes the shared-prefix count `k`.
pub open spec fn encode_count_spec(k: nat) -> Seq<u8>
    recommends
        k <= u32::MAX,
{
    if k == 10 {
        seq![251u8]
    } else if k <= 250 {
        seq![k as u8]
    } else if k <= 255 {
        seq![252u8, k as u8]
    } else if k <= 0xFFFF {
        seq![253u8, (k % 256) as u8, (k / 256) as u8]
    } else if k <= 0xFFFFFF {
        seq![254u8, (k % 256) as u8, ((k / 256) % 256) as u8, (k / 0x10000) as u8]
    } else {
        seq![
            255u8,
            (k % 256) as u8,
            ((k / 256) % 256) as u8,
            ((k / 0x10000) % 256) as u8,
            (k / 0x1000000) as u8,
        ]
    }
}

/// Parses a count header at the front of `s`, returning the count and the
/// offset at which the suffix begins, or `None` when `s` is too short.
pub open spec fn decode_count_spec(s: Seq<u8>) -> Option<(nat, nat)> {
    if s.len() == 0 {
        None
    } else if s[0] == 251 {
        Some((10 as nat, 1 as nat))
    } else if s[0] == 252 {
        if s.len() >= 2 {
            Some((s[1] as nat, 2 as nat))
        } else {
            None
        }
    } else if s[0] == 253 {
        if s.len() >= 3 {
            Some(((s[1] + 256 * s[2]) as nat, 3 as nat))
        } else {
            None
        }
    } else if s[0] == 254 {
        if s.len() >= 4 {
            Some(((s[1] + 256 * s[2] + 0x10000 * s[3]) as nat, 4 as nat))
        } else {
            None
        }
    } else if s[0] == 255 {
        if s.len() >= 5 {
            Some(((s[1] + 256 * s[2] + 0x10000 * s[3] + 0x1000000 * s[4]) as nat, 5 as nat))
        } else {
            None
        }
    } else {
        Some((s[0] as nat, 1 as nat))
    }
}

/// Law: a count header decodes back to the count it was built from, whatever
/// bytes follow it.
pub proof fn lemma_count_round_trip(k: nat, tail: Seq<u8>)
    requires
        k <= u32::MAX,
    ensures
        decode_count_spec(encode_count_spec(k) + tail) == Some(
            (k, encode_count_spec(k).len() as nat),
        ),
{
    let h = encode_count_spec(k);
    let s = h + tail;
    if k == 10 {
        assert(s[0] == 251);
    } else if k <= 250 {
        assert(s[0] == k as u8);
        assert(s[0] != 251 && s[0] != 252 && s[0] != 253 && s[0] != 254 && s[0] != 255);
        assert(s[0] as nat == k);
    } else if k <= 255 {
        assert(s[0] == 252 && s[1] == k as u8);
        assert(s[1] as nat == k);
    } else if k <= 0xFFFF {
        assert(s[0] == 253 && s[1] == (k % 256) as u8 && s[2] == (k / 256) as u8);
        assert(k / 256 <= 255) by (nonlinear_arith)
            requires k <= 0xFFFFnat;
        vstd::arithmetic::div_mod::lemma_fundamental_div_mod(k as int, 256);
        assert(s[1] + 256 * s[2] == k);
    } else if k <= 0xFFFFFF {
        assert(s[0] == 254);
        assert(k / 0x10000 <= 255) by (nonlinear_arith)
            requires k <= 0xFFFFFFnat;
        vstd::arithmetic::div_mod::lemma_fundamental_div_mod(k as int, 256);
        vstd::arithmetic::div_mod::lemma_fundamental_div_mod(k as int / 256, 256);
        assert(k / 256 / 256 == k / 0x10000) by {
            vstd::arithmetic::div_mod::lemma_div_denominator(k as int, 256, 256);
        }
        assert(s[1] + 256 * s[2] + 0x10000 * s[3] == k);
    } else {
        assert(s[0] == 255);
        assert(k / 0x1000000 <= 255) by (nonlinear_arith)
            requires k <= u32::MAX as nat;
        vstd::arithmetic::div_mod::lemma_fundamental_div_mod(k as int, 256);
        vstd::arithmetic::div_mod::lemma_fundamental_div_mod(k as int / 256, 256);
        vstd::arithmetic::div_mod::lemma_fundamental_div_mod(k as int / 0x10000, 256);
        assert(k / 256 / 256 == k / 0x10000) by {
            vstd::arithmetic::div_mod::lemma_div_denominator(k as int, 256, 256);
        }
        assert(k / 0x10000 / 256 == k / 0x1000000) by {
            vstd::arithmetic::div_mod::lemma_div_denominator(k as int, 0x10000, 256);
        }
        assert(s[1] + 256 * s[2] + 0x10000 * s[3] + 0x1000000 * s[4] == k);
    }
}

/// Law: the encoder's header is minimal: no header that decodes to the same
/// count is shorter.
pub proof fn lemma_count_encoding_minimal(s: Seq<u8>, k: nat, d: nat)
    requires
        decode_count_spec(s) == Some((k, d)),
    ensures
        k <= u32::MAX,
        encode_count_spec(k).len() <= d,
{
}

/// The on-wire record for `line` when the previous full record is `prev`.
pub open spec fn record_spec(prev: Seq<u8>, line: Seq<u8>) -> Seq<u8> {
    let k = common_prefix_len(prev, line);
    encode_count_spec(k) + line.skip(k as int) + seq![10u8]
}

/// The whole database: each line encoded against its predecessor, the first
/// one against `prev`.
pub open spec fn encode_list_spec(prev: Seq<u8>, lines: Seq<Seq<u8>>) -> Seq<u8>
    decreases lines.len(),
{
    if lines.len() == 0 {
        Seq::empty()
    } else {
        record_spec(prev, lines[0]) + encode_list_spec(lines[0], lines.drop_first())
    }
}

/// Index of the first newline byte of `s` at or after `from`, or `-1` when
/// there is none.
pub open spec fn first_nl_from(s: Seq<u8>, from: int) -> int
    decreases s.len() - from,
{
    if from < 0 || from >= s.len() {
        -1
    } else if s[from] == 10 {
        from
    } else {
        first_nl_from(s, from + 1)
    }
}

pub proof fn lemma_first_nl_bounds(s: Seq<u8>, from: int)
    requires
        0 <= from,
    ensures
        first_nl_from(s, from) == -1 || from <= first_nl_from(s, from) < s.len(),
        first_nl_from(s, from) >= 0 ==> s[first_nl_from(s, from)] == 10,
        forall|j: int|
            from <= j < s.len() && (first_nl_from(s, from) == -1 || j < first_nl_from(s, from))
                ==> s[j] != 10,
    decreases s.len() - from,
{
    if from < s.len() && s[from] != 10 {
        lemma_first_nl_bounds(s, from + 1);
    }
}

/// Bytes consumed by one read-until-newline from the front of `s`: through
/// the first newline, or all of `s` when it holds none.
pub open spec fn line_chunk_len(s: Seq<u8>) -> int {
    let t = first_nl_from(s, 0);
    if t == -1 {
        s.len() as int
    } else {
        t + 1
    }
}

pub proof fn lemma_line_chunk_len_bounds(s: Seq<u8>)
    ensures
        0 <= line_chunk_len(s) <= s.len(),
        s.len() > 0 ==> 1 <= line_chunk_len(s),
{
    lemma_first_nl_bounds(s, 0);
}

/// The line a single read of the stream `s` yields: the first chunk with a
/// trailing newline stripped.
pub open spec fn stream_line(s: Seq<u8>) -> Seq<u8> {
    let chunk = s.take(line_chunk_len(s));
    if chunk.len() > 0 && chunk.last() == 10 {
        chunk.drop_last()
    } else {
        chunk
    }
}

/// The reader's completion rule for one buffered record: the buffer ends at a
/// newline that cannot still be inside the count header. A `253`/`254`/`255`
/// header carries two/three/four extra bytes, any of which may be `0x0A`, so
/// the buffer is complete only once it is longer than the whole header.
pub open spec fn entry_complete(buf: Seq<u8>) -> bool {
    &&& buf.len() >= 2
    &&& buf.last() == 10
    &&& (buf[0] == 253 ==> buf.len() > 3)
    &&& (buf[0] == 254 ==> buf.len() > 4)
    &&& (buf[0] == 255 ==> buf.len() > 5)
}

/// Length of the first complete record of `s` at or after `from` (terminator
/// included), or `-1` when the data ends before the record is complete.
pub open spec fn entry_len_from(s: Seq<u8>, from: int) -> int
    decreases s.len() - from,
{
    if from < 0 || from >= s.len() {
        -1
    } else if s[from] == 10 && entry_complete(s.take(from + 1)) {
        from + 1
    } else {
        entry_len_from(s, from + 1)
    }
}

/// Length of the first complete record of `s`, terminator included.
pub open spec fn entry_len(s: Seq<u8>) -> int {
    entry_len_from(s, 0)
}

pub proof fn lemma_entry_len_bounds(s: Seq<u8>, from: int)
    requires
        0 <= from,
    ensures
        entry_len_from(s, from) == -1 || from < entry_len_from(s, from) <= s.len(),
    decreases s.len() - from,
{
    if from < s.len() && !(s[from] == 10 && entry_complete(s.take(from + 1))) {
        lemma_entry_len_bounds(s, from + 1);
    }
}

/// Scanning across positions that do not end a complete record does not
/// change where the record ends.
pub proof fn lemma_entry_len_skip(s: Seq<u8>, from: int, to: int)
    requires
        0 <= from <= to <= s.len(),
        forall|j: int| from <= j < to ==> !(s[j] == 10 && entry_complete(s.take(j + 1))),
    ensures
        entry_len_from(s, from) == entry_len_from(s, to),
    decreases to - from,
{
    if from < to {
        lemma_entry_len_skip(s, from + 1, to);
    }
}

/// Law: the record framing is readable. An encoded record followed by
/// anything is delimited at exactly its own length by the reader's rule, and
/// a record whose first byte is `253`, `254` or `255` is strictly longer than
/// `3`, `4` or `5` bytes, which justifies that rule.
pub proof fn lemma_record_framing(prev: Seq<u8>, line: Seq<u8>, rest: Seq<u8>)
    requires
        common_prefix_len(prev, line) <= u32::MAX,
        forall|j: int| 0 <= j < line.len() ==> line[j] != 10,
    ensures
        record_spec(prev, line)[0] == 253 ==> record_spec(prev, line).len() > 3,
        record_spec(prev, line)[0] == 254 ==> record_spec(prev, line).len() > 4,
        record_spec(prev, line)[0] == 255 ==> record_spec(prev, line).len() > 5,
        entry_len(record_spec(prev, line) + rest) == record_spec(prev, line).len(),
{
    let k = common_prefix_len(prev, line);
    let h = encode_count_spec(k);
    let r = record_spec(prev, line);
    let s = r + rest;
    let n = r.len() as int;
    lemma_common_prefix_len(prev, line);
    // the suffix has line.len() - k bytes, none of them a newline
    assert(r =~= h + line.skip(k as int) + seq![10u8]);
    assert(n == h.len() + line.len() - k + 1);
    // the first byte of the header is never a newline
    assert(h[0] != 10);
    // within the record, newlines occur only among the header's extra bytes
    // (positions 1 .. h.len()) and at the terminator
    assert forall|j: int| 0 <= j < n - 1 && s[j] == 10 implies !entry_complete(
        s.take(j + 1),
    ) by {
        if j >= h.len() {
            assert(s[j] == line[k + j - h.len()]);
        } else {
            // j is an extra header byte, so the header has at least j + 1
            // extra bytes: with two extras the first byte is 253, with three
            // 254, with four 255, and completion demands more than j + 2 bytes
            assert(1 <= j < h.len());
            assert(s.take(j + 1)[0] == h[0]);
            assert(s.take(j + 1).len() == j + 1);
            assert(h.len() <= 5);
            if h.len() == 3 {
                assert(h[0] == 253);
            } else if h.len() == 4 {
                assert(h[0] == 254);
            } else if h.len() == 5 {
                assert(h[0] == 255);
            }
        }
    }
    lemma_entry_len_skip(s, 0, n - 1);
    assert(s[n - 1] == 10);
    assert(s.take(n) =~= r);
    assert(entry_complete(s.take(n)));
    assert(entry_len_from(s, n - 1) == n);
}

/// Decodes one record (terminator already stripped) against the previous
/// full record, or `None` when the header is short or claims more shared
/// bytes than the previous record has.
pub open spec fn decode_record_spec(prev: Seq<u8>, rec: Seq<u8>) -> Option<Seq<u8>> {
    match decode_count_spec(rec) {
        None => None,
        Some((k, d)) => if k <= prev.len() && d <= rec.len() {
            Some(prev.take(k as int) + rec.skip(d as int))
        } else {
            None
        },
    }
}

/// Decodes a whole database: splits it into records by the reader's rule and
/// decodes each against the carry of the previous full record.
pub open spec fn decode_db_spec(prev: Seq<u8>, s: Seq<u8>) -> Option<Seq<Seq<u8>>>
    decreases s.len(),
{
    if s.len() == 0 {
        Some(Seq::empty())
    } else {
        let el = entry_len(s);
        if el < 1 || el > s.len() {
            None
        } else {
            let rec = s.take(el).drop_last();
            match decode_record_spec(prev, rec) {
                None => None,
                Some(full) => match decode_db_spec(full, s.skip(el)) {
                    None => None,
                    Some(tail_lines) => Some(seq![full] + tail_lines),
                },
            }
        }
    }
}

/// Law: round trip. Encoding any list of newline-free lines against a carry
/// and decoding the resulting bytes against the same carry returns the list.
pub proof fn lemma_round_trip(prev: Seq<u8>, lines: Seq<Seq<u8>>)
    requires
        forall|i: int| 0 <= i < lines.len() ==> #[trigger] lines[i].len() <= u32::MAX,
        forall|i: int, j: int|
            0 <= i < lines.len() && 0 <= j < lines[i].len() ==> #[trigger] lines[i][j] != 10,
    ensures
        decode_db_spec(prev, encode_list_spec(prev, lines)) == Some(lines),
    decreases lines.len(),
{
    if lines.len() == 0 {
        assert(decode_db_spec(prev, encode_list_spec(prev, lines)) =~= Some(
            Seq::<Seq<u8>>::empty(),
        ));
    } else {
        let l0 = lines[0];
        let k = common_prefix_len(prev, l0);
        let r = record_spec(prev, l0);
        let tail = encode_list_spec(l0, lines.drop_first());
        let s = r + tail;
        lemma_common_prefix_len(prev, l0);
        lemma_record_framing(prev, l0, tail);
        let el = entry_len(s);
        assert(el == r.len());
        assert(s.take(el) =~= r);
        let rec = s.take(el).drop_last();
        assert(rec =~= encode_count_spec(k) + l0.skip(k as int));
        lemma_count_round_trip(k, l0.skip(k as int));
        let d = encode_count_spec(k).len() as int;
        assert(decode_count_spec(rec) == Some((k, d as nat)));
        assert(rec.skip(d) =~= l0.skip(k as int));
        let full = prev.take(k as int) + rec.skip(d);
        assert(prev.take(k as int) =~= l0.take(k as int));
        assert(full =~= l0);
        assert(decode_record_spec(prev, rec) == Some(l0));
        assert(s.skip(el) =~= tail);
        lemma_round_trip(l0, lines.drop_first());
        assert(decode_db_spec(l0, tail) == Some(lines.drop_first()));
        assert(seq![l0] + lines.drop_first() =~= lines);
    }
}

}
