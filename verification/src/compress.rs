//! The encoder: forward compression of sorted line lists.

use vstd::prelude::*;

use crate::codec::{
    common_prefix_len, encode_count_spec, encode_list_spec, lemma_common_prefix_from_scan,
    lemma_common_prefix_len, lemma_line_chunk_len_bounds, line_chunk_len, record_spec, stream_line,
};
use crate::util::{read_line, ByteReader};

verus! {

/// What compressing the rest of a line stream appends, given the previous
/// line `prev`: each line becomes a record, empty lines are skipped.
pub open spec fn compress_stream_spec(prev: Seq<u8>, s: Seq<u8>) -> Seq<u8>
    decreases s.len(),
{
    if s.len() == 0 {
        Seq::empty()
    } else {
        let c = line_chunk_len(s);
        if c < 1 || c > s.len() {
            Seq::empty()
        } else {
            let line = stream_line(s);
            if line.len() == 0 {
                compress_stream_spec(prev, s.skip(c))
            } else {
                record_spec(prev, line) + compress_stream_spec(line, s.skip(c))
            }
        }
    }
}

/// Every line of the stream `s` is short enough for its shared-prefix count
/// to fit in the count header.
pub open spec fn stream_lines_bounded(s: Seq<u8>) -> bool
    decreases s.len(),
{
    if s.len() == 0 {
        true
    } else {
        let c = line_chunk_len(s);
        if c < 1 || c > s.len() {
            true
        } else {
            stream_line(s).len() <= u32::MAX && stream_lines_bounded(s.skip(c))
        }
    }
}

/// Appends one record to `lines.push(l)` at the end of an encoded list.
pub proof fn lemma_encode_list_snoc(prev: Seq<u8>, lines: Seq<Seq<u8>>, l: Seq<u8>)
    ensures
        encode_list_spec(prev, lines.push(l)) == encode_list_spec(prev, lines) + record_spec(
            if lines.len() == 0 {
                prev
            } else {
                lines.last()
            },
            l,
        ),
    decreases lines.len(),
{
    if lines.len() == 0 {
        assert(lines.push(l)[0] == l);
        assert(lines.push(l).drop_first() =~= Seq::<Seq<u8>>::empty());
        assert(encode_list_spec(l, Seq::<Seq<u8>>::empty()) =~= Seq::<u8>::empty());
        assert(encode_list_spec(prev, lines.push(l)) =~= record_spec(prev, l));
        assert(encode_list_spec(prev, lines) + record_spec(prev, l) =~= record_spec(prev, l));
    } else {
        assert(lines.push(l).drop_first() =~= lines.drop_first().push(l));
        lemma_encode_list_snoc(lines[0], lines.drop_first(), l);
        assert(encode_list_spec(prev, lines.push(l)) =~= encode_list_spec(prev, lines)
            + record_spec(lines.last(), l));
    }
}

/// Number of leading bytes shared by `a` and `b`.
pub fn common_prefix_count(a: &[u8], b: &[u8]) -> (r: u32)
    requires
        common_prefix_len(a@, b@) <= u32::MAX,
    ensures
        r as nat == common_prefix_len(a@, b@),
{
    let mut i: usize = 0;
    while i < a.len() && i < b.len() && a[i] == b[i]
        invariant
            i <= a@.len(),
            i <= b@.len(),
            forall|j: int| 0 <= j < i ==> a@[j] == b@[j],
        decreases a@.len() - i,
    {
        i = i + 1;
    }
    proof {
        lemma_common_prefix_from_scan(a@, b@, i as int);
    }
    i as u32
}

/// Appends the count header that encodes `count`.
pub fn encode_count(result: &mut Vec<u8>, count: u32)
    ensures
        final(result)@ == old(result)@ + encode_count_spec(count as nat),
{
    let ghost orig = result@;
    if count == 10 {
        result.push(251);
    } else if count <= 250 {
        result.push(count as u8);
    } else if count <= 255 {
        result.push(252);
        result.push(count as u8);
    } else if count <= 0xFFFF {
        result.push(253);
        result.push((count % 256) as u8);
        result.push((count / 256) as u8);
    } else if count <= 0xFFFFFF {
        result.push(254);
        result.push((count % 256) as u8);
        result.push(((count / 256) % 256) as u8);
        result.push((count / 0x10000) as u8);
    } else {
        result.push(255);
        result.push((count % 256) as u8);
        result.push(((count / 256) % 256) as u8);
        result.push(((count / 0x10000) % 256) as u8);
        result.push((count / 0x1000000) as u8);
    }
    assert(result@ =~= orig + encode_count_spec(count as nat));
}

/// Appends one full record: the header for `count`, the suffix `line`, and
/// the record terminator.
pub fn push_line(result: &mut Vec<u8>, count: u32, line: &[u8])
    ensures
        final(result)@ == old(result)@ + encode_count_spec(count as nat) + line@ + seq![10u8],
{
    let ghost orig = result@;
    encode_count(result, count);
    result.extend_from_slice(line);
    result.push(10);
    assert(result@ =~= orig + encode_count_spec(count as nat) + line@ + seq![10u8]);
}

/// Forward-compresses the uncompressed `line` given the (uncompressed)
/// previous line `prev_line` and appends the compressed record (including
/// its terminator) to `result`.
pub fn compress_line(result: &mut Vec<u8>, prev_line: &[u8], line: &[u8])
    requires
        common_prefix_len(prev_line@, line@) <= u32::MAX,
    ensures
        final(result)@ == old(result)@ + record_spec(prev_line@, line@),
{
    proof {
        lemma_common_prefix_len(prev_line@, line@);
    }
    let common = common_prefix_count(prev_line, line);
    if common == 0 {
        push_line(result, common, line);
        assert(line@.skip(0) =~= line@);
    } else {
        let substring = &line[common as usize..line.len()];
        push_line(result, common, substring);
    }
}

/// Forward-compresses the lines in `sorted_lines` (which must be sorted for
/// the output to mean anything; the byte-level contract holds regardless).
/// The trailing record terminator is removed from the result.
pub fn compress_lines(sorted_lines: &[&[u8]]) -> (r: Vec<u8>)
    requires
        forall|i: int|
            0 <= i < sorted_lines@.len() ==> (#[trigger] sorted_lines@[i])@.len() <= u32::MAX,
    ensures
        sorted_lines@.len() == 0 ==> r@ =~= Seq::<u8>::empty(),
        sorted_lines@.len() > 0 ==> r@ == encode_list_spec(
            Seq::empty(),
            sorted_lines.deep_view(),
        ).drop_last(),
{
    let ghost lines = sorted_lines.deep_view();
    let mut result = Vec::<u8>::new();
    if sorted_lines.len() == 0 {
        return result;
    }
    assert(forall|i: int| 0 <= i < lines.len() ==> lines[i] == (#[trigger] sorted_lines@[i])@);

    let first: &[u8] = sorted_lines[0];
    let empty_line: Vec<u8> = Vec::new();
    proof {
        lemma_common_prefix_len(empty_line@, first@);
    }
    compress_line(&mut result, empty_line.as_slice(), first);
    assert(lines.take(1).drop_first() =~= Seq::<Seq<u8>>::empty());
    assert(lines.take(1)[0] == lines[0]);
    assert(encode_list_spec(lines[0], Seq::<Seq<u8>>::empty()) =~= Seq::<u8>::empty());
    assert(result@ =~= encode_list_spec(Seq::empty(), lines.take(1)));

    let mut prev: &[u8] = first;
    let mut i: usize = 1;
    while i < sorted_lines.len()
        invariant
            1 <= i <= lines.len(),
            lines == sorted_lines.deep_view(),
            lines.len() == sorted_lines@.len(),
            forall|j: int| 0 <= j < lines.len() ==> lines[j] == (#[trigger] sorted_lines@[j])@,
            forall|j: int| 0 <= j < lines.len() ==> #[trigger] lines[j].len() <= u32::MAX,
            prev@ == lines[i - 1],
            result@ == encode_list_spec(Seq::empty(), lines.take(i as int)),
        decreases lines.len() - i,
    {
        let line = sorted_lines[i];
        proof {
            lemma_common_prefix_len(prev@, line@);
            lemma_encode_list_snoc(Seq::empty(), lines.take(i as int), line@);
            assert(lines.take(i as int).push(line@) =~= lines.take(i + 1));
        }
        compress_line(&mut result, prev, line);
        prev = line;
        i = i + 1;
    }
    assert(lines.take(lines.len() as int) =~= lines);
    result.pop();
    result
}

/// Forward-compresses every non-empty line read from the reader; empty
/// lines are ignored, so a stream with none gives an empty result. The
/// lines must be sorted for the output to mean anything; the byte-level
/// contract holds regardless. The trailing record terminator is removed.
pub fn compress_from_reader(reader: &mut ByteReader) -> (r: Vec<u8>)
    requires
        stream_lines_bounded(old(reader).remaining()),
    ensures
        final(reader).remaining().len() == 0,
        ({
            let encoded = compress_stream_spec(Seq::empty(), old(reader).remaining());
            &&& encoded.len() == 0 ==> r@ == Seq::<u8>::empty()
            &&& encoded.len() > 0 ==> r@ == encoded.drop_last()
        }),
{
    let ghost s0 = reader.remaining();
    let mut result = Vec::<u8>::new();
    let mut prev = Vec::<u8>::new();

    while !reader.eof()
        invariant
            stream_lines_bounded(reader.remaining()),
            s0 == old(reader).remaining(),
            result@ + compress_stream_spec(prev@, reader.remaining()) == compress_stream_spec(
                Seq::empty(),
                s0,
            ),
        decreases reader.remaining().len(),
    {
        let ghost rem = reader.remaining();
        proof {
            lemma_line_chunk_len_bounds(rem);
        }
        let mut curr = Vec::<u8>::new();
        read_line(reader, &mut curr);
        assert(curr@ == stream_line(rem));
        if curr.len() > 0 {
            proof {
                lemma_common_prefix_len(prev@, curr@);
            }
            compress_line(&mut result, prev.as_slice(), curr.as_slice());
            prev = curr;
        }
    }
    assert(compress_stream_spec(prev@, reader.remaining()) =~= Seq::<u8>::empty());
    assert(result@ =~= result@ + compress_stream_spec(prev@, reader.remaining()));
    result.pop();
    result
}

}
