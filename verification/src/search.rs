//! The streaming searcher: single-pass decompression of a database image
//! with carry-forward of the previous full path, evaluating a conjunction of
//! case-insensitive substring queries.

use vstd::prelude::*;
use vstd::string::StringSliceAdditionalSpecFns;
use vstd::utf8::{decode_utf8, decode_utf8_encode_utf8, encode_utf8, is_ascii_chars, valid_utf8};

use crate::codec::{
    decode_count_spec, decode_record_spec, entry_len, lemma_entry_len_bounds, line_chunk_len,
    stream_line,
};
use crate::matcher::{caseless_contains, spec_caseless_contains};
use crate::util::{read_db_entry_include_newline, read_line, ByteReader, ReadError};

verus! {

/// Whether a query must match (`Include`) or must not match (`Exclude`).
#[derive(Debug, PartialEq, Eq, Structural)]
pub enum MatchType {
    Include,
    Exclude,
}

/// One substring query of a search conjunction.
#[derive(Debug)]
pub struct SearchQuery<'a> {
    query: &'a str,
    match_type: MatchType,
    ascii_only: bool,
}

impl<'a> SearchQuery<'a> {
    /// The query text.
    pub closed spec fn spec_query(self) -> Seq<char> {
        self.query@
    }

    /// Whether the query is an `Include` query.
    pub closed spec fn spec_is_include(self) -> bool {
        self.match_type == MatchType::Include
    }

    /// Whether the ASCII fast path was selected for this query.
    pub closed spec fn spec_ascii_only(self) -> bool {
        self.ascii_only
    }

    pub fn new(query: &'a str, match_type: MatchType) -> (r: Self)
        ensures
            r.spec_query() == query@,
            r.spec_is_include() == (match_type == MatchType::Include),
            r.spec_ascii_only() == is_ascii_chars(query@),
    {
        let ascii_only = query.is_ascii();
        SearchQuery { query, match_type, ascii_only }
    }
}

/// Error of a search: `IO` for a truncated database, `Encoding` when a
/// record cannot be decoded to a UTF-8 path (a malformed count header, a
/// count longer than the previous path, or invalid UTF-8).
#[derive(Debug, PartialEq, Eq, Structural)]
pub enum SearchError {
    IO(ReadError),
    Encoding,
}

/// Whether `path` passes the single query `q`: an `Include` query must hit,
/// an `Exclude` query must not.
pub open spec fn query_passes(path: Seq<char>, q: SearchQuery) -> bool {
    let hit = spec_caseless_contains(path, q.spec_query(), q.spec_ascii_only());
    if q.spec_is_include() {
        hit
    } else {
        !hit
    }
}

/// Whether `path` passes every query of the conjunction.
pub open spec fn spec_is_match<'a>(path: Seq<char>, qs: Seq<SearchQuery<'a>>) -> bool {
    forall|i: int| 0 <= i < qs.len() ==> query_passes(path, #[trigger] qs[i])
}

/// Returns true when `path` passes every query of the conjunction.
pub fn is_search_match(path: &str, search: &[SearchQuery]) -> (r: bool)
    ensures
        r == spec_is_match(path@, search@),
{
    let mut qi: usize = 0;
    while qi < search.len()
        invariant
            qi <= search@.len(),
            forall|i: int| 0 <= i < qi ==> query_passes(path@, #[trigger] search@[i]),
        decreases search@.len() - qi,
    {
        let q = &search[qi];
        let hit = caseless_contains(path, q.query, q.ascii_only);
        if (q.match_type == MatchType::Include) && !hit {
            assert(!query_passes(path@, search@[qi as int]));
            return false;
        }
        if (q.match_type == MatchType::Exclude) && hit {
            assert(!query_passes(path@, search@[qi as int]));
            return false;
        }
        assert(query_passes(path@, search@[qi as int]));
        qi = qi + 1;
    }
    true
}

/// Relies on String::from_utf8: succeeds exactly on valid UTF-8 input and
/// decodes those bytes.
#[verifier::external_body]
fn vec_to_string(v: Vec<u8>) -> (r: Option<String>)
    ensures
        r is Some <==> valid_utf8(v@),
        r matches Some(s) ==> s@ == decode_utf8(v@),
{
    String::from_utf8(v).ok()
}

/// Decodes one compressed record (record terminator already removed)
/// against the previous full record `prev` and reconstructs the path as a
/// UTF-8 string.
pub fn decompress_line(prev: &[u8], curr: &[u8]) -> (r: Result<String, SearchError>)
    ensures
        match decode_record_spec(prev@, curr@) {
            Some(bytes) => {
                &&& valid_utf8(bytes) ==> (r matches Ok(s) && s@ == decode_utf8(bytes))
                &&& !valid_utf8(bytes) ==> r == Err::<String, SearchError>(SearchError::Encoding)
            },
            None => r == Err::<String, SearchError>(SearchError::Encoding),
        },
{
    if curr.len() == 0 {
        return Err(SearchError::Encoding);
    }
    let b0 = curr[0];
    let (data_start_index, common_len): (usize, u32) = if b0 == 251 {
        (1, 10)
    } else if b0 == 252 {
        if curr.len() < 2 {
            return Err(SearchError::Encoding);
        }
        (2, curr[1] as u32)
    } else if b0 == 253 {
        if curr.len() < 3 {
            return Err(SearchError::Encoding);
        }
        (3, curr[1] as u32 + 256 * (curr[2] as u32))
    } else if b0 == 254 {
        if curr.len() < 4 {
            return Err(SearchError::Encoding);
        }
        (4, curr[1] as u32 + 256 * (curr[2] as u32) + 0x10000 * (curr[3] as u32))
    } else if b0 == 255 {
        if curr.len() < 5 {
            return Err(SearchError::Encoding);
        }
        (
            5,
            curr[1] as u32 + 256 * (curr[2] as u32) + 0x10000 * (curr[3] as u32) + 0x1000000 * (
            curr[4] as u32),
        )
    } else {
        (1, b0 as u32)
    };
    assert(decode_count_spec(curr@) == Some((common_len as nat, data_start_index as nat)));
    let k = common_len as usize;
    if k > prev.len() {
        return Err(SearchError::Encoding);
    }
    let mut full: Vec<u8> = Vec::new();
    full.extend_from_slice(&prev[0..k]);
    full.extend_from_slice(&curr[data_start_index..curr.len()]);
    assert(full@ =~= prev@.take(k as int) + curr@.skip(data_start_index as int));
    match vec_to_string(full) {
        Some(s) => Ok(s),
        None => Err(SearchError::Encoding),
    }
}

/// The searcher's outcome on the records after the first, when the previous
/// full record is `prev`: the matching paths in order, or the first error.
pub open spec fn search_db_spec<'a>(
    prev: Seq<u8>,
    s: Seq<u8>,
    qs: Seq<SearchQuery<'a>>,
) -> Result<Seq<Seq<char>>, SearchError>
    decreases s.len(),
{
    if s.len() == 0 {
        Ok(Seq::empty())
    } else {
        let el = entry_len(s);
        if el < 1 || el > s.len() {
            Err(SearchError::IO(ReadError::UnexpectedEof))
        } else {
            let rec = s.take(el).drop_last();
            match decode_record_spec(prev, rec) {
                None => Err(SearchError::Encoding),
                Some(full) => if !valid_utf8(full) {
                    Err(SearchError::Encoding)
                } else {
                    let chars = decode_utf8(full);
                    match search_db_spec(full, s.skip(el), qs) {
                        Err(e) => Err(e),
                        Ok(rest) => if spec_is_match(chars, qs) {
                            Ok(seq![chars] + rest)
                        } else {
                            Ok(rest)
                        },
                    }
                },
            }
        }
    }
}

/// The searcher's outcome on a whole database image: the first record is
/// read as a plain line, the rest with the record reader. An empty query
/// list, like an empty database, returns no hits.
pub open spec fn search_spec<'a>(s: Seq<u8>, qs: Seq<SearchQuery<'a>>) -> Result<
    Seq<Seq<char>>,
    SearchError,
> {
    if qs.len() == 0 || s.len() == 0 {
        Ok(Seq::empty())
    } else {
        let rec0 = stream_line(s);
        match decode_record_spec(Seq::empty(), rec0) {
            None => Err(SearchError::Encoding),
            Some(full) => if !valid_utf8(full) {
                Err(SearchError::Encoding)
            } else {
                let chars = decode_utf8(full);
                match search_db_spec(full, s.skip(line_chunk_len(s)), qs) {
                    Err(e) => Err(e),
                    Ok(rest) => if spec_is_match(chars, qs) {
                        Ok(seq![chars] + rest)
                    } else {
                        Ok(rest)
                    },
                }
            },
        }
    }
}

/// The paths among `lines` that pass the whole conjunction, in order,
/// decoded to characters.
pub open spec fn matching_paths<'a>(lines: Seq<Seq<u8>>, qs: Seq<SearchQuery<'a>>) -> Seq<
    Seq<char>,
>
    decreases lines.len(),
{
    if lines.len() == 0 {
        Seq::empty()
    } else {
        let chars = decode_utf8(lines[0]);
        let rest = matching_paths(lines.drop_first(), qs);
        if spec_is_match(chars, qs) {
            seq![chars] + rest
        } else {
            rest
        }
    }
}

proof fn lemma_search_db_encoded<'a>(prev: Seq<u8>, lines: Seq<Seq<u8>>, qs: Seq<SearchQuery<'a>>)
    requires
        forall|i: int| 0 <= i < lines.len() ==> #[trigger] lines[i].len() <= u32::MAX,
        forall|i: int, j: int|
            0 <= i < lines.len() && 0 <= j < lines[i].len() ==> #[trigger] lines[i][j] != 10,
        forall|i: int| 0 <= i < lines.len() ==> valid_utf8(#[trigger] lines[i]),
    ensures
        search_db_spec(prev, crate::codec::encode_list_spec(prev, lines), qs) == Ok::<
            _,
            SearchError,
        >(matching_paths(lines, qs)),
    decreases lines.len(),
{
    if lines.len() == 0 {
        assert(crate::codec::encode_list_spec(prev, lines) =~= Seq::<u8>::empty());
        assert(matching_paths(lines, qs) =~= Seq::<Seq<char>>::empty());
    } else {
        let l0 = lines[0];
        let k = crate::codec::common_prefix_len(prev, l0);
        let r = crate::codec::record_spec(prev, l0);
        let tail = crate::codec::encode_list_spec(l0, lines.drop_first());
        let s = r + tail;
        crate::codec::lemma_common_prefix_len(prev, l0);
        crate::codec::lemma_record_framing(prev, l0, tail);
        let el = entry_len(s);
        assert(el == r.len());
        assert(s.take(el) =~= r);
        let rec = s.take(el).drop_last();
        assert(rec =~= crate::codec::encode_count_spec(k) + l0.skip(k as int));
        crate::codec::lemma_count_round_trip(k, l0.skip(k as int));
        let d = crate::codec::encode_count_spec(k).len() as int;
        assert(rec.skip(d) =~= l0.skip(k as int));
        assert(prev.take(k as int) =~= l0.take(k as int));
        assert(prev.take(k as int) + rec.skip(d) =~= l0);
        assert(decode_record_spec(prev, rec) == Some(l0));
        assert(s.skip(el) =~= tail);
        lemma_search_db_encoded(l0, lines.drop_first(), qs);
    }
}

/// Law: searching a well-formed database finds exactly the matching paths.
/// Encoding any list of newline-free UTF-8 paths and searching the result
/// with a non-empty conjunction returns, in order, exactly the paths that
/// pass every query.
pub proof fn lemma_search_finds_matching_paths<'a>(
    lines: Seq<Seq<u8>>,
    qs: Seq<SearchQuery<'a>>,
)
    requires
        qs.len() > 0,
        forall|i: int| 0 <= i < lines.len() ==> #[trigger] lines[i].len() <= u32::MAX,
        forall|i: int, j: int|
            0 <= i < lines.len() && 0 <= j < lines[i].len() ==> #[trigger] lines[i][j] != 10,
        forall|i: int| 0 <= i < lines.len() ==> valid_utf8(#[trigger] lines[i]),
    ensures
        search_spec(crate::codec::encode_list_spec(Seq::empty(), lines), qs) == Ok::<
            _,
            SearchError,
        >(matching_paths(lines, qs)),
{
    if lines.len() == 0 {
        assert(crate::codec::encode_list_spec(Seq::empty(), lines) =~= Seq::<u8>::empty());
        assert(matching_paths(lines, qs) =~= Seq::<Seq<char>>::empty());
    } else {
        let l0 = lines[0];
        let tail = crate::codec::encode_list_spec(l0, lines.drop_first());
        let s = crate::codec::encode_list_spec(Seq::empty(), lines);
        crate::codec::lemma_common_prefix_len(Seq::empty(), l0);
        let k = crate::codec::common_prefix_len(Seq::empty(), l0);
        assert(k == 0);
        let r = crate::codec::record_spec(Seq::empty(), l0);
        assert(r =~= seq![0u8] + l0 + seq![10u8]);
        assert(s =~= r + tail);
        // the first newline of the database ends the first record
        let t = crate::codec::first_nl_from(s, 0);
        crate::codec::lemma_first_nl_bounds(s, 0);
        let e0: int = l0.len() as int + 1;
        assert(s[e0 as int] == 10);
        assert(forall|j: int| 0 <= j < e0 ==> s[j] != 10) by {
            assert(s[0] == 0);
            assert(forall|j: int| 1 <= j < e0 ==> s[j] == l0[j - 1]);
        }
        assert(t == e0) by {
            if t == -1 {
                assert(s[e0 as int] != 10);
            } else if t < e0 {
                assert(s[t] != 10);
            } else if t > e0 {
                assert(s[e0 as int] != 10);
            }
        }
        assert(line_chunk_len(s) == e0 + 1);
        let rec0 = stream_line(s);
        assert(s.take(e0 + 1).last() == 10);
        assert(rec0 =~= seq![0u8] + l0);
        assert(rec0[0] == 0);
        assert(decode_count_spec(rec0) == Some((0 as nat, 1 as nat)));
        assert(Seq::<u8>::empty().take(0) + rec0.skip(1) =~= l0);
        assert(decode_record_spec(Seq::empty(), rec0) == Some(l0));
        assert(s.skip(e0 + 1) =~= tail);
        lemma_search_db_encoded(l0, lines.drop_first(), qs);
    }
}

/// Streams the database image and returns every reconstructed path that
/// passes the whole query conjunction, in database order.
pub fn search<'a>(reader: &mut ByteReader, queries: &[SearchQuery<'a>]) -> (r: Result<
    Vec<String>,
    SearchError,
>)
    ensures
        match r {
            Ok(v) => search_spec(old(reader).remaining(), queries@) == Ok::<_, SearchError>(
                v.deep_view(),
            ),
            Err(e) => search_spec(old(reader).remaining(), queries@) == Err::<Seq<Seq<char>>, _>(
                e,
            ),
        },
        queries@.len() == 0 ==> *final(reader) == *old(reader),
        queries@.len() > 0 && r is Ok ==> final(reader).remaining().len() == 0,
{
    let ghost s0 = reader.remaining();
    let mut found: Vec<String> = Vec::new();
    assert(found.deep_view() =~= Seq::<Seq<char>>::empty());
    if queries.len() == 0 {
        return Ok(found);
    }
    let mut buf: Vec<u8> = Vec::new();
    let n0 = read_line(reader, &mut buf);
    proof {
        crate::codec::lemma_line_chunk_len_bounds(s0);
    }
    if n0 == 0 {
        return Ok(found);
    }
    assert(buf@ == stream_line(s0));
    let empty_prev: Vec<u8> = Vec::new();
    let first = match decompress_line(empty_prev.as_slice(), buf.as_slice()) {
        Ok(s) => s,
        Err(e) => {
            return Err(e);
        },
    };
    let ghost full0 = decode_record_spec(Seq::empty(), stream_line(s0)).unwrap();
    proof {
        decode_utf8_encode_utf8(full0);
        assert(encode_utf8(first@) == full0);
    }

    // the previous full path is kept either here or as the last element of
    // `found`, never both
    let mut prev: Option<String> = None;
    if is_search_match(first.as_str(), queries) {
        found.push(first);
        assert(found.deep_view() =~= seq![decode_utf8(full0)]);
    } else {
        prev = Some(first);
    }

    while !reader.eof()
        invariant
            s0 == old(reader).remaining(),
            queries@.len() > 0,
            prev is None ==> found@.len() > 0,
            ({
                let carry = match prev {
                    Some(p) => encode_utf8(p@),
                    None => encode_utf8(found.deep_view().last()),
                };
                match search_db_spec(carry, reader.remaining(), queries@) {
                    Ok(rest) => search_spec(s0, queries@) == Ok::<_, SearchError>(
                        found.deep_view() + rest,
                    ),
                    Err(e) => search_spec(s0, queries@) == Err::<Seq<Seq<char>>, _>(e),
                }
            }),
        decreases reader.remaining().len(),
    {
        let ghost rem = reader.remaining();
        let ghost carry = match &prev {
            Some(p) => encode_utf8(p@),
            None => encode_utf8(found.deep_view().last()),
        };
        let mut ebuf: Vec<u8> = Vec::new();
        let n = match read_db_entry_include_newline(reader, &mut ebuf) {
            Ok(n) => n,
            Err(e) => {
                proof {
                    lemma_entry_len_bounds(rem, 0);
                }
                return Err(SearchError::IO(e));
            },
        };
        proof {
            lemma_entry_len_bounds(rem, 0);
        }
        assert(n >= 1);
        // strip the record terminator
        ebuf.pop();
        assert(ebuf@ == rem.take(entry_len(rem)).drop_last());

        let prev_slice: &[u8] = match &prev {
            Some(p) => p.as_str().as_bytes(),
            None => found[found.len() - 1].as_str().as_bytes(),
        };
        assert(prev_slice@ == carry);
        let curr = match decompress_line(prev_slice, ebuf.as_slice()) {
            Ok(c) => c,
            Err(e) => {
                return Err(e);
            },
        };
        let ghost fullc = decode_record_spec(carry, ebuf@).unwrap();
        proof {
            decode_utf8_encode_utf8(fullc);
            assert(encode_utf8(curr@) == fullc);
        }
        let ghost found_before = found.deep_view();
        let hit = is_search_match(curr.as_str(), queries);
        if hit {
            found.push(curr);
            prev = None;
            assert(found.deep_view() =~= found_before.push(decode_utf8(fullc)));
        } else {
            prev = Some(curr);
        }
        proof {
            let chars = decode_utf8(fullc);
            let rem2 = reader.remaining();
            assert(rem2 == rem.skip(entry_len(rem)));
            match search_db_spec(fullc, rem2, queries@) {
                Ok(rest) => {
                    if hit {
                        assert(search_db_spec(carry, rem, queries@) == Ok::<_, SearchError>(
                            seq![chars] + rest,
                        ));
                        assert(found_before + (seq![chars] + rest) =~= found.deep_view() + rest);
                    } else {
                        assert(search_db_spec(carry, rem, queries@) == Ok::<_, SearchError>(rest));
                    }
                },
                Err(e) => {
                    assert(search_db_spec(carry, rem, queries@) == Err::<Seq<Seq<char>>, _>(e));
                },
            }
        }
    }
    proof {
        let carry = match prev {
            Some(p) => encode_utf8(p@),
            None => encode_utf8(found.deep_view().last()),
        };
        assert(search_db_spec(carry, reader.remaining(), queries@) == Ok::<_, SearchError>(
            Seq::<Seq<char>>::empty(),
        ));
        assert(found.deep_view() + Seq::<Seq<char>>::empty() =~= found.deep_view());
    }
    Ok(found)
}

}
