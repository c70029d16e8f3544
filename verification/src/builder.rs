//! The builder pipeline's logic: batching paths under a memory budget,
//! stripping the scan root, sorting batches, splitting and merging part
//! data, and rendering the final database bytes.

use vstd::prelude::*;
use vstd::multiset::Multiset;

verus! {

/// Byte-lexicographic "less than or equal" on byte strings.
pub open spec fn lex_le(a: Seq<u8>, b: Seq<u8>) -> bool
    decreases a.len(),
{
    if a.len() == 0 {
        true
    } else if b.len() == 0 {
        false
    } else if a[0] < b[0] {
        true
    } else if a[0] > b[0] {
        false
    } else {
        lex_le(a.drop_first(), b.drop_first())
    }
}

pub proof fn lemma_lex_le_total(a: Seq<u8>, b: Seq<u8>)
    ensures
        lex_le(a, b) || lex_le(b, a),
    decreases a.len(),
{
    if a.len() > 0 && b.len() > 0 && a[0] == b[0] {
        lemma_lex_le_total(a.drop_first(), b.drop_first());
    }
}

pub proof fn lemma_lex_le_trans(a: Seq<u8>, b: Seq<u8>, c: Seq<u8>)
    requires
        lex_le(a, b),
        lex_le(b, c),
    ensures
        lex_le(a, c),
    decreases a.len(),
{
    if a.len() > 0 && b.len() > 0 && c.len() > 0 && a[0] == b[0] && b[0] == c[0] {
        lemma_lex_le_trans(a.drop_first(), b.drop_first(), c.drop_first());
    }
}

pub proof fn lemma_lex_le_refl(a: Seq<u8>)
    ensures
        lex_le(a, a),
{
    lemma_lex_le_total(a, a);
}

/// A scan that found `i` equal leading bytes decides the order at `i`.
proof fn lemma_lex_le_from_scan(a: Seq<u8>, b: Seq<u8>, i: int)
    requires
        0 <= i <= a.len(),
        i <= b.len(),
        forall|j: int| 0 <= j < i ==> a[j] == b[j],
    ensures
        i == a.len() ==> lex_le(a, b),
        i == b.len() && i < a.len() ==> !lex_le(a, b),
        i < a.len() && i < b.len() && a[i] < b[i] ==> lex_le(a, b),
        i < a.len() && i < b.len() && a[i] > b[i] ==> !lex_le(a, b),
    decreases i,
{
    if i > 0 {
        assert(a[0] == b[0]);
        assert(forall|j: int| 0 <= j < i - 1 ==> a.drop_first()[j] == b.drop_first()[j]);
        lemma_lex_le_from_scan(a.drop_first(), b.drop_first(), i - 1);
    }
}

/// Returns whether `a <= b` in byte-lexicographic order.
pub fn bytes_le(a: &[u8], b: &[u8]) -> (r: bool)
    ensures
        r == lex_le(a@, b@),
{
    let mut i: usize = 0;
    while i < a.len() && i < b.len() && a[i] == b[i]
        invariant
            i <= a@.len(),
            i <= b@.len(),
            forall|j: int| 0 <= j < i ==> a@[j] == b@[j],
        decreases a@.len() - i,
    {
        i = i + 1;
    }
    proof {
        lemma_lex_le_from_scan(a@, b@, i as int);
    }
    if i == a.len() {
        true
    } else if i == b.len() {
        false
    } else {
        a[i] < b[i]
    }
}

/// The element views of a sequence of byte vectors.
pub open spec fn lines_view(s: Seq<Vec<u8>>) -> Seq<Seq<u8>> {
    Seq::new(s.len(), |i: int| s[i]@)
}

/// The lines are in ascending byte-lexicographic order.
pub open spec fn sorted(lines: Seq<Seq<u8>>) -> bool {
    forall|i: int, j: int|
        0 <= i < j < lines.len() ==> lex_le(#[trigger] lines[i], #[trigger] lines[j])
}

/// A sequence's multiset is unchanged by inserting an element anywhere
/// rather than at the end.
proof fn lemma_to_multiset_seq_insert<A>(s: Seq<A>, i: int, x: A)
    requires
        0 <= i <= s.len(),
    ensures
        s.insert(i, x).to_multiset() == s.to_multiset().insert(x),
{
    broadcast use vstd::seq_lib::group_to_multiset_ensures;
    broadcast use vstd::seq_lib::lemma_multiset_commutative;

    assert(s.insert(i, x) =~= s.take(i) + (seq![x] + s.skip(i)));
    assert(s =~= s.take(i) + s.skip(i));
    assert(seq![x] =~= Seq::<A>::empty().push(x));
    assert(Seq::<A>::empty().to_multiset() =~= Multiset::<A>::empty());
    assert(seq![x].to_multiset() =~= Multiset::<A>::empty().insert(x));
    assert(s.insert(i, x).to_multiset() =~= s.to_multiset().insert(x));
}

/// Sorts the lines in ascending byte-lexicographic order (insertion sort).
pub fn sort_lines(lines: &mut Vec<Vec<u8>>)
    ensures
        final(lines)@.len() == old(lines)@.len(),
        sorted(lines_view(final(lines)@)),
        lines_view(final(lines)@).to_multiset() == lines_view(old(lines)@).to_multiset(),
{
    broadcast use vstd::seq_lib::group_to_multiset_ensures;

    let ghost orig = lines_view(lines@);
    if lines.len() == 0 {
        return;
    }
    let mut i: usize = 1;
    while i < lines.len()
        invariant
            1 <= i <= lines@.len(),
            lines@.len() == orig.len(),
            lines_view(lines@).to_multiset() == orig.to_multiset(),
            sorted(lines_view(lines@).take(i as int)),
        decreases lines@.len() - i,
    {
        let ghost pre = lines_view(lines@);
        let mut j: usize = i;
        while j > 0 && !bytes_le(lines[j - 1].as_slice(), lines[i].as_slice())
            invariant
                0 <= j <= i < lines@.len(),
                pre == lines_view(lines@),
                forall|m: int| j <= m < i ==> !lex_le(#[trigger] pre[m], pre[i as int]),
            decreases j,
        {
            j = j - 1;
        }
        let ghost x = pre[i as int];
        proof {
            assert forall|m: int| j <= m < i implies lex_le(x, #[trigger] pre[m]) by {
                lemma_lex_le_total(pre[m], x);
            }
        }
        let ghost pre_vecs = lines@;
        let moved = lines.remove(i);
        let ghost mid_vecs = lines@;
        let ghost mid = lines_view(mid_vecs);
        proof {
            assert(mid_vecs == pre_vecs.remove(i as int));
            assert forall|m: int| 0 <= m < mid.len() implies mid[m] == pre.remove(i as int)[m] by {
                if m < i {
                    assert(mid_vecs[m] == pre_vecs[m]);
                } else {
                    assert(mid_vecs[m] == pre_vecs[m + 1]);
                }
            }
            assert(mid =~= pre.remove(i as int));
            assert(moved@ == x);
        }
        lines.insert(j, moved);
        proof {
            let now = lines_view(lines@);
            assert(lines@ == mid_vecs.insert(j as int, moved));
            assert forall|m: int| 0 <= m < now.len() implies now[m] == mid.insert(j as int, x)[m]
                by {
                if m < j {
                    assert(lines@[m] == mid_vecs[m]);
                } else if m == j {
                    assert(lines@[m] == moved);
                } else {
                    assert(lines@[m] == mid_vecs[m - 1]);
                }
            }
            assert(now =~= pre.remove(i as int).insert(j as int, x));
            lemma_to_multiset_seq_insert(pre.remove(i as int), j as int, x);
            pre.to_multiset_ensures();
            assert(pre.remove(i as int).to_multiset() =~= pre.to_multiset().remove(x));
            assert(pre.contains(x));
            assert(pre.to_multiset().count(x) > 0);
            assert(now.to_multiset() =~= pre.to_multiset());
            // the prefix of length i + 1 is sorted: elements before j are at
            // most x, and x is at most every element the insertion shifted
            assert(forall|m: int| 0 <= m < i ==> pre.take(i as int)[m] == #[trigger] pre[m]);
            assert(forall|m: int, l: int|
                0 <= m < l < i ==> lex_le(#[trigger] pre[m], #[trigger] pre[l]));
            assert(j > 0 ==> lex_le(pre[j - 1], x));
            assert forall|m: int, l: int| 0 <= m < l < i + 1 implies lex_le(
                #[trigger] now[m],
                #[trigger] now[l],
            ) by {
                if l < j {
                    assert(now[m] == pre[m] && now[l] == pre[l]);
                } else if m < j && l == j {
                    assert(now[m] == pre[m] && now[l] == x);
                    if m < j - 1 {
                        lemma_lex_le_trans(pre[m], pre[j - 1], x);
                    }
                } else if m < j {
                    assert(now[m] == pre[m] && now[l] == pre[l - 1]);
                } else if m == j {
                    assert(now[m] == x && now[l] == pre[l - 1]);
                } else {
                    assert(now[m] == pre[m - 1] && now[l] == pre[l - 1]);
                }
            }
            assert(sorted(now.take(i + 1)));
        }
        i = i + 1;
    }
    proof {
        if lines@.len() > 0 {
            assert(lines_view(lines@).take(lines@.len() as int) =~= lines_view(lines@));
        }
    }
}


/// Approximate memory cost of holding one path entry, beyond its bytes.
pub const ENTRY_OVERHEAD: usize = 24;

/// Approximate memory held by a batch: each entry costs its bytes plus a
/// fixed overhead.
pub open spec fn batch_size(lines: Seq<Seq<u8>>) -> nat
    decreases lines.len(),
{
    if lines.len() == 0 {
        0
    } else {
        (batch_size(lines.drop_last()) + lines.last().len() + ENTRY_OVERHEAD) as nat
    }
}

/// Accumulates paths for the directory walker, handing back a full batch
/// whenever adding the next entry would reach the memory budget.
pub struct Batcher {
    files: Vec<Vec<u8>>,
    size: usize,
    mem_limit: usize,
}

impl Batcher {
    /// The paths accumulated so far.
    pub closed spec fn spec_files(self) -> Seq<Seq<u8>> {
        lines_view(self.files@)
    }

    /// The approximate memory held by the accumulated paths.
    pub closed spec fn spec_size(self) -> nat {
        self.size as nat
    }

    /// The configured memory budget.
    pub closed spec fn spec_mem_limit(self) -> nat {
        self.mem_limit as nat
    }

    /// The size counter agrees with the accumulated paths.
    pub closed spec fn wf(self) -> bool {
        self.size as nat == batch_size(lines_view(self.files@))
    }

    pub fn new(mem_limit: usize) -> (r: Batcher)
        ensures
            r.wf(),
            r.spec_files() == Seq::<Seq<u8>>::empty(),
            r.spec_size() == 0,
            r.spec_mem_limit() == mem_limit,
    {
        let r = Batcher { files: Vec::new(), size: 0, mem_limit };
        proof {
            assert(lines_view(r.files@) =~= Seq::<Seq<u8>>::empty());
        }
        r
    }

    /// Adds one path. When adding it would reach the memory budget, the
    /// accumulated batch is returned to be flushed and a fresh batch is
    /// started with the path. As long as every entry alone fits the budget,
    /// every returned batch's memory stays within it (the bounded-memory
    /// law, carried by the last two clauses).
    pub fn push(&mut self, path: Vec<u8>) -> (r: Option<Vec<Vec<u8>>>)
        requires
            old(self).wf(),
            path@.len() + ENTRY_OVERHEAD <= usize::MAX,
        ensures
            final(self).wf(),
            final(self).spec_mem_limit() == old(self).spec_mem_limit(),
            ({
                let elem = path@.len() + ENTRY_OVERHEAD;
                if old(self).spec_size() + elem >= old(self).spec_mem_limit() {
                    &&& r matches Some(batch) && lines_view(batch@) == old(self).spec_files()
                    &&& final(self).spec_files() == seq![path@]
                    &&& final(self).spec_size() == elem
                } else {
                    &&& r is None
                    &&& final(self).spec_files() == old(self).spec_files().push(path@)
                    &&& final(self).spec_size() == old(self).spec_size() + elem
                }
            }),
            r matches Some(batch) ==> batch_size(lines_view(batch@)) == old(self).spec_size(),
            r matches Some(batch) ==> (old(self).spec_size() <= old(self).spec_mem_limit()
                ==> batch_size(lines_view(batch@)) <= old(self).spec_mem_limit()),
            (old(self).spec_size() <= old(self).spec_mem_limit() && path@.len() + ENTRY_OVERHEAD
                <= old(self).spec_mem_limit()) ==> final(self).spec_size()
                <= final(self).spec_mem_limit(),
    {
        let elem = path.len() + ENTRY_OVERHEAD;
        let ghost pre = lines_view(self.files@);
        if self.size > usize::MAX - elem || self.size + elem >= self.mem_limit {
            let mut batch: Vec<Vec<u8>> = Vec::new();
            core::mem::swap(&mut self.files, &mut batch);
            self.files.push(path);
            self.size = elem;
            proof {
                assert(lines_view(batch@) == pre);
                let now = lines_view(self.files@);
                assert(now.len() == 1 && now.last() == path@);
                assert(now.drop_last() =~= Seq::<Seq<u8>>::empty());
                assert(batch_size(Seq::<Seq<u8>>::empty()) == 0);
                assert(batch_size(now) == path@.len() + ENTRY_OVERHEAD);
                assert(now =~= seq![path@]);
            }
            Some(batch)
        } else {
            self.files.push(path);
            self.size = self.size + elem;
            proof {
                let now = lines_view(self.files@);
                assert(now =~= pre.push(path@));
                assert(now.drop_last() =~= pre);
                assert(now.last() == path@);
                assert(batch_size(now) == batch_size(pre) + path@.len() + ENTRY_OVERHEAD);
            }
            None
        }
    }

    /// Hands back whatever has accumulated; the walker flushes it at the
    /// end of the walk if it is not empty.
    pub fn finish(self) -> (r: Vec<Vec<u8>>)
        ensures
            lines_view(r@) == self.spec_files(),
    {
        self.files
    }
}

/// The suffix of `path` after the directory prefix `root`: the whole path
/// when `root` is empty or ends with a separator, the rest after the
/// separator when one follows `root`, and `None` when `root` is not a
/// prefix of `path` at a component boundary.
pub open spec fn strip_root_spec(path: Seq<u8>, root: Seq<u8>) -> Option<Seq<u8>> {
    if path.len() < root.len() || path.take(root.len() as int) != root {
        None
    } else {
        let rest = path.skip(root.len() as int);
        if rest.len() == 0 {
            Some(Seq::empty())
        } else if rest[0] == 47 {
            Some(rest.skip(1))
        } else if root.len() == 0 || root.last() == 47 {
            Some(rest)
        } else {
            None
        }
    }
}

/// Removes the scan-root prefix from a path, so that paths appear relative
/// to the scan root.
pub fn strip_root(path: &[u8], root: &[u8]) -> (r: Option<Vec<u8>>)
    ensures
        match r {
            Some(v) => strip_root_spec(path@, root@) == Some(v@),
            None => strip_root_spec(path@, root@) is None,
        },
{
    let rlen = root.len();
    if path.len() < rlen {
        return None;
    }
    let mut i: usize = 0;
    while i < rlen
        invariant
            i <= rlen,
            rlen == root@.len(),
            rlen <= path@.len(),
            forall|j: int| 0 <= j < i ==> path@[j] == root@[j],
        decreases rlen - i,
    {
        if path[i] != root[i] {
            assert(path@.take(rlen as int)[i as int] != root@[i as int]);
            return None;
        }
        i = i + 1;
    }
    assert(path@.take(rlen as int) =~= root@);
    if path.len() == rlen {
        let v: Vec<u8> = Vec::new();
        assert(v@ =~= path@.skip(rlen as int));
        return Some(v);
    }
    let rest_first = path[rlen];
    if rest_first == 47 {
        let mut v: Vec<u8> = Vec::new();
        v.extend_from_slice(&path[rlen + 1..path.len()]);
        assert(v@ =~= path@.skip(rlen as int).skip(1));
        return Some(v);
    }
    if rlen == 0 {
        let mut v: Vec<u8> = Vec::new();
        v.extend_from_slice(&path[0..path.len()]);
        assert(v@ =~= path@.skip(0));
        return Some(v);
    }
    if root[rlen - 1] == 47 {
        let mut v: Vec<u8> = Vec::new();
        v.extend_from_slice(&path[rlen..path.len()]);
        assert(v@ =~= path@.skip(rlen as int));
        return Some(v);
    }
    None
}

/// The bytes of a plain-text rendering: each line followed by a newline.
pub open spec fn join_lines_spec(lines: Seq<Seq<u8>>) -> Seq<u8>
    decreases lines.len(),
{
    if lines.len() == 0 {
        Seq::empty()
    } else {
        join_lines_spec(lines.drop_last()) + lines.last() + seq![10u8]
    }
}

/// Renders lines as plain newline-terminated text (the format of a part
/// file, and of an uncompressed database).
pub fn join_lines(lines: &Vec<Vec<u8>>) -> (r: Vec<u8>)
    ensures
        r@ == join_lines_spec(lines_view(lines@)),
{
    let ghost lv = lines_view(lines@);
    let mut result: Vec<u8> = Vec::new();
    assert(result@ =~= join_lines_spec(lv.take(0)));
    let mut i: usize = 0;
    while i < lines.len()
        invariant
            i <= lines@.len(),
            lv == lines_view(lines@),
            result@ == join_lines_spec(lv.take(i as int)),
        decreases lines@.len() - i,
    {
        result.extend_from_slice(lines[i].as_slice());
        result.push(10);
        proof {
            assert(lv.take(i + 1).drop_last() =~= lv.take(i as int));
            assert(lv.take(i + 1).last() == lv[i as int]);
            assert(result@ =~= join_lines_spec(lv.take(i as int)) + lv[i as int] + seq![10u8]);
        }
        i = i + 1;
    }
    assert(lv.take(lv.len() as int) =~= lv);
    result
}

/// The non-empty lines of a part image, in order: blank lines never enter
/// the merge.
pub open spec fn nonempty_lines_spec(s: Seq<u8>) -> Seq<Seq<u8>>
    decreases s.len(),
{
    if s.len() == 0 {
        Seq::empty()
    } else {
        let c = crate::codec::line_chunk_len(s);
        if c < 1 || c > s.len() {
            Seq::empty()
        } else {
            let line = crate::codec::stream_line(s);
            if line.len() == 0 {
                nonempty_lines_spec(s.skip(c))
            } else {
                seq![line] + nonempty_lines_spec(s.skip(c))
            }
        }
    }
}

/// Splits a part image into its non-empty lines, skipping blank lines.
pub fn split_part(reader: &mut crate::util::ByteReader) -> (r: Vec<Vec<u8>>)
    ensures
        lines_view(r@) == nonempty_lines_spec(old(reader).remaining()),
        final(reader).remaining().len() == 0,
{
    let ghost s0 = reader.remaining();
    let mut result: Vec<Vec<u8>> = Vec::new();
    assert(lines_view(result@) =~= Seq::<Seq<u8>>::empty());
    while !reader.eof()
        invariant
            s0 == old(reader).remaining(),
            nonempty_lines_spec(s0) == lines_view(result@) + nonempty_lines_spec(
                reader.remaining(),
            ),
        decreases reader.remaining().len(),
    {
        let ghost rem = reader.remaining();
        proof {
            crate::codec::lemma_line_chunk_len_bounds(rem);
        }
        let mut buf: Vec<u8> = Vec::new();
        crate::util::read_line(reader, &mut buf);
        assert(buf@ == crate::codec::stream_line(rem));
        if buf.len() > 0 {
            let ghost pre = lines_view(result@);
            result.push(buf);
            proof {
                assert(lines_view(result@) =~= pre.push(crate::codec::stream_line(rem)));
                assert(pre + (seq![crate::codec::stream_line(rem)] + nonempty_lines_spec(
                    reader.remaining(),
                )) =~= lines_view(result@) + nonempty_lines_spec(reader.remaining()));
            }
        }
    }
    proof {
        assert(nonempty_lines_spec(reader.remaining()) =~= Seq::<Seq<u8>>::empty());
        assert(lines_view(result@) + Seq::<Seq<u8>>::empty() =~= lines_view(result@));
    }
    result
}


/// The element views of a sequence of parts.
pub open spec fn parts_view(s: Seq<Vec<Vec<u8>>>) -> Seq<Seq<Seq<u8>>> {
    Seq::new(s.len(), |p: int| lines_view(s[p]@))
}

/// All entries of all parts, in part order.
pub open spec fn concat_parts(parts: Seq<Seq<Seq<u8>>>) -> Seq<Seq<u8>>
    decreases parts.len(),
{
    if parts.len() == 0 {
        Seq::empty()
    } else {
        parts[0] + concat_parts(parts.drop_first())
    }
}

/// The entries every part still holds at and after its index.
pub open spec fn rest_parts(parts: Seq<Seq<Seq<u8>>>, idx: Seq<usize>) -> Seq<Seq<u8>>
    decreases parts.len(),
{
    if parts.len() == 0 || idx.len() == 0 {
        Seq::empty()
    } else {
        parts[0].skip(idx[0] as int) + rest_parts(parts.drop_first(), idx.drop_first())
    }
}

/// At all-zero indices nothing has been taken out yet.
proof fn lemma_rest_parts_zero(parts: Seq<Seq<Seq<u8>>>, idx: Seq<usize>)
    requires
        parts.len() == idx.len(),
        forall|q: int| 0 <= q < idx.len() ==> idx[q] == 0,
    ensures
        rest_parts(parts, idx) == concat_parts(parts),
    decreases parts.len(),
{
    if parts.len() > 0 {
        assert(parts[0].skip(0) =~= parts[0]);
        lemma_rest_parts_zero(parts.drop_first(), idx.drop_first());
    }
}

/// At the part lengths every part is exhausted.
proof fn lemma_rest_parts_exhausted(parts: Seq<Seq<Seq<u8>>>, idx: Seq<usize>)
    requires
        parts.len() == idx.len(),
        forall|q: int| 0 <= q < idx.len() ==> idx[q] == parts[q].len(),
    ensures
        rest_parts(parts, idx) == Seq::<Seq<u8>>::empty(),
    decreases parts.len(),
{
    if parts.len() > 0 {
        assert(parts[0].skip(idx[0] as int) =~= Seq::<Seq<u8>>::empty());
        lemma_rest_parts_exhausted(parts.drop_first(), idx.drop_first());
        assert(rest_parts(parts, idx) =~= Seq::<Seq<u8>>::empty());
    }
}

/// Advancing part `p` by one entry takes exactly its front entry out of the
/// remaining multiset.
proof fn lemma_rest_parts_advance(
    parts: Seq<Seq<Seq<u8>>>,
    idx: Seq<usize>,
    idx2: Seq<usize>,
    p: int,
)
    requires
        parts.len() == idx.len(),
        idx2.len() == idx.len(),
        0 <= p < parts.len(),
        (idx[p] as int) < parts[p].len(),
        idx2[p] as int == idx[p] + 1,
        forall|q: int| 0 <= q < idx.len() && q != p ==> idx2[q] == idx[q],
    ensures
        rest_parts(parts, idx).to_multiset() == rest_parts(parts, idx2).to_multiset().insert(
            parts[p][idx[p] as int],
        ),
    decreases parts.len(),
{
    broadcast use vstd::seq_lib::group_to_multiset_ensures;
    broadcast use vstd::seq_lib::lemma_multiset_commutative;

    let e = parts[p][idx[p] as int];
    if p == 0 {
        let i0 = idx[0] as int;
        assert(parts[0].skip(i0) =~= seq![e] + parts[0].skip(i0 + 1));
        assert(seq![e] =~= Seq::<Seq<u8>>::empty().push(e));
        assert(Seq::<Seq<u8>>::empty().to_multiset() =~= Multiset::<Seq<u8>>::empty());
        assert(rest_parts(parts.drop_first(), idx2.drop_first()) == rest_parts(
            parts.drop_first(),
            idx.drop_first(),
        )) by {
            assert(idx2.drop_first() =~= idx.drop_first());
        }
        assert(rest_parts(parts, idx).to_multiset() =~= rest_parts(parts, idx2).to_multiset()
            .insert(e));
    } else {
        assert(idx2.drop_first()[p - 1] as int == idx.drop_first()[p - 1] + 1);
        lemma_rest_parts_advance(parts.drop_first(), idx.drop_first(), idx2.drop_first(), p - 1);
        assert(idx2[0] == idx[0]);
        assert(rest_parts(parts, idx).to_multiset() =~= rest_parts(parts, idx2).to_multiset()
            .insert(e));
    }
}

/// K-way merge of sorted parts into one sorted list. Among the parts whose
/// front entries compare smallest, the last one is taken first; duplicates
/// across parts are preserved.
pub fn merge_parts(parts: &Vec<Vec<Vec<u8>>>) -> (r: Vec<Vec<u8>>)
    requires
        forall|p: int| 0 <= p < parts@.len() ==> sorted(#[trigger] parts_view(parts@)[p]),
    ensures
        sorted(lines_view(r@)),
        lines_view(r@).to_multiset() == concat_parts(parts_view(parts@)).to_multiset(),
{
    broadcast use vstd::seq_lib::group_to_multiset_ensures;

    let ghost pv = parts_view(parts@);
    let k = parts.len();
    let mut idx: Vec<usize> = Vec::new();
    let mut out: Vec<Vec<u8>> = Vec::new();
    let mut p0: usize = 0;
    while p0 < k
        invariant
            idx@.len() == p0 <= k,
            forall|q: int| 0 <= q < p0 ==> idx@[q] == 0,
        decreases k - p0,
    {
        idx.push(0);
        p0 = p0 + 1;
    }
    proof {
        lemma_rest_parts_zero(pv, idx@);
        assert(lines_view(out@) =~= Seq::<Seq<u8>>::empty());
        assert(lines_view(out@) + rest_parts(pv, idx@) =~= rest_parts(pv, idx@));
        assert((lines_view(out@) + rest_parts(pv, idx@)).to_multiset() == concat_parts(
            pv,
        ).to_multiset());
    }
    loop
        invariant
            pv == parts_view(parts@),
            k == parts@.len(),
            idx@.len() == k,
            forall|q: int| 0 <= q < k ==> idx@[q] <= parts@[q]@.len(),
            forall|p: int| 0 <= p < k ==> sorted(#[trigger] pv[p]),
            sorted(lines_view(out@)),
            (lines_view(out@) + rest_parts(pv, idx@)).to_multiset() == concat_parts(
                pv,
            ).to_multiset(),
            forall|p: int, j: int|
                0 <= p < k && idx@[p] <= j < pv[p].len() && lines_view(out@).len() > 0 ==> lex_le(
                    lines_view(out@).last(),
                    #[trigger] pv[p][j],
                ),
        ensures
            sorted(lines_view(out@)),
            lines_view(out@).to_multiset() == concat_parts(pv).to_multiset(),
        decreases rest_parts(pv, idx@).len(),
    {
        // select the smallest front entry; a later part wins ties
        let mut best: usize = k;
        let mut p: usize = 0;
        while p < k
            invariant
                k == parts@.len(),
                pv == parts_view(parts@),
                idx@.len() == k,
                forall|q: int| 0 <= q < k ==> idx@[q] <= parts@[q]@.len(),
                p <= k,
                best == k || (best < p && (idx@[best as int] as int) < pv[best as int].len()),
                best == k ==> forall|q: int| 0 <= q < p ==> idx@[q] >= pv[q].len(),
                best < k ==> forall|q: int|
                    0 <= q < p && (idx@[q] as int) < pv[q].len() ==> lex_le(
                        pv[best as int][idx@[best as int] as int],
                        #[trigger] pv[q][idx@[q] as int],
                    ),
            decreases k - p,
        {
            if idx[p] < parts[p].len() {
                if best == k {
                    best = p;
                    proof {
                        lemma_lex_le_refl(pv[p as int][idx@[p as int] as int]);
                    }
                } else {
                    let cand = &parts[p][idx[p]];
                    let cur = &parts[best][idx[best]];
                    if bytes_le(cand.as_slice(), cur.as_slice()) {
                        let ghost ob = best as int;
                        best = p;
                        proof {
                            assert forall|q: int|
                                0 <= q < p + 1 && (idx@[q] as int) < pv[q].len() implies lex_le(
                                pv[p as int][idx@[p as int] as int],
                                #[trigger] pv[q][idx@[q] as int],
                            ) by {
                                if q < p {
                                    lemma_lex_le_trans(
                                        pv[p as int][idx@[p as int] as int],
                                        pv[ob][idx@[ob] as int],
                                        pv[q][idx@[q] as int],
                                    );
                                } else {
                                    lemma_lex_le_refl(pv[p as int][idx@[p as int] as int]);
                                }
                            }
                        }
                    } else {
                        proof {
                            lemma_lex_le_total(
                                pv[p as int][idx@[p as int] as int],
                                pv[best as int][idx@[best as int] as int],
                            );
                        }
                    }
                }
            }
            p = p + 1;
        }
        if best == k {
            proof {
                assert(forall|q: int| 0 <= q < k ==> idx@[q] == pv[q].len());
                lemma_rest_parts_exhausted(pv, idx@);
                assert((lines_view(out@) + Seq::<Seq<u8>>::empty()) =~= lines_view(out@));
            }
            break;
        }
        let ib = idx[best];
        let blen = parts[best].len();
        assert(ib < blen);
        let ghost e = pv[best as int][ib as int];
        let mut entry: Vec<u8> = Vec::new();
        entry.extend_from_slice(parts[best][ib].as_slice());
        assert(entry@ == e);
        let ghost out_pre = lines_view(out@);
        let ghost idx_pre = idx@;
        out.push(entry);
        idx.set(best, ib + 1);
        proof {
            let out_now = lines_view(out@);
            assert(out_now =~= out_pre.push(e));
            // sortedness of the grown output
            assert forall|m: int, l: int| 0 <= m < l < out_now.len() implies lex_le(
                #[trigger] out_now[m],
                #[trigger] out_now[l],
            ) by {
                if l < out_now.len() - 1 {
                    assert(out_now[m] == out_pre[m] && out_now[l] == out_pre[l]);
                } else {
                    assert(out_now[l] == e);
                    if m < out_now.len() - 1 {
                        assert(lex_le(out_pre[m], out_pre.last()) || m == out_pre.len() - 1);
                        assert(lex_le(out_pre.last(), e));
                        if m < out_pre.len() - 1 {
                            lemma_lex_le_trans(out_pre[m], out_pre.last(), e);
                        }
                    }
                }
            }
            // the new last entry is at most everything still unconsumed
            assert forall|q: int, j: int|
                0 <= q < k && idx@[q] <= j < pv[q].len() implies lex_le(
                out_now.last(),
                #[trigger] pv[q][j],
            ) by {
                assert(out_now.last() == e);
                if q == best as int {
                    assert(lex_le(e, pv[q][j]));
                } else {
                    assert((idx_pre[q] as int) < pv[q].len() ==> lex_le(e, pv[q][idx_pre[q] as int]));
                    if j > idx_pre[q] as int {
                        lemma_lex_le_trans(e, pv[q][idx_pre[q] as int], pv[q][j]);
                    }
                }
            }
            // the multiset invariant
            lemma_rest_parts_advance(pv, idx_pre, idx@, best as int);
            assert((out_pre + rest_parts(pv, idx_pre)).to_multiset() =~= out_pre.to_multiset().add(
                rest_parts(pv, idx_pre).to_multiset(),
            )) by {
                vstd::seq_lib::lemma_multiset_commutative(out_pre, rest_parts(pv, idx_pre));
            }
            assert((out_now + rest_parts(pv, idx@)).to_multiset() =~= out_now.to_multiset().add(
                rest_parts(pv, idx@).to_multiset(),
            )) by {
                vstd::seq_lib::lemma_multiset_commutative(out_now, rest_parts(pv, idx@));
            }
            out_pre.to_multiset_ensures();
            out_now.to_multiset_ensures();
            rest_parts(pv, idx_pre).to_multiset_ensures();
            rest_parts(pv, idx@).to_multiset_ensures();
            assert(out_now.to_multiset() =~= out_pre.to_multiset().insert(e));
            assert((out_now + rest_parts(pv, idx@)).to_multiset() =~= (out_pre + rest_parts(
                pv,
                idx_pre,
            )).to_multiset());
            // termination: one entry left the remaining pool
            assert(rest_parts(pv, idx_pre).to_multiset().len() == rest_parts(pv, idx_pre).len());
            assert(rest_parts(pv, idx@).to_multiset().len() == rest_parts(pv, idx@).len());
        }
    }
    out
}

/// Renders the merged, sorted lines as the final database bytes: compressed
/// records when `compress` is set, plain newline-terminated text otherwise.
pub fn render_database(lines: &Vec<Vec<u8>>, compress: bool) -> (r: Vec<u8>)
    requires
        compress ==> forall|i: int|
            0 <= i < lines@.len() ==> (#[trigger] lines@[i])@.len() <= u32::MAX,
    ensures
        compress ==> r@ == crate::codec::encode_list_spec(Seq::empty(), lines_view(lines@)),
        !compress ==> r@ == join_lines_spec(lines_view(lines@)),
{
    let ghost lv = lines_view(lines@);
    if !compress {
        return join_lines(lines);
    }
    let mut result: Vec<u8> = Vec::new();
    let mut prev: Vec<u8> = Vec::new();
    assert(result@ =~= crate::codec::encode_list_spec(Seq::empty(), lv.take(0)));
    let mut i: usize = 0;
    while i < lines.len()
        invariant
            i <= lines@.len(),
            lv == lines_view(lines@),
            forall|m: int| 0 <= m < lines@.len() ==> (#[trigger] lines@[m])@.len() <= u32::MAX,
            prev@ == if i == 0 { Seq::<u8>::empty() } else { lv[i - 1] },
            result@ == crate::codec::encode_list_spec(Seq::empty(), lv.take(i as int)),
        decreases lines@.len() - i,
    {
        let line = &lines[i];
        proof {
            crate::codec::lemma_common_prefix_len(prev@, line@);
            crate::compress::lemma_encode_list_snoc(Seq::empty(), lv.take(i as int), line@);
            assert(lv.take(i as int).push(line@) =~= lv.take(i + 1));
            if i > 0 {
                assert(lv.take(i as int).last() == lv[i - 1]);
            }
        }
        crate::compress::compress_line(&mut result, prev.as_slice(), line.as_slice());
        prev.clear();
        prev.extend_from_slice(line.as_slice());
        i = i + 1;
    }
    assert(lv.take(lv.len() as int) =~= lv);
    result
}

}
