use vstd::prelude::*;

verus! {

/// A half-open byte range `[start_idx, end_idx)` of a line, tagged with the
/// id of the color it is drawn in.
#[derive(Clone, Copy, PartialEq, Eq, Structural, Debug)]
pub struct RangeWithId {
    pub start_idx: usize,
    pub end_idx: usize,
    pub id: usize,
}

/// The range `[s, e)` in color `id`.
pub open spec fn piece(s: usize, e: usize, id: usize) -> RangeWithId {
    RangeWithId { start_idx: s, end_idx: e, id }
}

/// Byte `p` lies inside `r`.
pub open spec fn covers(r: RangeWithId, p: int) -> bool {
    r.start_idx <= p < r.end_idx
}

/// Byte `p` lies inside some range of `rs`.
pub open spec fn covered(rs: Seq<RangeWithId>, p: int) -> bool {
    exists|i: int| 0 <= i < rs.len() && #[trigger] covers(rs[i], p)
}

/// Every range is non-empty, and every range ends at or before the start of
/// any range that follows it: the sequence is sorted by start and free of
/// overlap.
pub open spec fn is_ordered(rs: Seq<RangeWithId>) -> bool {
    &&& forall|i: int| 0 <= i < rs.len() ==> #[trigger] rs[i].start_idx < rs[i].end_idx
    &&& forall|i: int, j: int|
        0 <= i < j < rs.len() ==> #[trigger] rs[i].end_idx <= #[trigger] rs[j].start_idx
}

/// `rs` with the parts of `[s, e)` that no range of `rs` covers inserted in
/// color `id`, each maximal uncovered stretch as one range, at its sorted
/// position.
pub open spec fn fill_gaps(rs: Seq<RangeWithId>, s: usize, e: usize, id: usize) -> Seq<RangeWithId>
    decreases rs.len(),
{
    if rs.len() == 0 {
        if s < e {
            seq![piece(s, e, id)]
        } else {
            seq![]
        }
    } else {
        let f = rs[0];
        let rest = rs.drop_first();
        if e <= s {
            rs
        } else if e <= f.start_idx {
            seq![piece(s, e, id)] + rs
        } else if f.end_idx <= s {
            seq![f] + fill_gaps(rest, s, e, id)
        } else if s < f.start_idx {
            seq![piece(s, f.start_idx, id), f] + fill_gaps(rest, f.end_idx, e, id)
        } else {
            seq![f] + fill_gaps(rest, f.end_idx, e, id)
        }
    }
}

/// The sequence that results from adding `n` to `rs`.
pub open spec fn added(rs: Seq<RangeWithId>, n: RangeWithId) -> Seq<RangeWithId> {
    fill_gaps(rs, n.start_idx, n.end_idx, n.id)
}

/// The sequence that results from adding each range of `news` to `rs`, in
/// order.
pub open spec fn added_all(rs: Seq<RangeWithId>, news: Seq<RangeWithId>) -> Seq<RangeWithId>
    decreases news.len(),
{
    if news.len() == 0 {
        rs
    } else {
        added(added_all(rs, news.drop_last()), news.last())
    }
}

/// `r` is one maximal stretch of `n` that `rs` leaves uncovered, in `n`'s
/// color.
pub open spec fn is_gap_piece(rs: Seq<RangeWithId>, n: RangeWithId, r: RangeWithId) -> bool {
    &&& r.id == n.id
    &&& n.start_idx <= r.start_idx
    &&& r.start_idx < r.end_idx
    &&& r.end_idx <= n.end_idx
    &&& forall|p: int| r.start_idx <= p < r.end_idx ==> !covered(rs, p)
    &&& (r.start_idx == n.start_idx || covered(rs, r.start_idx - 1))
    &&& (r.end_idx == n.end_idx || covered(rs, r.end_idx as int))
}

pub proof fn lemma_fill_gaps_empty(rs: Seq<RangeWithId>, s: usize, e: usize, id: usize)
    requires
        e <= s,
    ensures
        fill_gaps(rs, s, e, id) == rs,
{
    if rs.len() == 0 {
        assert(fill_gaps(rs, s, e, id) =~= rs);
    }
}

proof fn lemma_covered_rest(rs: Seq<RangeWithId>, p: int)
    requires
        rs.len() > 0,
        covered(rs.drop_first(), p),
    ensures
        covered(rs, p),
{
    let k = choose|k: int| 0 <= k < rs.drop_first().len() && covers(rs.drop_first()[k], p);
    assert(covers(rs[k + 1], p));
}

/// The first range of `rs` ends by the start of every later one.
pub proof fn lemma_rest_ordered(rs: Seq<RangeWithId>)
    requires
        is_ordered(rs),
        rs.len() > 0,
    ensures
        is_ordered(rs.drop_first()),
        rs[0].start_idx < rs[0].end_idx,
        forall|i: int|
            0 <= i < rs.drop_first().len() ==> rs[0].end_idx <= #[trigger] rs.drop_first()[i].start_idx
                && rs.drop_first()[i] == rs[i + 1],
{
    let rest = rs.drop_first();
    assert forall|i: int, j: int| 0 <= i < j < rest.len() implies rest[i].end_idx
        <= rest[j].start_idx by {
        assert(rest[i] == rs[i + 1] && rest[j] == rs[j + 1]);
    }
    assert forall|i: int| 0 <= i < rest.len() implies rs[0].end_idx <= #[trigger] rest[i].start_idx
        && rest[i] == rs[i + 1] by {
        assert(rs[0].end_idx <= rs[i + 1].start_idx);
    }
}

/// The start from which `fill_gaps` goes on after the first range `f`.
pub open spec fn resume_at(f: RangeWithId, s: usize) -> usize {
    if f.end_idx <= s {
        s
    } else {
        f.end_idx
    }
}

/// What `fill_gaps` puts in front of the recursion when the first range `f`
/// is not past `e`: the stretch before `f`, if any, and `f` itself.
pub open spec fn head_of(f: RangeWithId, s: usize, id: usize) -> Seq<RangeWithId> {
    if f.end_idx <= s {
        seq![f]
    } else if s < f.start_idx {
        seq![piece(s, f.start_idx, id), f]
    } else {
        seq![f]
    }
}

proof fn lemma_fill_gaps_unfold(rs: Seq<RangeWithId>, s: usize, e: usize, id: usize)
    requires
        rs.len() > 0,
        s < e,
        rs[0].start_idx < e,
    ensures
        fill_gaps(rs, s, e, id) == head_of(rs[0], s, id) + fill_gaps(
            rs.drop_first(),
            resume_at(rs[0], s),
            e,
            id,
        ),
{
}

/// `fill_gaps` keeps the sequence ordered, and starts nothing before `lb`.
proof fn lemma_fill_gaps_ordered(rs: Seq<RangeWithId>, s: usize, e: usize, id: usize, lb: int)
    requires
        is_ordered(rs),
        lb <= s,
        forall|i: int| 0 <= i < rs.len() ==> lb <= #[trigger] rs[i].start_idx,
    ensures
        is_ordered(fill_gaps(rs, s, e, id)),
        forall|j: int|
            0 <= j < fill_gaps(rs, s, e, id).len() ==> lb <= #[trigger] fill_gaps(
                rs,
                s,
                e,
                id,
            )[j].start_idx,
    decreases rs.len(),
{
    let r = fill_gaps(rs, s, e, id);
    if rs.len() == 0 || e <= s {
        if rs.len() > 0 {
            lemma_fill_gaps_empty(rs, s, e, id);
        }
        return;
    }
    let f = rs[0];
    lemma_rest_ordered(rs);
    if e <= f.start_idx {
        assert(r == seq![piece(s, e, id)] + rs);
        assert forall|i: int, j: int| 0 <= i < j < r.len() implies r[i].end_idx
            <= r[j].start_idx by {
            if i > 0 {
                assert(r[i] == rs[i - 1] && r[j] == rs[j - 1]);
            } else if j > 1 {
                assert(r[j] == rs[j - 1]);
                assert(rs[0].end_idx <= rs[j - 1].start_idx);
            }
        }
        assert forall|j: int| 0 <= j < r.len() implies #[trigger] r[j].start_idx < r[j].end_idx
            && lb <= r[j].start_idx by {
            if j > 0 {
                assert(r[j] == rs[j - 1]);
            }
        }
        return;
    }
    let head = head_of(f, s, id);
    let rec = fill_gaps(rs.drop_first(), resume_at(f, s), e, id);
    lemma_fill_gaps_unfold(rs, s, e, id);
    lemma_fill_gaps_ordered(rs.drop_first(), resume_at(f, s), e, id, f.end_idx as int);
    assert(r == head + rec);
    assert forall|i: int, j: int| 0 <= i < j < r.len() implies r[i].end_idx <= r[j].start_idx by {
        if j < head.len() {
            assert(head.len() == 2 && i == 0 && j == 1);
        } else if i < head.len() {
            assert(r[j] == rec[j - head.len()]);
            assert(f.end_idx <= rec[j - head.len()].start_idx);
        } else {
            assert(r[i] == rec[i - head.len()] && r[j] == rec[j - head.len()]);
        }
    }
    assert forall|j: int| 0 <= j < r.len() implies #[trigger] r[j].start_idx < r[j].end_idx
        && lb <= r[j].start_idx by {
        if j >= head.len() {
            assert(r[j] == rec[j - head.len()]);
        }
    }
}

/// `fill_gaps` keeps every range of `rs`.
proof fn lemma_fill_gaps_keeps(rs: Seq<RangeWithId>, s: usize, e: usize, id: usize)
    ensures
        forall|i: int| 0 <= i < rs.len() ==> fill_gaps(rs, s, e, id).contains(#[trigger] rs[i]),
    decreases rs.len(),
{
    let r = fill_gaps(rs, s, e, id);
    if rs.len() == 0 {
        return;
    }
    if e <= s {
        lemma_fill_gaps_empty(rs, s, e, id);
        assert forall|i: int| 0 <= i < rs.len() implies r.contains(#[trigger] rs[i]) by {
            assert(r[i] == rs[i]);
        }
        return;
    }
    let f = rs[0];
    let rest = rs.drop_first();
    if e <= f.start_idx {
        assert(r == seq![piece(s, e, id)] + rs);
        assert forall|i: int| 0 <= i < rs.len() implies r.contains(#[trigger] rs[i]) by {
            assert(r[i + 1] == rs[i]);
        }
        return;
    }
    let head = head_of(f, s, id);
    let rec = fill_gaps(rest, resume_at(f, s), e, id);
    lemma_fill_gaps_unfold(rs, s, e, id);
    lemma_fill_gaps_keeps(rest, resume_at(f, s), e, id);
    assert(r == head + rec);
    assert forall|i: int| 0 <= i < rs.len() implies r.contains(#[trigger] rs[i]) by {
        if i == 0 {
            assert(r[head.len() - 1] == rs[0]);
        } else {
            assert(rest[i - 1] == rs[i]);
            assert(rec.contains(rest[i - 1]));
            let k = choose|k: int| 0 <= k < rec.len() && rec[k] == rest[i - 1];
            assert(r[k + head.len()] == rs[i]);
        }
    }
}

/// `fill_gaps` covers every byte of `[s, e)`.
proof fn lemma_fill_gaps_covers(rs: Seq<RangeWithId>, s: usize, e: usize, id: usize)
    requires
        is_ordered(rs),
    ensures
        forall|p: int| s <= p < e ==> covered(fill_gaps(rs, s, e, id), p),
    decreases rs.len(),
{
    let r = fill_gaps(rs, s, e, id);
    if e <= s {
        return;
    }
    if rs.len() == 0 {
        assert forall|p: int| s <= p < e implies covered(r, p) by {
            assert(covers(r[0], p));
        }
        return;
    }
    let f = rs[0];
    let rest = rs.drop_first();
    lemma_rest_ordered(rs);
    if e <= f.start_idx {
        assert forall|p: int| s <= p < e implies covered(r, p) by {
            assert(covers(r[0], p));
        }
        return;
    }
    let head = head_of(f, s, id);
    let rec = fill_gaps(rest, resume_at(f, s), e, id);
    lemma_fill_gaps_unfold(rs, s, e, id);
    lemma_fill_gaps_covers(rest, resume_at(f, s), e, id);
    assert(r == head + rec);
    assert forall|p: int| s <= p < e implies covered(r, p) by {
        if p < f.start_idx {
            assert(covers(r[0], p));
        } else if p < f.end_idx {
            assert(covers(r[head.len() - 1], p));
        } else {
            assert(resume_at(f, s) <= p);
            assert(covered(rec, p));
            let k = choose|k: int| 0 <= k < rec.len() && covers(rec[k], p);
            assert(covers(r[k + head.len()], p));
        }
    }
}

/// Every range that `fill_gaps` adds to `rs` is a maximal stretch of
/// `[s, e)` that `rs` leaves uncovered.
proof fn lemma_fill_gaps_pieces(rs: Seq<RangeWithId>, s: usize, e: usize, id: usize)
    requires
        is_ordered(rs),
    ensures
        forall|j: int|
            0 <= j < fill_gaps(rs, s, e, id).len() ==> rs.contains(
                #[trigger] fill_gaps(rs, s, e, id)[j],
            ) || is_gap_piece(rs, piece(s, e, id), fill_gaps(rs, s, e, id)[j]),
    decreases rs.len(),
{
    let r = fill_gaps(rs, s, e, id);
    let n = piece(s, e, id);
    if rs.len() == 0 {
        return;
    }
    if e <= s {
        lemma_fill_gaps_empty(rs, s, e, id);
        assert forall|j: int| 0 <= j < r.len() implies rs.contains(#[trigger] r[j]) by {
            assert(rs[j] == r[j]);
        }
        return;
    }
    let f = rs[0];
    let rest = rs.drop_first();
    lemma_rest_ordered(rs);
    if e <= f.start_idx {
        assert(r == seq![n] + rs);
        assert forall|p: int| n.start_idx <= p < n.end_idx implies !covered(rs, p) by {
            if covered(rs, p) {
                let k = choose|k: int| 0 <= k < rs.len() && covers(rs[k], p);
                if k > 0 {
                    assert(rs[0].end_idx <= rs[k].start_idx);
                }
            }
        }
        assert forall|j: int| 0 <= j < r.len() implies rs.contains(#[trigger] r[j]) || is_gap_piece(
            rs,
            n,
            r[j],
        ) by {
            if j > 0 {
                assert(rs[j - 1] == r[j]);
            }
        }
        return;
    }
    let s2 = resume_at(f, s);
    let head = head_of(f, s, id);
    let rec = fill_gaps(rest, s2, e, id);
    lemma_fill_gaps_unfold(rs, s, e, id);
    lemma_fill_gaps_pieces(rest, s2, e, id);
    lemma_fill_gaps_ordered(rest, s2, e, id, f.end_idx as int);
    assert(r == head + rec);
    assert forall|j: int| 0 <= j < r.len() implies rs.contains(#[trigger] r[j]) || is_gap_piece(
        rs,
        n,
        r[j],
    ) by {
        if j == head.len() - 1 {
            assert(rs[0] == r[j]);
        } else if j < head.len() {
            assert(r[j] == piece(s, f.start_idx, id));
            assert forall|p: int| s <= p < f.start_idx implies !covered(rs, p) by {
                if covered(rs, p) {
                    let k = choose|k: int| 0 <= k < rs.len() && covers(rs[k], p);
                    if k > 0 {
                        assert(rs[0].end_idx <= rs[k].start_idx);
                    }
                }
            }
            assert(covers(rs[0], f.start_idx as int));
        } else {
            let x = rec[j - head.len()];
            assert(r[j] == x);
            assert(f.end_idx <= x.start_idx);
            if rest.contains(x) {
                let k = choose|k: int| 0 <= k < rest.len() && rest[k] == x;
                assert(rs[k + 1] == x);
            } else {
                assert(is_gap_piece(rest, piece(s2, e, id), x));
                assert forall|p: int| x.start_idx <= p < x.end_idx implies !covered(rs, p) by {
                    assert(!covered(rest, p));
                    if covered(rs, p) {
                        let k = choose|k: int| 0 <= k < rs.len() && covers(rs[k], p);
                        if k > 0 {
                            assert(covers(rest[k - 1], p));
                        }
                    }
                }
                if x.start_idx != s {
                    if x.start_idx == s2 {
                        assert(covers(rs[0], x.start_idx - 1));
                    } else {
                        lemma_covered_rest(rs, x.start_idx - 1);
                    }
                }
                if x.end_idx != e {
                    lemma_covered_rest(rs, x.end_idx as int);
                }
            }
        }
    }
}

/// What adding `n` to an ordered `rs` yields: an ordered sequence that keeps
/// every range of `rs`, adds only maximal stretches of `n` that `rs` leaves
/// uncovered, in `n`'s color, and covers every byte of `n`.
pub proof fn lemma_added(rs: Seq<RangeWithId>, n: RangeWithId)
    requires
        is_ordered(rs),
    ensures
        is_ordered(added(rs, n)),
        forall|i: int| 0 <= i < rs.len() ==> added(rs, n).contains(#[trigger] rs[i]),
        forall|j: int|
            0 <= j < added(rs, n).len() ==> rs.contains(#[trigger] added(rs, n)[j])
                || is_gap_piece(rs, n, added(rs, n)[j]),
        forall|p: int| n.start_idx <= p < n.end_idx ==> covered(added(rs, n), p),
{
    lemma_fill_gaps_ordered(rs, n.start_idx, n.end_idx, n.id, 0);
    lemma_fill_gaps_keeps(rs, n.start_idx, n.end_idx, n.id);
    lemma_fill_gaps_pieces(rs, n.start_idx, n.end_idx, n.id);
    lemma_fill_gaps_covers(rs, n.start_idx, n.end_idx, n.id);
    assert(piece(n.start_idx, n.end_idx, n.id) == n);
}

/// Adds `new_range` to the ordered sequence `ranges`. Bytes already claimed
/// by a range of `ranges` keep their range: only the parts of `new_range`
/// that are still free are inserted, in `new_range`'s color, each at its
/// sorted position. An empty `new_range` changes nothing.
pub fn add_range(ranges: &mut Vec<RangeWithId>, new_range: RangeWithId)
    requires
        is_ordered(old(ranges)@),
    ensures
        final(ranges)@ == added(old(ranges)@, new_range),
        is_ordered(final(ranges)@),
        forall|i: int|
            0 <= i < old(ranges)@.len() ==> final(ranges)@.contains(#[trigger] old(ranges)@[i]),
        forall|j: int|
            0 <= j < final(ranges)@.len() ==> old(ranges)@.contains(#[trigger] final(ranges)@[j])
                || is_gap_piece(old(ranges)@, new_range, final(ranges)@[j]),
        forall|p: int|
            new_range.start_idx <= p < new_range.end_idx ==> covered(final(ranges)@, p),
{
    proof {
        lemma_added(old(ranges)@, new_range);
    }
    let ghost rs = ranges@;
    let mut out: Vec<RangeWithId> = Vec::new();
    let mut start = new_range.start_idx;
    let end = new_range.end_idx;
    let id = new_range.id;
    let mut i: usize = 0;
    assert(rs.subrange(0, rs.len() as int) =~= rs);
    assert(out@ + fill_gaps(rs, start, end, id) =~= fill_gaps(rs, start, end, id));
    while i < ranges.len()
        invariant
            ranges@ == rs,
            i <= rs.len(),
            out@ + fill_gaps(rs.subrange(i as int, rs.len() as int), start, end, id)
                == added(rs, new_range),
            end == new_range.end_idx,
            id == new_range.id,
        decreases rs.len() - i,
    {
        let e = ranges[i];
        let ghost sub = rs.subrange(i as int, rs.len() as int);
        let ghost rest = rs.subrange(i + 1, rs.len() as int);
        assert(sub[0] == e);
        assert(sub.drop_first() =~= rest);
        let ghost before = out@;
        let ghost s0 = start;
        if start < end {
            if end <= e.start_idx {
                out.push(RangeWithId { start_idx: start, end_idx: end, id });
                start = end;
            } else if start < e.end_idx {
                if start < e.start_idx {
                    out.push(RangeWithId { start_idx: start, end_idx: e.start_idx, id });
                }
                if end > e.end_idx {
                    start = e.end_idx;
                } else {
                    start = end;
                }
            }
        }
        out.push(e);
        proof {
            if end <= start {
                lemma_fill_gaps_empty(rest, start, end, id);
            }
            if end <= e.end_idx {
                lemma_fill_gaps_empty(rest, e.end_idx, end, id);
            }
            if end <= s0 {
                lemma_fill_gaps_empty(sub, s0, end, id);
                assert(sub =~= seq![e] + rest);
            }
            assert(out@ + fill_gaps(rest, start, end, id) =~= before + fill_gaps(sub, s0, end, id));
        }
        i += 1;
    }
    proof {
        assert(rs.subrange(i as int, rs.len() as int) =~= Seq::<RangeWithId>::empty());
    }
    if start < end {
        out.push(RangeWithId { start_idx: start, end_idx: end, id });
    }
    assert(out@ =~= added(rs, new_range));
    *ranges = out;
}

} // verus!
