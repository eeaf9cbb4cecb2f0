use vstd::prelude::*;
use crate::ranges::{
    RangeWithId,
    piece,
    is_ordered,
    fill_gaps,
    added,
    added_all,
    lemma_added,
    lemma_rest_ordered,
    lemma_fill_gaps_empty,
};

verus! {

/// Ranges that end by `s` pass through `fill_gaps` unchanged and in front.
pub proof fn lemma_skip_prefix(rs: Seq<RangeWithId>, s: usize, e: usize, id: usize, k: int)
    requires
        is_ordered(rs),
        s < e,
        0 <= k <= rs.len(),
        forall|i: int| 0 <= i < k ==> #[trigger] rs[i].end_idx <= s,
    ensures
        fill_gaps(rs, s, e, id) == rs.subrange(0, k) + fill_gaps(
            rs.subrange(k, rs.len() as int),
            s,
            e,
            id,
        ),
    decreases k,
{
    if k == 0 {
        assert(rs.subrange(0, rs.len() as int) =~= rs);
        assert(rs.subrange(0, 0) + fill_gaps(rs, s, e, id) =~= fill_gaps(rs, s, e, id));
        return;
    }
    let rest = rs.drop_first();
    lemma_rest_ordered(rs);
    assert(rs[0].end_idx <= s);
    assert forall|i: int| 0 <= i < k - 1 implies #[trigger] rest[i].end_idx <= s by {
        assert(rest[i] == rs[i + 1]);
    }
    lemma_skip_prefix(rest, s, e, id, k - 1);
    assert(rest.subrange(k - 1, rest.len() as int) =~= rs.subrange(k, rs.len() as int));
    assert(seq![rs[0]] + rest.subrange(0, k - 1) =~= rs.subrange(0, k));
    assert(fill_gaps(rs, s, e, id) == seq![rs[0]] + fill_gaps(rest, s, e, id));
    assert(fill_gaps(rs, s, e, id) =~= rs.subrange(0, k) + fill_gaps(
        rs.subrange(k, rs.len() as int),
        s,
        e,
        id,
    ));
}

/// Ranges that come before `rs[k]` end by its start.
proof fn lemma_before_k(rs: Seq<RangeWithId>, k: int)
    requires
        is_ordered(rs),
        0 <= k < rs.len(),
    ensures
        forall|i: int| 0 <= i < k ==> #[trigger] rs[i].end_idx <= rs[k].start_idx,
{
}

/// Whatever ranges are added, in whatever order, to an ordered sequence, the
/// result is sorted by start, and each range ends at or before the start of
/// the next one.
pub proof fn law_adding_keeps_order(rs: Seq<RangeWithId>, news: Seq<RangeWithId>)
    requires
        is_ordered(rs),
    ensures
        is_ordered(added_all(rs, news)),
        forall|i: int|
            0 <= i < added_all(rs, news).len() - 1 ==> #[trigger] added_all(rs, news)[i].start_idx
                <= added_all(rs, news)[i + 1].start_idx && added_all(rs, news)[i].end_idx
                <= added_all(rs, news)[i + 1].start_idx,
    decreases news.len(),
{
    if news.len() > 0 {
        law_adding_keeps_order(rs, news.drop_last());
        lemma_added(added_all(rs, news.drop_last()), news.last());
    }
    let r = added_all(rs, news);
    assert forall|i: int| 0 <= i < r.len() - 1 implies #[trigger] r[i].start_idx
        <= r[i + 1].start_idx && r[i].end_idx <= r[i + 1].start_idx by {
        assert(r[i].start_idx < r[i].end_idx);
        assert(r[i].end_idx <= r[i + 1].start_idx);
    }
}

/// A range in the sequence stays there, unchanged, whatever ranges are added
/// after it: later ranges are clipped around it, never it around them.
pub proof fn law_ranges_persist(rs: Seq<RangeWithId>, news: Seq<RangeWithId>)
    requires
        is_ordered(rs),
    ensures
        forall|i: int| 0 <= i < rs.len() ==> added_all(rs, news).contains(#[trigger] rs[i]),
    decreases news.len(),
{
    if news.len() > 0 {
        let before = added_all(rs, news.drop_last());
        law_ranges_persist(rs, news.drop_last());
        law_adding_keeps_order(rs, news.drop_last());
        lemma_added(before, news.last());
        assert forall|i: int| 0 <= i < rs.len() implies added_all(rs, news).contains(
            #[trigger] rs[i],
        ) by {
            let k = choose|k: int| 0 <= k < before.len() && before[k] == rs[i];
            assert(added(before, news.last()).contains(before[k]));
        }
    }
}

/// A range that overlaps no range of the sequence is inserted whole, at one
/// position, and nothing else changes.
pub proof fn law_disjoint_range_inserted_whole(rs: Seq<RangeWithId>, n: RangeWithId)
    requires
        is_ordered(rs),
        n.start_idx < n.end_idx,
        forall|i: int|
            0 <= i < rs.len() ==> n.end_idx <= #[trigger] rs[i].start_idx || rs[i].end_idx
                <= n.start_idx,
    ensures
        is_ordered(added(rs, n)),
        exists|k: int| 0 <= k <= rs.len() && added(rs, n) == rs.insert(k, n),
    decreases rs.len(),
{
    lemma_added(rs, n);
    let r = added(rs, n);
    if rs.len() == 0 {
        assert(r =~= rs.insert(0, n));
        return;
    }
    let f = rs[0];
    let rest = rs.drop_first();
    lemma_rest_ordered(rs);
    if n.end_idx <= f.start_idx {
        assert(r =~= rs.insert(0, n));
        return;
    }
    assert forall|i: int| 0 <= i < rest.len() implies n.end_idx <= #[trigger] rest[i].start_idx
        || rest[i].end_idx <= n.start_idx by {
        assert(rest[i] == rs[i + 1]);
    }
    law_disjoint_range_inserted_whole(rest, n);
    let k = choose|k: int| 0 <= k <= rest.len() && added(rest, n) == rest.insert(k, n);
    assert(r == seq![f] + added(rest, n));
    assert(r =~= rs.insert(k + 1, n));
}

/// A range that reaches into one range of the sequence from the left, and
/// overlaps no other, adds only its part in front of that range.
pub proof fn law_left_overlap_split(rs: Seq<RangeWithId>, n: RangeWithId, k: int)
    requires
        is_ordered(rs),
        0 <= k < rs.len(),
        n.start_idx < rs[k].start_idx < n.end_idx <= rs[k].end_idx,
        forall|i: int|
            0 <= i < rs.len() && i != k ==> n.end_idx <= #[trigger] rs[i].start_idx
                || rs[i].end_idx <= n.start_idx,
    ensures
        added(rs, n) == rs.insert(k, piece(n.start_idx, rs[k].start_idx, n.id)),
{
    let (s, e, id) = (n.start_idx, n.end_idx, n.id);
    assert forall|i: int| 0 <= i < k implies #[trigger] rs[i].end_idx <= s by {
        assert(rs[i].start_idx < rs[i].end_idx && rs[i].end_idx <= rs[k].start_idx);
    }
    lemma_skip_prefix(rs, s, e, id, k);
    let sub = rs.subrange(k, rs.len() as int);
    let after = rs.subrange(k + 1, rs.len() as int);
    assert(sub.drop_first() =~= after);
    lemma_fill_gaps_empty(after, rs[k].end_idx, e, id);
    assert(fill_gaps(sub, s, e, id) == seq![piece(s, rs[k].start_idx, id), rs[k]] + after);
    assert(added(rs, n) =~= rs.insert(k, piece(s, rs[k].start_idx, id)));
}

/// A range that reaches out of one range of the sequence to the right, and
/// overlaps no other, adds only its part behind that range.
pub proof fn law_right_overlap_split(rs: Seq<RangeWithId>, n: RangeWithId, k: int)
    requires
        is_ordered(rs),
        0 <= k < rs.len(),
        rs[k].start_idx <= n.start_idx < rs[k].end_idx < n.end_idx,
        forall|i: int|
            0 <= i < rs.len() && i != k ==> n.end_idx <= #[trigger] rs[i].start_idx
                || rs[i].end_idx <= n.start_idx,
    ensures
        added(rs, n) == rs.insert(k + 1, piece(rs[k].end_idx, n.end_idx, n.id)),
{
    let (s, e, id) = (n.start_idx, n.end_idx, n.id);
    lemma_before_k(rs, k);
    lemma_skip_prefix(rs, s, e, id, k);
    let sub = rs.subrange(k, rs.len() as int);
    let after = rs.subrange(k + 1, rs.len() as int);
    assert(sub.drop_first() =~= after);
    let p = piece(rs[k].end_idx, e, id);
    if after.len() == 0 {
        assert(fill_gaps(after, rs[k].end_idx, e, id) =~= seq![p]);
    } else {
        assert(after[0] == rs[k + 1]);
        assert(rs[k].end_idx <= rs[k + 1].start_idx);
        assert(e <= rs[k + 1].start_idx);
        assert(fill_gaps(after, rs[k].end_idx, e, id) == seq![p] + after);
    }
    assert(fill_gaps(after, rs[k].end_idx, e, id) =~= seq![p] + after);
    assert(fill_gaps(sub, s, e, id) == seq![rs[k]] + fill_gaps(after, rs[k].end_idx, e, id));
    assert(added(rs, n) =~= rs.insert(k + 1, p));
}

/// A range that lies inside one range of the sequence changes nothing.
pub proof fn law_contained_range_adds_nothing(rs: Seq<RangeWithId>, n: RangeWithId, k: int)
    requires
        is_ordered(rs),
        0 <= k < rs.len(),
        rs[k].start_idx <= n.start_idx,
        n.end_idx <= rs[k].end_idx,
    ensures
        added(rs, n) == rs,
{
    let (s, e, id) = (n.start_idx, n.end_idx, n.id);
    if e <= s {
        lemma_fill_gaps_empty(rs, s, e, id);
        return;
    }
    lemma_before_k(rs, k);
    lemma_skip_prefix(rs, s, e, id, k);
    let sub = rs.subrange(k, rs.len() as int);
    let after = rs.subrange(k + 1, rs.len() as int);
    assert(sub.drop_first() =~= after);
    lemma_fill_gaps_empty(after, rs[k].end_idx, e, id);
    assert(fill_gaps(sub, s, e, id) == seq![rs[k]] + after);
    assert(added(rs, n) =~= rs);
}

/// A range that starts inside one range of the sequence and ends inside the
/// next one adds exactly the gap between the two, in its own color.
pub proof fn law_bridge_fills_gap(rs: Seq<RangeWithId>, n: RangeWithId, k: int)
    requires
        is_ordered(rs),
        0 <= k,
        k + 1 < rs.len(),
        rs[k].start_idx <= n.start_idx < rs[k].end_idx,
        rs[k].end_idx < rs[k + 1].start_idx,
        rs[k + 1].start_idx < n.end_idx <= rs[k + 1].end_idx,
    ensures
        added(rs, n) == rs.insert(k + 1, piece(rs[k].end_idx, rs[k + 1].start_idx, n.id)),
{
    let (s, e, id) = (n.start_idx, n.end_idx, n.id);
    lemma_before_k(rs, k);
    lemma_skip_prefix(rs, s, e, id, k);
    let sub = rs.subrange(k, rs.len() as int);
    let after = rs.subrange(k + 1, rs.len() as int);
    let after2 = rs.subrange(k + 2, rs.len() as int);
    assert(sub.drop_first() =~= after);
    assert(after.drop_first() =~= after2);
    assert(after[0] == rs[k + 1]);
    let p = piece(rs[k].end_idx, rs[k + 1].start_idx, id);
    lemma_fill_gaps_empty(after2, rs[k + 1].end_idx, e, id);
    assert(fill_gaps(after, rs[k].end_idx, e, id) == seq![p, rs[k + 1]] + after2);
    assert(fill_gaps(sub, s, e, id) == seq![rs[k]] + fill_gaps(after, rs[k].end_idx, e, id));
    assert(added(rs, n) =~= rs.insert(k + 1, p));
}

} // verus!
