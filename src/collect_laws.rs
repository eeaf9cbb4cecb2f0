use vstd::prelude::*;
use crate::ranges::{RangeWithId, covers, covered, is_ordered, added, added_all, piece, fill_gaps, lemma_added};
use crate::range_laws::{law_adding_keeps_order, law_ranges_persist, lemma_skip_prefix};
use crate::pattern::ends_before;
use crate::collect::{
    all_candidates,
    pattern_candidates,
    match_candidates,
    group_candidate,
    group_color,
    colors_taken,
    colored_group_count,
    first_colored_group,
    color_base,
    ranges_for,
    highlighted,
};
use crate::pattern::Pattern;

verus! {

/// The colored ranges of a line are ordered and free of overlap, whatever
/// the patterns and their matches.
pub proof fn law_highlighted_ordered(
    ms: Seq<Seq<Seq<Option<(usize, usize)>>>>,
    gs: Seq<usize>,
    ps: Seq<Pattern>,
    line: Seq<char>,
    vary: bool,
    full_match: bool,
)
    ensures
        is_ordered(ranges_for(ms, gs, vary, full_match)),
        is_ordered(highlighted(ps, line, vary, full_match)),
{
    law_adding_keeps_order(seq![], all_candidates(ms, gs, vary, full_match, ms.len()));
    law_adding_keeps_order(seq![], all_candidates(crate::collect::matches_in(ps, line), crate::collect::groups_of(ps), vary, full_match, ps.len()));
}

/// Adding an ordered sequence of ranges, one by one, to nothing yields that
/// sequence.
proof fn lemma_added_all_ordered(w: Seq<RangeWithId>)
    requires
        is_ordered(w),
    ensures
        added_all(seq![], w) == w,
    decreases w.len(),
{
    if w.len() > 0 {
        let front = w.drop_last();
        let n = w.last();
        assert(is_ordered(front));
        lemma_added_all_ordered(front);
        assert forall|i: int| 0 <= i < front.len() implies #[trigger] front[i].end_idx <= n.start_idx by {
            assert(w[i].end_idx <= w[w.len() - 1].start_idx);
        }
        lemma_skip_prefix(front, n.start_idx, n.end_idx, n.id, front.len() as int);
        assert(front.subrange(0, front.len() as int) =~= front);
        assert(front.subrange(front.len() as int, front.len() as int) =~= Seq::<RangeWithId>::empty());
        assert(fill_gaps(Seq::<RangeWithId>::empty(), n.start_idx, n.end_idx, n.id) == seq![piece(n.start_idx, n.end_idx, n.id)]);
        assert(added(front, n) =~= w);
    }
}

/// The ranges of the whole matches in `ms`, all in color 0.
pub open spec fn whole_matches(ms: Seq<Seq<Option<(usize, usize)>>>) -> Seq<RangeWithId> {
    Seq::new(
        ms.len(),
        |j: int|
            match ms[j][0] {
                Some((a, b)) => RangeWithId { start_idx: a, end_idx: b, id: 0 },
                None => RangeWithId { start_idx: 0, end_idx: 0, id: 0 },
            },
    )
}

proof fn lemma_plain_candidates(ms: Seq<Seq<Option<(usize, usize)>>>, vary: bool, j: nat)
    requires
        j <= ms.len(),
        forall|i: int| 0 <= i < ms.len() ==> #[trigger] ms[i].len() >= 1 && ms[i][0] is Some,
    ensures
        pattern_candidates(ms, 0, 1, 0, vary, j) == whole_matches(ms).subrange(0, j as int),
    decreases j,
{
    if j > 0 {
        lemma_plain_candidates(ms, vary, (j - 1) as nat);
        let m = ms[j - 1];
        assert(group_color(0, 1, 0, vary) == 0);
        assert(match_candidates(m, 0, 1, 0, vary, 0) =~= seq![]);
        assert(match_candidates(m, 0, 1, 0, vary, 1) =~= group_candidate(m, 0, 0));
        assert(group_candidate(m, 0, 0) =~= seq![whole_matches(ms)[j - 1]]);
        assert(pattern_candidates(ms, 0, 1, 0, vary, j) =~= whole_matches(ms).subrange(0, j as int));
    }
}

/// A lone pattern without capture groups colors each of its matches whole,
/// every one in color 0, whether or not groups get their own colors and
/// whether or not whole matches are asked for.
pub proof fn law_plain_pattern_colors_whole_matches(
    ms: Seq<Seq<Option<(usize, usize)>>>,
    vary: bool,
    full_match: bool,
)
    requires
        forall|i: int|
            0 <= i < ms.len() ==> #[trigger] ms[i].len() >= 1 && match ms[i][0] {
                Some((a, b)) => a < b,
                None => false,
            },
        forall|i: int, j: int| 0 <= i < j < ms.len() ==> ends_before(#[trigger] ms[i], #[trigger] ms[j]),
    ensures
        ranges_for(seq![ms], seq![0usize], vary, full_match) == whole_matches(ms),
{
    let w = whole_matches(ms);
    assert(first_colored_group(0, full_match) == 0);
    assert(colored_group_count(0, full_match) == 1);
    assert(color_base(seq![0usize], vary, full_match, 0) == 0);
    lemma_plain_candidates(ms, vary, ms.len());
    assert(w.subrange(0, ms.len() as int) =~= w);
    assert(all_candidates(seq![ms], seq![0usize], vary, full_match, 0) =~= seq![]);
    assert(all_candidates(seq![ms], seq![0usize], vary, full_match, 1) =~= w);
    assert forall|i: int, j: int| 0 <= i < j < w.len() implies #[trigger] w[i].end_idx
        <= #[trigger] w[j].start_idx by {
        assert(ends_before(ms[i], ms[j]));
    }
    assert forall|i: int| 0 <= i < w.len() implies #[trigger] w[i].start_idx < w[i].end_idx by {
        assert(ms[i].len() >= 1);
    }
    lemma_added_all_ordered(w);
}

/// Adding `a` and then `b` is adding `a + b`.
proof fn lemma_added_all_concat(rs: Seq<RangeWithId>, a: Seq<RangeWithId>, b: Seq<RangeWithId>)
    ensures
        added_all(rs, a + b) == added_all(added_all(rs, a), b),
    decreases b.len(),
{
    if b.len() == 0 {
        assert(a + b =~= a);
    } else {
        lemma_added_all_concat(rs, a, b.drop_last());
        assert((a + b).drop_last() =~= a + b.drop_last());
        assert((a + b).last() == b.last());
    }
}

/// Every id in `rs` is below `t`.
pub open spec fn ids_below(rs: Seq<RangeWithId>, t: nat) -> bool {
    forall|i: int| 0 <= i < rs.len() ==> (#[trigger] rs[i]).id < t
}

/// Adding ranges keeps every covered byte covered, covers the bytes of each
/// added range, and brings in no id that neither side had.
proof fn lemma_added_all_covers(rs: Seq<RangeWithId>, news: Seq<RangeWithId>, t: nat)
    requires
        is_ordered(rs),
        ids_below(rs, t),
        ids_below(news, t),
    ensures
        ids_below(added_all(rs, news), t),
        forall|p: int| covered(rs, p) ==> covered(added_all(rs, news), p),
        forall|j: int, p: int|
            0 <= j < news.len() && #[trigger] covers(news[j], p) ==> covered(added_all(rs, news), p),
    decreases news.len(),
{
    if news.len() > 0 {
        let front = news.drop_last();
        let n = news.last();
        let x = added_all(rs, front);
        let r = added_all(rs, news);
        assert(ids_below(front, t)) by {
            assert forall|i: int| 0 <= i < front.len() implies (#[trigger] front[i]).id < t by {
                assert(front[i] == news[i]);
            }
        }
        lemma_added_all_covers(rs, front, t);
        law_adding_keeps_order(rs, front);
        lemma_added(x, n);
        assert(r == added(x, n));
        assert forall|i: int| 0 <= i < r.len() implies (#[trigger] r[i]).id < t by {
            if x.contains(r[i]) {
                let k = choose|k: int| 0 <= k < x.len() && x[k] == r[i];
                assert(x[k].id < t);
            } else {
                assert(news[news.len() - 1].id < t);
            }
        }
        assert forall|p: int| covered(x, p) implies covered(r, p) by {
            let k = choose|k: int| 0 <= k < x.len() && covers(x[k], p);
            assert(r.contains(x[k]));
            let i = choose|i: int| 0 <= i < r.len() && r[i] == x[k];
            assert(covers(r[i], p));
        }
        assert forall|j: int, p: int|
            0 <= j < news.len() && #[trigger] covers(news[j], p) implies covered(r, p) by {
            if j < front.len() {
                assert(front[j] == news[j]);
                assert(covered(x, p));
            }
        }
    }
}

/// The candidates of the first `k` colored groups of a match, with color
/// ids starting at 0, have ids below the number of colors the pattern takes.
proof fn lemma_match_candidate_ids(
    m: Seq<Option<(usize, usize)>>,
    first: nat,
    count: nat,
    vary: bool,
    k: nat,
)
    requires
        k <= count <= usize::MAX,
    ensures
        ids_below(match_candidates(m, first, count, 0, vary, k), if vary { count } else { 1 }),
    decreases k,
{
    if k > 0 {
        lemma_match_candidate_ids(m, first, count, vary, (k - 1) as nat);
        let c = group_color(0, count, (k - 1) as nat, vary);
        let g = group_candidate(m, first + k - 1, c);
        let prev = match_candidates(m, first, count, 0, vary, (k - 1) as nat);
        let t: nat = if vary { count } else { 1 };
        assert(c < t);
        assert(ids_below(g, t));
        assert(match_candidates(m, first, count, 0, vary, k) == prev + g);
        assert forall|i: int| 0 <= i < (prev + g).len() implies (#[trigger] (prev + g)[i]).id < t by {
            if i >= prev.len() {
                assert((prev + g)[i] == g[i - prev.len()]);
            }
        }
    }
}

proof fn lemma_pattern_candidate_ids(
    ms: Seq<Seq<Option<(usize, usize)>>>,
    first: nat,
    count: nat,
    vary: bool,
    j: nat,
)
    requires
        count <= usize::MAX,
    ensures
        ids_below(pattern_candidates(ms, first, count, 0, vary, j), if vary { count } else { 1 }),
    decreases j,
{
    if j > 0 && j <= ms.len() {
        lemma_pattern_candidate_ids(ms, first, count, vary, (j - 1) as nat);
        lemma_match_candidate_ids(ms[j - 1], first, count, vary, count);
        let prev = pattern_candidates(ms, first, count, 0, vary, (j - 1) as nat);
        let g = match_candidates(ms[j - 1], first, count, 0, vary, count);
        let t: nat = if vary { count } else { 1 };
        assert forall|i: int| 0 <= i < (prev + g).len() implies (#[trigger] (prev + g)[i]).id < t by {
            if i >= prev.len() {
                assert((prev + g)[i] == g[i - prev.len()]);
            }
        }
    }
}

/// The candidates of the last pattern come first among all candidates.
proof fn lemma_all_candidates_prefix(
    ms: Seq<Seq<Seq<Option<(usize, usize)>>>>,
    gs: Seq<usize>,
    vary: bool,
    full_match: bool,
    k: nat,
)
    requires
        1 <= k,
    ensures
        all_candidates(ms, gs, vary, full_match, 1).len() <= all_candidates(ms, gs, vary, full_match, k).len()
            || k > ms.len() || k > gs.len(),
        k <= ms.len() && k <= gs.len() ==> all_candidates(ms, gs, vary, full_match, k).subrange(
            0,
            all_candidates(ms, gs, vary, full_match, 1).len() as int,
        ) == all_candidates(ms, gs, vary, full_match, 1),
    decreases k,
{
    let a = all_candidates(ms, gs, vary, full_match, 1);
    if k > 1 && k <= ms.len() && k <= gs.len() {
        lemma_all_candidates_prefix(ms, gs, vary, full_match, (k - 1) as nat);
        let prev = all_candidates(ms, gs, vary, full_match, (k - 1) as nat);
        let cur = all_candidates(ms, gs, vary, full_match, k);
        assert(cur.subrange(0, a.len() as int) =~= prev.subrange(0, a.len() as int));
    } else if k == 1 && k <= ms.len() && k <= gs.len() {
        let cur = all_candidates(ms, gs, vary, full_match, k);
        assert(cur.subrange(0, a.len() as int) =~= a);
    }
}

/// The pattern listed last wins every overlap: each byte that one of its
/// ranges asks for ends up in a colored range with one of its own color ids,
/// which are the ids below the number of colors it takes; the patterns
/// listed before it get the ids above.
pub proof fn law_last_listed_pattern_wins(
    ms: Seq<Seq<Seq<Option<(usize, usize)>>>>,
    gs: Seq<usize>,
    vary: bool,
    full_match: bool,
)
    requires
        ms.len() == gs.len(),
        ms.len() >= 1,
    ensures
        forall|j: int, p: int|
            0 <= j < all_candidates(ms, gs, vary, full_match, 1).len() && #[trigger] covers(
                all_candidates(ms, gs, vary, full_match, 1)[j],
                p,
            ) ==> exists|i: int|
                0 <= i < ranges_for(ms, gs, vary, full_match).len() && covers(
                    #[trigger] ranges_for(ms, gs, vary, full_match)[i],
                    p,
                ) && ranges_for(ms, gs, vary, full_match)[i].id < colors_taken(
                    gs.last() as nat,
                    vary,
                    full_match,
                ),
        forall|k: nat| 1 <= k <= gs.len() ==> colors_taken(gs.last() as nat, vary, full_match)
            <= #[trigger] color_base(gs, vary, full_match, k),
{
    let n = ms.len();
    let a = all_candidates(ms, gs, vary, full_match, 1);
    let all = all_candidates(ms, gs, vary, full_match, n);
    let r = ranges_for(ms, gs, vary, full_match);
    let t = colors_taken(gs.last() as nat, vary, full_match);
    let groups = gs[gs.len() - 1] as nat;
    let count = colored_group_count(groups, full_match);
    lemma_all_candidates_prefix(ms, gs, vary, full_match, n);
    let b = all.subrange(a.len() as int, all.len() as int);
    assert(all =~= a + b);
    lemma_added_all_concat(seq![], a, b);
    assert(color_base(gs, vary, full_match, 0) == 0);
    assert(all_candidates(ms, gs, vary, full_match, 0) =~= Seq::<RangeWithId>::empty());
    assert(a =~= pattern_candidates(
        ms[n - 1],
        first_colored_group(groups, full_match),
        count,
        0,
        vary,
        ms[n - 1].len(),
    ));
    lemma_pattern_candidate_ids(ms[n - 1], first_colored_group(groups, full_match), count, vary, ms[n - 1].len());
    assert(t == if vary { count } else { 1 });
    let s = added_all(seq![], a);
    lemma_added_all_covers(seq![], a, t);
    law_adding_keeps_order(seq![], a);
    law_ranges_persist(s, b);
    assert(r == added_all(s, b));
    assert forall|j: int, p: int|
        0 <= j < a.len() && #[trigger] covers(a[j], p) implies exists|i: int|
            0 <= i < r.len() && covers(#[trigger] r[i], p) && r[i].id < t by {
        assert(covered(s, p));
        let k = choose|k: int| 0 <= k < s.len() && covers(s[k], p);
        assert(r.contains(s[k]));
        let i = choose|i: int| 0 <= i < r.len() && r[i] == s[k];
        assert(covers(r[i], p) && r[i].id < t);
    }
    assert forall|k: nat| 1 <= k <= gs.len() implies t <= #[trigger] color_base(gs, vary, full_match, k) by {
        lemma_color_base_from_one(gs, vary, full_match, k);
    }
}

proof fn lemma_color_base_from_one(gs: Seq<usize>, vary: bool, full_match: bool, k: nat)
    requires
        1 <= k <= gs.len(),
    ensures
        colors_taken(gs.last() as nat, vary, full_match) <= color_base(gs, vary, full_match, k),
    decreases k,
{
    if k > 1 {
        lemma_color_base_from_one(gs, vary, full_match, (k - 1) as nat);
    }
}

} // verus!
