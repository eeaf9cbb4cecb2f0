use vstd::prelude::*;
use vstd::string::StringSliceAdditionalSpecFns;
use crate::ranges::{RangeWithId, is_ordered, added, added_all, is_gap_piece, lemma_added, add_range};
use crate::pattern::{Pattern, captures, captures_of, span_within};

verus! {

/// The first capture group that is colored: group 0, the whole match, when
/// the whole match is highlighted or the pattern has no groups; else group 1.
pub open spec fn first_colored_group(groups: nat, full_match: bool) -> nat {
    if full_match || groups == 0 {
        0
    } else {
        1
    }
}

/// How many capture groups, from the first colored one on, are colored.
pub open spec fn colored_group_count(groups: nat, full_match: bool) -> nat {
    if full_match || groups == 0 {
        1
    } else {
        groups
    }
}

/// How many color ids a pattern takes up.
pub open spec fn colors_taken(groups: nat, vary: bool, full_match: bool) -> nat {
    if vary {
        colored_group_count(groups, full_match)
    } else {
        1
    }
}

/// The color id of the `i`-th colored group of a pattern whose first id is
/// `base`: with varied colors, the last group gets `base` and earlier groups
/// higher ids; without, every group gets `base`.
pub open spec fn group_color(base: nat, count: nat, i: nat, vary: bool) -> nat {
    if vary {
        base + (count - 1 - i) as nat
    } else {
        base
    }
}

/// The range that capture group `g` of match `m` asks for in color `color`,
/// if the group took part in the match.
pub open spec fn group_candidate(m: Seq<Option<(usize, usize)>>, g: int, color: nat) -> Seq<
    RangeWithId,
> {
    if 0 <= g < m.len() {
        match m[g] {
            Some((a, b)) => seq![RangeWithId { start_idx: a, end_idx: b, id: color as usize }],
            None => seq![],
        }
    } else {
        seq![]
    }
}

/// The ranges that the first `k` colored groups of match `m` ask for.
pub open spec fn match_candidates(
    m: Seq<Option<(usize, usize)>>,
    first: nat,
    count: nat,
    base: nat,
    vary: bool,
    k: nat,
) -> Seq<RangeWithId>
    decreases k,
{
    if k == 0 {
        seq![]
    } else {
        match_candidates(m, first, count, base, vary, (k - 1) as nat) + group_candidate(
            m,
            first + k - 1,
            group_color(base, count, (k - 1) as nat, vary),
        )
    }
}

/// The ranges that the first `j` matches of a pattern ask for, in order.
pub open spec fn pattern_candidates(
    ms: Seq<Seq<Option<(usize, usize)>>>,
    first: nat,
    count: nat,
    base: nat,
    vary: bool,
    j: nat,
) -> Seq<RangeWithId>
    decreases j,
{
    if j == 0 || j > ms.len() {
        seq![]
    } else {
        pattern_candidates(ms, first, count, base, vary, (j - 1) as nat) + match_candidates(
            ms[j - 1],
            first,
            count,
            base,
            vary,
            count,
        )
    }
}

/// The spans of every capture group of every match of one pattern.
pub open spec fn spans_view(v: Seq<Vec<Option<(usize, usize)>>>) -> Seq<Seq<Option<(usize, usize)>>> {
    v.map_values(|m: Vec<Option<(usize, usize)>>| m@)
}

/// The spans of the matches of each pattern.
pub open spec fn matches_view(v: Seq<Vec<Vec<Option<(usize, usize)>>>>) -> Seq<
    Seq<Seq<Option<(usize, usize)>>>,
> {
    v.map_values(|p: Vec<Vec<Option<(usize, usize)>>>| spans_view(p@))
}

/// Every span of every match of every pattern lies within `len` bytes.
pub open spec fn spans_within(ms: Seq<Seq<Seq<Option<(usize, usize)>>>>, len: nat) -> bool {
    forall|k: int, j: int, g: int|
        0 <= k < ms.len() && 0 <= j < ms[k].len() && 0 <= g < ms[k][j].len() ==> span_within(
            #[trigger] ms[k][j][g],
            len,
        )
}

/// The color ids taken up by the last `k` patterns, whose group counts are
/// `gs`; those are processed first.
pub open spec fn color_base(gs: Seq<usize>, vary: bool, full_match: bool, k: nat) -> nat
    decreases k,
{
    if k == 0 || k > gs.len() {
        0
    } else {
        color_base(gs, vary, full_match, (k - 1) as nat) + colors_taken(
            gs[gs.len() - k] as nat,
            vary,
            full_match,
        )
    }
}

/// The ranges that the last `k` patterns ask for, the last pattern first;
/// `ms[i]` are the matches of pattern `i` and `gs[i]` its group count.
pub open spec fn all_candidates(
    ms: Seq<Seq<Seq<Option<(usize, usize)>>>>,
    gs: Seq<usize>,
    vary: bool,
    full_match: bool,
    k: nat,
) -> Seq<RangeWithId>
    decreases k,
{
    if k == 0 || k > ms.len() || k > gs.len() {
        seq![]
    } else {
        let i = ms.len() - k;
        let groups = gs[gs.len() - k] as nat;
        all_candidates(ms, gs, vary, full_match, (k - 1) as nat) + pattern_candidates(
            ms[i],
            first_colored_group(groups, full_match),
            colored_group_count(groups, full_match),
            color_base(gs, vary, full_match, (k - 1) as nat),
            vary,
            ms[i].len(),
        )
    }
}

/// The colored ranges for the matches `ms` of patterns with group counts
/// `gs`: every range they ask for, added in turn, the last pattern's first,
/// so that a later-listed pattern wins any overlap.
pub open spec fn ranges_for(
    ms: Seq<Seq<Seq<Option<(usize, usize)>>>>,
    gs: Seq<usize>,
    vary: bool,
    full_match: bool,
) -> Seq<RangeWithId> {
    added_all(seq![], all_candidates(ms, gs, vary, full_match, ms.len()))
}

/// The matches of each pattern of `ps` in `line`.
pub open spec fn matches_in(ps: Seq<Pattern>, line: Seq<char>) -> Seq<
    Seq<Seq<Option<(usize, usize)>>>,
> {
    Seq::new(ps.len(), |i: int| captures_of(ps[i]@.source, ps[i]@.ignore_case, line))
}

/// The group count of each pattern of `ps`.
pub open spec fn groups_of(ps: Seq<Pattern>) -> Seq<usize> {
    Seq::new(ps.len(), |i: int| ps[i]@.groups)
}

/// The colored ranges of `line` for the patterns `ps`.
pub open spec fn highlighted(ps: Seq<Pattern>, line: Seq<char>, vary: bool, full_match: bool) -> Seq<
    RangeWithId,
> {
    ranges_for(matches_in(ps, line), groups_of(ps), vary, full_match)
}

/// No range of `rs` reaches past byte `len`.
pub open spec fn ends_within(rs: Seq<RangeWithId>, len: nat) -> bool {
    forall|i: int| 0 <= i < rs.len() ==> #[trigger] rs[i].end_idx <= len
}

proof fn lemma_color_base_grows(gs: Seq<usize>, vary: bool, full_match: bool, k: nat, n: nat)
    requires
        k <= n <= gs.len(),
    ensures
        color_base(gs, vary, full_match, k) <= color_base(gs, vary, full_match, n),
    decreases n - k,
{
    if k < n {
        lemma_color_base_grows(gs, vary, full_match, k, (n - 1) as nat);
    }
}

/// Adding one more range to the list of ranges to add.
proof fn lemma_added_all_push(rs: Seq<RangeWithId>, news: Seq<RangeWithId>, c: Seq<RangeWithId>)
    requires
        c.len() <= 1,
    ensures
        added_all(rs, news + c) == if c.len() == 0 {
            added_all(rs, news)
        } else {
            added(added_all(rs, news), c[0])
        },
{
    if c.len() == 0 {
        assert(news + c =~= news);
    } else {
        assert((news + c).drop_last() =~= news);
    }
}

/// Adding a range that ends by `len` to ranges that end by `len`.
proof fn lemma_added_within(rs: Seq<RangeWithId>, n: RangeWithId, len: nat)
    requires
        is_ordered(rs),
        ends_within(rs, len),
        n.end_idx <= len,
    ensures
        ends_within(added(rs, n), len),
{
    lemma_added(rs, n);
    let r = added(rs, n);
    assert forall|j: int| 0 <= j < r.len() implies #[trigger] r[j].end_idx <= len by {
        if rs.contains(r[j]) {
            let k = choose|k: int| 0 <= k < rs.len() && rs[k] == r[j];
            assert(rs[k].end_idx <= len);
        } else {
            assert(is_gap_piece(rs, n, r[j]));
        }
    }
}

/// Whether each colored capture group gets its own color: as asked when
/// asked (`on` first), else exactly when one pattern was given.
pub fn resolve_vary_group_colors(on: bool, off: bool, pattern_count: usize) -> (r: bool)
    ensures
        r == (on || (!off && pattern_count == 1)),
{
    if on {
        true
    } else if off {
        false
    } else {
        pattern_count == 1
    }
}

/// How many color ids `match_line` hands out for `patterns`, or `None` when
/// that number does not fit in a `usize`.
pub fn colors_needed(patterns: &Vec<Pattern>, vary_group_colors: bool, full_match_highlight: bool) -> (r:
    Option<usize>)
    ensures
        r is Some <==> color_base(groups_of(patterns@), vary_group_colors, full_match_highlight, patterns@.len())
            <= usize::MAX,
        r is Some ==> r->Some_0 == color_base(
            groups_of(patterns@),
            vary_group_colors,
            full_match_highlight,
            patterns@.len(),
        ),
{
    let ghost gs = groups_of(patterns@);
    let n = patterns.len();
    let mut total: usize = 0;
    let mut k: usize = 0;
    while k < n
        invariant
            n == gs.len(),
            gs == groups_of(patterns@),
            k <= n,
            total == color_base(gs, vary_group_colors, full_match_highlight, k as nat),
        decreases n - k,
    {
        let groups = patterns[n - 1 - k].group_count();
        let taken: usize = if !vary_group_colors || full_match_highlight || groups == 0 {
            1
        } else {
            groups
        };
        proof {
            assert(gs[gs.len() - (k + 1)] == groups);
            lemma_color_base_grows(gs, vary_group_colors, full_match_highlight, (k + 1) as nat, n as nat);
        }
        if total > usize::MAX - taken {
            return None;
        }
        total = total + taken;
        k += 1;
    }
    Some(total)
}

/// The colored ranges for the matches of some patterns in a line of
/// `line_len` bytes, patterns in the caller's order: `matches[i]` holds the
/// spans of the capture groups of each match of pattern `i`, and `groups[i]`
/// the number of its capture groups. Patterns are taken from the last to the
/// first, so that a later-listed pattern wins any overlap. Each match colors
/// its whole match when `full_match_highlight` holds or the pattern has no
/// capture groups, else each capture group that took part in it. A pattern's
/// colors start at the first id that the patterns taken before it left free;
/// with `vary_group_colors` each colored group has its own id, else all share
/// one.
pub fn ranges_from_matches(
    matches: &Vec<Vec<Vec<Option<(usize, usize)>>>>,
    groups: &Vec<usize>,
    line_len: usize,
    vary_group_colors: bool,
    full_match_highlight: bool,
) -> (r: Vec<RangeWithId>)
    requires
        matches@.len() == groups@.len(),
        spans_within(matches_view(matches@), line_len as nat),
        color_base(groups@, vary_group_colors, full_match_highlight, groups@.len()) <= usize::MAX,
    ensures
        r@ == ranges_for(matches_view(matches@), groups@, vary_group_colors, full_match_highlight),
        is_ordered(r@),
        ends_within(r@, line_len as nat),
{
    let ghost ms = matches_view(matches@);
    let ghost gs = groups@;
    let ghost vary = vary_group_colors;
    let ghost full = full_match_highlight;
    let ghost len = line_len as nat;
    let mut ranges: Vec<RangeWithId> = Vec::new();
    let mut color_idx: usize = 0;
    let n = matches.len();
    let mut k: usize = 0;
    proof {
        lemma_color_base_grows(gs, vary, full, 0, n as nat);
    }
    while k < n
        invariant
            n == ms.len(),
            n == gs.len(),
            ms == matches_view(matches@),
            gs == groups@,
            len == line_len as nat,
            spans_within(ms, len),
            vary == vary_group_colors,
            full == full_match_highlight,
            k <= n,
            color_base(gs, vary, full, n as nat) <= usize::MAX,
            color_idx == color_base(gs, vary, full, k as nat),
            ranges@ == added_all(seq![], all_candidates(ms, gs, vary, full, k as nat)),
            is_ordered(ranges@),
            ends_within(ranges@, len),
        decreases n - k,
    {
        let caps = &matches[n - 1 - k];
        let groups_k = groups[n - 1 - k];
        let first: usize = if full_match_highlight || groups_k == 0 {
            0
        } else {
            1
        };
        let count: usize = if full_match_highlight || groups_k == 0 {
            1
        } else {
            groups_k
        };
        let ghost pm = ms[n - 1 - k];
        let ghost done = all_candidates(ms, gs, vary, full, k as nat);
        proof {
            lemma_color_base_grows(gs, vary, full, (k + 1) as nat, n as nat);
            assert(gs[gs.len() - (k + 1)] == groups_k);
            assert(pm == spans_view(caps@));
            assert forall|j: int, g: int|
                0 <= j < caps@.len() && 0 <= g < caps@[j]@.len() implies span_within(
                    #[trigger] caps@[j]@[g],
                    len,
                ) by {
                assert(pm[j] == caps@[j]@);
                assert(span_within(ms[n - 1 - k][j][g], len));
            }
        }
        let mut j: usize = 0;
        while j < caps.len()
            invariant
                pm == spans_view(caps@),
                forall|j: int, g: int|
                    0 <= j < caps@.len() && 0 <= g < caps@[j]@.len() ==> span_within(
                        #[trigger] caps@[j]@[g],
                        len,
                    ),
                color_idx as nat + colors_taken(groups_k as nat, vary, full) <= usize::MAX,
                first == first_colored_group(groups_k as nat, full),
                count == colored_group_count(groups_k as nat, full),
                vary == vary_group_colors,
                j <= caps@.len(),
                ranges@ == added_all(
                    seq![],
                    done + pattern_candidates(pm, first as nat, count as nat, color_idx as nat, vary, j as nat),
                ),
                is_ordered(ranges@),
                ends_within(ranges@, len),
            decreases caps@.len() - j,
        {
            let m = &caps[j];
            let ghost before = done + pattern_candidates(pm, first as nat, count as nat, color_idx as nat, vary, j as nat);
            let mut i: usize = 0;
            assert(before + match_candidates(m@, first as nat, count as nat, color_idx as nat, vary, 0) =~= before);
            while i < count
                invariant
                    forall|g: int| 0 <= g < m@.len() ==> span_within(#[trigger] m@[g], len),
                    color_idx as nat + colors_taken(groups_k as nat, vary, full) <= usize::MAX,
                    first == first_colored_group(groups_k as nat, full),
                    count == colored_group_count(groups_k as nat, full),
                    vary == vary_group_colors,
                    i <= count,
                    ranges@ == added_all(
                        seq![],
                        before + match_candidates(m@, first as nat, count as nat, color_idx as nat, vary, i as nat),
                    ),
                    is_ordered(ranges@),
                    ends_within(ranges@, len),
                decreases count - i,
            {
                let color: usize = if vary_group_colors {
                    color_idx + (count - 1 - i)
                } else {
                    color_idx
                };
                let g = i + first;
                let ghost sofar = before + match_candidates(m@, first as nat, count as nat, color_idx as nat, vary, i as nat);
                let ghost cand = group_candidate(m@, g as int, color as nat);
                proof {
                    assert(color as nat == group_color(color_idx as nat, count as nat, i as nat, vary));
                    assert(before + match_candidates(m@, first as nat, count as nat, color_idx as nat, vary, (i + 1) as nat) =~= sofar + cand);
                    lemma_added_all_push(seq![], sofar, cand);
                }
                if g < m.len() {
                    if let Some((a, b)) = m[g] {
                        let new_range = RangeWithId { start_idx: a, end_idx: b, id: color };
                        proof {
                            assert(span_within(m@[g as int], len));
                            assert(cand[0] == new_range);
                            lemma_added_within(ranges@, new_range, len);
                        }
                        add_range(&mut ranges, new_range);
                    }
                }
                i += 1;
            }
            proof {
                assert(pm[j as int] == caps@[j as int]@);
                assert(done + pattern_candidates(pm, first as nat, count as nat, color_idx as nat, vary, (j + 1) as nat)
                    =~= before + match_candidates(m@, first as nat, count as nat, color_idx as nat, vary, count as nat));
            }
            j += 1;
        }
        proof {
            assert(all_candidates(ms, gs, vary, full, (k + 1) as nat) == done + pattern_candidates(
                pm, first as nat, count as nat, color_idx as nat, vary, pm.len()));
        }
        if vary_group_colors {
            color_idx = color_idx + count;
        } else {
            color_idx = color_idx + 1;
        }
        k += 1;
    }
    ranges
}

/// The colored ranges of `line` for `patterns`, given in the caller's order,
/// as `ranges_from_matches` computes them from the patterns' matches in
/// `line` and their group counts.
pub fn match_line(
    line: &str,
    patterns: &Vec<Pattern>,
    vary_group_colors: bool,
    full_match_highlight: bool,
) -> (r: Vec<RangeWithId>)
    requires
        color_base(groups_of(patterns@), vary_group_colors, full_match_highlight, patterns@.len())
            <= usize::MAX,
    ensures
        r@ == highlighted(patterns@, line@, vary_group_colors, full_match_highlight),
        is_ordered(r@),
        ends_within(r@, line.spec_bytes().len()),
{
    let ghost ps = patterns@;
    let ghost len = line.spec_bytes().len();
    let mut matches: Vec<Vec<Vec<Option<(usize, usize)>>>> = Vec::new();
    let mut groups: Vec<usize> = Vec::new();
    let mut k: usize = 0;
    while k < patterns.len()
        invariant
            ps == patterns@,
            len == line.spec_bytes().len(),
            k <= ps.len(),
            matches_view(matches@) == matches_in(ps, line@).subrange(0, k as int),
            groups@ == groups_of(ps).subrange(0, k as int),
            spans_within(matches_view(matches@), len),
        decreases ps.len() - k,
    {
        let p = &patterns[k];
        let caps = captures(p, line);
        let ghost old_ms = matches_view(matches@);
        proof {
            assert(spans_view(caps@) =~= captures_of(p@.source, p@.ignore_case, line@));
        }
        matches.push(caps);
        groups.push(p.group_count());
        proof {
            assert(matches_view(matches@) =~= old_ms.push(spans_view(caps@)));
            assert(matches_view(matches@) =~= matches_in(ps, line@).subrange(0, k + 1));
            assert(groups@ =~= groups_of(ps).subrange(0, k + 1));
            let ms = matches_view(matches@);
            assert forall|a: int, j: int, g: int|
                0 <= a < ms.len() && 0 <= j < ms[a].len() && 0 <= g < ms[a][j].len() implies span_within(
                    #[trigger] ms[a][j][g],
                    len,
                ) by {
                if a < k {
                    assert(ms[a] == old_ms[a]);
                } else {
                    assert(ms[a][j] == caps@[j]@);
                }
            }
        }
        k += 1;
    }
    proof {
        assert(matches_in(ps, line@).subrange(0, ps.len() as int) =~= matches_in(ps, line@));
        assert(groups_of(ps).subrange(0, ps.len() as int) =~= groups_of(ps));
    }
    let line_len = line.as_bytes().len();
    ranges_from_matches(&matches, &groups, line_len, vary_group_colors, full_match_highlight)
}

} // verus!
