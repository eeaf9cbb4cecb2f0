use vstd::prelude::*;
use vstd::string::StringSliceAdditionalSpecFns;
use crate::ranges::{RangeWithId, is_ordered};
use crate::collect::{ends_within, highlighted, color_base, groups_of, match_line};
use crate::pattern::Pattern;

verus! {

/// The escape codes that start drawing in one color and reset it.
pub struct Color {
    pub start: Vec<u8>,
    pub reset: Vec<u8>,
}

/// The palette entry for color id `id`: ids wrap around the palette.
pub open spec fn color_of(palette: Seq<Color>, id: usize) -> Color {
    palette[(id as nat % palette.len()) as int]
}

/// `line` from byte `pos` on, with each range of `rs` wrapped in its color's
/// start and reset codes and all other bytes copied as they are.
pub open spec fn rendered(line: Seq<u8>, rs: Seq<RangeWithId>, palette: Seq<Color>, pos: int) -> Seq<
    u8,
>
    decreases rs.len(),
{
    if rs.len() == 0 {
        line.subrange(pos, line.len() as int)
    } else {
        let r = rs[0];
        let c = color_of(palette, r.id);
        line.subrange(pos, r.start_idx as int) + c.start@ + line.subrange(
            r.start_idx as int,
            r.end_idx as int,
        ) + c.reset@ + rendered(line, rs.drop_first(), palette, r.end_idx as int)
    }
}

/// Appends bytes `from..to` of `src` to `out`.
fn push_bytes(out: &mut Vec<u8>, src: &[u8], from: usize, to: usize)
    requires
        from <= to <= src@.len(),
    ensures
        final(out)@ == old(out)@ + src@.subrange(from as int, to as int),
{
    let mut i = from;
    while i < to
        invariant
            from <= i <= to <= src@.len(),
            out@ == old(out)@ + src@.subrange(from as int, i as int),
        decreases to - i,
    {
        out.push(src[i]);
        i += 1;
        assert(out@ =~= old(out)@ + src@.subrange(from as int, i as int));
    }
}

/// `line` with each range of `ranges` wrapped in the start and reset codes
/// of its color, `palette[id % palette.len()]`; the bytes between ranges are
/// copied as they are.
pub fn render_line(line: &str, ranges: &Vec<RangeWithId>, palette: &Vec<Color>) -> (r: Vec<u8>)
    requires
        is_ordered(ranges@),
        ends_within(ranges@, line.spec_bytes().len()),
        palette@.len() > 0,
    ensures
        r@ == rendered(line.spec_bytes(), ranges@, palette@, 0),
{
    let bytes = line.as_bytes();
    let ghost b = bytes@;
    let ghost rs = ranges@;
    let mut out: Vec<u8> = Vec::new();
    let mut pos: usize = 0;
    let mut i: usize = 0;
    assert(rs.subrange(0, rs.len() as int) =~= rs);
    assert(out@ + rendered(b, rs, palette@, 0) =~= rendered(b, rs, palette@, 0));
    while i < ranges.len()
        invariant
            b == line.spec_bytes(),
            bytes@ == b,
            rs == ranges@,
            is_ordered(rs),
            ends_within(rs, b.len()),
            palette@.len() > 0,
            i <= rs.len(),
            pos <= b.len(),
            forall|k: int| i <= k < rs.len() ==> pos <= #[trigger] rs[k].start_idx,
            out@ + rendered(b, rs.subrange(i as int, rs.len() as int), palette@, pos as int)
                == rendered(b, rs, palette@, 0),
        decreases rs.len() - i,
    {
        let r = ranges[i];
        let c = &palette[r.id % palette.len()];
        let ghost before = out@;
        let ghost sub = rs.subrange(i as int, rs.len() as int);
        assert(sub[0] == r);
        assert(sub.drop_first() =~= rs.subrange(i + 1, rs.len() as int));
        assert(r.start_idx < r.end_idx);
        assert(rs[i as int].end_idx <= b.len());
        push_bytes(&mut out, bytes, pos, r.start_idx);
        push_bytes(&mut out, c.start.as_slice(), 0, c.start.len());
        push_bytes(&mut out, bytes, r.start_idx, r.end_idx);
        push_bytes(&mut out, c.reset.as_slice(), 0, c.reset.len());
        proof {
            assert(c.start@.subrange(0, c.start@.len() as int) =~= c.start@);
            assert(c.reset@.subrange(0, c.reset@.len() as int) =~= c.reset@);
            assert(*c == color_of(palette@, r.id));
            assert forall|k: int| i + 1 <= k < rs.len() implies r.end_idx <= #[trigger] rs[k].start_idx by {
                assert(rs[i as int].end_idx <= rs[k].start_idx);
            }
            assert(out@ + rendered(b, rs.subrange(i + 1, rs.len() as int), palette@, r.end_idx as int)
                =~= before + rendered(b, sub, palette@, pos as int));
        }
        pos = r.end_idx;
        i += 1;
    }
    push_bytes(&mut out, bytes, pos, bytes.len());
    proof {
        assert(rs.subrange(i as int, rs.len() as int) =~= Seq::<RangeWithId>::empty());
    }
    out
}

/// `line` rendered with the colored ranges that `patterns` ask for, as
/// `match_line` computes them.
pub fn highlight_line(
    line: &str,
    patterns: &Vec<Pattern>,
    vary_group_colors: bool,
    full_match_highlight: bool,
    palette: &Vec<Color>,
) -> (r: Vec<u8>)
    requires
        color_base(groups_of(patterns@), vary_group_colors, full_match_highlight, patterns@.len())
            <= usize::MAX,
        palette@.len() > 0,
    ensures
        r@ == rendered(
            line.spec_bytes(),
            highlighted(patterns@, line@, vary_group_colors, full_match_highlight),
            palette@,
            0,
        ),
{
    let ranges = match_line(line, patterns, vary_group_colors, full_match_highlight);
    render_line(line, &ranges, palette)
}

} // verus!
