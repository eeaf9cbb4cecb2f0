use rainbowgrep::collect::{colors_needed, match_line, ranges_from_matches, resolve_vary_group_colors};
use rainbowgrep::pattern::Pattern;
use rainbowgrep::ranges::RangeWithId;

fn r(start_idx: usize, end_idx: usize, id: usize) -> RangeWithId {
    RangeWithId { start_idx, end_idx, id }
}

fn patterns(sources: &[&str]) -> Vec<Pattern> {
    sources.iter().map(|s| Pattern::new(s, false).unwrap()).collect()
}

#[test]
fn test_match_line() {
    let regexps = vec![Pattern::new("t", false).unwrap()];
    let ranges = match_line("test", &regexps, false, false);
    assert_eq!(
        ranges,
        vec![
            RangeWithId { start_idx: 0, end_idx: 1, id: 0 },
            RangeWithId { start_idx: 3, end_idx: 4, id: 0 },
        ]
    );
}

#[test]
fn later_pattern_gets_first_color() {
    let ps = patterns(&["foo", "bar"]);
    assert_eq!(match_line("foobar", &ps, false, false), vec![r(0, 3, 1), r(3, 6, 0)]);
}

#[test]
fn later_pattern_wins_overlap() {
    let ps = patterns(&["fooba", "obar"]);
    assert_eq!(match_line("foobar", &ps, false, false), vec![r(0, 2, 1), r(2, 6, 0)]);
    let ps = patterns(&["obar", "fooba"]);
    assert_eq!(match_line("foobar", &ps, false, false), vec![r(0, 5, 0), r(5, 6, 1)]);
}

#[test]
fn groups_colored_instead_of_whole_match() {
    let ps = patterns(&["(a)x(b)"]);
    assert_eq!(match_line("axb", &ps, false, false), vec![r(0, 1, 0), r(2, 3, 0)]);
}

#[test]
fn varied_group_colors_give_last_group_the_base_color() {
    let ps = patterns(&["(a)x(b)"]);
    assert_eq!(match_line("axb axb", &ps, true, false), vec![r(0, 1, 1), r(2, 3, 0), r(4, 5, 1), r(6, 7, 0)]);
}

#[test]
fn varied_colors_shift_later_processed_patterns() {
    let ps = patterns(&["c", "(a)(b)"]);
    assert_eq!(match_line("abc", &ps, true, false), vec![r(0, 1, 1), r(1, 2, 0), r(2, 3, 2)]);
}

#[test]
fn full_match_highlight_colors_group_zero() {
    let ps = patterns(&["(a)x(b)"]);
    assert_eq!(match_line("axb", &ps, true, true), vec![r(0, 3, 0)]);
}

#[test]
fn absent_optional_group_adds_nothing() {
    let ps = patterns(&["(a)(z)?(b)"]);
    assert_eq!(match_line("ab", &ps, true, false), vec![r(0, 1, 2), r(1, 2, 0)]);
}

#[test]
fn empty_matches_add_nothing() {
    let ps = patterns(&["x*"]);
    assert_eq!(match_line("ab", &ps, false, false), vec![]);
}

#[test]
fn case_flag_is_honoured() {
    let ps = vec![Pattern::new("AB", true).unwrap()];
    assert_eq!(match_line("xab", &ps, false, false), vec![r(1, 3, 0)]);
    let ps = vec![Pattern::new("AB", false).unwrap()];
    assert_eq!(match_line("xab", &ps, false, false), vec![]);
}

#[test]
fn byte_offsets_for_multibyte_text() {
    let ps = patterns(&["b"]);
    assert_eq!(match_line("éb", &ps, false, false), vec![r(2, 3, 0)]);
}

#[test]
fn group_count_excludes_whole_match() {
    assert_eq!(Pattern::new("(a)(b)", false).unwrap().group_count(), 2);
    assert_eq!(Pattern::new("ab", false).unwrap().group_count(), 0);
    assert_eq!(Pattern::new("ab", true).unwrap().source(), "ab");
}

#[test]
fn invalid_pattern_is_an_error() {
    let e = Pattern::new("(a", false).err().unwrap();
    assert!(!e.message.is_empty());
}

#[test]
fn colors_needed_counts_ids() {
    let ps = patterns(&["(a)(b)(c)", "x"]);
    assert_eq!(colors_needed(&ps, true, false), Some(4));
    assert_eq!(colors_needed(&ps, false, false), Some(2));
    assert_eq!(colors_needed(&ps, true, true), Some(2));
}

#[test]
fn vary_group_colors_default() {
    assert!(resolve_vary_group_colors(false, false, 1));
    assert!(!resolve_vary_group_colors(false, false, 2));
    assert!(!resolve_vary_group_colors(false, true, 1));
    assert!(resolve_vary_group_colors(true, false, 3));
}

#[test]
fn ranges_from_matches_uses_given_spans() {
    let matches = vec![vec![vec![Some((0, 1))], vec![Some((3, 4))]]];
    assert_eq!(ranges_from_matches(&matches, &vec![0], 4, false, false), vec![r(0, 1, 0), r(3, 4, 0)]);
}

#[test]
fn ranges_from_matches_skips_group_zero_when_groups_exist() {
    let matches = vec![
        vec![vec![Some((0, 5)), Some((0, 2)), None, Some((3, 5))]],
        vec![vec![Some((1, 4))]],
    ];
    assert_eq!(
        ranges_from_matches(&matches, &vec![3, 0], 6, true, false),
        vec![r(0, 1, 3), r(1, 4, 0), r(4, 5, 1)]
    );
}

#[test]
fn last_listed_pattern_keeps_its_group_colors() {
    let ps = patterns(&["abc", "(b)(c)"]);
    assert_eq!(match_line("abc", &ps, true, false), vec![r(0, 1, 2), r(1, 2, 1), r(2, 3, 0)]);
}
