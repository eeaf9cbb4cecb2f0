use rainbowgrep::pattern::Pattern;
use rainbowgrep::ranges::RangeWithId;
use rainbowgrep::render::{highlight_line, render_line, Color};

fn palette() -> Vec<Color> {
    vec![
        Color { start: b"<".to_vec(), reset: b">".to_vec() },
        Color { start: b"[".to_vec(), reset: b"]".to_vec() },
    ]
}

#[test]
fn render_wraps_ranges_in_codes() {
    let ranges = vec![
        RangeWithId { start_idx: 1, end_idx: 3, id: 0 },
        RangeWithId { start_idx: 4, end_idx: 5, id: 1 },
    ];
    assert_eq!(render_line("abcdef", &ranges, &palette()), b"a<bc>d[e]f".to_vec());
}

#[test]
fn render_wraps_color_ids_around_palette() {
    let ranges = vec![RangeWithId { start_idx: 0, end_idx: 6, id: 3 }];
    assert_eq!(render_line("abcdef", &ranges, &palette()), b"[abcdef]".to_vec());
}

#[test]
fn render_without_ranges_copies_line() {
    assert_eq!(render_line("abc", &vec![], &palette()), b"abc".to_vec());
}

#[test]
fn highlight_end_to_end() {
    let ps = vec![Pattern::new("foo", false).unwrap(), Pattern::new("bar", false).unwrap()];
    assert_eq!(highlight_line("a foo bar", &ps, false, false, &palette()), b"a [foo] <bar>".to_vec());
}
