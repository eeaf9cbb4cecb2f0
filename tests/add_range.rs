use rainbowgrep::ranges::{add_range, RangeWithId};

fn r(start_idx: usize, end_idx: usize, id: usize) -> RangeWithId {
    RangeWithId { start_idx, end_idx, id }
}

fn check(existing: Vec<RangeWithId>, new_range: RangeWithId, expected: Vec<RangeWithId>) {
    let mut actual = existing.clone();
    add_range(&mut actual, new_range);
    assert_eq!(actual, expected);
}

#[test]
fn test_add_range_before_1() {
    check(vec![r(5, 8, 1)], r(3, 5, 2), vec![r(3, 5, 2), r(5, 8, 1)]);
}

#[test]
fn test_add_range_before_2() {
    check(vec![r(5, 8, 1)], r(3, 4, 2), vec![r(3, 4, 2), r(5, 8, 1)]);
}

#[test]
fn test_add_range_after_1() {
    check(vec![r(1, 3, 0)], r(3, 5, 2), vec![r(1, 3, 0), r(3, 5, 2)]);
}

#[test]
fn test_add_range_after_2() {
    check(vec![r(1, 3, 0)], r(4, 5, 2), vec![r(1, 3, 0), r(4, 5, 2)]);
}

#[test]
fn test_add_range_in_between_1() {
    check(vec![r(1, 3, 0), r(5, 8, 1)], r(3, 5, 2), vec![r(1, 3, 0), r(3, 5, 2), r(5, 8, 1)]);
}

#[test]
fn test_add_range_in_between_2() {
    check(vec![r(1, 3, 0), r(5, 8, 1)], r(3, 4, 2), vec![r(1, 3, 0), r(3, 4, 2), r(5, 8, 1)]);
}

#[test]
fn test_add_range_in_between_3() {
    check(vec![r(1, 3, 0), r(5, 8, 1)], r(4, 5, 2), vec![r(1, 3, 0), r(4, 5, 2), r(5, 8, 1)]);
}

#[test]
fn test_add_range_partial_overlap() {
    check(vec![r(1, 3, 0), r(5, 8, 1)], r(2, 6, 2), vec![r(1, 3, 0), r(3, 5, 2), r(5, 8, 1)]);
}

#[test]
fn test_add_range_full_overlap() {
    check(vec![r(1, 3, 0), r(5, 8, 1)], r(6, 7, 2), vec![r(1, 3, 0), r(5, 8, 1)]);
}

#[test]
fn test_add_range_overlap_and_extend() {
    check(vec![r(1, 5, 0), r(10, 15, 1)], r(3, 12, 2), vec![r(1, 5, 0), r(5, 10, 2), r(10, 15, 1)]);
}

#[test]
fn add_into_empty_sequence() {
    check(vec![], r(2, 4, 7), vec![r(2, 4, 7)]);
}

#[test]
fn identical_range_adds_nothing() {
    check(vec![r(1, 3, 0), r(5, 8, 1)], r(5, 8, 4), vec![r(1, 3, 0), r(5, 8, 1)]);
}

#[test]
fn empty_range_adds_nothing() {
    check(vec![r(1, 3, 0), r(5, 8, 1)], r(4, 4, 2), vec![r(1, 3, 0), r(5, 8, 1)]);
}

#[test]
fn left_overlap_keeps_only_front_part() {
    check(vec![r(1, 3, 0), r(5, 8, 1)], r(4, 7, 2), vec![r(1, 3, 0), r(4, 5, 2), r(5, 8, 1)]);
}

#[test]
fn right_overlap_keeps_only_back_part() {
    check(vec![r(1, 3, 0), r(8, 9, 1)], r(2, 6, 2), vec![r(1, 3, 0), r(3, 6, 2), r(8, 9, 1)]);
}

#[test]
fn range_spanning_many_fills_every_gap() {
    check(
        vec![r(2, 3, 0), r(5, 6, 1), r(8, 9, 2)],
        r(0, 12, 3),
        vec![r(0, 2, 3), r(2, 3, 0), r(3, 5, 3), r(5, 6, 1), r(6, 8, 3), r(8, 9, 2), r(9, 12, 3)],
    );
}

#[test]
fn sequence_of_adds_stays_ordered_and_keeps_ranges() {
    let mut rs = Vec::new();
    let news = [r(4, 9, 0), r(0, 5, 1), r(8, 12, 2), r(2, 11, 3), r(4, 9, 4)];
    for n in news {
        add_range(&mut rs, n);
    }
    assert_eq!(rs, vec![r(0, 4, 1), r(4, 9, 0), r(9, 12, 2)]);
    for w in rs.windows(2) {
        assert!(w[0].start_idx < w[0].end_idx);
        assert!(w[0].end_idx <= w[1].start_idx);
    }
}
