use booklet::error::BookletError;
use booklet::layout::{booklet_bounds, booklet_count, booklet_order, pages_per_booklet, place_blank};
use booklet::sides::{half_turn, imposed_side_turned, reordered_page_turned};

#[test]
fn booklet_size_whole_document_rounds_up() {
    assert_eq!(pages_per_booklet(0, 10), Ok(12));
    assert_eq!(pages_per_booklet(0, 12), Ok(12));
    assert_eq!(pages_per_booklet(0, 1), Ok(4));
}

#[test]
fn booklet_size_requested_rounds_up() {
    assert_eq!(pages_per_booklet(5, 100), Ok(8));
    assert_eq!(pages_per_booklet(8, 100), Ok(8));
    assert_eq!(pages_per_booklet(1, 3), Ok(4));
}

#[test]
fn booklet_size_invalid_when_nothing_to_round() {
    assert_eq!(pages_per_booklet(0, 0), Err(BookletError::InvalidPagesPerBooklet));
}

#[test]
fn booklet_size_invalid_when_rounding_overflows() {
    assert_eq!(pages_per_booklet(usize::MAX - 2, 5), Err(BookletError::InvalidPagesPerBooklet));
    assert_eq!(pages_per_booklet(usize::MAX, 5), Err(BookletError::InvalidPagesPerBooklet));
    assert_eq!(pages_per_booklet(usize::MAX - 3, 5), Ok(usize::MAX - 3));
}

#[test]
fn booklet_size_is_multiple_of_four_at_least_base() {
    for base in 1..50usize {
        let n = pages_per_booklet(base, 7).unwrap();
        assert_eq!(n % 4, 0);
        assert!(n >= base && n < base + 4);
    }
}

#[test]
fn booklet_count_is_ceiling() {
    assert_eq!(booklet_count(10, 4), 3);
    assert_eq!(booklet_count(8, 4), 2);
    assert_eq!(booklet_count(0, 4), 0);
    assert_eq!(booklet_count(1, 12), 1);
    assert_eq!(booklet_count(usize::MAX, 4), usize::MAX / 4 + 1);
}

#[test]
fn booklet_bounds_cut_consecutive_ranges() {
    assert_eq!(booklet_bounds(10, 4, 0), (0, 4));
    assert_eq!(booklet_bounds(10, 4, 1), (4, 8));
    assert_eq!(booklet_bounds(10, 4, 2), (8, 10));
    let mut next = 0;
    for i in 0..booklet_count(23, 8) {
        let (start, end) = booklet_bounds(23, 8, i);
        assert_eq!(start, next);
        assert!(start < end);
        next = end;
    }
    assert_eq!(next, 23);
}

#[test]
fn booklet_order_eight_pages_left_to_right() {
    let pages: Vec<u32> = (0..8).collect();
    assert_eq!(booklet_order(&pages, false), vec![7, 0, 1, 6, 5, 2, 3, 4]);
}

#[test]
fn booklet_order_eight_pages_right_to_left() {
    let pages: Vec<u32> = (0..8).collect();
    assert_eq!(booklet_order(&pages, true), vec![0, 7, 6, 1, 2, 5, 4, 3]);
}

#[test]
fn booklet_order_four_pages() {
    let pages = vec![(10u32, 0u16), (11, 0), (12, 0), (13, 0)];
    assert_eq!(booklet_order(&pages, false), vec![(13, 0), (10, 0), (11, 0), (12, 0)]);
}

#[test]
fn booklet_order_is_permutation() {
    for n in [0usize, 4, 8, 12, 16, 40] {
        let pages: Vec<usize> = (0..n).collect();
        for rtl in [false, true] {
            let mut order = booklet_order(&pages, rtl);
            assert_eq!(order.len(), n);
            order.sort();
            assert_eq!(order, pages);
        }
    }
}

#[test]
fn booklet_order_sides_mirror() {
    let n = 16usize;
    let pages: Vec<usize> = (0..n).collect();
    for rtl in [false, true] {
        let order = booklet_order(&pages, rtl);
        for side in order.chunks(2) {
            assert_eq!(side[0] + side[1], n - 1);
        }
    }
}

#[test]
fn booklet_order_rtl_swaps_halves() {
    let pages: Vec<usize> = (0..12).collect();
    let ltr = booklet_order(&pages, false);
    let rtl = booklet_order(&pages, true);
    for j in 0..6 {
        assert_eq!(rtl[2 * j], ltr[2 * j + 1]);
        assert_eq!(rtl[2 * j + 1], ltr[2 * j]);
    }
}

#[test]
fn booklet_order_sheets_carry_adjacent_pages() {
    let n = 12usize;
    let pages: Vec<usize> = (0..n).collect();
    let order = booklet_order(&pages, false);
    for t in 0..n / 4 {
        let mut front = vec![order[4 * t], order[4 * t + 1]];
        let mut back = vec![order[4 * t + 2], order[4 * t + 3]];
        front.sort();
        back.sort();
        assert_eq!(front, vec![2 * t, n - 1 - 2 * t]);
        assert_eq!(back, vec![2 * t + 1, n - 2 - 2 * t]);
    }
}

#[test]
fn booklet_order_covers() {
    let pages: Vec<usize> = (0..8).collect();
    let ltr = booklet_order(&pages, false);
    assert_eq!((ltr[0], ltr[1]), (7, 0));
    let rtl = booklet_order(&pages, true);
    assert_eq!((rtl[0], rtl[1]), (0, 7));
}

#[test]
fn booklet_order_odd_chunk_drops_middle() {
    let pages: Vec<u32> = vec![1, 2, 3];
    assert_eq!(booklet_order(&pages, false), vec![3, 1]);
}

#[test]
fn place_blank_before_last_page() {
    let mut pages = vec![1u32, 2, 3];
    place_blank(&mut pages, 100, true);
    place_blank(&mut pages, 101, true);
    assert_eq!(pages, vec![1, 2, 100, 101, 3]);
}

#[test]
fn place_blank_at_end() {
    let mut pages = vec![1u32, 2, 3];
    place_blank(&mut pages, 100, false);
    place_blank(&mut pages, 101, false);
    assert_eq!(pages, vec![1, 2, 3, 100, 101]);
}

#[test]
fn place_blank_into_empty_booklet() {
    let mut pages: Vec<u32> = Vec::new();
    place_blank(&mut pages, 100, true);
    assert_eq!(pages, vec![100]);
}

#[test]
fn half_turn_values() {
    assert_eq!(half_turn(0), 180);
    assert_eq!(half_turn(90), 270);
    assert_eq!(half_turn(180), 0);
    assert_eq!(half_turn(270), 90);
    assert_eq!(half_turn(-90), 90);
    assert_eq!(half_turn(-270), -90);
    assert_eq!(half_turn(i64::MAX - 180), (i64::MAX) % 360);
}

#[test]
fn half_turn_twice_restores() {
    for r in 0..360i64 {
        assert_eq!(half_turn(half_turn(r)), r);
    }
}

#[test]
fn imposed_backs_turn_only_when_flipping() {
    assert!(!imposed_side_turned(0, true));
    assert!(imposed_side_turned(1, true));
    assert!(!imposed_side_turned(2, true));
    assert!(imposed_side_turned(3, true));
    assert!(!imposed_side_turned(1, false));
}

#[test]
fn reordered_pages_on_backs() {
    let turned: Vec<bool> = (0..8).map(reordered_page_turned).collect();
    assert_eq!(turned, vec![false, false, true, true, false, false, true, true]);
    for p in 0..40usize {
        assert_eq!(reordered_page_turned(p), imposed_side_turned(p / 2, true));
    }
}
