use photo_selector_core::navigation::NavigationEngine;

#[test]
fn starts_at_zero() {
    let nav = NavigationEngine::new(4);
    assert_eq!(nav.current_index, 0);
}

#[test]
fn next_moves_by_view_count() {
    let mut nav = NavigationEngine::new(2);
    nav.next(10);
    assert_eq!(nav.current_index, 2);
}

#[test]
fn prev_does_not_go_negative() {
    let mut nav = NavigationEngine::new(4);
    nav.prev();
    assert_eq!(nav.current_index, 0);
}

#[test]
fn next_does_not_overflow() {
    let mut nav = NavigationEngine::new(4);
    nav.current_index = 8;
    nav.next(10);
    assert_eq!(nav.current_index, 8);
}

#[test]
fn range_is_correct() {
    let nav = NavigationEngine::new(4);
    let (start, end) = nav.range(10);
    assert_eq!(start, 0);
    assert_eq!(end, 4);
}

#[test]
fn range_clamps_at_end() {
    let nav = NavigationEngine {
        current_index: 8,
        view_count: 4,
    };
    let (start, end) = nav.range(10);
    assert_eq!(start, 8);
    assert_eq!(end, 10);
}

#[test]
fn next_on_empty_list_stays() {
    let mut nav = NavigationEngine::new(3);
    nav.next(0);
    assert_eq!(nav.current_index, 0);
}

#[test]
fn next_then_prev_returns_to_start() {
    let mut nav = NavigationEngine::new(3);
    nav.next(10);
    assert_eq!(nav.current_index, 3);
    nav.prev();
    assert_eq!(nav.current_index, 0);
}

#[test]
fn prev_from_unaligned_index_stops_at_zero() {
    let mut nav = NavigationEngine { current_index: 2, view_count: 3 };
    nav.prev();
    assert_eq!(nav.current_index, 0);
}

#[test]
fn huge_view_count_does_not_overflow() {
    let mut nav = NavigationEngine { current_index: 5, view_count: usize::MAX };
    nav.next(10);
    assert_eq!(nav.current_index, 5);
    assert_eq!(nav.range(10), (5, 10));
}

#[test]
fn range_past_end_is_empty() {
    let nav = NavigationEngine { current_index: 12, view_count: 4 };
    assert_eq!(nav.range(10), (12, 10));
}
