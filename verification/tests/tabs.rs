use ferrite::tabs::{next_tab_index, prev_tab_index};

#[test]
fn next_tab_wraps_to_first() {
    assert_eq!(next_tab_index(0, 3), 1);
    assert_eq!(next_tab_index(2, 3), 0);
}

#[test]
fn prev_tab_wraps_to_last() {
    assert_eq!(prev_tab_index(1, 3), 0);
    assert_eq!(prev_tab_index(0, 3), 2);
}

#[test]
fn single_tab_stays_active() {
    assert_eq!(next_tab_index(0, 1), 0);
    assert_eq!(prev_tab_index(0, 1), 0);
    assert_eq!(next_tab_index(0, 0), 0);
}

#[test]
fn next_then_prev_returns_to_the_same_tab() {
    for count in 1..6 {
        for current in 0..count {
            assert_eq!(prev_tab_index(next_tab_index(current, count), count), current);
            assert_eq!(next_tab_index(prev_tab_index(current, count), count), current);
        }
    }
}
