use ferrite::table_nav::{
    table_cell_arrow, table_cell_down, table_cell_next, table_cell_prev, table_cell_up,
};

#[test]
fn table_cell_next_wraps_rows() {
    assert_eq!(table_cell_next(0, 0, 3, 3), Some((0, 1)));
    assert_eq!(table_cell_next(0, 2, 3, 3), Some((1, 0)));
    assert_eq!(table_cell_next(2, 2, 3, 3), None);
}

#[test]
fn table_cell_prev_wraps_rows() {
    assert_eq!(table_cell_prev(0, 1, 3), Some((0, 0)));
    assert_eq!(table_cell_prev(1, 0, 3), Some((0, 2)));
    assert_eq!(table_cell_prev(0, 0, 3), None);
}

#[test]
fn table_cell_vertical_moves_clamp() {
    assert_eq!(table_cell_down(0, 1, 3), Some((1, 1)));
    assert_eq!(table_cell_down(2, 1, 3), None);
    assert_eq!(table_cell_up(1, 1), Some((0, 1)));
    assert_eq!(table_cell_up(0, 1), None);
}

#[test]
fn table_cell_arrow_clamps() {
    assert_eq!(table_cell_arrow(0, 0, 3, 3, 0, -1), (0, 0));
    assert_eq!(table_cell_arrow(0, 0, 3, 3, -1, 0), (0, 0));
    assert_eq!(table_cell_arrow(2, 2, 3, 3, 1, 0), (2, 2));
    assert_eq!(table_cell_arrow(2, 2, 3, 3, 0, 1), (2, 2));
    assert_eq!(table_cell_arrow(1, 1, 3, 3, 1, 1), (2, 2));
}

#[test]
fn prev_undoes_next_inside_a_table() {
    for row in 0..3usize {
        for col in 0..4usize {
            if let Some((r, c)) = table_cell_next(row, col, 3, 4) {
                assert_eq!(table_cell_prev(r, c, 4), Some((row, col)));
            }
        }
    }
}

#[test]
fn moves_stay_inside_the_table() {
    for row in 0..3usize {
        for col in 0..3usize {
            for (dr, dc) in [(-1i32, 0i32), (1, 0), (0, -1), (0, 1), (1, 1), (-1, -1)] {
                let (r, c) = table_cell_arrow(row, col, 3, 3, dr, dc);
                assert!(r < 3 && c < 3);
            }
        }
    }
}
