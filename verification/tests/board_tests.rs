use tetris::board::{Board, Color, Metrics};

/// A 1x1 occupied piece.
fn dot(color: Color) -> Board {
    let t = [[1u8, 0, 0, 0], [0, 0, 0, 0], [0, 0, 0, 0], [0, 0, 0, 0]];
    Board::piece(&t, color).with_trim_sides()
}

#[test]
fn empty_dimensions_and_cells() {
    let b = Board::empty(4, 5);
    assert_eq!(b.dim_x(), 4);
    assert_eq!(b.dim_y(), 5);
    for y in 0..5 {
        for x in 0..4 {
            assert_eq!(b.cell(x, y), None);
        }
    }
}

#[test]
fn valid_is_the_bounds_check() {
    let b = Board::empty(4, 3);
    assert!(b.valid((0, 0)));
    assert!(b.valid((3, 2)));
    assert!(!b.valid((4, 0)));
    assert!(!b.valid((0, 3)));
    assert!(!b.valid((-1, 0)));
    assert!(!b.valid((0, -1)));
}

#[test]
fn piece_reads_template() {
    let t = [[0u8, 1, 0, 0], [0, 1, 1, 0], [0, 0, 0, 0], [0, 0, 0, 0]];
    let p = Board::piece(&t, Color::Green);
    assert_eq!(p.dim_x(), 4);
    assert_eq!(p.dim_y(), 4);
    for y in 0..4 {
        for x in 0..4 {
            let expected = if t[y][x] != 0 { Some(Color::Green) } else { None };
            assert_eq!(p.cell(x, y), expected);
        }
    }
}

#[test]
fn merged_reads_back_every_piece_cell() {
    let grid = Board::empty(6, 6);
    let t = [[0u8, 0, 0, 0], [0, 1, 1, 1], [0, 1, 0, 0], [0, 0, 0, 0]];
    let p = Board::piece(&t, Color::Orange).with_trim_sides();
    assert_eq!(p.dim_x(), 3);
    assert_eq!(p.dim_y(), 2);
    let merged = grid.as_merged((2, 3), &p).expect("piece fits");
    for y in 0..p.dim_y() {
        for x in 0..p.dim_x() {
            if p.cell(x, y).is_some() {
                assert_eq!(merged.cell(x + 2, y + 3), p.cell(x, y));
            }
        }
    }
    // Cells not covered by the piece stay empty.
    assert_eq!(merged.cell(0, 0), None);
    assert_eq!(merged.cell(5, 5), None);
}

#[test]
fn merge_out_of_bounds_yields_none() {
    let grid = Board::empty(4, 4);
    let p = dot(Color::Red);
    assert!(grid.as_merged((4, 0), &p).is_none());
    assert!(grid.as_merged((0, 4), &p).is_none());
    assert!(grid.as_merged((-1, 0), &p).is_none());
    assert!(grid.as_merged((0, -1), &p).is_none());
}

#[test]
fn merge_collision_yields_none_and_leaves_grid_unchanged() {
    let grid = Board::empty(4, 4);
    let p = dot(Color::Red);
    let once = grid.as_merged((1, 1), &p).expect("first merge fits");
    assert!(once.as_merged((1, 1), &p).is_none());
    // No partial write: the receiving grid still holds exactly its old cells.
    assert_eq!(once.cell(1, 1), Some(Color::Red));
    for y in 0..4 {
        for x in 0..4 {
            if (x, y) != (1, 1) {
                assert_eq!(once.cell(x, y), None);
            }
        }
    }
}

#[test]
fn rotate_four_times_is_identity() {
    let t = [[1u8, 1, 1, 0], [0, 1, 0, 0], [0, 0, 0, 0], [0, 0, 0, 0]];
    let p = Board::piece(&t, Color::Green).with_trim_sides();
    assert_eq!(p.dim_x(), 3);
    assert_eq!(p.dim_y(), 2);
    let r = p.with_rotated().with_rotated().with_rotated().with_rotated();
    assert_eq!(r.dim_x(), p.dim_x());
    assert_eq!(r.dim_y(), p.dim_y());
    for y in 0..p.dim_y() {
        for x in 0..p.dim_x() {
            assert_eq!(r.cell(x, y), p.cell(x, y));
        }
    }
}

#[test]
fn rotate_counter_four_times_is_identity() {
    let t = [[0u8, 0, 0, 0], [0, 1, 1, 1], [0, 0, 0, 1], [0, 0, 0, 0]];
    let p = Board::piece(&t, Color::Yellow).with_trim_sides();
    let r = p
        .with_rotated_counter()
        .with_rotated_counter()
        .with_rotated_counter()
        .with_rotated_counter();
    assert_eq!(r.dim_x(), p.dim_x());
    assert_eq!(r.dim_y(), p.dim_y());
    for y in 0..p.dim_y() {
        for x in 0..p.dim_x() {
            assert_eq!(r.cell(x, y), p.cell(x, y));
        }
    }
}

#[test]
fn rotated_cells_land_where_the_quarter_turn_sends_them() {
    // A 3-wide, 1-tall bar turns into a 1-wide, 3-tall bar.
    let t = [[1u8, 1, 1, 0], [0, 0, 0, 0], [0, 0, 0, 0], [0, 0, 0, 0]];
    let bar = Board::piece(&t, Color::Blue).with_trim_sides();
    assert_eq!(bar.dim_x(), 3);
    assert_eq!(bar.dim_y(), 1);
    let r = bar.with_rotated();
    assert_eq!(r.dim_x(), 1);
    assert_eq!(r.dim_y(), 3);
    for y in 0..3 {
        assert_eq!(r.cell(0, y), Some(Color::Blue));
    }
}

#[test]
fn transpose_and_mirror_move_cells_exactly() {
    let grid = Board::empty(3, 2);
    let p = dot(Color::Cyan);
    let grid = grid.as_merged((2, 0), &p).expect("fits");
    let t = grid.transposed();
    assert_eq!(t.dim_x(), 2);
    assert_eq!(t.dim_y(), 3);
    assert_eq!(t.cell(0, 2), Some(Color::Cyan));
    assert_eq!(t.cell(1, 2), None);
    let m = grid.with_mirrored_y();
    assert_eq!(m.dim_x(), 3);
    assert_eq!(m.dim_y(), 2);
    assert_eq!(m.cell(0, 0), Some(Color::Cyan));
    assert_eq!(m.cell(2, 0), None);
}

#[test]
fn trim_sides_of_single_cell_template_is_one_by_one() {
    let t = [[0u8, 0, 0, 0], [0, 0, 1, 0], [0, 0, 0, 0], [0, 0, 0, 0]];
    let p = Board::piece(&t, Color::Magenta).with_trim_sides();
    assert_eq!(p.dim_x(), 1);
    assert_eq!(p.dim_y(), 1);
    assert_eq!(p.cell(0, 0), Some(Color::Magenta));
}

#[test]
fn single_cell_in_wide_bottom_row_completes_nothing() {
    let grid = Board::empty(4, 4);
    let p = dot(Color::Red);
    let merged = grid.as_merged((0, 3), &p).expect("fits");
    assert_eq!(merged.cell(0, 3), Some(Color::Red));
    assert_eq!(merged.cell(1, 3), None);
    assert!(merged.get_full_lines_indicts().is_empty());
}

#[test]
fn filling_the_last_gap_completes_the_row() {
    let mut grid = Board::empty(4, 1);
    let p = dot(Color::Green);
    for x in 0..3 {
        grid = grid.as_merged((x, 0), &p).expect("fits");
    }
    assert!(grid.get_full_lines_indicts().is_empty());
    let full = grid.as_merged((3, 0), &p).expect("fits");
    assert_eq!(full.get_full_lines_indicts(), vec![0]);
}

#[test]
fn full_line_indices_descend() {
    let mut grid = Board::empty(2, 4);
    let p = dot(Color::Blue);
    // Fill rows 1 and 3 completely, row 2 halfway.
    for x in 0..2 {
        grid = grid.as_merged((x, 1), &p).expect("fits");
        grid = grid.as_merged((x, 3), &p).expect("fits");
    }
    grid = grid.as_merged((0, 2), &p).expect("fits");
    assert_eq!(grid.get_full_lines_indicts(), vec![3, 1]);
}

#[test]
fn eliminate_lines_shifts_rows_down_and_restores_height() {
    let mut grid = Board::empty(2, 3);
    let p = dot(Color::Orange);
    // Row 2 (bottom) full, row 1 holds one cell, row 0 empty.
    for x in 0..2 {
        grid = grid.as_merged((x, 2), &p).expect("fits");
    }
    grid = grid.as_merged((0, 1), &p).expect("fits");
    let lines = grid.get_full_lines_indicts();
    assert_eq!(lines, vec![2]);
    let cleared = grid.with_eliminate_lines(&lines);
    assert_eq!(cleared.dim_x(), 2);
    assert_eq!(cleared.dim_y(), 3);
    // The surviving row dropped by one; the top is fresh and empty.
    assert_eq!(cleared.cell(0, 2), Some(Color::Orange));
    assert_eq!(cleared.cell(1, 2), None);
    for x in 0..2 {
        assert_eq!(cleared.cell(x, 0), None);
        assert_eq!(cleared.cell(x, 1), None);
    }
}

#[test]
fn eliminate_two_lines_at_once() {
    let mut grid = Board::empty(2, 4);
    let p = dot(Color::Cyan);
    for x in 0..2 {
        grid = grid.as_merged((x, 1), &p).expect("fits");
        grid = grid.as_merged((x, 3), &p).expect("fits");
    }
    grid = grid.as_merged((0, 2), &p).expect("fits");
    let lines = grid.get_full_lines_indicts();
    assert_eq!(lines, vec![3, 1]);
    let cleared = grid.with_eliminate_lines(&lines);
    assert_eq!(cleared.dim_y(), 4);
    // The half-filled old row 2 is now the bottom row.
    assert_eq!(cleared.cell(0, 3), Some(Color::Cyan));
    assert_eq!(cleared.cell(1, 3), None);
    for y in 0..3 {
        for x in 0..2 {
            assert_eq!(cleared.cell(x, y), None);
        }
    }
}

#[test]
fn without_line_and_prepend_empty_line() {
    let grid = Board::empty(2, 2);
    let p = dot(Color::Red);
    let grid = grid.as_merged((0, 1), &p).expect("fits");
    let shorter = grid.without_line(0);
    assert_eq!(shorter.dim_y(), 1);
    assert_eq!(shorter.cell(0, 0), Some(Color::Red));
    let taller = shorter.prepend_empty_line();
    assert_eq!(taller.dim_y(), 2);
    assert_eq!(taller.cell(0, 0), None);
    assert_eq!(taller.cell(0, 1), Some(Color::Red));
}

#[test]
fn trimmed_lines_drops_empty_border_rows_only() {
    let grid = Board::empty(3, 4);
    let p = dot(Color::Yellow);
    let grid = grid.as_merged((1, 1), &p).expect("fits");
    let grid = grid.as_merged((2, 2), &p).expect("fits");
    let trimmed = grid.with_trimmed_lines();
    assert_eq!(trimmed.dim_x(), 3);
    assert_eq!(trimmed.dim_y(), 2);
    assert_eq!(trimmed.cell(1, 0), Some(Color::Yellow));
    assert_eq!(trimmed.cell(2, 1), Some(Color::Yellow));
}

#[test]
fn resolution_multiplies_cells_by_pixels() {
    let metrics = Metrics { block_pixels: 25, board_x: 12, board_y: 25 };
    assert_eq!(metrics.resolution(), [300, 625]);
}
