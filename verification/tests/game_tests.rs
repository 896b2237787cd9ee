use tetris::board::{Board, Color, DrawEffect, Metrics};
use tetris::game::{Falling, Game, State};

/// A 1x1 occupied piece.
fn dot(color: Color) -> Board {
    let t = [[1u8, 0, 0, 0], [0, 0, 0, 0], [0, 0, 0, 0], [0, 0, 0, 0]];
    Board::piece(&t, color).with_trim_sides()
}

/// A game whose board, piece catalogue and state are chosen by the test.
fn game_with(board: Board, pieces: Vec<Board>, state: State) -> Game {
    let metrics = Metrics { block_pixels: 1, board_x: board.dim_x(), board_y: board.dim_y() };
    Game { board, metrics, possible_pieces: pieces, state }
}

fn falling_at(offset: (isize, isize), piece: Board, now: u64) -> State {
    State::Falling(Falling { offset, piece, time_since_fall: now })
}

#[test]
fn new_game_spawns_at_origin_with_seven_pieces() {
    let metrics = Metrics { block_pixels: 25, board_x: 12, board_y: 25 };
    let game = Game::new(metrics, 0);
    assert_eq!(game.possible_pieces.len(), 7);
    assert_eq!(game.board.dim_x(), 12);
    assert_eq!(game.board.dim_y(), 25);
    match &game.state {
        State::Falling(f) => {
            assert_eq!(f.offset, (0, 0));
            assert_eq!(f.time_since_fall, 0);
        }
        _ => panic!("a new game starts falling"),
    }
    for y in 0..25 {
        for x in 0..12 {
            assert_eq!(game.board.cell(x, y), None);
        }
    }
}

#[test]
fn catalogue_holds_the_seven_trimmed_tetrominoes() {
    let metrics = Metrics { block_pixels: 25, board_x: 12, board_y: 25 };
    let game = Game::new(metrics, 0);
    let expected: [(&[&[u8]], Color); 7] = [
        (&[&[1, 1, 1], &[1, 0, 0]], Color::Orange),
        (&[&[1, 1, 1], &[0, 0, 1]], Color::Yellow),
        (&[&[1, 1, 1, 1]], Color::Blue),
        (&[&[1, 1, 1], &[0, 1, 0]], Color::Green),
        (&[&[0, 1, 1], &[1, 1, 0]], Color::Cyan),
        (&[&[1, 1, 0], &[0, 1, 1]], Color::Magenta),
        (&[&[1, 1], &[1, 1]], Color::Red),
    ];
    for (i, (shape, color)) in expected.iter().enumerate() {
        let p = &game.possible_pieces[i];
        assert_eq!(p.dim_y(), shape.len(), "piece {} height", i);
        assert_eq!(p.dim_x(), shape[0].len(), "piece {} width", i);
        for y in 0..p.dim_y() {
            for x in 0..p.dim_x() {
                let want = if shape[y][x] != 0 { Some(*color) } else { None };
                assert_eq!(p.cell(x, y), want, "piece {} cell ({}, {})", i, x, y);
            }
        }
    }
}

#[test]
fn new_falling_spawns_from_the_catalogue() {
    let p = dot(Color::Red);
    let f = Game::new_falling(&vec![p], 42);
    assert_eq!(f.offset, (0, 0));
    assert_eq!(f.time_since_fall, 42);
    assert_eq!(f.piece.dim_x(), 1);
    assert_eq!(f.piece.dim_y(), 1);
    assert_eq!(f.piece.cell(0, 0), Some(Color::Red));
}

#[test]
fn sideways_move_applies_when_it_fits() {
    let p = dot(Color::Red);
    let mut game = game_with(Board::empty(4, 4), vec![p.clone()], falling_at((0, 0), p, 0));
    game.move_piece((1, 0), 5);
    match &game.state {
        State::Falling(f) => {
            assert_eq!(f.offset, (1, 0));
            // A sideways move does not reset the fall timer.
            assert_eq!(f.time_since_fall, 0);
        }
        _ => panic!("still falling"),
    }
}

#[test]
fn rejected_sideways_move_is_silently_ignored() {
    let p = dot(Color::Red);
    let mut game = game_with(Board::empty(4, 4), vec![p.clone()], falling_at((0, 0), p, 0));
    game.move_piece((-1, 0), 5);
    match &game.state {
        State::Falling(f) => assert_eq!(f.offset, (0, 0)),
        _ => panic!("still falling"),
    }
}

#[test]
fn downward_move_resets_the_fall_timer() {
    let p = dot(Color::Red);
    let mut game = game_with(Board::empty(4, 4), vec![p.clone()], falling_at((0, 0), p, 0));
    game.move_piece((0, 1), 123);
    match &game.state {
        State::Falling(f) => {
            assert_eq!(f.offset, (0, 1));
            assert_eq!(f.time_since_fall, 123);
        }
        _ => panic!("still falling"),
    }
}

#[test]
fn lock_at_bottom_without_lines_spawns_a_new_piece() {
    let p = dot(Color::Red);
    // 2-wide board: locking the single cell cannot complete a row.
    let mut game = game_with(Board::empty(2, 2), vec![p.clone()], falling_at((0, 1), p, 0));
    game.move_piece((0, 1), 50);
    assert_eq!(game.board.cell(0, 1), Some(Color::Red));
    match &game.state {
        State::Falling(f) => {
            assert_eq!(f.offset, (0, 0));
            assert_eq!(f.time_since_fall, 50);
        }
        _ => panic!("a fresh piece falls after a lock without lines"),
    }
}

#[test]
fn lock_that_completes_a_row_enters_line_state() {
    let p = dot(Color::Red);
    let board = Board::empty(2, 2).as_merged((0, 1), &p).expect("fits");
    let mut game = game_with(board, vec![p.clone()], falling_at((1, 1), p, 0));
    game.move_piece((0, 1), 50);
    // The settled board keeps the completed row visible while staging.
    assert_eq!(game.board.cell(0, 1), Some(Color::Red));
    assert_eq!(game.board.cell(1, 1), Some(Color::Red));
    match &game.state {
        State::Line(stage, last_switch, lines) => {
            assert_eq!(*stage, 0);
            assert_eq!(*last_switch, 50);
            assert_eq!(lines, &vec![1]);
        }
        _ => panic!("a completed row enters the line state"),
    }
}

#[test]
fn failed_lock_at_spawn_is_game_over_and_absorbing() {
    let p = dot(Color::Red);
    let board = Board::empty(1, 1).as_merged((0, 0), &p).expect("fits");
    // The falling piece overlaps the settled cell: the downward step fails,
    // and so does the merge at the current offset.
    let mut game = game_with(board, vec![p.clone()], falling_at((0, 0), p, 0));
    game.move_piece((0, 1), 10);
    assert!(matches!(game.state, State::GameOver));
    assert!(matches!(game.draw_effect(), DrawEffect::Loose));
    // Absorbing: every further request is a no-op.
    game.move_piece((1, 0), 20);
    assert!(matches!(game.state, State::GameOver));
    game.rotate(false);
    assert!(matches!(game.state, State::GameOver));
    game.progress(1000);
    assert!(matches!(game.state, State::GameOver));
    assert_eq!(game.board.cell(0, 0), Some(Color::Red));
}

#[test]
fn rotation_replaces_the_piece_when_it_fits() {
    let t = [[1u8, 1, 1, 0], [0, 0, 0, 0], [0, 0, 0, 0], [0, 0, 0, 0]];
    let bar = Board::piece(&t, Color::Blue).with_trim_sides();
    let mut game =
        game_with(Board::empty(4, 4), vec![bar.clone()], falling_at((0, 0), bar, 7));
    game.rotate(false);
    match &game.state {
        State::Falling(f) => {
            assert_eq!(f.piece.dim_x(), 1);
            assert_eq!(f.piece.dim_y(), 3);
            assert_eq!(f.offset, (0, 0));
            assert_eq!(f.time_since_fall, 7);
        }
        _ => panic!("still falling"),
    }
}

#[test]
fn blocked_rotation_keeps_the_piece() {
    let t = [[1u8, 1, 1, 0], [0, 0, 0, 0], [0, 0, 0, 0], [0, 0, 0, 0]];
    let bar = Board::piece(&t, Color::Blue).with_trim_sides();
    // A 3x1 board: the upright bar cannot fit anywhere.
    let mut game =
        game_with(Board::empty(3, 1), vec![bar.clone()], falling_at((0, 0), bar, 0));
    game.rotate(false);
    match &game.state {
        State::Falling(f) => {
            assert_eq!(f.piece.dim_x(), 3);
            assert_eq!(f.piece.dim_y(), 1);
        }
        _ => panic!("still falling"),
    }
}

#[test]
fn progress_within_fall_delay_is_a_no_op() {
    let p = dot(Color::Red);
    let mut game = game_with(Board::empty(4, 4), vec![p.clone()], falling_at((0, 0), p, 0));
    game.progress(700);
    match &game.state {
        State::Falling(f) => assert_eq!(f.offset, (0, 0)),
        _ => panic!("still falling"),
    }
}

#[test]
fn progress_past_fall_delay_steps_down() {
    let p = dot(Color::Red);
    let mut game = game_with(Board::empty(4, 4), vec![p.clone()], falling_at((0, 0), p, 0));
    game.progress(701);
    match &game.state {
        State::Falling(f) => {
            assert_eq!(f.offset, (0, 1));
            assert_eq!(f.time_since_fall, 701);
        }
        _ => panic!("still falling"),
    }
}

#[test]
fn nineteen_stage_switches_clear_the_recorded_rows() {
    let p = dot(Color::Green);
    // 2x2 board: bottom row full, one extra cell in the top row.
    let board = Board::empty(2, 2)
        .as_merged((0, 1), &p)
        .expect("fits")
        .as_merged((1, 1), &p)
        .expect("fits")
        .as_merged((0, 0), &p)
        .expect("fits");
    let mut game = game_with(
        board,
        vec![p.clone()],
        State::Line(0, 0, vec![1]),
    );
    let mut now: u64 = 0;
    // 18 calls advance the stage counter to its limit, one per call.
    for k in 1..=18 {
        now += 51;
        game.progress(now);
        match &game.state {
            State::Line(stage, last_switch, lines) => {
                assert_eq!(*stage, k);
                assert_eq!(*last_switch, now);
                assert_eq!(lines, &vec![1]);
            }
            _ => panic!("still staging after {} switches", k),
        }
    }
    // A call within the stage delay changes nothing.
    game.progress(now + 50);
    assert!(matches!(game.state, State::Line(18, _, _)));
    // The 19th elapsed call eliminates the rows and spawns a new piece.
    now += 51;
    game.progress(now);
    match &game.state {
        State::Falling(f) => {
            assert_eq!(f.offset, (0, 0));
            assert_eq!(f.time_since_fall, now);
        }
        _ => panic!("falling again after the line clear"),
    }
    // The full bottom row vanished; the lone top cell dropped by one row.
    assert_eq!(game.board.dim_y(), 2);
    assert_eq!(game.board.cell(0, 1), Some(Color::Green));
    assert_eq!(game.board.cell(1, 1), None);
    assert_eq!(game.board.cell(0, 0), None);
    assert_eq!(game.board.cell(1, 0), None);
}

#[test]
fn effective_board_merges_the_falling_piece_for_display() {
    let p = dot(Color::Red);
    let mut game = game_with(Board::empty(3, 3), vec![p.clone()], falling_at((1, 2), p, 0));
    let shown = game.effective_board().expect("offset is kept mergeable");
    assert_eq!(shown.cell(1, 2), Some(Color::Red));
    assert_eq!(game.board.cell(1, 2), None);
    assert!(matches!(game.draw_effect(), DrawEffect::Normal));
    game.state = State::GameOver;
    let shown = game.effective_board().expect("settled board alone");
    assert_eq!(shown.cell(1, 2), None);
}
