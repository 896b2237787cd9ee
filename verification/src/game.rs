//! The game state machine: one persistent settled board, the currently
//! falling piece, and the staging of line clears and game over. Time enters
//! every transition as an explicit millisecond timestamp supplied by the
//! caller, and the falling piece is drawn at random from the fixed piece
//! catalogue built at construction.

use vstd::prelude::*;

use crate::board::Board;
use crate::board::Cell;
use crate::board::Color;
use crate::board::DrawEffect;
use crate::board::Metrics;
use crate::board::can_place;
use crate::board::contains_idx;
use crate::board::eliminated;
use crate::board::first_nonempty;
use crate::board::has_occupied;
use crate::board::last_nonempty;
use crate::board::lemma_first_nonempty_char;
use crate::board::lemma_last_nonempty_char;
use crate::board::place;
use crate::board::rot_ccw;
use crate::board::rot_cw;
use crate::board::row_empty;
use crate::board::row_full;
use crate::board::strictly_descending;
use crate::board::transpose_spec;

verus! {

/// Milliseconds a `Line` stage lasts before the next stage switch.
pub const STAGE_DELAY_MS: u64 = 50;

/// Milliseconds between two automatic downward steps of the falling piece.
pub const FALL_DELAY_MS: u64 = 700;

/// Number of staging steps of the line-clear animation before the rows are
/// eliminated.
pub const LINE_STAGES: isize = 18;

/// Relies on rand 0.8's `rand::random`, which draws a value from the
/// thread-local generator. Nothing is promised of the value drawn.
pub assume_specification<T>[ rand::random::<T> ]() -> (r: T)
    where
        rand::distributions::Standard: rand::distributions::Distribution<T>,
;

/// The currently falling piece: its top-left position relative to the board
/// origin and the timestamp of its last successful downward step or spawn.
pub struct Falling {
    pub offset: (isize, isize),
    pub piece: Board,
    pub time_since_fall: u64,
}

/// The mode the game is in: a piece is falling, completed lines are being
/// staged for elimination, or the game is over.
pub enum State {
    Falling(Falling),
    Line(isize, u64, Vec<usize>),
    GameOver,
}

/// The whole game: the settled board, the screen metrics, the fixed piece
/// catalogue, and the current state.
pub struct Game {
    pub board: Board,
    pub metrics: Metrics,
    pub possible_pieces: Vec<Board>,
    pub state: State,
}

/// A board fit to serve as a piece: well-formed with at least one row.
pub open spec fn piece_ok(p: Board) -> bool {
    &&& p.wf()
    &&& p@.len() >= 1
}

/// Two boards hold the same cells.
pub open spec fn same_cells(a: Board, b: Board) -> bool {
    &&& a@ == b@
    &&& a.spec_width() == b.spec_width()
}

/// A row-index list fit for elimination against a board of height `h`.
pub open spec fn lines_ok(lines: Seq<usize>, h: int) -> bool {
    &&& strictly_descending(lines)
    &&& forall|k: int| 0 <= k < lines.len() ==> lines[k] < h
}

/// `lines` is exactly the set of fully occupied row indices of `s`, in
/// strictly descending order.
pub open spec fn full_lines_of(lines: Seq<usize>, s: Seq<Seq<Cell>>) -> bool {
    &&& strictly_descending(lines)
    &&& forall|k: int| 0 <= k < lines.len() ==> lines[k] < s.len() && row_full(s[lines[k] as int])
    &&& forall|y: int| 0 <= y < s.len() && row_full(s[y]) ==> contains_idx(lines, y)
}

/// Some row of `s` is fully occupied.
pub open spec fn has_full_row(s: Seq<Seq<Cell>>) -> bool {
    exists|y: int| 0 <= y < s.len() && row_full(s[y])
}

/// The parts a transition never touches: the metrics and the piece
/// catalogue.
pub open spec fn same_shell(pre: Game, post: Game) -> bool {
    &&& post.metrics == pre.metrics
    &&& post.possible_pieces == pre.possible_pieces
}

/// A freshly spawned falling state: offset (0, 0), timer reset to `now`,
/// piece drawn from the catalogue.
pub open spec fn spawned(st: State, pieces: Seq<Board>, now: u64) -> bool {
    &&& st is Falling
    &&& st->Falling_0.offset.0 == 0
    &&& st->Falling_0.offset.1 == 0
    &&& st->Falling_0.time_since_fall == now
    &&& exists|i: int|
        0 <= i < pieces.len() && same_cells(st->Falling_0.piece, #[trigger] pieces[i])
}

/// The movement transition from a `Falling` state, requested delta
/// `(cx, cy)`. A delta whose merge succeeds moves the piece (a downward step
/// also resets the fall timer); a failed non-downward delta is ignored; a
/// failed downward step locks the piece into the settled board — spawning a
/// new piece, or entering `Line` when full rows appear — and becomes game
/// over when even the current offset no longer merges.
pub open spec fn move_rel(pre: Game, post: Game, cx: int, cy: int, now: u64) -> bool {
    pre.state is Falling ==> {
        let f = pre.state->Falling_0;
        let nx = f.offset.0 + cx;
        let ny = f.offset.1 + cy;
        let down = cx == 0 && cy == 1;
        let bw = pre.board.spec_width();
        if can_place(pre.board@, bw, f.piece@, nx, ny) {
            &&& same_shell(pre, post)
            &&& post.board == pre.board
            &&& post.state is Falling
            &&& post.state->Falling_0.offset.0 == nx
            &&& post.state->Falling_0.offset.1 == ny
            &&& same_cells(post.state->Falling_0.piece, f.piece)
            &&& post.state->Falling_0.time_since_fall == if down {
                now
            } else {
                f.time_since_fall
            }
        } else if !down {
            post == pre
        } else if !can_place(pre.board@, bw, f.piece@, f.offset.0 as int, f.offset.1 as int) {
            &&& same_shell(pre, post)
            &&& post.board == pre.board
            &&& post.state is GameOver
        } else {
            let m = place(pre.board@, bw, f.piece@, f.offset.0 as int, f.offset.1 as int);
            &&& same_shell(pre, post)
            &&& post.board@ == m
            &&& post.board.spec_width() == bw
            &&& if has_full_row(m) {
                &&& post.state is Line
                &&& post.state->Line_0 == 0
                &&& post.state->Line_1 == now
                &&& full_lines_of(post.state->Line_2@, m)
            } else {
                spawned(post.state, pre.possible_pieces@, now)
            }
        }
    }
}

/// The rotation transition from a `Falling` state: the rotated piece
/// replaces the falling one only when it merges at the unchanged offset;
/// otherwise the request is dropped. `counter` selects the direction.
pub open spec fn rotate_rel(pre: Game, post: Game, counter: bool) -> bool {
    pre.state is Falling ==> {
        let f = pre.state->Falling_0;
        let rp = if counter {
            rot_cw(f.piece@, f.piece.spec_width())
        } else {
            rot_ccw(f.piece@, f.piece.spec_width())
        };
        if can_place(pre.board@, pre.board.spec_width(), rp, f.offset.0 as int, f.offset.1 as int) {
            &&& same_shell(pre, post)
            &&& post.board == pre.board
            &&& post.state is Falling
            &&& post.state->Falling_0.offset == f.offset
            &&& post.state->Falling_0.time_since_fall == f.time_since_fall
            &&& post.state->Falling_0.piece@ == rp
            &&& post.state->Falling_0.piece.spec_width() == f.piece@.len()
        } else {
            post == pre
        }
    }
}

/// The per-tick transition. At most one state change happens per call: a
/// `Line` state waits out the stage delay, then either advances its stage or
/// — after the last stage — eliminates the recorded rows and spawns; a
/// `Falling` state waits out the fall delay, then takes one downward step;
/// `GameOver` absorbs everything.
pub open spec fn progress_rel(pre: Game, post: Game, now: u64) -> bool {
    match pre.state {
        State::GameOver => post == pre,
        State::Line(stage, last_switch, lines) => {
            if now - last_switch <= STAGE_DELAY_MS {
                post == pre
            } else if stage < LINE_STAGES {
                &&& same_shell(pre, post)
                &&& post.board == pre.board
                &&& post.state is Line
                &&& post.state->Line_0 == stage + 1
                &&& post.state->Line_1 == now
                &&& post.state->Line_2@ == lines@
            } else {
                &&& same_shell(pre, post)
                &&& post.board@ == eliminated(pre.board@, pre.board.spec_width(), lines@)
                &&& post.board.spec_width() == pre.board.spec_width()
                &&& spawned(post.state, pre.possible_pieces@, now)
            }
        },
        State::Falling(f) => {
            if now - f.time_since_fall <= FALL_DELAY_MS {
                post == pre
            } else {
                move_rel(pre, post, 0, 1, now)
            }
        },
    }
}

/// The grid a 0/1 template stamps out: occupied with `color` where the
/// template is nonzero.
pub open spec fn stamped(template: [[u8; 4]; 4], color: Color) -> Seq<Seq<Cell>> {
    Seq::new(
        4,
        |y: int|
            Seq::new(
                4,
                |x: int|
                    if template[y][x] != 0 {
                        Some(color)
                    } else {
                        None::<Color>
                    },
            ),
    )
}

/// The fixed catalogue: the seven tetrominoes, each trimmed to its bounding
/// box and tagged with its color.
pub open spec fn catalogue(pieces: Seq<Board>) -> bool {
    let oo = Some(Color::Orange);
    let yy = Some(Color::Yellow);
    let bb = Some(Color::Blue);
    let gg = Some(Color::Green);
    let cc = Some(Color::Cyan);
    let mm = Some(Color::Magenta);
    let rr = Some(Color::Red);
    let nn = None::<Color>;
    &&& pieces.len() == 7
    &&& pieces[0]@ == seq![seq![oo, oo, oo], seq![oo, nn, nn]] && pieces[0].spec_width() == 3
    &&& pieces[1]@ == seq![seq![yy, yy, yy], seq![nn, nn, yy]] && pieces[1].spec_width() == 3
    &&& pieces[2]@ == seq![seq![bb, bb, bb, bb]] && pieces[2].spec_width() == 4
    &&& pieces[3]@ == seq![seq![gg, gg, gg], seq![nn, gg, nn]] && pieces[3].spec_width() == 3
    &&& pieces[4]@ == seq![seq![nn, cc, cc], seq![cc, cc, nn]] && pieces[4].spec_width() == 3
    &&& pieces[5]@ == seq![seq![mm, mm, nn], seq![nn, mm, mm]] && pieces[5].spec_width() == 3
    &&& pieces[6]@ == seq![seq![rr, rr], seq![rr, rr]] && pieces[6].spec_width() == 2
}

/// Carry the trim contract of a catalogue piece down to its concrete
/// bounding box `[minr, maxr] x [minc, maxc]` within the template.
proof fn lemma_piece_shape(
    t: [[u8; 4]; 4],
    c: Color,
    p: Board,
    minr: int,
    maxr: int,
    minc: int,
    maxc: int,
)
    requires
        0 <= minr <= maxr < 4,
        0 <= minc <= maxc < 4,
        forall|y: int| 0 <= y < minr ==> row_empty(#[trigger] stamped(t, c)[y]),
        !row_empty(stamped(t, c)[minr]),
        forall|y: int| maxr < y < 4 ==> row_empty(#[trigger] stamped(t, c)[y]),
        !row_empty(stamped(t, c)[maxr]),
        forall|x: int| 0 <= x < minc ==> row_empty(#[trigger] transpose_spec(stamped(t, c), 4)[x]),
        !row_empty(transpose_spec(stamped(t, c), 4)[minc]),
        forall|x: int| maxc < x < 4 ==> row_empty(#[trigger] transpose_spec(stamped(t, c), 4)[x]),
        !row_empty(transpose_spec(stamped(t, c), 4)[maxc]),
        p@.len() == last_nonempty(stamped(t, c)) - first_nonempty(stamped(t, c)) + 1,
        p.spec_width() == last_nonempty(transpose_spec(stamped(t, c), 4)) - first_nonempty(
            transpose_spec(stamped(t, c), 4),
        ) + 1,
        forall|i: int, j: int|
            0 <= i < p@.len() && 0 <= j < p.spec_width() ==> #[trigger] p@[i][j] == stamped(
                t,
                c,
            ).index(first_nonempty(stamped(t, c)) + i).index(
                first_nonempty(transpose_spec(stamped(t, c), 4)) + j,
            ),
    ensures
        p@.len() == maxr - minr + 1,
        p.spec_width() == maxc - minc + 1,
        forall|i: int, j: int|
            0 <= i < p@.len() && 0 <= j < p.spec_width() ==> #[trigger] p@[i][j] == (if t[minr
                + i][minc + j] != 0 {
                Some(c)
            } else {
                None::<Color>
            }),
{
    lemma_first_nonempty_char(stamped(t, c), minr);
    lemma_last_nonempty_char(stamped(t, c), maxr);
    lemma_first_nonempty_char(transpose_spec(stamped(t, c), 4), minc);
    lemma_last_nonempty_char(transpose_spec(stamped(t, c), 4), maxc);
}

/// An element-for-element copy of a row-index list.
fn copy_lines(lines: &Vec<usize>) -> (r: Vec<usize>)
    ensures
        r@ == lines@,
{
    let mut r: Vec<usize> = Vec::new();
    let mut i: usize = 0;
    while i < lines.len()
        invariant
            i <= lines@.len(),
            r@ == lines@.subrange(0, i as int),
        decreases lines@.len() - i,
    {
        r.push(lines[i]);
        proof {
            assert(r@ =~= lines@.subrange(0, i + 1 as int));
        }
        i = i + 1;
    }
    proof {
        assert(r@ =~= lines@);
    }
    r
}

impl Game {
    /// The game's invariant: a well-formed board matching the metrics, a
    /// nonempty catalogue of well-formed pieces, and a state whose contents
    /// fit the board.
    pub open spec fn wf(&self) -> bool {
        &&& self.board.wf()
        &&& self.board@.len() >= 1
        &&& self.board.spec_width() == self.metrics.board_x
        &&& self.board@.len() == self.metrics.board_y
        &&& self.possible_pieces@.len() >= 1
        &&& forall|i: int|
            0 <= i < self.possible_pieces@.len() ==> piece_ok(#[trigger] self.possible_pieces@[i])
        &&& match self.state {
            State::Falling(f) => piece_ok(f.piece),
            State::Line(stage, last_switch, lines) => lines_ok(lines@, self.board@.len() as int),
            State::GameOver => true,
        }
    }

    /// Build one catalogue piece: stamp the 0/1 template — which must have a
    /// nonzero entry — and trim it to its bounding box.
    fn trimmed_piece(template: &[[u8; 4]; 4], color: Color) -> (r: Board)
        requires
            exists|y: int, x: int| 0 <= y < 4 && 0 <= x < 4 && template[y][x] != 0,
        ensures
            piece_ok(r),
            r@.len() == last_nonempty(stamped(*template, color)) - first_nonempty(
                stamped(*template, color),
            ) + 1,
            r.spec_width() == last_nonempty(transpose_spec(stamped(*template, color), 4))
                - first_nonempty(transpose_spec(stamped(*template, color), 4)) + 1,
            forall|i: int, j: int|
                0 <= i < r@.len() && 0 <= j < r.spec_width() ==> #[trigger] r@[i][j] == stamped(
                    *template,
                    color,
                ).index(first_nonempty(stamped(*template, color)) + i).index(
                    first_nonempty(transpose_spec(stamped(*template, color), 4)) + j,
                ),
    {
        let p = Board::piece(template, color);
        proof {
            let (wy, wx) = choose|y: int, x: int|
                0 <= y < 4 && 0 <= x < 4 && template[y][x] != 0;
            assert(p@[wy][wx] is Some);
            assert(0 <= wy < p@.len() && 0 <= wx < p@[wy].len() && p@[wy][wx] is Some);
            assert(has_occupied(p@));
            assert(p@ =~~= stamped(*template, color));
        }
        let r = p.with_trim_sides();
        proof {
            let (wy, wx) = choose|y: int, x: int|
                0 <= y < r@.len() && 0 <= x < r@[y].len() && r@[y][x] is Some;
            assert(r@.len() >= 1);
        }
        r
    }

    /// A new game: an empty board sized by the metrics, the fixed
    /// seven-piece catalogue, and a first falling piece spawned at `now`.
    pub fn new(metrics: Metrics, now: u64) -> (r: Game)
        requires
            1 <= metrics.board_x <= isize::MAX as int,
            1 <= metrics.board_y <= isize::MAX as int,
        ensures
            r.wf(),
            r.metrics == metrics,
            r.board.spec_width() == metrics.board_x,
            r.board@.len() == metrics.board_y,
            forall|y: int, x: int|
                0 <= y < metrics.board_y && 0 <= x < metrics.board_x ==> r.board@[y][x] is None,
            catalogue(r.possible_pieces@),
            spawned(r.state, r.possible_pieces@, now),
    {
        let mut possible_pieces: Vec<Board> = Vec::new();

        let t1 = [[0u8, 0, 0, 0], [0, 1, 1, 1], [0, 1, 0, 0], [0, 0, 0, 0]];
        proof {
            assert(t1[1][1] != 0);
        }
        let q = Self::trimmed_piece(&t1, Color::Orange);
        proof {
            let st = stamped(t1, Color::Orange);
            let tr = transpose_spec(st, 4);
            assert(!row_empty(st[1])) by {
                assert(st[1][1] is Some);
            }
            assert(!row_empty(st[2])) by {
                assert(st[2][1] is Some);
            }
            assert(!row_empty(tr[1])) by {
                assert(tr[1][1] is Some);
            }
            assert(!row_empty(tr[3])) by {
                assert(tr[3][1] is Some);
            }
            lemma_piece_shape(t1, Color::Orange, q, 1, 2, 1, 3);
            assert(q@ =~~= seq![
                seq![Some(Color::Orange), Some(Color::Orange), Some(Color::Orange)],
                seq![Some(Color::Orange), None::<Color>, None::<Color>],
            ]);
        }
        possible_pieces.push(q);

        let t2 = [[0u8, 0, 0, 0], [0, 1, 1, 1], [0, 0, 0, 1], [0, 0, 0, 0]];
        proof {
            assert(t2[1][1] != 0);
        }
        let q = Self::trimmed_piece(&t2, Color::Yellow);
        proof {
            let st = stamped(t2, Color::Yellow);
            let tr = transpose_spec(st, 4);
            assert(!row_empty(st[1])) by {
                assert(st[1][1] is Some);
            }
            assert(!row_empty(st[2])) by {
                assert(st[2][3] is Some);
            }
            assert(!row_empty(tr[1])) by {
                assert(tr[1][1] is Some);
            }
            assert(!row_empty(tr[3])) by {
                assert(tr[3][1] is Some);
            }
            lemma_piece_shape(t2, Color::Yellow, q, 1, 2, 1, 3);
            assert(q@ =~~= seq![
                seq![Some(Color::Yellow), Some(Color::Yellow), Some(Color::Yellow)],
                seq![None::<Color>, None::<Color>, Some(Color::Yellow)],
            ]);
        }
        possible_pieces.push(q);

        let t3 = [[0u8, 0, 0, 0], [1, 1, 1, 1], [0, 0, 0, 0], [0, 0, 0, 0]];
        proof {
            assert(t3[1][1] != 0);
        }
        let q = Self::trimmed_piece(&t3, Color::Blue);
        proof {
            let st = stamped(t3, Color::Blue);
            let tr = transpose_spec(st, 4);
            assert(!row_empty(st[1])) by {
                assert(st[1][0] is Some);
            }
            assert(!row_empty(tr[0])) by {
                assert(tr[0][1] is Some);
            }
            assert(!row_empty(tr[3])) by {
                assert(tr[3][1] is Some);
            }
            lemma_piece_shape(t3, Color::Blue, q, 1, 1, 0, 3);
            assert(q@ =~~= seq![
                seq![Some(Color::Blue), Some(Color::Blue), Some(Color::Blue), Some(Color::Blue)],
            ]);
        }
        possible_pieces.push(q);

        let t4 = [[1u8, 1, 1, 0], [0, 1, 0, 0], [0, 0, 0, 0], [0, 0, 0, 0]];
        proof {
            assert(t4[1][1] != 0);
        }
        let q = Self::trimmed_piece(&t4, Color::Green);
        proof {
            let st = stamped(t4, Color::Green);
            let tr = transpose_spec(st, 4);
            assert(!row_empty(st[0])) by {
                assert(st[0][0] is Some);
            }
            assert(!row_empty(st[1])) by {
                assert(st[1][1] is Some);
            }
            assert(!row_empty(tr[0])) by {
                assert(tr[0][0] is Some);
            }
            assert(!row_empty(tr[2])) by {
                assert(tr[2][0] is Some);
            }
            lemma_piece_shape(t4, Color::Green, q, 0, 1, 0, 2);
            assert(q@ =~~= seq![
                seq![Some(Color::Green), Some(Color::Green), Some(Color::Green)],
                seq![None::<Color>, Some(Color::Green), None::<Color>],
            ]);
        }
        possible_pieces.push(q);

        let t5 = [[0u8, 0, 0, 0], [0, 1, 1, 0], [1, 1, 0, 0], [0, 0, 0, 0]];
        proof {
            assert(t5[1][1] != 0);
        }
        let q = Self::trimmed_piece(&t5, Color::Cyan);
        proof {
            let st = stamped(t5, Color::Cyan);
            let tr = transpose_spec(st, 4);
            assert(!row_empty(st[1])) by {
                assert(st[1][1] is Some);
            }
            assert(!row_empty(st[2])) by {
                assert(st[2][0] is Some);
            }
            assert(!row_empty(tr[0])) by {
                assert(tr[0][2] is Some);
            }
            assert(!row_empty(tr[2])) by {
                assert(tr[2][1] is Some);
            }
            lemma_piece_shape(t5, Color::Cyan, q, 1, 2, 0, 2);
            assert(q@ =~~= seq![
                seq![None::<Color>, Some(Color::Cyan), Some(Color::Cyan)],
                seq![Some(Color::Cyan), Some(Color::Cyan), None::<Color>],
            ]);
        }
        possible_pieces.push(q);

        let t6 = [[0u8, 0, 0, 0], [1, 1, 0, 0], [0, 1, 1, 0], [0, 0, 0, 0]];
        proof {
            assert(t6[1][1] != 0);
        }
        let q = Self::trimmed_piece(&t6, Color::Magenta);
        proof {
            let st = stamped(t6, Color::Magenta);
            let tr = transpose_spec(st, 4);
            assert(!row_empty(st[1])) by {
                assert(st[1][0] is Some);
            }
            assert(!row_empty(st[2])) by {
                assert(st[2][1] is Some);
            }
            assert(!row_empty(tr[0])) by {
                assert(tr[0][1] is Some);
            }
            assert(!row_empty(tr[2])) by {
                assert(tr[2][2] is Some);
            }
            lemma_piece_shape(t6, Color::Magenta, q, 1, 2, 0, 2);
            assert(q@ =~~= seq![
                seq![Some(Color::Magenta), Some(Color::Magenta), None::<Color>],
                seq![None::<Color>, Some(Color::Magenta), Some(Color::Magenta)],
            ]);
        }
        possible_pieces.push(q);

        let t7 = [[0u8, 0, 0, 0], [0, 1, 1, 0], [0, 1, 1, 0], [0, 0, 0, 0]];
        proof {
            assert(t7[1][1] != 0);
        }
        let q = Self::trimmed_piece(&t7, Color::Red);
        proof {
            let st = stamped(t7, Color::Red);
            let tr = transpose_spec(st, 4);
            assert(!row_empty(st[1])) by {
                assert(st[1][1] is Some);
            }
            assert(!row_empty(st[2])) by {
                assert(st[2][1] is Some);
            }
            assert(!row_empty(tr[1])) by {
                assert(tr[1][1] is Some);
            }
            assert(!row_empty(tr[2])) by {
                assert(tr[2][1] is Some);
            }
            lemma_piece_shape(t7, Color::Red, q, 1, 2, 1, 2);
            assert(q@ =~~= seq![
                seq![Some(Color::Red), Some(Color::Red)],
                seq![Some(Color::Red), Some(Color::Red)],
            ]);
        }
        possible_pieces.push(q);

        proof {
            assert(catalogue(possible_pieces@));
        }
        let falling = Self::new_falling(&possible_pieces, now);
        Game {
            board: Board::empty(metrics.board_x, metrics.board_y),
            state: State::Falling(falling),
            possible_pieces,
            metrics,
        }
    }

    /// Spawn a falling piece: one of the catalogue, drawn uniformly at
    /// random, placed at offset (0, 0) with the fall timer reset to `now`.
    pub fn new_falling(possible_pieces: &Vec<Board>, now: u64) -> (r: Falling)
        requires
            possible_pieces@.len() >= 1,
            forall|i: int|
                0 <= i < possible_pieces@.len() ==> piece_ok(#[trigger] possible_pieces@[i]),
        ensures
            r.offset.0 == 0 && r.offset.1 == 0,
            r.time_since_fall == now,
            piece_ok(r.piece),
            spawned(State::Falling(r), possible_pieces@, now),
    {
        let n: usize = rand::random::<usize>();
        let idx = n % possible_pieces.len();
        let r = Falling {
            offset: (0, 0),
            piece: possible_pieces[idx].clone(),
            time_since_fall: now,
        };
        proof {
            assert(same_cells(r.piece, possible_pieces@[idx as int]));
        }
        r
    }

    /// Apply a movement request. See `move_rel` for the transition; outside
    /// the `Falling` state the request is a no-op.
    pub fn move_piece(&mut self, change: (isize, isize), now: u64)
        requires
            old(self).wf(),
            old(self).state is Falling ==> {
                let f = old(self).state->Falling_0;
                &&& isize::MIN <= f.offset.0 + change.0 <= isize::MAX
                &&& isize::MIN <= f.offset.1 + change.1 <= isize::MAX
            },
        ensures
            final(self).wf(),
            !(old(self).state is Falling) ==> *final(self) == *old(self),
            move_rel(*old(self), *final(self), change.0 as int, change.1 as int, now),
    {
        let mut new_board: Option<Board> = None;
        let mut new_state: Option<State> = None;
        match &self.state {
            State::GameOver => {},
            State::Line(_, _, _) => {},
            State::Falling(f) => {
                let new_offset = (f.offset.0 + change.0, f.offset.1 + change.1);
                let is_down = change.0 == 0 && change.1 == 1;
                match self.board.as_merged(new_offset, &f.piece) {
                    Some(_) => {
                        let t = if is_down {
                            now
                        } else {
                            f.time_since_fall
                        };
                        new_state = Some(
                            State::Falling(
                                Falling {
                                    offset: new_offset,
                                    piece: f.piece.clone(),
                                    time_since_fall: t,
                                },
                            ),
                        );
                    },
                    None => {
                        if is_down {
                            match self.board.as_merged(f.offset, &f.piece) {
                                None => {
                                    new_state = Some(State::GameOver);
                                },
                                Some(merged) => {
                                    let completed = merged.get_full_lines_indicts();
                                    if completed.len() > 0 {
                                        proof {
                                            assert(row_full(merged@[completed@[0] as int]));
                                        }
                                        new_state = Some(State::Line(0, now, completed));
                                    } else {
                                        new_state = Some(
                                            State::Falling(
                                                Self::new_falling(&self.possible_pieces, now),
                                            ),
                                        );
                                        proof {
                                            if has_full_row(merged@) {
                                                let y = choose|y: int|
                                                    0 <= y < merged@.len() && row_full(merged@[y]);
                                                assert(contains_idx(completed@, y));
                                            }
                                        }
                                    }
                                    new_board = Some(merged);
                                },
                            }
                        }
                    },
                }
            },
        }
        if let Some(b) = new_board {
            self.board = b;
        }
        if let Some(s) = new_state {
            self.state = s;
        }
    }

    /// Apply a rotation request. See `rotate_rel`; outside the `Falling`
    /// state the request is a no-op.
    pub fn rotate(&mut self, counter: bool)
        requires
            old(self).wf(),
        ensures
            final(self).wf(),
            !(old(self).state is Falling) ==> *final(self) == *old(self),
            rotate_rel(*old(self), *final(self), counter),
    {
        let mut new_state: Option<State> = None;
        match &self.state {
            State::GameOver => {},
            State::Line(_, _, _) => {},
            State::Falling(f) => {
                let rotated = if counter {
                    f.piece.with_rotated()
                } else {
                    f.piece.with_rotated_counter()
                };
                match self.board.as_merged(f.offset, &rotated) {
                    Some(_) => {
                        new_state = Some(
                            State::Falling(
                                Falling {
                                    offset: f.offset,
                                    piece: rotated,
                                    time_since_fall: f.time_since_fall,
                                },
                            ),
                        );
                    },
                    None => {},
                }
            },
        }
        if let Some(s) = new_state {
            self.state = s;
        }
    }

    /// Advance the game by one tick at time `now`. See `progress_rel`.
    pub fn progress(&mut self, now: u64)
        requires
            old(self).wf(),
            match old(self).state {
                State::Falling(f) => f.time_since_fall <= now && f.offset.1 < isize::MAX,
                State::Line(stage, last_switch, lines) => last_switch <= now,
                State::GameOver => true,
            },
        ensures
            final(self).wf(),
            progress_rel(*old(self), *final(self), now),
    {
        let mut new_board: Option<Board> = None;
        let mut new_state: Option<State> = None;
        let mut should_fall: bool = false;
        match &self.state {
            State::GameOver => {
                return ;
            },
            State::Line(stage, last_switch, lines) => {
                if now - *last_switch <= STAGE_DELAY_MS {
                    return ;
                }
                if *stage < LINE_STAGES {
                    new_state = Some(State::Line(*stage + 1, now, copy_lines(lines)));
                } else {
                    new_board = Some(self.board.with_eliminate_lines(lines));
                    new_state = Some(State::Falling(Self::new_falling(&self.possible_pieces, now)));
                }
            },
            State::Falling(f) => {
                if now - f.time_since_fall <= FALL_DELAY_MS {
                    return ;
                }
                should_fall = true;
            },
        }
        if should_fall {
            self.move_piece((0, 1), now);
            return ;
        }
        if let Some(b) = new_board {
            self.board = b;
        }
        if let Some(s) = new_state {
            self.state = s;
        }
    }

    /// How the renderer should present the board: dimmed after game over,
    /// normal otherwise.
    pub fn draw_effect(&self) -> (r: DrawEffect)
        ensures
            r is Loose <==> self.state is GameOver,
    {
        match &self.state {
            State::GameOver => DrawEffect::Loose,
            State::Falling(_) => DrawEffect::Normal,
            State::Line(_, _, _) => DrawEffect::Normal,
        }
    }

    /// The board to draw: the settled board with the falling piece merged
    /// in while one is falling — absent only when the spawn position
    /// already collides — and the settled board alone otherwise.
    pub fn effective_board(&self) -> (r: Option<Board>)
        requires
            self.wf(),
        ensures
            match self.state {
                State::Falling(f) => {
                    if can_place(
                        self.board@,
                        self.board.spec_width(),
                        f.piece@,
                        f.offset.0 as int,
                        f.offset.1 as int,
                    ) {
                        &&& r is Some
                        &&& r->Some_0@ == place(
                            self.board@,
                            self.board.spec_width(),
                            f.piece@,
                            f.offset.0 as int,
                            f.offset.1 as int,
                        )
                    } else {
                        r is None
                    }
                },
                State::Line(stage, last_switch, lines) => r is Some && r->Some_0@ == self.board@,
                State::GameOver => r is Some && r->Some_0@ == self.board@,
            },
    {
        match &self.state {
            State::Falling(f) => self.board.as_merged(f.offset, &f.piece),
            State::Line(_, _, _) => Some(self.board.clone()),
            State::GameOver => Some(self.board.clone()),
        }
    }
}

} // verus!
