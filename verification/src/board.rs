//! The board: a rectangular, row-major matrix of optionally colored cells.
//! Both the settled board and every piece are values of this one type; all
//! transformations return a fresh board and never mutate the receiver.

use vstd::prelude::*;

verus! {

/// Tag for an occupied cell. Colors have no gameplay meaning beyond identity.
#[derive(Clone, Copy, Debug, PartialEq, Eq, Structural)]
pub enum Color {
    Red,
    Green,
    Blue,
    Magenta,
    Cyan,
    Yellow,
    Orange,
}

/// A cell is empty or holds a color.
pub type Cell = Option<Color>;

/// Screen parameters: pixel size of one cell and the board dimensions in cells.
#[derive(Clone, Copy, Debug, PartialEq, Eq, Structural)]
pub struct Metrics {
    pub block_pixels: usize,
    pub board_x: usize,
    pub board_y: usize,
}

impl Metrics {
    /// Pixel resolution of the whole board surface.
    pub fn resolution(&self) -> (r: [u32; 2])
        requires
            self.board_x * self.block_pixels <= u32::MAX,
            self.board_y * self.block_pixels <= u32::MAX,
        ensures
            r@[0] == self.board_x * self.block_pixels,
            r@[1] == self.board_y * self.block_pixels,
    {
        [
            (self.board_x * self.block_pixels) as u32,
            (self.board_y * self.block_pixels) as u32,
        ]
    }
}

/// How the renderer should present the board.
pub enum DrawEffect {
    Normal,
    Loose,
}

/// A rectangular grid of cells. The rows all have length `width`, which is
/// kept alongside the rows so the width survives even a transient zero-row
/// state during line elimination.
pub struct Board {
    width: usize,
    cells: Vec<Vec<Cell>>,
}

/// A piece is a board used as a stamp, trimmed to its bounding box.
pub type Piece = Board;

/// True when every cell of the row is empty.
pub open spec fn row_empty(row: Seq<Cell>) -> bool {
    forall|x: int| 0 <= x < row.len() ==> (#[trigger] row[x]) is None
}

/// True when every cell of the row is occupied.
pub open spec fn row_full(row: Seq<Cell>) -> bool {
    forall|x: int| 0 <= x < row.len() ==> (#[trigger] row[x]) is Some
}

/// All rows of `s` have length `w`.
pub open spec fn rectangular(s: Seq<Seq<Cell>>, w: nat) -> bool {
    forall|y: int| 0 <= y < s.len() ==> (#[trigger] s[y]).len() == w
}

impl View for Board {
    type V = Seq<Seq<Cell>>;

    closed spec fn view(&self) -> Seq<Seq<Cell>> {
        Seq::new(self.cells@.len(), |y: int| self.cells@[y]@)
    }
}

impl Board {
    /// Width of the board in cells.
    pub closed spec fn spec_width(&self) -> nat {
        self.width as nat
    }

    /// Well-formedness: a positive width that every row matches, with both
    /// dimensions small enough to convert to signed offsets.
    pub open spec fn wf(&self) -> bool {
        &&& 1 <= self.spec_width() <= isize::MAX as int
        &&& self@.len() <= isize::MAX as int
        &&& rectangular(self@, self.spec_width())
    }

    /// An all-empty board of the given dimensions.
    pub fn empty(dim_x: usize, dim_y: usize) -> (r: Board)
        requires
            1 <= dim_x <= isize::MAX as int,
            dim_y <= isize::MAX as int,
        ensures
            r.wf(),
            r.spec_width() == dim_x,
            r@.len() == dim_y,
            forall|y: int, x: int|
                0 <= y < dim_y && 0 <= x < dim_x ==> r@[y][x] is None,
    {
        let mut cells: Vec<Vec<Cell>> = Vec::new();
        let mut y: usize = 0;
        while y < dim_y
            invariant
                y <= dim_y,
                cells@.len() == y,
                forall|j: int| 0 <= j < y ==> (#[trigger] cells@[j])@.len() == dim_x,
                forall|j: int, x: int|
                    0 <= j < y && 0 <= x < dim_x ==> cells@[j]@[x] is None,
            decreases dim_y - y,
        {
            let mut row: Vec<Cell> = Vec::new();
            let mut x: usize = 0;
            while x < dim_x
                invariant
                    x <= dim_x,
                    row@.len() == x,
                    forall|i: int| 0 <= i < x ==> (#[trigger] row@[i]) is None,
                decreases dim_x - x,
            {
                row.push(None);
                x = x + 1;
            }
            cells.push(row);
            y = y + 1;
        }
        Board { width: dim_x, cells }
    }

    pub fn dim_x(&self) -> (r: usize)
        ensures
            r == self.spec_width(),
    {
        self.width
    }

    pub fn dim_y(&self) -> (r: usize)
        ensures
            r == self@.len(),
    {
        self.cells.len()
    }

    /// The coordinate pair lies within the board.
    pub open spec fn spec_valid(&self, x: int, y: int) -> bool {
        &&& 0 <= x < self.spec_width()
        &&& 0 <= y < self@.len()
    }

    /// Sole bounds check: both coordinates within `[0, dim)` for their axis.
    pub fn valid(&self, offset: (isize, isize)) -> (r: bool)
        requires
            self.wf(),
        ensures
            r == self.spec_valid(offset.0 as int, offset.1 as int),
    {
        if offset.0 >= 0 && offset.0 < self.dim_x() as isize {
            if offset.1 >= 0 && offset.1 < self.dim_y() as isize {
                return true;
            }
        }
        false
    }

    /// The cell at column `x`, row `y`.
    pub fn cell(&self, x: usize, y: usize) -> (r: Cell)
        requires
            self.wf(),
            x < self.spec_width(),
            y < self@.len(),
        ensures
            r == self@[y as int][x as int],
    {
        proof {
            assert(self@[y as int] == self.cells@[y as int]@);
            assert(self@[y as int].len() == self.spec_width());
        }
        self.cells[y][x]
    }
}

/// The piece `p` can be stamped onto board `b` (of width `bw`) at offset
/// `(ox, oy)`: every occupied cell of `p` lands inside the board on an empty
/// cell.
pub open spec fn can_place(b: Seq<Seq<Cell>>, bw: nat, p: Seq<Seq<Cell>>, ox: int, oy: int) -> bool {
    forall|y: int, x: int|
        0 <= y < p.len() && 0 <= x < p[y].len() && (#[trigger] p[y][x]) is Some ==> {
            &&& 0 <= x + ox < bw
            &&& 0 <= y + oy < b.len()
            &&& b[y + oy][x + ox] is None
        }
}

/// The result of stamping `p` onto `b` at `(ox, oy)`: occupied cells of `p`
/// are copied to their translated coordinates, everything else is `b`.
pub open spec fn place(b: Seq<Seq<Cell>>, bw: nat, p: Seq<Seq<Cell>>, ox: int, oy: int) -> Seq<Seq<Cell>> {
    Seq::new(
        b.len(),
        |yy: int|
            Seq::new(
                bw,
                |xx: int|
                    if 0 <= yy - oy < p.len() && 0 <= xx - ox < p[yy - oy].len()
                        && p[yy - oy][xx - ox] is Some {
                        p[yy - oy][xx - ox]
                    } else {
                        b[yy][xx]
                    },
            ),
    )
}

/// After a successful merge, reading back every originally occupied cell of
/// the piece at its mapped coordinate yields that cell's color.
pub proof fn lemma_merged_reads_back(
    b: Seq<Seq<Cell>>,
    bw: nat,
    p: Seq<Seq<Cell>>,
    ox: int,
    oy: int,
)
    requires
        can_place(b, bw, p, ox, oy),
    ensures
        forall|y: int, x: int|
            0 <= y < p.len() && 0 <= x < p[y].len() && (#[trigger] p[y][x]) is Some ==> place(
                b,
                bw,
                p,
                ox,
                oy,
            )[y + oy][x + ox] == p[y][x],
{
    assert forall|y: int, x: int|
        0 <= y < p.len() && 0 <= x < p[y].len() && (#[trigger] p[y][x]) is Some implies place(
        b,
        bw,
        p,
        ox,
        oy,
    )[y + oy][x + ox] == p[y][x] by {
        assert(0 <= x + ox < bw && 0 <= y + oy < b.len());
        assert(place(b, bw, p, ox, oy)[y + oy][x + ox] == p[(y + oy) - oy][(x + ox) - ox]);
    }
}

/// A piece with an occupied cell that lands outside the board never merges,
/// whatever the rest of the piece looks like.
pub proof fn lemma_merge_out_of_bounds(
    b: Seq<Seq<Cell>>,
    bw: nat,
    p: Seq<Seq<Cell>>,
    ox: int,
    oy: int,
    y: int,
    x: int,
)
    requires
        0 <= y < p.len(),
        0 <= x < p[y].len(),
        p[y][x] is Some,
        !(0 <= x + ox < bw) || !(0 <= y + oy < b.len()),
    ensures
        !can_place(b, bw, p, ox, oy),
{
}

/// A piece whose occupied cell lands on an already occupied cell never
/// merges.
pub proof fn lemma_merge_collision(
    b: Seq<Seq<Cell>>,
    bw: nat,
    p: Seq<Seq<Cell>>,
    ox: int,
    oy: int,
    y: int,
    x: int,
)
    requires
        0 <= y < p.len(),
        0 <= x < p[y].len(),
        p[y][x] is Some,
        0 <= y + oy < b.len(),
        b[y + oy][x + ox] is Some,
    ensures
        !can_place(b, bw, p, ox, oy),
{
}

impl Board {
    /// Build a board from a square 0/1 template: occupied where the template
    /// is nonzero, tagged with `color`.
    pub fn piece(template: &[[u8; 4]; 4], color: Color) -> (r: Board)
        ensures
            r.wf(),
            r.spec_width() == 4,
            r@.len() == 4,
            forall|y: int, x: int|
                0 <= y < 4 && 0 <= x < 4 ==> r@[y][x] == (if template[y][x] != 0 {
                    Some(color)
                } else {
                    None::<Color>
                }),
    {
        let mut cells: Vec<Vec<Cell>> = Vec::new();
        let mut y: usize = 0;
        while y < 4
            invariant
                y <= 4,
                cells@.len() == y,
                forall|j: int| 0 <= j < y ==> (#[trigger] cells@[j])@.len() == 4,
                forall|j: int, x: int|
                    0 <= j < y && 0 <= x < 4 ==> cells@[j]@[x] == (if template[j][x] != 0 {
                        Some(color)
                    } else {
                        None::<Color>
                    }),
            decreases 4 - y,
        {
            let mut row: Vec<Cell> = Vec::new();
            let mut x: usize = 0;
            while x < 4
                invariant
                    y < 4,
                    x <= 4,
                    row@.len() == x,
                    forall|i: int|
                        0 <= i < x ==> (#[trigger] row@[i]) == (if template[y as int][i] != 0 {
                            Some(color)
                        } else {
                            None::<Color>
                        }),
                decreases 4 - x,
            {
                row.push(if template[y][x] != 0 { Some(color) } else { None });
                x = x + 1;
            }
            cells.push(row);
            y = y + 1;
        }
        Board { width: 4, cells }
    }

    /// True when row `y` has no occupied cell.
    fn line_empty(&self, y: usize) -> (r: bool)
        requires
            self.wf(),
            y < self@.len(),
        ensures
            r == row_empty(self@[y as int]),
    {
        proof {
            assert(self@[y as int] == self.cells@[y as int]@);
        }
        let row = &self.cells[y];
        let mut x: usize = 0;
        while x < row.len()
            invariant
                y < self@.len(),
                row@ == self@[y as int],
                x <= row@.len(),
                forall|i: int| 0 <= i < x ==> (#[trigger] row@[i]) is None,
            decreases row@.len() - x,
        {
            if row[x].is_some() {
                proof {
                    assert(self@[y as int][x as int] is Some);
                }
                return false;
            }
            x = x + 1;
        }
        true
    }

    /// True when every cell of row `y` is occupied.
    fn line_full(&self, y: usize) -> (r: bool)
        requires
            self.wf(),
            y < self@.len(),
        ensures
            r == row_full(self@[y as int]),
    {
        proof {
            assert(self@[y as int] == self.cells@[y as int]@);
        }
        let row = &self.cells[y];
        let mut x: usize = 0;
        while x < row.len()
            invariant
                y < self@.len(),
                row@ == self@[y as int],
                x <= row@.len(),
                forall|i: int| 0 <= i < x ==> (#[trigger] row@[i]) is Some,
            decreases row@.len() - x,
        {
            if row[x].is_none() {
                proof {
                    assert(self@[y as int][x as int] is None);
                }
                return false;
            }
            x = x + 1;
        }
        true
    }

    /// Whether every occupied cell of `board` fits at `offset`: in bounds and
    /// onto an empty cell of `self`.
    fn fits(&self, offset: (isize, isize), board: &Board) -> (r: bool)
        requires
            self.wf(),
            board.wf(),
        ensures
            r == can_place(self@, self.spec_width(), board@, offset.0 as int, offset.1 as int),
    {
        let pw = board.dim_x();
        let ph = board.dim_y();
        let mut x: usize = 0;
        while x < pw
            invariant
                self.wf(),
                board.wf(),
                pw == board.spec_width(),
                ph == board@.len(),
                x <= pw,
                forall|yy: int, xx: int|
                    0 <= yy < ph && 0 <= xx < x && (#[trigger] board@[yy][xx]) is Some ==> {
                        &&& 0 <= xx + offset.0 < self.spec_width()
                        &&& 0 <= yy + offset.1 < self@.len()
                        &&& self@[yy + offset.1][xx + offset.0] is None
                    },
            decreases pw - x,
        {
            let mut y: usize = 0;
            while y < ph
                invariant
                    self.wf(),
                    board.wf(),
                    pw == board.spec_width(),
                    ph == board@.len(),
                    x < pw,
                    y <= ph,
                    forall|yy: int, xx: int|
                        0 <= yy < ph && 0 <= xx < x && (#[trigger] board@[yy][xx]) is Some ==> {
                            &&& 0 <= xx + offset.0 < self.spec_width()
                            &&& 0 <= yy + offset.1 < self@.len()
                            &&& self@[yy + offset.1][xx + offset.0] is None
                        },
                    forall|yy: int|
                        0 <= yy < y && (#[trigger] board@[yy][x as int]) is Some ==> {
                            &&& 0 <= x + offset.0 < self.spec_width()
                            &&& 0 <= yy + offset.1 < self@.len()
                            &&& self@[yy + offset.1][x + offset.0] is None
                        },
                decreases ph - y,
            {
                proof {
                    assert(board@[y as int] == board.cells@[y as int]@);
                    assert(board@[y as int].len() == pw);
                }
                let cell = board.cells[y][x];
                if cell.is_some() {
                    let tx: i128 = x as i128 + offset.0 as i128;
                    let ty: i128 = y as i128 + offset.1 as i128;
                    if tx < 0 || tx >= self.width as i128 || ty < 0
                        || ty >= self.cells.len() as i128 {
                        return false;
                    }
                    proof {
                        assert(self@[ty as int] == self.cells@[ty as int]@);
                        assert(self@[ty as int].len() == self.spec_width());
                    }
                    if self.cells[ty as usize][tx as usize].is_some() {
                        return false;
                    }
                }
                y = y + 1;
            }
            x = x + 1;
        }
        true
    }

    /// Attempt to stamp `board` onto `self` at `offset`. Fails atomically —
    /// returning no result and leaving `self` untouched — when any occupied
    /// cell of `board` would land out of bounds or on an occupied cell;
    /// otherwise returns the combined board.
    pub fn as_merged(&self, offset: (isize, isize), board: &Board) -> (r: Option<Board>)
        requires
            self.wf(),
            board.wf(),
        ensures
            r is Some <==> can_place(
                self@,
                self.spec_width(),
                board@,
                offset.0 as int,
                offset.1 as int,
            ),
            r is Some ==> {
                &&& r->Some_0.wf()
                &&& r->Some_0.spec_width() == self.spec_width()
                &&& r->Some_0@ == place(
                    self@,
                    self.spec_width(),
                    board@,
                    offset.0 as int,
                    offset.1 as int,
                )
            },
    {
        if !self.fits(offset, board) {
            return None;
        }
        let bw = self.width;
        let bh = self.cells.len();
        let ghost target = place(self@, self.spec_width(), board@, offset.0 as int, offset.1 as int);
        let mut cells: Vec<Vec<Cell>> = Vec::new();
        let mut yy: usize = 0;
        while yy < bh
            invariant
                self.wf(),
                board.wf(),
                bw == self.spec_width(),
                bh == self@.len(),
                target == place(self@, self.spec_width(), board@, offset.0 as int, offset.1 as int),
                yy <= bh,
                cells@.len() == yy,
                forall|j: int| 0 <= j < yy ==> (#[trigger] cells@[j])@ == target[j],
            decreases bh - yy,
        {
            let mut row: Vec<Cell> = Vec::new();
            let mut xx: usize = 0;
            while xx < bw
                invariant
                    self.wf(),
                    board.wf(),
                    bw == self.spec_width(),
                    bh == self@.len(),
                    target == place(
                        self@,
                        self.spec_width(),
                        board@,
                        offset.0 as int,
                        offset.1 as int,
                    ),
                    yy < bh,
                    xx <= bw,
                    row@.len() == xx,
                    forall|i: int| 0 <= i < xx ==> (#[trigger] row@[i]) == target[yy as int][i],
                decreases bw - xx,
            {
                let px: i128 = xx as i128 - offset.0 as i128;
                let py: i128 = yy as i128 - offset.1 as i128;
                let mut cell: Cell = None;
                let mut from_piece: bool = false;
                if 0 <= py && py < board.cells.len() as i128 && 0 <= px
                    && px < board.width as i128 {
                    proof {
                        assert(board@[py as int] == board.cells@[py as int]@);
                        assert(board@[py as int].len() == board.spec_width());
                    }
                    let pc = board.cells[py as usize][px as usize];
                    if pc.is_some() {
                        cell = pc;
                        from_piece = true;
                    }
                }
                if !from_piece {
                    proof {
                        assert(self@[yy as int] == self.cells@[yy as int]@);
                        assert(self@[yy as int].len() == self.spec_width());
                    }
                    cell = self.cells[yy][xx];
                }
                proof {
                    assert(cell == target[yy as int][xx as int]);
                }
                row.push(cell);
                xx = xx + 1;
            }
            proof {
                assert(row@ =~= target[yy as int]);
            }
            cells.push(row);
            yy = yy + 1;
        }
        let r = Board { width: bw, cells };
        proof {
            assert(r@ =~= target);
        }
        Some(r)
    }
}

/// A row of `w` empty cells.
pub open spec fn empty_row(w: nat) -> Seq<Cell> {
    Seq::new(w, |x: int| None::<Color>)
}

/// `y` occurs in `ls`.
pub open spec fn contains_idx(ls: Seq<usize>, y: int) -> bool {
    exists|k: int| 0 <= k < ls.len() && ls[k] == y
}

/// The indices in `ls` are strictly decreasing.
pub open spec fn strictly_descending(ls: Seq<usize>) -> bool {
    forall|i: int, j: int| 0 <= i < j < ls.len() ==> ls[i] > ls[j]
}

/// How many indices in `ls` are smaller than `y`.
pub open spec fn count_lt(ls: Seq<usize>, y: int) -> nat
    decreases ls.len(),
{
    if ls.len() == 0 {
        0
    } else {
        (if ls[0] < y {
            1nat
        } else {
            0nat
        }) + count_lt(ls.drop_first(), y)
    }
}

/// How many indices in `ls` are greater than `y`.
pub open spec fn count_gt(ls: Seq<usize>, y: int) -> nat
    decreases ls.len(),
{
    if ls.len() == 0 {
        0
    } else {
        (if ls[0] > y {
            1nat
        } else {
            0nat
        }) + count_gt(ls.drop_first(), y)
    }
}

/// The rows of `s` with the indices of `ls` removed one after the other,
/// head first; with `ls` strictly descending the later indices are unshifted
/// by the earlier removals.
pub open spec fn remove_desc(s: Seq<Seq<Cell>>, ls: Seq<usize>) -> Seq<Seq<Cell>>
    decreases ls.len(),
{
    if ls.len() == 0 {
        s
    } else {
        remove_desc(s.remove(ls[0] as int), ls.drop_first())
    }
}

/// The board after line elimination: the rows of `ls` removed, and as many
/// empty rows prepended at the top.
pub open spec fn eliminated(s: Seq<Seq<Cell>>, w: nat, ls: Seq<usize>) -> Seq<Seq<Cell>> {
    Seq::new(ls.len(), |j: int| empty_row(w)) + remove_desc(s, ls)
}

/// When every index in `ls` is below `b`, all of them count as smaller.
proof fn lemma_count_lt_all(ls: Seq<usize>, b: int)
    requires
        forall|k: int| 0 <= k < ls.len() ==> ls[k] < b,
    ensures
        count_lt(ls, b) == ls.len(),
    decreases ls.len(),
{
    if ls.len() > 0 {
        lemma_count_lt_all(ls.drop_first(), b);
    }
}

/// Indices below and above `y` account for all of `ls` when `y` itself is
/// not among them.
proof fn lemma_count_lt_gt(ls: Seq<usize>, y: int)
    requires
        !contains_idx(ls, y),
    ensures
        count_lt(ls, y) + count_gt(ls, y) == ls.len(),
    decreases ls.len(),
{
    if ls.len() > 0 {
        assert(ls[0] != y);
        assert(forall|k: int| 0 <= k < ls.drop_first().len() ==> ls.drop_first()[k] == ls[k + 1]);
        lemma_count_lt_gt(ls.drop_first(), y);
    }
}

/// Descending removal drops exactly the named rows: each surviving row `y`
/// of `s` reappears, shifted up by the number of removed rows above it.
proof fn lemma_remove_desc(s: Seq<Seq<Cell>>, ls: Seq<usize>)
    requires
        strictly_descending(ls),
        forall|k: int| 0 <= k < ls.len() ==> ls[k] < s.len(),
    ensures
        remove_desc(s, ls).len() == s.len() - ls.len(),
        forall|y: int|
            0 <= y < s.len() && !contains_idx(ls, y) ==> {
                &&& 0 <= y - count_lt(ls, y) < remove_desc(s, ls).len()
                &&& remove_desc(s, ls)[y - count_lt(ls, y)] == s[y]
            },
    decreases ls.len(),
{
    if ls.len() > 0 {
        let l0 = ls[0] as int;
        let rest = ls.drop_first();
        let s1 = s.remove(l0);
        assert(forall|k: int| 0 <= k < rest.len() ==> rest[k] == ls[k + 1]);
        assert(forall|k: int| 0 <= k < rest.len() ==> rest[k] < l0);
        lemma_remove_desc(s1, rest);
        assert forall|y: int| 0 <= y < s.len() && !contains_idx(ls, y) implies {
            &&& 0 <= y - count_lt(ls, y) < remove_desc(s, ls).len()
            &&& remove_desc(s, ls)[y - count_lt(ls, y)] == s[y]
        } by {
            assert(y != l0);
            if y < l0 {
                assert(s1[y] == s[y]);
                assert(!contains_idx(rest, y)) by {
                    if contains_idx(rest, y) {
                        let k = choose|k: int| 0 <= k < rest.len() && rest[k] == y;
                        assert(ls[k + 1] == y);
                    }
                }
                assert(count_lt(ls, y) == count_lt(rest, y));
                assert(remove_desc(s, ls)[y - count_lt(ls, y)] == s[y]);
            } else {
                assert(s1[y - 1] == s[y]);
                assert(!contains_idx(rest, y - 1)) by {
                    if contains_idx(rest, y - 1) {
                        let k = choose|k: int| 0 <= k < rest.len() && rest[k] == y - 1;
                        assert(rest[k] < l0 && l0 <= y - 1);
                    }
                }
                assert(forall|k: int| 0 <= k < rest.len() ==> rest[k] < y - 1) by {
                    assert(forall|k: int| 0 <= k < rest.len() ==> rest[k] < l0 && l0 <= y - 1);
                }
                lemma_count_lt_all(rest, y - 1);
                lemma_count_lt_all(rest, y);
                assert(count_lt(ls, y) == 1 + count_lt(rest, y));
                assert((y - 1) - count_lt(rest, y - 1) == y - count_lt(ls, y));
                assert(remove_desc(s, ls)[y - count_lt(ls, y)] == s[y]);
            }
        }
    }
}

/// In a strictly descending list bounded by `n`, the index at position `k`
/// is below `n - k`.
proof fn lemma_desc_bound(ls: Seq<usize>, n: int, k: int)
    requires
        strictly_descending(ls),
        forall|j: int| 0 <= j < ls.len() ==> ls[j] < n,
        0 <= k < ls.len(),
    ensures
        ls[k] < n - k,
    decreases k,
{
    if k > 0 {
        lemma_desc_bound(ls, n, k - 1);
        assert(ls[k - 1] > ls[k]);
    }
}

impl Board {
    /// A copy of the board with row `idx` removed.
    pub fn without_line(&self, idx: usize) -> (r: Board)
        requires
            self.wf(),
            idx < self@.len(),
        ensures
            r.wf(),
            r.spec_width() == self.spec_width(),
            r@ == self@.remove(idx as int),
    {
        let mut board = self.clone();
        board.cells.remove(idx);
        proof {
            assert(board@ =~= self@.remove(idx as int));
        }
        board
    }

    /// A copy of the board with one all-empty row inserted at the top.
    pub fn prepend_empty_line(&self) -> (r: Board)
        requires
            self.wf(),
            self@.len() < isize::MAX as int,
        ensures
            r.wf(),
            r.spec_width() == self.spec_width(),
            r@ == seq![empty_row(self.spec_width())] + self@,
    {
        let mut line: Vec<Cell> = Vec::new();
        let mut x: usize = 0;
        while x < self.width
            invariant
                x <= self.width,
                line@.len() == x,
                forall|i: int| 0 <= i < x ==> (#[trigger] line@[i]) is None,
            decreases self.width - x,
        {
            line.push(None);
            x = x + 1;
        }
        proof {
            assert(line@ =~= empty_row(self.spec_width()));
        }
        let mut board = self.clone();
        board.cells.insert(0, line);
        proof {
            assert(board@ =~= seq![empty_row(self.spec_width())] + self@);
        }
        board
    }

    /// Every row index whose row is fully occupied, in strictly descending
    /// order — the order that `with_eliminate_lines` relies on.
    pub fn get_full_lines_indicts(&self) -> (r: Vec<usize>)
        requires
            self.wf(),
        ensures
            strictly_descending(r@),
            forall|k: int|
                0 <= k < r@.len() ==> r@[k] < self@.len() && row_full(self@[r@[k] as int]),
            forall|y: int| 0 <= y < self@.len() && row_full(self@[y]) ==> contains_idx(r@, y),
    {
        let mut r: Vec<usize> = Vec::new();
        let mut y: usize = self.cells.len();
        while y > 0
            invariant
                self.wf(),
                y <= self@.len(),
                strictly_descending(r@),
                forall|k: int|
                    0 <= k < r@.len() ==> y <= r@[k] < self@.len() && row_full(self@[r@[k] as int]),
                forall|yy: int| y <= yy < self@.len() && row_full(self@[yy]) ==> contains_idx(r@, yy),
            decreases y,
        {
            y = y - 1;
            if self.line_full(y) {
                let ghost old_r = r@;
                r.push(y);
                proof {
                    assert(forall|k: int| 0 <= k < old_r.len() ==> r@[k] == old_r[k]);
                    assert(r@[old_r.len() as int] == y);
                    assert forall|yy: int|
                        y <= yy < self@.len() && row_full(self@[yy]) implies contains_idx(
                        r@,
                        yy,
                    ) by {
                        if yy == y {
                            assert(r@[old_r.len() as int] == yy);
                        } else {
                            assert(contains_idx(old_r, yy));
                            let k = choose|k: int| 0 <= k < old_r.len() && old_r[k] == yy;
                            assert(r@[k] == yy);
                        }
                    }
                }
            }
        }
        r
    }

    /// Remove each row named in `lines` — supplied in strictly descending
    /// order, so later indices are unaffected by earlier removals — then
    /// prepend as many empty rows, restoring the original height. Cleared
    /// rows vanish, everything above drops, new empty space appears on top.
    pub fn with_eliminate_lines(&self, lines: &Vec<usize>) -> (r: Board)
        requires
            self.wf(),
            strictly_descending(lines@),
            forall|k: int| 0 <= k < lines@.len() ==> lines@[k] < self@.len(),
        ensures
            r.wf(),
            r.spec_width() == self.spec_width(),
            r@.len() == self@.len(),
            r@ == eliminated(self@, self.spec_width(), lines@),
            forall|j: int| 0 <= j < lines@.len() ==> r@[j] == empty_row(self.spec_width()),
            forall|y: int|
                0 <= y < self@.len() && !contains_idx(lines@, y) ==> {
                    &&& lines@.len() <= y + count_gt(lines@, y) < r@.len()
                    &&& r@[y + count_gt(lines@, y)] == self@[y]
                },
    {
        let ghost w = self.spec_width();
        let mut board = self.clone();
        let mut i: usize = 0;
        while i < lines.len()
            invariant
                self.wf(),
                strictly_descending(lines@),
                forall|k: int| 0 <= k < lines@.len() ==> lines@[k] < self@.len(),
                i <= lines@.len(),
                board.wf(),
                board.spec_width() == self.spec_width(),
                board@ == remove_desc(self@, lines@.subrange(0, i as int)),
                board@.len() == self@.len() - i,
            decreases lines@.len() - i,
        {
            let ghost pre = lines@.subrange(0, i as int);
            proof {
                lemma_desc_bound(lines@, self@.len() as int, i as int);
                lemma_remove_desc_snoc(self@, pre, lines@[i as int]);
                assert(pre.push(lines@[i as int]) =~= lines@.subrange(0, i as int + 1));
            }
            board = board.without_line(lines[i]);
            i = i + 1;
        }
        proof {
            assert(lines@.subrange(0, lines@.len() as int) =~= lines@);
        }
        let removed_len = board.cells.len();
        let ghost removed = board@;
        let mut j: usize = 0;
        while j < lines.len()
            invariant
                j <= lines@.len(),
                w <= isize::MAX as int,
                removed.len() + lines@.len() <= isize::MAX as int,
                board.wf(),
                board.spec_width() == w,
                board@ == Seq::new(j as nat, |t: int| empty_row(w)) + removed,
            decreases lines@.len() - j,
        {
            board = board.prepend_empty_line();
            proof {
                assert(board@ =~= Seq::new((j + 1) as nat, |t: int| empty_row(w)) + removed);
            }
            j = j + 1;
        }
        proof {
            assert(board@ =~= eliminated(self@, w, lines@));
            lemma_remove_desc(self@, lines@);
            assert forall|y: int| 0 <= y < self@.len() && !contains_idx(lines@, y) implies {
                &&& lines@.len() <= y + count_gt(lines@, y) < board@.len()
                &&& board@[y + count_gt(lines@, y)] == self@[y]
            } by {
                lemma_count_lt_gt(lines@, y);
                assert(board@[y + count_gt(lines@, y)] == remove_desc(self@, lines@)[y - count_lt(
                    lines@,
                    y,
                )]);
            }
        }
        board
    }
}

/// Removing one more (smaller) index after a descending run is the same as
/// removing it from the already-reduced rows.
proof fn lemma_remove_desc_snoc(s: Seq<Seq<Cell>>, ls: Seq<usize>, l: usize)
    requires
        strictly_descending(ls.push(l)),
        forall|k: int| 0 <= k < ls.len() ==> ls[k] < s.len(),
        l < s.len(),
    ensures
        remove_desc(s, ls.push(l)) == remove_desc(s, ls).remove(l as int),
    decreases ls.len(),
{
    let lp = ls.push(l);
    if ls.len() == 0 {
        assert(lp[0] == l);
        assert(lp.drop_first() =~= Seq::<usize>::empty());
        assert(remove_desc(s, lp) == remove_desc(s.remove(l as int), Seq::<usize>::empty()));
        assert(remove_desc(s, ls) == s);
    } else {
        let s1 = s.remove(ls[0] as int);
        let rest = ls.drop_first();
        assert(lp[0] == ls[0]);
        assert(lp.drop_first() =~= rest.push(l));
        assert(remove_desc(s, lp) == remove_desc(s1, rest.push(l)));
        assert forall|k: int| 0 <= k < rest.len() implies rest[k] == ls[k + 1] by {}
        assert(strictly_descending(rest.push(l))) by {
            let rp = rest.push(l);
            assert forall|i: int, j: int| 0 <= i < j < rp.len() implies rp[i] > rp[j] by {
                assert(rp[i] == lp[i + 1] && rp[j] == lp[j + 1]);
            }
        }
        assert forall|k: int| 0 <= k < rest.len() implies rest[k] < s1.len() by {
            assert(lp[0] > lp[k + 1]);
            assert(rest[k] == lp[k + 1]);
            assert(ls[0] < s.len());
        }
        assert(l < s1.len()) by {
            assert(lp[0] > lp[lp.len() - 1]);
            assert(ls[0] < s.len());
        }
        assert(strictly_descending(rest)) by {
            assert forall|i: int, j: int| 0 <= i < j < rest.len() implies rest[i] > rest[j] by {
                assert(lp[i + 1] > lp[j + 1]);
            }
        }
        lemma_remove_desc_snoc(s1, rest, l);
    }
}

/// Axes swapped: the cell at `(x, y)` moves to `(y, x)`.
pub open spec fn transpose_spec(s: Seq<Seq<Cell>>, w: nat) -> Seq<Seq<Cell>> {
    Seq::new(w, |x: int| Seq::new(s.len(), |y: int| s[y][x]))
}

/// Horizontally flipped: column `x` becomes column `w - 1 - x`.
pub open spec fn mirror_spec(s: Seq<Seq<Cell>>, w: nat) -> Seq<Seq<Cell>> {
    Seq::new(s.len(), |y: int| Seq::new(w, |x: int| s[y][w - 1 - x]))
}

/// One clockwise quarter turn: mirror, then transpose.
pub open spec fn rot_cw(s: Seq<Seq<Cell>>, w: nat) -> Seq<Seq<Cell>> {
    Seq::new(w, |i: int| Seq::new(s.len(), |j: int| s[j][w - 1 - i]))
}

/// One counter-clockwise quarter turn: transpose, then mirror.
pub open spec fn rot_ccw(s: Seq<Seq<Cell>>, w: nat) -> Seq<Seq<Cell>> {
    Seq::new(w, |i: int| Seq::new(s.len(), |j: int| s[s.len() - 1 - j][i]))
}

/// Four successive quarter turns in the same direction reproduce the
/// original grid cell for cell, for any rectangular grid.
pub proof fn lemma_rotated_four_times(s: Seq<Seq<Cell>>, w: nat)
    requires
        s.len() >= 1,
        w >= 1,
        rectangular(s, w),
    ensures
        rot_cw(rot_cw(rot_cw(rot_cw(s, w), s.len()), w), s.len()) == s,
{
    let h = s.len();
    let r1 = rot_cw(s, w);
    let r2 = rot_cw(r1, h);
    let r3 = rot_cw(r2, w);
    let r4 = rot_cw(r3, h);
    assert(forall|i: int, j: int|
        0 <= i < w && 0 <= j < h ==> #[trigger] r1[i][j] == s[j][w - 1 - i]);
    assert(forall|i: int, j: int|
        0 <= i < h && 0 <= j < w ==> #[trigger] r2[i][j] == s[h - 1 - i][w - 1 - j]);
    assert(forall|i: int, j: int|
        0 <= i < w && 0 <= j < h ==> #[trigger] r3[i][j] == s[h - 1 - j][i]);
    assert(forall|i: int, j: int| 0 <= i < h && 0 <= j < w ==> #[trigger] r4[i][j] == s[i][j]);
    assert(r4 =~~= s);
}

impl Board {
    /// The board with axes swapped.
    pub fn transposed(&self) -> (r: Board)
        requires
            self.wf(),
            self@.len() >= 1,
        ensures
            r.wf(),
            r.spec_width() == self@.len(),
            r@.len() == self.spec_width(),
            r@ == transpose_spec(self@, self.spec_width()),
    {
        let ghost target = transpose_spec(self@, self.spec_width());
        let w = self.width;
        let h = self.cells.len();
        let mut cells: Vec<Vec<Cell>> = Vec::new();
        let mut x: usize = 0;
        while x < w
            invariant
                self.wf(),
                w == self.spec_width(),
                h == self@.len(),
                target == transpose_spec(self@, self.spec_width()),
                x <= w,
                cells@.len() == x,
                forall|i: int| 0 <= i < x ==> (#[trigger] cells@[i])@ == target[i],
            decreases w - x,
        {
            let mut row: Vec<Cell> = Vec::new();
            let mut y: usize = 0;
            while y < h
                invariant
                    self.wf(),
                    w == self.spec_width(),
                    h == self@.len(),
                    target == transpose_spec(self@, self.spec_width()),
                    x < w,
                    y <= h,
                    row@.len() == y,
                    forall|j: int| 0 <= j < y ==> (#[trigger] row@[j]) == target[x as int][j],
                decreases h - y,
            {
                proof {
                    assert(self@[y as int] == self.cells@[y as int]@);
                    assert(self@[y as int].len() == self.spec_width());
                }
                row.push(self.cells[y][x]);
                y = y + 1;
            }
            proof {
                assert(row@ =~= target[x as int]);
            }
            cells.push(row);
            x = x + 1;
        }
        let r = Board { width: h, cells };
        proof {
            assert(r@ =~= target);
        }
        r
    }

    /// The board flipped on the vertical axis.
    pub fn with_mirrored_y(&self) -> (r: Board)
        requires
            self.wf(),
        ensures
            r.wf(),
            r.spec_width() == self.spec_width(),
            r@.len() == self@.len(),
            r@ == mirror_spec(self@, self.spec_width()),
    {
        let ghost target = mirror_spec(self@, self.spec_width());
        let w = self.width;
        let h = self.cells.len();
        let mut cells: Vec<Vec<Cell>> = Vec::new();
        let mut y: usize = 0;
        while y < h
            invariant
                self.wf(),
                w == self.spec_width(),
                h == self@.len(),
                target == mirror_spec(self@, self.spec_width()),
                y <= h,
                cells@.len() == y,
                forall|j: int| 0 <= j < y ==> (#[trigger] cells@[j])@ == target[j],
            decreases h - y,
        {
            let mut row: Vec<Cell> = Vec::new();
            let mut x: usize = 0;
            while x < w
                invariant
                    self.wf(),
                    w == self.spec_width(),
                    h == self@.len(),
                    target == mirror_spec(self@, self.spec_width()),
                    y < h,
                    x <= w,
                    row@.len() == x,
                    forall|i: int| 0 <= i < x ==> (#[trigger] row@[i]) == target[y as int][i],
                decreases w - x,
            {
                proof {
                    assert(self@[y as int] == self.cells@[y as int]@);
                    assert(self@[y as int].len() == self.spec_width());
                }
                row.push(self.cells[y][w - 1 - x]);
                x = x + 1;
            }
            proof {
                assert(row@ =~= target[y as int]);
            }
            cells.push(row);
            y = y + 1;
        }
        let r = Board { width: w, cells };
        proof {
            assert(r@ =~= target);
        }
        r
    }

    /// One quarter turn: mirror, then transpose.
    pub fn with_rotated(&self) -> (r: Board)
        requires
            self.wf(),
            self@.len() >= 1,
        ensures
            r.wf(),
            r.spec_width() == self@.len(),
            r@.len() == self.spec_width(),
            r@ == rot_cw(self@, self.spec_width()),
    {
        let r = self.with_mirrored_y().transposed();
        proof {
            assert(r@ =~~= rot_cw(self@, self.spec_width()));
        }
        r
    }

    /// One quarter turn the other way: transpose, then mirror.
    pub fn with_rotated_counter(&self) -> (r: Board)
        requires
            self.wf(),
            self@.len() >= 1,
        ensures
            r.wf(),
            r.spec_width() == self@.len(),
            r@.len() == self.spec_width(),
            r@ == rot_ccw(self@, self.spec_width()),
    {
        let r = self.transposed().with_mirrored_y();
        proof {
            assert(r@ =~~= rot_ccw(self@, self.spec_width()));
        }
        r
    }
}

/// Some cell of the grid is occupied.
pub open spec fn has_occupied(s: Seq<Seq<Cell>>) -> bool {
    exists|y: int, x: int| 0 <= y < s.len() && 0 <= x < s[y].len() && s[y][x] is Some
}

/// Index of the first row that is not entirely empty (the row count when all
/// rows are empty).
pub open spec fn first_nonempty(s: Seq<Seq<Cell>>) -> int
    decreases s.len(),
{
    if s.len() == 0 {
        0
    } else if !row_empty(s[0]) {
        0
    } else {
        1 + first_nonempty(s.drop_first())
    }
}

/// Index of the last row that is not entirely empty (`-1` when all rows are
/// empty).
pub open spec fn last_nonempty(s: Seq<Seq<Cell>>) -> int
    decreases s.len(),
{
    if s.len() == 0 {
        -1
    } else if !row_empty(s.last()) {
        s.len() - 1
    } else {
        last_nonempty(s.drop_last())
    }
}

/// On a grid with an occupied cell, `first_nonempty` names a real, nonempty
/// row and everything before it is empty.
proof fn lemma_first_nonempty_props(s: Seq<Seq<Cell>>)
    requires
        has_occupied(s),
    ensures
        0 <= first_nonempty(s) < s.len(),
        !row_empty(s[first_nonempty(s)]),
        forall|y: int| 0 <= y < first_nonempty(s) ==> row_empty(#[trigger] s[y]),
    decreases s.len(),
{
    let (wy, wx) = choose|y: int, x: int|
        0 <= y < s.len() && 0 <= x < s[y].len() && s[y][x] is Some;
    if !row_empty(s[0]) {
    } else {
        assert(wy != 0);
        assert(has_occupied(s.drop_first())) by {
            assert(s.drop_first()[wy - 1] == s[wy]);
            assert(0 <= wy - 1 < s.drop_first().len() && 0 <= wx < s.drop_first()[wy - 1].len()
                && s.drop_first()[wy - 1][wx] is Some);
        }
        lemma_first_nonempty_props(s.drop_first());
        let f = first_nonempty(s);
        assert(f == 1 + first_nonempty(s.drop_first()));
        assert(s[f] == s.drop_first()[f - 1]);
        assert(forall|y: int| 1 <= y < f ==> #[trigger] s[y] == s.drop_first()[y - 1]);
    }
}

/// On a grid with an occupied cell, `last_nonempty` names a real, nonempty
/// row and everything after it is empty.
proof fn lemma_last_nonempty_props(s: Seq<Seq<Cell>>)
    requires
        has_occupied(s),
    ensures
        0 <= last_nonempty(s) < s.len(),
        !row_empty(s[last_nonempty(s)]),
        forall|y: int| last_nonempty(s) < y < s.len() ==> row_empty(#[trigger] s[y]),
    decreases s.len(),
{
    let (wy, wx) = choose|y: int, x: int|
        0 <= y < s.len() && 0 <= x < s[y].len() && s[y][x] is Some;
    if !row_empty(s.last()) {
    } else {
        assert(wy != s.len() - 1);
        assert(has_occupied(s.drop_last())) by {
            assert(s.drop_last()[wy] == s[wy]);
            assert(0 <= wy < s.drop_last().len() && 0 <= wx < s.drop_last()[wy].len()
                && s.drop_last()[wy][wx] is Some);
        }
        lemma_last_nonempty_props(s.drop_last());
        let l = last_nonempty(s);
        assert(l == last_nonempty(s.drop_last()));
        assert(s[l] == s.drop_last()[l]);
        assert(forall|y: int| l < y < s.len() - 1 ==> #[trigger] s[y] == s.drop_last()[y]);
    }
}

/// `first_nonempty` is pinned by its characteristic shape: empty rows up to
/// `a`, then a nonempty row.
pub proof fn lemma_first_nonempty_char(s: Seq<Seq<Cell>>, a: int)
    requires
        0 <= a < s.len(),
        forall|y: int| 0 <= y < a ==> row_empty(#[trigger] s[y]),
        !row_empty(s[a]),
    ensures
        first_nonempty(s) == a,
    decreases a,
{
    if a > 0 {
        assert(row_empty(s[0]));
        assert(forall|y: int| 0 <= y < a - 1 ==> #[trigger] s.drop_first()[y] == s[y + 1]);
        assert(s.drop_first()[a - 1] == s[a]);
        lemma_first_nonempty_char(s.drop_first(), a - 1);
    }
}

/// `last_nonempty` is pinned by its characteristic shape: a nonempty row at
/// `b`, then empty rows to the end.
pub proof fn lemma_last_nonempty_char(s: Seq<Seq<Cell>>, b: int)
    requires
        0 <= b < s.len(),
        forall|y: int| b < y < s.len() ==> row_empty(#[trigger] s[y]),
        !row_empty(s[b]),
    ensures
        last_nonempty(s) == b,
    decreases s.len(),
{
    if b < s.len() - 1 {
        assert(row_empty(s.last()));
        assert(forall|y: int| 0 <= y < s.len() - 1 ==> #[trigger] s.drop_last()[y] == s[y]);
        lemma_last_nonempty_char(s.drop_last(), b);
    }
}

impl Board {
    /// Drop leading all-empty rows, then trailing all-empty rows. An
    /// entirely empty grid is unsupported: the operation is only invoked on
    /// grids with at least one occupied cell, which also bounds both loops.
    pub fn with_trimmed_lines(&self) -> (r: Board)
        requires
            self.wf(),
            has_occupied(self@),
        ensures
            r.wf(),
            r.spec_width() == self.spec_width(),
            r@.len() >= 1,
            has_occupied(r@),
            r@ == self@.subrange(first_nonempty(self@), last_nonempty(self@) + 1),
    {
        proof {
            lemma_first_nonempty_props(self@);
            lemma_last_nonempty_props(self@);
        }
        let mut board = self.clone();
        let ghost mut a: int = 0;
        proof {
            assert(board@ =~= self@.subrange(0, self@.len() as int));
        }
        while board.line_empty(0)
            invariant
                self.wf(),
                has_occupied(self@),
                board.wf(),
                board.spec_width() == self.spec_width(),
                board@.len() >= 1,
                has_occupied(board@),
                0 <= a <= first_nonempty(self@),
                board@ == self@.subrange(a, self@.len() as int),
            decreases board@.len(),
        {
            proof {
                lemma_first_nonempty_props(self@);
                assert(self@[a] == board@[0]);
                assert(a < first_nonempty(self@)) by {
                    if a == first_nonempty(self@) {
                        assert(!row_empty(self@[a]));
                    }
                }
                let (wy, wx) = choose|y: int, x: int|
                    0 <= y < board@.len() && 0 <= x < board@[y].len() && board@[y][x] is Some;
                assert(wy != 0);
                assert(board@.remove(0)[wy - 1] == board@[wy]);
                assert(has_occupied(board@.remove(0)));
            }
            board = board.without_line(0);
            proof {
                a = a + 1;
                assert(board@ =~= self@.subrange(a, self@.len() as int));
            }
        }
        proof {
            lemma_first_nonempty_props(self@);
            assert(!row_empty(board@[0]));
            assert(board@[0] == self@[a]);
            assert(a == first_nonempty(self@)) by {
                if a < first_nonempty(self@) {
                    assert(row_empty(self@[a]));
                }
            }
        }
        let ghost mut b: int = self@.len() as int;
        while board.line_empty(board.dim_y() - 1)
            invariant
                self.wf(),
                has_occupied(self@),
                board.wf(),
                board.spec_width() == self.spec_width(),
                board@.len() >= 1,
                has_occupied(board@),
                a == first_nonempty(self@),
                0 <= a < b <= self@.len(),
                board@ == self@.subrange(a, b),
                forall|y: int| b <= y < self@.len() ==> row_empty(#[trigger] self@[y]),
            decreases board@.len(),
        {
            proof {
                assert(self@[b - 1] == board@[board@.len() - 1]);
                let (wy, wx) = choose|y: int, x: int|
                    0 <= y < board@.len() && 0 <= x < board@[y].len() && board@[y][x] is Some;
                assert(wy != board@.len() - 1);
                assert(board@.remove(board@.len() - 1)[wy] == board@[wy]);
                assert(has_occupied(board@.remove(board@.len() - 1)));
            }
            let last = board.dim_y() - 1;
            board = board.without_line(last);
            proof {
                b = b - 1;
                assert(board@ =~= self@.subrange(a, b));
            }
        }
        proof {
            assert(!row_empty(board@[board@.len() - 1]));
            assert(board@[board@.len() - 1] == self@[b - 1]);
            lemma_last_nonempty_char(self@, b - 1);
        }
        board
    }

    /// Shrink to the tight bounding box of the occupied cells: trim empty
    /// rows, transpose, trim again (what were the columns), transpose back.
    pub fn with_trim_sides(&self) -> (r: Board)
        requires
            self.wf(),
            has_occupied(self@),
        ensures
            r.wf(),
            has_occupied(r@),
            r@.len() == last_nonempty(self@) - first_nonempty(self@) + 1,
            r.spec_width() == last_nonempty(transpose_spec(self@, self.spec_width()))
                - first_nonempty(transpose_spec(self@, self.spec_width())) + 1,
            forall|i: int, j: int|
                0 <= i < r@.len() && 0 <= j < r.spec_width()
                    ==> r@[i][j] == self@[first_nonempty(self@) + i].index(
                    first_nonempty(transpose_spec(self@, self.spec_width())) + j,
                ),
    {
        let ghost s = self@;
        let ghost w = self.spec_width();
        let ghost minr = first_nonempty(s);
        let ghost maxr = last_nonempty(s);
        let ghost tr = transpose_spec(s, w);
        let ghost minc = first_nonempty(tr);
        let ghost maxc = last_nonempty(tr);
        proof {
            lemma_first_nonempty_props(s);
            lemma_last_nonempty_props(s);
        }
        let t1 = self.with_trimmed_lines();
        let t2 = t1.transposed();
        proof {
            assert(has_occupied(t2@)) by {
                let (wy, wx) = choose|y: int, x: int|
                    0 <= y < t1@.len() && 0 <= x < t1@[y].len() && t1@[y][x] is Some;
                assert(t2@[wx][wy] == t1@[wy][wx]);
                assert(0 <= wx < t2@.len() && 0 <= wy < t2@[wx].len() && t2@[wx][wy] is Some);
            }
            assert(has_occupied(tr)) by {
                let (wy, wx) = choose|y: int, x: int|
                    0 <= y < s.len() && 0 <= x < s[y].len() && s[y][x] is Some;
                assert(tr[wx][wy] == s[wy][wx]);
                assert(0 <= wx < tr.len() && 0 <= wy < tr[wx].len() && tr[wx][wy] is Some);
            }
            lemma_first_nonempty_props(tr);
            lemma_last_nonempty_props(tr);
            // Columns of the row-trimmed grid are empty exactly where the
            // columns of the original are.
            assert forall|c: int| 0 <= c < w implies row_empty(#[trigger] t2@[c]) == row_empty(
                tr[c],
            ) by {
                assert(t2@[c].len() == t1@.len());
                assert(tr[c].len() == s.len());
                assert(forall|y: int| 0 <= y < t1@.len() ==> #[trigger] t2@[c][y] == t1@[y][c]);
                assert(forall|y: int| 0 <= y < s.len() ==> #[trigger] tr[c][y] == s[y][c]);
                assert(forall|y: int| 0 <= y < t1@.len() ==> #[trigger] t1@[y] == s[minr + y]);
                if row_empty(tr[c]) {
                    assert forall|y: int| 0 <= y < t1@.len() implies #[trigger] t2@[c][y]
                        is None by {
                        assert(t2@[c][y] == t1@[y][c]);
                        assert(t1@[y] == s[minr + y]);
                        assert(tr[c][minr + y] == s[minr + y][c]);
                        assert(tr[c][minr + y] is None);
                    }
                }
                if row_empty(t2@[c]) {
                    assert forall|y: int| 0 <= y < s.len() implies #[trigger] tr[c][y] is None by {
                        if y < minr || y > maxr {
                            assert(row_empty(s[y]));
                            assert(s[y][c] is None);
                        } else {
                            assert(t2@[c][y - minr] == s[y][c]);
                        }
                    }
                }
            }
            assert(first_nonempty(t2@) == minc) by {
                lemma_first_nonempty_char(t2@, minc);
            }
            assert(last_nonempty(t2@) == maxc) by {
                lemma_last_nonempty_char(t2@, maxc);
            }
        }
        let t3 = t2.with_trimmed_lines();
        let r = t3.transposed();
        proof {
            assert(has_occupied(r@)) by {
                let (wy, wx) = choose|y: int, x: int|
                    0 <= y < t3@.len() && 0 <= x < t3@[y].len() && t3@[y][x] is Some;
                assert(r@[wx][wy] == t3@[wy][wx]);
                assert(0 <= wx < r@.len() && 0 <= wy < r@[wx].len() && r@[wx][wy] is Some);
            }
            assert forall|i: int, j: int|
                0 <= i < r@.len() && 0 <= j < r.spec_width() implies r@[i][j] == s[minr + i][minc
                + j] by {
                assert(r@[i][j] == t3@[j][i]);
                assert(t3@[j] == t2@[minc + j]);
                assert(t2@[minc + j][i] == t1@[i][minc + j]);
                assert(t1@[i] == s[minr + i]);
            }
        }
        r
    }
}

impl Clone for Board {
    fn clone(&self) -> (r: Board)
        ensures
            r@ == self@,
            r.spec_width() == self.spec_width(),
    {
        let mut cells: Vec<Vec<Cell>> = Vec::new();
        let mut y: usize = 0;
        while y < self.cells.len()
            invariant
                y <= self.cells@.len(),
                cells@.len() == y,
                forall|j: int| 0 <= j < y ==> (#[trigger] cells@[j])@ == self.cells@[j]@,
            decreases self.cells@.len() - y,
        {
            let src_row = &self.cells[y];
            let mut row: Vec<Cell> = Vec::new();
            let mut x: usize = 0;
            while x < src_row.len()
                invariant
                    x <= src_row@.len(),
                    row@.len() == x,
                    forall|i: int| 0 <= i < x ==> (#[trigger] row@[i]) == src_row@[i],
                decreases src_row@.len() - x,
            {
                row.push(src_row[x]);
                x = x + 1;
            }
            proof {
                assert(row@ =~= src_row@);
            }
            cells.push(row);
            y = y + 1;
        }
        let r = Board { width: self.width, cells };
        proof {
            assert(r@ =~= self@);
        }
        r
    }
}

} // verus!
