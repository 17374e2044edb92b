//! The 7x6 game board and its cell-level accessors.
//!
//! A board is a grid of 42 cells, column `x` in `0..7` and row `y` in `0..6`,
//! row 0 at the top. A cell holds 0 (empty), 1 (the user) or 2 (the
//! computer). The view of a board is the flat sequence of its cells in
//! row-major order.

use vstd::prelude::*;

verus! {

pub const USER_PLAYER: u8 = 1;

pub const COMPUTER_PLAYER: u8 = 2;

pub const HEIGHT: usize = 6;

pub const WIDTH: usize = 7;

/// A well-formed board: 42 cells, each empty or owned by one of the players.
pub open spec fn board_wf(s: Seq<u8>) -> bool {
    &&& s.len() == 42
    &&& forall|i: int| 0 <= i < 42 ==> s[i] <= 2
}

/// The cell at column `x`, row `y` of a board given as its flat view.
pub open spec fn cell(s: Seq<u8>, x: int, y: int) -> u8 {
    s[y * 7 + x]
}

/// The player that moves against `player`.
pub open spec fn other(player: u8) -> u8 {
    if player == 2 {
        1
    } else {
        2
    }
}

/// A cell coordinate: column `x`, row `y`.
#[derive(Debug, PartialEq, Eq, Structural, Copy, Clone)]
pub struct Field {
    pub x: u8,
    pub y: u8,
}

impl Field {
    pub fn new(x: u8, y: u8) -> (r: Field)
        ensures
            r == (Field { x, y }),
    {
        Field { x, y }
    }
}

pub struct GameBoard {
    cells: Vec<u8>,
}

impl View for GameBoard {
    type V = Seq<u8>;

    closed spec fn view(&self) -> Seq<u8> {
        self.cells@
    }
}

impl GameBoard {
    /// The empty board.
    pub fn new() -> (r: GameBoard)
        ensures
            board_wf(r@),
            forall|i: int| 0 <= i < 42 ==> r@[i] == 0,
    {
        let mut cells: Vec<u8> = Vec::new();
        let mut i: usize = 0;
        while i < 42
            invariant
                i <= 42,
                cells@.len() == i,
                forall|j: int| 0 <= j < i ==> cells@[j] == 0,
            decreases 42 - i,
        {
            cells.push(0);
            i = i + 1;
        }
        GameBoard { cells }
    }

    /// The value of the cell at column `x`, row `y` (row 0 is the top).
    pub fn get(&self, x: usize, y: usize) -> (r: u8)
        requires
            self@.len() == 42,
            x < 7,
            y < 6,
        ensures
            r == cell(self@, x as int, y as int),
    {
        self.cells[y * 7 + x]
    }

    /// Writes `value` into the cell at column `x`, row `y`.
    pub fn set(&mut self, x: usize, y: usize, value: u8)
        requires
            old(self)@.len() == 42,
            x < 7,
            y < 6,
            value <= 2,
        ensures
            final(self)@ == old(self)@.update(y as int * 7 + x as int, value),
    {
        self.cells.set(y * 7 + x, value);
    }

    /// A board with the given grid contents, `grid[y][x]` being the cell at
    /// column `x`, row `y`.
    pub fn from(grid: [[u8; 7]; 6]) -> (r: GameBoard)
        requires
            forall|y: int, x: int| 0 <= y < 6 && 0 <= x < 7 ==> grid[y][x] <= 2,
        ensures
            board_wf(r@),
            forall|y: int, x: int|
                0 <= y < 6 && 0 <= x < 7 ==> cell(r@, x, y) == grid[y][x],
    {
        let mut cells: Vec<u8> = Vec::new();
        let mut y: usize = 0;
        while y < 6
            invariant
                y <= 6,
                cells@.len() == y * 7,
                forall|j: int, i: int|
                    0 <= j < y && 0 <= i < 7 ==> cells@[j * 7 + i] == grid[j][i],
                forall|y2: int, x2: int| 0 <= y2 < 6 && 0 <= x2 < 7 ==> grid[y2][x2] <= 2,
            decreases 6 - y,
        {
            let mut x: usize = 0;
            while x < 7
                invariant
                    y < 6,
                    x <= 7,
                    cells@.len() == y * 7 + x,
                    forall|j: int, i: int|
                        0 <= j < y && 0 <= i < 7 ==> cells@[j * 7 + i] == grid[j][i],
                    forall|i: int| 0 <= i < x ==> cells@[y * 7 + i] == grid[y as int][i],
                    forall|y2: int, x2: int|
                        0 <= y2 < 6 && 0 <= x2 < 7 ==> grid[y2][x2] <= 2,
                decreases 7 - x,
            {
                cells.push(grid[y][x]);
                x = x + 1;
            }
            y = y + 1;
        }
        assert forall|k: int| 0 <= k < 42 implies cells@[k] <= 2 by {
            let j = k / 7;
            let i = k % 7;
            assert(k == j * 7 + i && 0 <= j < 6 && 0 <= i < 7);
            assert(cells@[j * 7 + i] == grid[j][i]);
        }
        GameBoard { cells }
    }
}

/// Whether the cell at `(x, y)` has ground beneath it: it lies in the bottom
/// row, or the cell directly below it is occupied.
pub open spec fn has_ground(s: Seq<u8>, x: int, y: int) -> bool {
    y + 1 == 6 || cell(s, x, y + 1) != 0
}

/// Whether a chip may be dropped on the cell at `(x, y)`: it is empty and
/// has ground beneath it.
pub open spec fn is_available(s: Seq<u8>, x: int, y: int) -> bool {
    cell(s, x, y) == 0 && has_ground(s, x, y)
}

/// The available cells of row `y` from column `x` rightwards, in column order.
pub open spec fn avail_row(s: Seq<u8>, y: int, x: int) -> Seq<Field>
    decreases 7 - x,
{
    if x < 0 || x >= 7 {
        Seq::empty()
    } else {
        let rest = avail_row(s, y, x + 1);
        if is_available(s, x, y) {
            seq![Field { x: x as u8, y: y as u8 }] + rest
        } else {
            rest
        }
    }
}

/// The available cells of rows `y` and below, row by row from the top.
pub open spec fn avail_rows(s: Seq<u8>, y: int) -> Seq<Field>
    decreases 6 - y,
{
    if y < 0 || y >= 6 {
        Seq::empty()
    } else {
        avail_row(s, y, 0) + avail_rows(s, y + 1)
    }
}

/// All available cells of the board, in row-major scan order: top row first,
/// left to right within a row.
pub open spec fn avail_fields(s: Seq<u8>) -> Seq<Field> {
    avail_rows(s, 0)
}

fn field_has_ground(b: &GameBoard, x: usize, y: usize) -> (r: bool)
    requires
        b@.len() == 42,
        x < 7,
        y < 6,
    ensures
        r == has_ground(b@, x as int, y as int),
{
    y + 1 == HEIGHT || b.get(x, y + 1) != 0
}

/// Every empty cell with ground beneath it, in row-major scan order. These
/// are the legal moves of the position, in the order the search tries them.
pub fn available_fields(b: &GameBoard) -> (r: Vec<Field>)
    requires
        b@.len() == 42,
    ensures
        r@ == avail_fields(b@),
{
    let mut r: Vec<Field> = Vec::new();
    let mut y: usize = 0;
    while y < 6
        invariant
            b@.len() == 42,
            y <= 6,
            avail_fields(b@) == r@ + avail_rows(b@, y as int),
        decreases 6 - y,
    {
        let mut x: usize = 0;
        while x < 7
            invariant
                b@.len() == 42,
                y < 6,
                x <= 7,
                avail_fields(b@) == r@ + avail_row(b@, y as int, x as int) + avail_rows(
                    b@,
                    y as int + 1,
                ),
            decreases 7 - x,
        {
            if b.get(x, y) == 0 && field_has_ground(b, x, y) {
                r.push(Field { x: x as u8, y: y as u8 });
            }
            proof {
                assert(avail_row(b@, y as int, x as int) == (if is_available(
                    b@,
                    x as int,
                    y as int,
                ) {
                    seq![Field { x: x as u8, y: y as u8 }] + avail_row(b@, y as int, x as int + 1)
                } else {
                    avail_row(b@, y as int, x as int + 1)
                }));
                assert(avail_fields(b@) == r@ + avail_row(b@, y as int, x as int + 1) + avail_rows(
                    b@,
                    y as int + 1,
                ));
            }
            x = x + 1;
        }
        proof {
            assert(avail_row(b@, y as int, 7) =~= Seq::<Field>::empty());
            assert(r@ + avail_row(b@, y as int, 7) =~= r@);
            assert(avail_rows(b@, y as int) == avail_row(b@, y as int, 0) + avail_rows(
                b@,
                y as int + 1,
            ));
        }
        y = y + 1;
    }
    proof {
        assert(avail_rows(b@, 6) =~= Seq::<Field>::empty());
        assert(r@ + avail_rows(b@, 6) =~= r@);
    }
    r
}

/// The central-column weight of column `x`: 3 at the center column, falling
/// off linearly to 0 at the edges.
pub open spec fn col_weight(x: int) -> int {
    if x <= 3 {
        x
    } else {
        6 - x
    }
}

/// Prefers columns near the middle of the board: the weight peaks at the
/// center column and falls off linearly toward the edges.
pub fn evaluate_field_position(x: usize) -> (r: usize)
    requires
        x < 7,
    ensures
        r == col_weight(x as int),
{
    let center_of_field: usize = WIDTH / 2;
    if x <= center_of_field {
        x
    } else {
        WIDTH - 1 - x
    }
}

/// The player that moves against `player`: the computer's opponent is the
/// user and vice versa.
pub fn other_player(player: u8) -> (r: u8)
    ensures
        r == other(player),
{
    if player == COMPUTER_PLAYER {
        USER_PLAYER
    } else {
        COMPUTER_PLAYER
    }
}

} // verus!

verus! {

/// The board after writing `value` into the cell at `(x, y)`.
pub open spec fn place(s: Seq<u8>, x: int, y: int, value: u8) -> Seq<u8> {
    s.update(y * 7 + x, value)
}

proof fn lemma_avail_row_props(s: Seq<u8>, y: int, x: int)
    requires
        0 <= y < 6,
    ensures
        forall|i: int|
            0 <= i < avail_row(s, y, x).len() ==> {
                let f = #[trigger] avail_row(s, y, x)[i];
                &&& f.x < 7
                &&& f.y == y
                &&& is_available(s, f.x as int, f.y as int)
            },
    decreases 7 - x,
{
    if x < 0 || x >= 7 {
    } else {
        lemma_avail_row_props(s, y, x + 1);
        let rest = avail_row(s, y, x + 1);
        assert forall|i: int| 0 <= i < avail_row(s, y, x).len() implies {
            let f = #[trigger] avail_row(s, y, x)[i];
            &&& f.x < 7
            &&& f.y == y
            &&& is_available(s, f.x as int, f.y as int)
        } by {
            if is_available(s, x, y) {
                if i == 0 {
                    assert(avail_row(s, y, x)[i] == (Field { x: x as u8, y: y as u8 }));
                } else {
                    assert(avail_row(s, y, x)[i] == rest[i - 1]);
                }
            } else {
                assert(avail_row(s, y, x)[i] == rest[i]);
            }
        }
    }
}

proof fn lemma_avail_rows_props(s: Seq<u8>, y: int)
    requires
        0 <= y,
    ensures
        forall|i: int|
            0 <= i < avail_rows(s, y).len() ==> {
                let f = #[trigger] avail_rows(s, y)[i];
                &&& f.x < 7
                &&& f.y < 6
                &&& is_available(s, f.x as int, f.y as int)
            },
    decreases 6 - y,
{
    if y < 0 || y >= 6 {
    } else {
        lemma_avail_row_props(s, y, 0);
        lemma_avail_rows_props(s, y + 1);
        let row = avail_row(s, y, 0);
        let rest = avail_rows(s, y + 1);
        assert forall|i: int| 0 <= i < avail_rows(s, y).len() implies {
            let f = #[trigger] avail_rows(s, y)[i];
            &&& f.x < 7
            &&& f.y < 6
            &&& is_available(s, f.x as int, f.y as int)
        } by {
            if i < row.len() {
                assert(avail_rows(s, y)[i] == row[i]);
            } else {
                assert(avail_rows(s, y)[i] == rest[i - row.len()]);
            }
        }
    }
}

/// Every enumerated move lies on the board, is an empty cell, and has
/// ground beneath it: no move floats and none overwrites a mark.
pub proof fn lemma_avail_fields_props(s: Seq<u8>)
    ensures
        forall|i: int|
            0 <= i < avail_fields(s).len() ==> {
                let f = #[trigger] avail_fields(s)[i];
                &&& f.x < 7
                &&& f.y < 6
                &&& is_available(s, f.x as int, f.y as int)
            },
{
    lemma_avail_rows_props(s, 0);
}

} // verus!
