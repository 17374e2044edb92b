//! Detection of straight runs of one player's marks: the win check.
//!
//! A run is described by a start cell, a direction vector and a length. The
//! four directions scanned are rightward, downward, down-right and down-left.

use vstd::prelude::*;

use crate::board::{cell, Field, GameBoard};

verus! {

/// Whether `(x, y)` lies on the board.
pub open spec fn in_bounds(x: int, y: int) -> bool {
    0 <= x < 7 && 0 <= y < 6
}

/// Whether a run of `length` cells owned by `player` starts at `(x, y)` and
/// proceeds along the direction `(dx, dy)`, staying on the board.
pub open spec fn run_at(
    s: Seq<u8>,
    player: u8,
    length: int,
    x: int,
    y: int,
    dx: int,
    dy: int,
) -> bool {
    &&& in_bounds(x, y)
    &&& in_bounds(x + (length - 1) * dx, y + (length - 1) * dy)
    &&& forall|i: int| 0 <= i < length ==> #[trigger] cell(s, x + i * dx, y + i * dy) == player
}

/// Whether a run of `length` cells of `player` starts at `(x, y)` along one
/// of the four scanned directions: right, down, down-right, down-left.
pub open spec fn row_found_at(s: Seq<u8>, player: u8, length: int, x: int, y: int) -> bool {
    ||| run_at(s, player, length, x, y, 1, 0)
    ||| run_at(s, player, length, x, y, 0, 1)
    ||| run_at(s, player, length, x, y, 1, 1)
    ||| run_at(s, player, length, x, y, -1, 1)
}

/// Whether the board holds a run of `length` cells of `player` along any of
/// the four directions, from any start cell.
pub open spec fn has_row(s: Seq<u8>, player: u8, length: int) -> bool {
    exists|x: int, y: int| in_bounds(x, y) && row_found_at(s, player, length, x, y)
}

/// Whether a run of `length` cells of `player` starts at `(start_x, start_y)`
/// along the direction `(step_x, step_y)`.
fn check_sequence(
    b: &GameBoard,
    player: u8,
    length: usize,
    start_x: usize,
    start_y: usize,
    step_x: isize,
    step_y: isize,
) -> (r: bool)
    requires
        b@.len() == 42,
        start_x < 7,
        start_y < 6,
        1 <= length <= 7,
        -1 <= step_x <= 1,
        -1 <= step_y <= 1,
    ensures
        r == run_at(
            b@,
            player,
            length as int,
            start_x as int,
            start_y as int,
            step_x as int,
            step_y as int,
        ),
{
    proof {
        assert(-7 <= (length - 1) * step_x <= 7 && -7 <= (length - 1) * step_y
            <= 7) by (nonlinear_arith)
            requires
                1 <= length <= 7,
                -1 <= step_x <= 1,
                -1 <= step_y <= 1,
        ;
    }
    let end_x: isize = start_x as isize + (length as isize - 1) * step_x;
    let end_y: isize = start_y as isize + (length as isize - 1) * step_y;

    if end_x >= 7 || end_y >= 6 || end_x < 0 || end_y < 0 {
        return false;
    }
    let mut i: usize = 0;
    while i < length
        invariant
            b@.len() == 42,
            start_x < 7,
            start_y < 6,
            1 <= length <= 7,
            -1 <= step_x <= 1,
            -1 <= step_y <= 1,
            i <= length,
            in_bounds(
                start_x as int + (length - 1) * step_x,
                start_y as int + (length - 1) * step_y,
            ),
            forall|j: int|
                0 <= j < i ==> #[trigger] cell(
                    b@,
                    start_x + j * step_x,
                    start_y + j * step_y,
                ) == player,
        decreases length - i,
    {
        proof {
            assert(0 <= i * step_x <= (length - 1) * step_x || (length - 1) * step_x <= i
                * step_x <= 0) by (nonlinear_arith)
                requires
                    0 <= i <= length - 1,
                    -1 <= step_x <= 1,
            ;
            assert(0 <= i * step_y <= (length - 1) * step_y || (length - 1) * step_y <= i
                * step_y <= 0) by (nonlinear_arith)
                requires
                    0 <= i <= length - 1,
                    -1 <= step_y <= 1,
            ;
        }
        let x = (start_x as isize + i as isize * step_x) as usize;
        let y = (start_y as isize + i as isize * step_y) as usize;

        if b.get(x, y) != player {
            return false;
        }
        i = i + 1;
    }
    true
}

/// The win check: whether the board holds a run of `length` cells of
/// `player` along one of the four directions.
///
/// Returns the start cell of the first run in row-major scan order (top row
/// first, left to right), or `(0, 0)` when there is none.
pub fn check_for_row(b: &GameBoard, player: u8, length: usize) -> (r: (bool, Field))
    requires
        b@.len() == 42,
        1 <= length <= 7,
    ensures
        r.0 == has_row(b@, player, length as int),
        r.0 ==> in_bounds(r.1.x as int, r.1.y as int) && row_found_at(
            b@,
            player,
            length as int,
            r.1.x as int,
            r.1.y as int,
        ),
        r.0 ==> forall|x2: int, y2: int|
            in_bounds(x2, y2) && y2 * 7 + x2 < r.1.y * 7 + r.1.x ==> !row_found_at(
                b@,
                player,
                length as int,
                x2,
                y2,
            ),
        !r.0 ==> r.1 == (Field { x: 0, y: 0 }),
{
    let mut y: usize = 0;
    while y < 6
        invariant
            b@.len() == 42,
            1 <= length <= 7,
            y <= 6,
            forall|x2: int, y2: int|
                in_bounds(x2, y2) && y2 < y ==> !row_found_at(b@, player, length as int, x2, y2),
        decreases 6 - y,
    {
        let mut x: usize = 0;
        while x < 7
            invariant
                b@.len() == 42,
                1 <= length <= 7,
                y < 6,
                x <= 7,
                forall|x2: int, y2: int|
                    in_bounds(x2, y2) && y2 < y ==> !row_found_at(
                        b@,
                        player,
                        length as int,
                        x2,
                        y2,
                    ),
                forall|x2: int| 0 <= x2 < x ==> !row_found_at(b@, player, length as int, x2, y as int),
            decreases 7 - x,
        {
            if check_sequence(b, player, length, x, y, 1, 0) || check_sequence(
                b,
                player,
                length,
                x,
                y,
                0,
                1,
            ) || check_sequence(b, player, length, x, y, 1, 1) || check_sequence(
                b,
                player,
                length,
                x,
                y,
                -1,
                1,
            ) {
                proof {
                    assert(forall|x2: int, y2: int|
                        in_bounds(x2, y2) && y2 * 7 + x2 < y * 7 + x ==> y2 < y || (y2 == y && x2
                            < x));
                }
                return (true, Field::new(x as u8, y as u8));
            }
            x = x + 1;
        }
        y = y + 1;
    }
    (false, Field::new(0, 0))
}

} // verus!

verus! {

/// The board reflected left-right: column `x` goes to column `6 - x`.
pub open spec fn mirror(s: Seq<u8>) -> Seq<u8> {
    Seq::new(42, |i: int| s[(i / 7) * 7 + (6 - (i % 7))])
}

proof fn lemma_mirror_cell(s: Seq<u8>, x: int, y: int)
    requires
        s.len() == 42,
        in_bounds(x, y),
    ensures
        cell(mirror(s), x, y) == cell(s, 6 - x, y),
{
    let i = y * 7 + x;
    assert(i / 7 == y && i % 7 == x) by (nonlinear_arith)
        requires
            0 <= x < 7,
            0 <= y < 6,
            i == y * 7 + x,
    ;
    assert(mirror(s)[i] == s[y * 7 + (6 - x)]);
}

proof fn lemma_mirror_run(s: Seq<u8>, player: u8, len: int, x: int, y: int, dx: int, dy: int)
    requires
        s.len() == 42,
        -1 <= dx <= 1,
        0 <= dy <= 1,
        1 <= len <= 7,
    ensures
        run_at(s, player, len, x, y, dx, dy) ==> run_at(mirror(s), player, len, 6 - x, y, -dx, dy),
{
    if run_at(s, player, len, x, y, dx, dy) {
        assert(in_bounds(6 - x, y));
        assert(6 - x + (len - 1) * (-dx) == 6 - (x + (len - 1) * dx)) by (nonlinear_arith);
        assert(in_bounds(6 - x + (len - 1) * (-dx), y + (len - 1) * dy));
        assert forall|i: int| 0 <= i < len implies #[trigger] cell(
            mirror(s),
            6 - x + i * (-dx),
            y + i * dy,
        ) == player by {
            assert(0 <= i * dx <= (len - 1) * dx || (len - 1) * dx <= i * dx
                <= 0) by (nonlinear_arith)
                requires
                    0 <= i <= len - 1,
                    -1 <= dx <= 1,
            ;
            assert(0 <= i * dy <= (len - 1) * dy) by (nonlinear_arith)
                requires
                    0 <= i <= len - 1,
                    0 <= dy <= 1,
            ;
            assert(in_bounds(x + i * dx, y + i * dy));
            assert(i * (-dx) == -(i * dx)) by (nonlinear_arith);
            lemma_mirror_cell(s, 6 - (x + i * dx), y + i * dy);
            assert(cell(s, x + i * dx, y + i * dy) == player);
        }
    }
}

proof fn lemma_horizontal_run_reverse(s: Seq<u8>, player: u8, len: int, x: int, y: int)
    requires
        1 <= len,
    ensures
        run_at(s, player, len, x, y, -1, 0) ==> run_at(s, player, len, x - (len - 1), y, 1, 0),
{
    if run_at(s, player, len, x, y, -1, 0) {
        assert forall|i: int| 0 <= i < len implies #[trigger] cell(
            s,
            x - (len - 1) + i * 1,
            y + i * 0,
        ) == player by {
            let j = len - 1 - i;
            assert(cell(s, x + j * -1, y + j * 0) == player);
            assert(x + j * -1 == x - (len - 1) + i * 1) by (nonlinear_arith)
                requires
                    j == len - 1 - i,
            ;
        }
    }
}

proof fn lemma_has_row_mirror_forward(s: Seq<u8>, player: u8, len: int)
    requires
        s.len() == 42,
        1 <= len <= 7,
    ensures
        has_row(s, player, len) ==> has_row(mirror(s), player, len),
{
    if has_row(s, player, len) {
        let (x, y) = choose|x: int, y: int| in_bounds(x, y) && row_found_at(s, player, len, x, y);
        if run_at(s, player, len, x, y, 1, 0) {
            lemma_mirror_run(s, player, len, x, y, 1, 0);
            lemma_horizontal_run_reverse(mirror(s), player, len, 6 - x, y);
            assert(row_found_at(mirror(s), player, len, 6 - x - (len - 1), y));
            assert(in_bounds(6 - x - (len - 1), y));
        } else if run_at(s, player, len, x, y, 0, 1) {
            lemma_mirror_run(s, player, len, x, y, 0, 1);
            assert(row_found_at(mirror(s), player, len, 6 - x, y));
        } else if run_at(s, player, len, x, y, 1, 1) {
            lemma_mirror_run(s, player, len, x, y, 1, 1);
            assert(row_found_at(mirror(s), player, len, 6 - x, y));
        } else {
            lemma_mirror_run(s, player, len, x, y, -1, 1);
            assert(row_found_at(mirror(s), player, len, 6 - x, y));
        }
    }
}

/// Mirroring the board left-right neither creates nor destroys a run: the
/// win check answers the same on a position and on its mirror image, the
/// four scanned directions mapping onto each other.
pub proof fn lemma_has_row_mirror(s: Seq<u8>, player: u8, len: int)
    requires
        s.len() == 42,
        1 <= len <= 7,
    ensures
        has_row(mirror(s), player, len) == has_row(s, player, len),
{
    lemma_has_row_mirror_forward(s, player, len);
    lemma_has_row_mirror_forward(mirror(s), player, len);
    assert forall|x: int, y: int| in_bounds(x, y) implies #[trigger] cell(
        mirror(mirror(s)),
        x,
        y,
    ) == cell(s, x, y) by {
        lemma_mirror_cell(mirror(s), x, y);
        lemma_mirror_cell(s, 6 - x, y);
    }
    assert(mirror(mirror(s)) =~= s) by {
        assert forall|i: int| 0 <= i < 42 implies mirror(mirror(s))[i] == s[i] by {
            let y = i / 7;
            let x = i % 7;
            assert(i == y * 7 + x && 0 <= x < 7 && 0 <= y < 6) by (nonlinear_arith)
                requires
                    0 <= i < 42,
                    y == i / 7,
                    x == i % 7,
            ;
            assert(cell(mirror(mirror(s)), x, y) == cell(s, x, y));
        }
    }
}

} // verus!
