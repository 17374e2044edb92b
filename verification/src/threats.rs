//! Threat detection: 4-cell windows that are one move away from completion.
//!
//! A window counts as a threat for a player when all of its cells belong to
//! the player, or all but one do and the remaining cell is empty (the
//! wildcard). When the cell directly beneath the wildcard is also empty the
//! threat cannot be completed at once: it is recorded as a zugzwang
//! candidate, a standing obligation resolved later by column-filling order.
//!
//! Three window families are scanned: horizontal windows row by row (the
//! scan cursor jumps to the wildcard after a match, so overlapping windows of
//! the same gap are not reported twice), down-right diagonals, and down-left
//! diagonals, the latter two with duplicate suppression lists of previously
//! accepted window ends on the same diagonal.

use vstd::prelude::*;

use crate::board::{cell, Field, GameBoard};

verus! {

/// A threat's single empty cell that cannot be filled at once, because the
/// cell beneath it is still empty: a standing tactical obligation.
#[derive(Debug, PartialEq, Eq, Structural, Copy, Clone)]
pub struct Zugzwang {
    pub fulfilment_position: Field,
    pub even: bool,
    pub player: u8,
}

impl Zugzwang {
    pub fn new(fulfilment_position: Field, even: bool, player: u8) -> (r: Zugzwang)
        ensures
            r == (Zugzwang { fulfilment_position, even, player }),
    {
        Zugzwang { fulfilment_position, even, player }
    }

    /// A candidate at `fulfilment_position`, its parity derived from the row.
    pub fn create(fulfilment_position: Field, player: u8) -> (r: Zugzwang)
        ensures
            r == (Zugzwang {
                fulfilment_position,
                even: fulfilment_position.y % 2 == 0,
                player,
            }),
    {
        Zugzwang { fulfilment_position, even: fulfilment_position.y % 2 == 0, player }
    }
}

/// The zugzwang candidate derived from a wildcard at `(x, y)`: one exists
/// exactly when the cell beneath the wildcard is on the board and empty.
pub open spec fn possible_zugzwang(s: Seq<u8>, player: u8, x: int, y: int) -> Option<Zugzwang> {
    if y + 1 < 6 && cell(s, x, y + 1) == 0 {
        Some(
            Zugzwang {
                fulfilment_position: Field { x: x as u8, y: y as u8 },
                even: y % 2 == 0,
                player,
            },
        )
    } else {
        None
    }
}

/// A candidate list as a sequence: empty or a single element.
pub open spec fn opt_seq(z: Option<Zugzwang>) -> Seq<Zugzwang> {
    match z {
        Some(v) => seq![v],
        None => Seq::empty(),
    }
}

/// One step of the horizontal window scan at offset `i`, carrying whether a
/// wildcard is still allowed, the window end `pe` reached so far, and the
/// candidate derived at the wildcard. Yields whether the window matches, the
/// candidate, and the final window end offset.
pub open spec fn hscan(
    s: Seq<u8>,
    player: u8,
    len: int,
    x0: int,
    y: int,
    i: int,
    wildcard: bool,
    pe: int,
    z: Option<Zugzwang>,
) -> (bool, Option<Zugzwang>, int)
    decreases len - i,
{
    if i >= len {
        (true, z, pe)
    } else {
        let c = cell(s, x0 + i, y);
        if c == player {
            hscan(s, player, len, x0, y, i + 1, wildcard, pe, z)
        } else if c == 0 && wildcard {
            hscan(s, player, len, x0, y, i + 1, false, i, possible_zugzwang(s, player, x0 + i, y))
        } else {
            (false, None, pe)
        }
    }
}

/// The horizontal window of `len` cells starting at `(x, y)`: whether it is
/// a threat, its zugzwang candidate, and the scan cursor after the window
/// (jumped to the window end on a match, unchanged otherwise).
pub open spec fn hwindow(s: Seq<u8>, player: u8, len: int, x: int, y: int) -> (
    bool,
    Option<Zugzwang>,
    int,
) {
    if x + len - 1 >= 7 {
        (false, None, x)
    } else {
        let r = hscan(s, player, len, x, y, 0, true, len - 1, None);
        if r.0 {
            (true, r.1, x + r.2)
        } else {
            (false, None, x)
        }
    }
}

/// The window end offset of a scan stays between 0 and `len - 1`.
pub proof fn lemma_hscan_pe_bounds(
    s: Seq<u8>,
    player: u8,
    len: int,
    x0: int,
    y: int,
    i: int,
    wildcard: bool,
    pe: int,
    z: Option<Zugzwang>,
)
    requires
        0 <= pe <= len - 1,
        0 <= i,
    ensures
        0 <= hscan(s, player, len, x0, y, i, wildcard, pe, z).2 <= len - 1,
    decreases len - i,
{
    if i >= len {
    } else {
        let c = cell(s, x0 + i, y);
        if c == player {
            lemma_hscan_pe_bounds(s, player, len, x0, y, i + 1, wildcard, pe, z);
        } else if c == 0 && wildcard {
            lemma_hscan_pe_bounds(
                s,
                player,
                len,
                x0,
                y,
                i + 1,
                false,
                i,
                possible_zugzwang(s, player, x0 + i, y),
            );
        }
    }
}

/// The scan cursor never moves left: the cursor after a horizontal window
/// lies between the window start and its last cell.
pub proof fn lemma_hwindow_advance(s: Seq<u8>, player: u8, len: int, x: int, y: int)
    requires
        1 <= len,
    ensures
        x <= hwindow(s, player, len, x, y).2 <= x + len - 1,
{
    if x + len - 1 >= 7 {
    } else {
        lemma_hscan_pe_bounds(s, player, len, x, y, 0, true, len - 1, None);
    }
}

/// Whether a horizontal run of `length` cells of `player`, with at most one
/// empty wildcard cell, starts at `(*start_x, y)`. On a match the cursor
/// `start_x` jumps to the window's wildcard (or its last cell), so that
/// overlapping windows of the same gap are not reported twice; the returned
/// candidate is the wildcard's zugzwang candidate, if any.
pub fn check_sequence_horizontal(
    b: &GameBoard,
    player: u8,
    length: usize,
    start_x: &mut usize,
    y: usize,
) -> (r: (bool, Option<Zugzwang>))
    requires
        b@.len() == 42,
        *old(start_x) < 7,
        y < 6,
        1 <= length <= 7,
    ensures
        ({
            let w = hwindow(b@, player, length as int, *old(start_x) as int, y as int);
            r.0 == w.0 && r.1 == w.1 && *final(start_x) as int == w.2
        }),
{
    let x0 = *start_x;
    if x0 + length - 1 >= 7 {
        return (false, None);
    }
    let ghost s = b@;
    let mut pattern_end: usize = length - 1;
    let mut wildcard = true;
    let mut zugzwang: Option<Zugzwang> = None;

    let mut i: usize = 0;
    while i < length
        invariant
            b@ == s,
            s.len() == 42,
            *start_x == x0,
            x0 == *old(start_x),
            x0 < 7,
            y < 6,
            1 <= length <= 7,
            x0 + length - 1 < 7,
            i <= length,
            pattern_end <= length - 1,
            hscan(s, player, length as int, x0 as int, y as int, 0, true, length - 1, None)
                == hscan(
                s,
                player,
                length as int,
                x0 as int,
                y as int,
                i as int,
                wildcard,
                pattern_end as int,
                zugzwang,
            ),
        decreases length - i,
    {
        let x = x0 + i;
        let c = b.get(x, y);
        if c != player {
            if c == 0 && wildcard {
                zugzwang = is_possible_zugzwang(b, player, y, x);
                wildcard = false;
                pattern_end = i;
            } else {
                proof {
                    assert(hscan(
                        s,
                        player,
                        length as int,
                        x0 as int,
                        y as int,
                        i as int,
                        wildcard,
                        pattern_end as int,
                        zugzwang,
                    ) == (false, None::<Zugzwang>, pattern_end as int));
                }
                return (false, None);
            }
        }
        i = i + 1;
    }
    *start_x = x0 + pattern_end;
    (true, zugzwang)
}

/// Whether a window start `(x, y)` lies on the same down-right diagonal as an
/// already accepted window end `e`, at or before it.
pub open spec fn diag_overlaps(x: int, y: int, e: Field) -> bool {
    let xd = x - e.x;
    let yd = y - e.y;
    xd <= 0 && yd <= 0 && xd == yd
}

/// Whether a down-right window start is suppressed as a duplicate of an
/// already accepted window on the same diagonal.
pub open spec fn diag_blocked(x: int, y: int, ends: Seq<Field>) -> bool {
    exists|j: int| 0 <= j < ends.len() && #[trigger] diag_overlaps(x, y, ends[j])
}

/// One step of the down-right window scan at offset `i`, carrying the window
/// end `(ex, ey)` reached so far.
pub open spec fn dscan(
    s: Seq<u8>,
    player: u8,
    len: int,
    x0: int,
    y0: int,
    i: int,
    wildcard: bool,
    ex: int,
    ey: int,
    z: Option<Zugzwang>,
) -> (bool, Option<Zugzwang>, int, int)
    decreases len - i,
{
    if i >= len {
        (true, z, ex, ey)
    } else {
        let c = cell(s, x0 + i, y0 + i);
        if c == player {
            dscan(s, player, len, x0, y0, i + 1, wildcard, ex, ey, z)
        } else if c == 0 && wildcard {
            dscan(
                s,
                player,
                len,
                x0,
                y0,
                i + 1,
                false,
                x0 + i,
                y0 + i,
                possible_zugzwang(s, player, x0 + i, y0 + i),
            )
        } else {
            (false, None, ex, ey)
        }
    }
}

/// The down-right diagonal window of `len` cells starting at `(x, y)`:
/// whether it is a threat, its zugzwang candidate, and the duplicate
/// suppression list after the window (its end appended on a match).
pub open spec fn dwindow(s: Seq<u8>, player: u8, len: int, x: int, y: int, ends: Seq<Field>) -> (
    bool,
    Option<Zugzwang>,
    Seq<Field>,
) {
    if x + len - 1 >= 7 || y + len - 1 >= 6 {
        (false, None, ends)
    } else if diag_blocked(x, y, ends) {
        (false, None, ends)
    } else {
        let r = dscan(s, player, len, x, y, 0, true, x + len - 1, y + len - 1, None);
        if r.0 {
            (true, r.1, ends.push(Field { x: r.2 as u8, y: r.3 as u8 }))
        } else {
            (false, None, ends)
        }
    }
}

/// Whether a down-right diagonal run of `length` cells of `player`, with at
/// most one empty wildcard cell, starts at `(start_x, start_y)`. A window
/// start that overlaps an already accepted window end on the same diagonal is
/// suppressed; on a match the window's end is appended to `pattern_ends`.
pub fn check_sequence_diagonal(
    b: &GameBoard,
    player: u8,
    length: usize,
    start_x: usize,
    start_y: usize,
    pattern_ends: &mut Vec<Field>,
) -> (r: (bool, Option<Zugzwang>))
    requires
        b@.len() == 42,
        1 <= length <= 7,
        start_x + length <= usize::MAX,
        start_y + length <= usize::MAX,
    ensures
        ({
            let w = dwindow(
                b@,
                player,
                length as int,
                start_x as int,
                start_y as int,
                old(pattern_ends)@,
            );
            r.0 == w.0 && r.1 == w.1 && final(pattern_ends)@ == w.2
        }),
{
    if start_x + length - 1 >= 7 || start_y + length - 1 >= 6 {
        return (false, None);
    }
    let ghost s = b@;
    let ghost ends0 = pattern_ends@;

    let mut j: usize = 0;
    while j < pattern_ends.len()
        invariant
            pattern_ends@ == ends0,
            start_x < 7,
            start_y < 6,
            j <= ends0.len(),
            forall|k: int| 0 <= k < j ==> !diag_overlaps(start_x as int, start_y as int, ends0[k]),
        decreases pattern_ends@.len() - j,
    {
        let e = pattern_ends[j];
        let x_diff: isize = start_x as isize - e.x as isize;
        let y_diff: isize = start_y as isize - e.y as isize;
        if x_diff <= 0 && y_diff <= 0 && x_diff == y_diff {
            proof {
                assert(diag_overlaps(start_x as int, start_y as int, ends0[j as int]));
            }
            return (false, None);
        }
        j = j + 1;
    }
    assert(!diag_blocked(start_x as int, start_y as int, ends0));

    let mut end_x: usize = start_x + length - 1;
    let mut end_y: usize = start_y + length - 1;
    let mut wildcard = true;
    let mut zugzwang: Option<Zugzwang> = None;

    let mut i: usize = 0;
    while i < length
        invariant
            b@ == s,
            s.len() == 42,
            pattern_ends@ == ends0,
            1 <= length <= 7,
            start_x + length - 1 < 7,
            start_y + length - 1 < 6,
            i <= length,
            end_x < 7,
            end_y < 6,
            !diag_blocked(start_x as int, start_y as int, ends0),
            dscan(
                s,
                player,
                length as int,
                start_x as int,
                start_y as int,
                0,
                true,
                start_x + length - 1,
                start_y + length - 1,
                None,
            ) == dscan(
                s,
                player,
                length as int,
                start_x as int,
                start_y as int,
                i as int,
                wildcard,
                end_x as int,
                end_y as int,
                zugzwang,
            ),
        decreases length - i,
    {
        let x = start_x + i;
        let y = start_y + i;
        let c = b.get(x, y);
        if c != player {
            if c == 0 && wildcard {
                zugzwang = is_possible_zugzwang(b, player, y, x);
                wildcard = false;
                end_x = x;
                end_y = y;
            } else {
                proof {
                    assert(dscan(
                        s,
                        player,
                        length as int,
                        start_x as int,
                        start_y as int,
                        i as int,
                        wildcard,
                        end_x as int,
                        end_y as int,
                        zugzwang,
                    ) == (false, None::<Zugzwang>, end_x as int, end_y as int));
                }
                return (false, None);
            }
        }
        i = i + 1;
    }
    pattern_ends.push(Field::new(end_x as u8, end_y as u8));
    (true, zugzwang)
}

/// Whether a window start `(x, y)` lies on the same down-left diagonal as an
/// already accepted mirrored window end `e`, at or before it.
pub open spec fn mdiag_overlaps(x: int, y: int, e: Field) -> bool {
    let xd = x - e.x;
    let yd = y - e.y;
    xd >= 0 && yd <= 0 && xd == -yd
}

/// Whether a down-left window start is suppressed as a duplicate of an
/// already accepted window on the same mirrored diagonal.
pub open spec fn mdiag_blocked(x: int, y: int, ends: Seq<Field>) -> bool {
    exists|j: int| 0 <= j < ends.len() && #[trigger] mdiag_overlaps(x, y, ends[j])
}

/// One step of the down-left window scan at offset `i`, carrying the window
/// end `(ex, ey)` reached so far.
pub open spec fn mscan(
    s: Seq<u8>,
    player: u8,
    len: int,
    x0: int,
    y0: int,
    i: int,
    wildcard: bool,
    ex: int,
    ey: int,
    z: Option<Zugzwang>,
) -> (bool, Option<Zugzwang>, int, int)
    decreases len - i,
{
    if i >= len {
        (true, z, ex, ey)
    } else {
        let c = cell(s, x0 - i, y0 + i);
        if c == player {
            mscan(s, player, len, x0, y0, i + 1, wildcard, ex, ey, z)
        } else if c == 0 && wildcard {
            mscan(
                s,
                player,
                len,
                x0,
                y0,
                i + 1,
                false,
                x0 - i,
                y0 + i,
                possible_zugzwang(s, player, x0 - i, y0 + i),
            )
        } else {
            (false, None, ex, ey)
        }
    }
}

/// The down-left diagonal window of `len` cells starting at `(x, y)`:
/// whether it is a threat, its zugzwang candidate, and the duplicate
/// suppression list after the window (its end appended on a match).
pub open spec fn mdwindow(s: Seq<u8>, player: u8, len: int, x: int, y: int, ends: Seq<Field>) -> (
    bool,
    Option<Zugzwang>,
    Seq<Field>,
) {
    if x - (len - 1) < 0 || y + len - 1 >= 6 {
        (false, None, ends)
    } else if mdiag_blocked(x, y, ends) {
        (false, None, ends)
    } else {
        let r = mscan(s, player, len, x, y, 0, true, x - (len - 1), y + len - 1, None);
        if r.0 {
            (true, r.1, ends.push(Field { x: r.2 as u8, y: r.3 as u8 }))
        } else {
            (false, None, ends)
        }
    }
}

/// Whether a down-left diagonal run of `length` cells of `player`, with at
/// most one empty wildcard cell, starts at `(start_x, start_y)`. A window
/// start that overlaps an already accepted window end on the same mirrored
/// diagonal is suppressed; on a match the window's end is appended to
/// `pattern_ends`.
pub fn check_sequence_diagonal_mirrored(
    b: &GameBoard,
    player: u8,
    length: usize,
    start_x: usize,
    start_y: usize,
    pattern_ends: &mut Vec<Field>,
) -> (r: (bool, Option<Zugzwang>))
    requires
        b@.len() == 42,
        1 <= length <= 7,
        start_x < 7,
        start_y + length <= usize::MAX,
    ensures
        ({
            let w = mdwindow(
                b@,
                player,
                length as int,
                start_x as int,
                start_y as int,
                old(pattern_ends)@,
            );
            r.0 == w.0 && r.1 == w.1 && final(pattern_ends)@ == w.2
        }),
{
    if start_x + 1 < length || start_y + length - 1 >= 6 {
        return (false, None);
    }
    let ghost s = b@;
    let ghost ends0 = pattern_ends@;

    let mut j: usize = 0;
    while j < pattern_ends.len()
        invariant
            pattern_ends@ == ends0,
            start_x < 7,
            start_y < 6,
            j <= ends0.len(),
            forall|k: int| 0 <= k < j ==> !mdiag_overlaps(start_x as int, start_y as int, ends0[k]),
        decreases pattern_ends@.len() - j,
    {
        let e = pattern_ends[j];
        let x_diff: isize = start_x as isize - e.x as isize;
        let y_diff: isize = start_y as isize - e.y as isize;
        if x_diff >= 0 && y_diff <= 0 && x_diff == -y_diff {
            proof {
                assert(mdiag_overlaps(start_x as int, start_y as int, ends0[j as int]));
            }
            return (false, None);
        }
        j = j + 1;
    }
    assert(!mdiag_blocked(start_x as int, start_y as int, ends0));

    let mut end_x: usize = start_x + 1 - length;
    let mut end_y: usize = start_y + length - 1;
    let mut wildcard = true;
    let mut zugzwang: Option<Zugzwang> = None;

    let mut i: usize = 0;
    while i < length
        invariant
            b@ == s,
            s.len() == 42,
            pattern_ends@ == ends0,
            1 <= length <= 7,
            start_x < 7,
            start_x + 1 >= length,
            start_y + length - 1 < 6,
            i <= length,
            end_x < 7,
            end_y < 6,
            !mdiag_blocked(start_x as int, start_y as int, ends0),
            mscan(
                s,
                player,
                length as int,
                start_x as int,
                start_y as int,
                0,
                true,
                start_x - (length - 1),
                start_y + length - 1,
                None,
            ) == mscan(
                s,
                player,
                length as int,
                start_x as int,
                start_y as int,
                i as int,
                wildcard,
                end_x as int,
                end_y as int,
                zugzwang,
            ),
        decreases length - i,
    {
        let x = start_x - i;
        let y = start_y + i;
        let c = b.get(x, y);
        if c != player {
            if c == 0 && wildcard {
                zugzwang = is_possible_zugzwang(b, player, y, x);
                wildcard = false;
                end_x = x;
                end_y = y;
            } else {
                proof {
                    assert(mscan(
                        s,
                        player,
                        length as int,
                        start_x as int,
                        start_y as int,
                        i as int,
                        wildcard,
                        end_x as int,
                        end_y as int,
                        zugzwang,
                    ) == (false, None::<Zugzwang>, end_x as int, end_y as int));
                }
                return (false, None);
            }
        }
        i = i + 1;
    }
    pattern_ends.push(Field::new(end_x as u8, end_y as u8));
    (true, zugzwang)
}

/// The zugzwang candidate derived from a wildcard at `(x, y)`, present
/// exactly when the cell beneath the wildcard is on the board and empty.
fn is_possible_zugzwang(b: &GameBoard, player: u8, y: usize, x: usize) -> (r: Option<Zugzwang>)
    requires
        b@.len() == 42,
        x < 7,
        y < 6,
    ensures
        r == possible_zugzwang(b@, player, x as int, y as int),
{
    if y + 1 < 6 && b.get(x, y + 1) == 0 {
        return Some(Zugzwang::create(Field::new(x as u8, y as u8), player));
    }
    None
}

} // verus!

verus! {

/// The threats and zugzwang candidates of row `y` from the scan cursor `x`
/// rightwards: the count of matched horizontal and down-right windows, the
/// candidates in detection order, and the down-right duplicate suppression
/// list after the row.
pub open spec fn scan_row(s: Seq<u8>, player: u8, len: int, y: int, x: int, ends: Seq<Field>) -> (
    int,
    Seq<Zugzwang>,
    Seq<Field>,
)
    decreases (if x < 7 {
        7 - x
    } else {
        0
    }),
        when 1 <= len
{
    if x >= 7 {
        (0, Seq::empty(), ends)
    } else {
        let h = hwindow(s, player, len, x, y);
        let d = dwindow(s, player, len, h.2, y, ends);
        proof {
            lemma_hwindow_advance(s, player, len, x, y);
        }
        let rest = scan_row(s, player, len, y, h.2 + 1, d.2);
        (
            (if h.0 {
                1int
            } else {
                0
            }) + (if d.0 {
                1int
            } else {
                0
            }) + rest.0,
            opt_seq(h.1) + opt_seq(d.1) + rest.1,
            rest.2,
        )
    }
}

/// The threats and candidates of rows `y` and below, rows scanned top down.
pub open spec fn scan_rows(s: Seq<u8>, player: u8, len: int, y: int, ends: Seq<Field>) -> (
    int,
    Seq<Zugzwang>,
    Seq<Field>,
)
    decreases 6 - y,
        when 1 <= len
{
    if y >= 6 {
        (0, Seq::empty(), ends)
    } else {
        let row = scan_row(s, player, len, y, 0, ends);
        let rest = scan_rows(s, player, len, y + 1, row.2);
        (row.0 + rest.0, row.1 + rest.1, rest.2)
    }
}

/// The down-left threats and candidates of column `x` from row `y` downwards.
pub open spec fn mscan_col(s: Seq<u8>, player: u8, len: int, x: int, y: int, ends: Seq<Field>) -> (
    int,
    Seq<Zugzwang>,
    Seq<Field>,
)
    decreases 6 - y,
{
    if y >= 6 {
        (0, Seq::empty(), ends)
    } else {
        let w = mdwindow(s, player, len, x, y, ends);
        let rest = mscan_col(s, player, len, x, y + 1, w.2);
        (
            (if w.0 {
                1int
            } else {
                0
            }) + rest.0,
            opt_seq(w.1) + rest.1,
            rest.2,
        )
    }
}

/// The down-left threats and candidates of columns `x` and rightwards.
pub open spec fn mscan_cols(s: Seq<u8>, player: u8, len: int, x: int, ends: Seq<Field>) -> (
    int,
    Seq<Zugzwang>,
    Seq<Field>,
)
    decreases 7 - x,
{
    if x >= 7 {
        (0, Seq::empty(), ends)
    } else {
        let col = mscan_col(s, player, len, x, 0, ends);
        let rest = mscan_cols(s, player, len, x + 1, col.2);
        (col.0 + rest.0, col.1 + rest.1, rest.2)
    }
}

/// The number of threats of `player` on the board for windows of `len`
/// cells: matched horizontal windows, then both diagonal families.
pub open spec fn threat_count(s: Seq<u8>, player: u8, len: int) -> int {
    scan_rows(s, player, len, 0, Seq::empty()).0 + mscan_cols(s, player, len, 0, Seq::empty()).0
}

/// All zugzwang candidates of `player` on the board, in detection order:
/// the horizontal and down-right families row by row, then the down-left
/// family column by column.
pub open spec fn zugzwang_candidates(s: Seq<u8>, player: u8, len: int) -> Seq<Zugzwang> {
    scan_rows(s, player, len, 0, Seq::empty()).1 + mscan_cols(s, player, len, 0, Seq::empty()).1
}

/// A row's scan matches at most two windows per cursor position and the
/// count is never negative.
pub proof fn lemma_scan_row_bounds(
    s: Seq<u8>,
    player: u8,
    len: int,
    y: int,
    x: int,
    ends: Seq<Field>,
)
    requires
        1 <= len,
    ensures
        0 <= scan_row(s, player, len, y, x, ends).0,
        scan_row(s, player, len, y, x, ends).0 <= (if x < 7 {
            2 * (7 - x)
        } else {
            0
        }),
    decreases (if x < 7 {
        7 - x
    } else {
        0
    }),
{
    if x >= 7 {
    } else {
        let h = hwindow(s, player, len, x, y);
        let d = dwindow(s, player, len, h.2, y, ends);
        lemma_hwindow_advance(s, player, len, x, y);
        lemma_scan_row_bounds(s, player, len, y, h.2 + 1, d.2);
    }
}

/// The whole horizontal and down-right pass counts at most 84 threats.
pub proof fn lemma_scan_rows_bounds(s: Seq<u8>, player: u8, len: int, y: int, ends: Seq<Field>)
    requires
        1 <= len,
    ensures
        0 <= scan_rows(s, player, len, y, ends).0,
        scan_rows(s, player, len, y, ends).0 <= (if y < 6 {
            14 * (6 - y)
        } else {
            0
        }),
    decreases (if y < 6 {
        6 - y
    } else {
        0
    }),
{
    if y >= 6 {
    } else {
        let row = scan_row(s, player, len, y, 0, ends);
        lemma_scan_row_bounds(s, player, len, y, 0, ends);
        lemma_scan_rows_bounds(s, player, len, y + 1, row.2);
    }
}

/// A column's down-left scan matches at most one window per row.
pub proof fn lemma_mscan_col_bounds(
    s: Seq<u8>,
    player: u8,
    len: int,
    x: int,
    y: int,
    ends: Seq<Field>,
)
    ensures
        0 <= mscan_col(s, player, len, x, y, ends).0,
        mscan_col(s, player, len, x, y, ends).0 <= (if y < 6 {
            6 - y
        } else {
            0
        }),
    decreases (if y < 6 {
        6 - y
    } else {
        0
    }),
{
    if y >= 6 {
    } else {
        let w = mdwindow(s, player, len, x, y, ends);
        lemma_mscan_col_bounds(s, player, len, x, y + 1, w.2);
    }
}

/// The whole down-left pass counts at most 42 threats.
pub proof fn lemma_mscan_cols_bounds(s: Seq<u8>, player: u8, len: int, x: int, ends: Seq<Field>)
    ensures
        0 <= mscan_cols(s, player, len, x, ends).0,
        mscan_cols(s, player, len, x, ends).0 <= (if x < 7 {
            6 * (7 - x)
        } else {
            0
        }),
    decreases (if x < 7 {
        7 - x
    } else {
        0
    }),
{
    if x >= 7 {
    } else {
        let col = mscan_col(s, player, len, x, 0, ends);
        lemma_mscan_col_bounds(s, player, len, x, 0, ends);
        lemma_mscan_cols_bounds(s, player, len, x + 1, col.2);
    }
}

/// A board holds between 0 and 126 threats.
pub proof fn lemma_threat_count_bounds(s: Seq<u8>, player: u8, len: int)
    requires
        1 <= len,
    ensures
        0 <= threat_count(s, player, len) <= 126,
{
    lemma_scan_rows_bounds(s, player, len, 0, Seq::empty());
    lemma_mscan_cols_bounds(s, player, len, 0, Seq::empty());
}

/// The number of threats of `player` for windows of `length` cells, over all
/// three window families; every zugzwang candidate found on the way is
/// appended to `zugzwang_list` in detection order.
pub fn evaluate_threats(
    b: &GameBoard,
    player: u8,
    length: usize,
    zugzwang_list: &mut Vec<Zugzwang>,
) -> (count: i64)
    requires
        b@.len() == 42,
        1 <= length <= 7,
    ensures
        count == threat_count(b@, player, length as int),
        final(zugzwang_list)@ == old(zugzwang_list)@ + zugzwang_candidates(
            b@,
            player,
            length as int,
        ),
{
    let ghost s = b@;
    let ghost len = length as int;
    let ghost zl0 = zugzwang_list@;
    let ghost full_rows = scan_rows(s, player, len, 0, Seq::empty());
    let ghost full_cols = mscan_cols(s, player, len, 0, Seq::empty());

    let mut count: i64 = 0;
    let ghost mut taken: Seq<Zugzwang> = Seq::empty();
    let mut diagonal_pattern_ends: Vec<Field> = Vec::new();

    let mut y: usize = 0;
    while y < 6
        invariant
            b@ == s,
            s.len() == 42,
            1 <= length <= 7,
            len == length,
            y <= 6,
            0 <= count,
            zugzwang_list@ == zl0 + taken,
            full_rows == scan_rows(s, player, len, 0, Seq::empty()),
            full_rows.0 == count + scan_rows(s, player, len, y as int, diagonal_pattern_ends@).0,
            full_rows.1 == taken + scan_rows(s, player, len, y as int, diagonal_pattern_ends@).1,
            full_rows.2 == scan_rows(s, player, len, y as int, diagonal_pattern_ends@).2,
        decreases 6 - y,
    {
        let mut x: usize = 0;
        while x < 7
            invariant
                b@ == s,
                s.len() == 42,
                1 <= length <= 7,
                len == length,
                y < 6,
                x <= 13,
                0 <= count,
                zugzwang_list@ == zl0 + taken,
                full_rows == scan_rows(s, player, len, 0, Seq::empty()),
                ({
                    let row = scan_row(s, player, len, y as int, x as int, diagonal_pattern_ends@);
                    let after = scan_rows(s, player, len, y as int + 1, row.2);
                    &&& full_rows.0 == count + row.0 + after.0
                    &&& full_rows.1 == taken + row.1 + after.1
                    &&& full_rows.2 == after.2
                }),
            decreases 7 - x,
        {
            let ghost x_before = x as int;
            let ghost ends_before = diagonal_pattern_ends@;
            let ghost row_before = scan_row(s, player, len, y as int, x_before, ends_before);

            let horizontal = check_sequence_horizontal(b, player, length, &mut x, y);
            proof {
                lemma_hwindow_advance(s, player, len, x_before, y as int);
            }
            if horizontal.0 {
                proof {
                    lemma_scan_rows_bounds(s, player, len, 0, Seq::empty());
                    lemma_scan_row_bounds(s, player, len, y as int, x_before, ends_before);
                    lemma_scan_rows_bounds(s, player, len, y as int + 1, row_before.2);
                }
                count = count + 1;
            }
            if let Some(horizontal_zugzwang) = horizontal.1 {
                zugzwang_list.push(horizontal_zugzwang);
            }

            let diagonal = check_sequence_diagonal(
                b,
                player,
                length,
                x,
                y,
                &mut diagonal_pattern_ends,
            );
            if diagonal.0 {
                proof {
                    lemma_scan_rows_bounds(s, player, len, 0, Seq::empty());
                    lemma_scan_row_bounds(s, player, len, y as int, x_before, ends_before);
                    lemma_scan_rows_bounds(s, player, len, y as int + 1, row_before.2);
                }
                count = count + 1;
            }
            if let Some(diagonal_zugzwang) = diagonal.1 {
                zugzwang_list.push(diagonal_zugzwang);
            }

            proof {
                let h = hwindow(s, player, len, x_before, y as int);
                let d = dwindow(s, player, len, h.2, y as int, ends_before);
                lemma_hwindow_advance(s, player, len, x_before, y as int);
                let taken0 = taken;
                taken = taken + opt_seq(h.1) + opt_seq(d.1);
                assert(zugzwang_list@ == zl0 + taken);
                let row_after = scan_row(s, player, len, y as int, h.2 + 1, d.2);
                assert(row_before.1 == opt_seq(h.1) + opt_seq(d.1) + row_after.1);
                let after = scan_rows(s, player, len, y as int + 1, row_after.2);
                assert((taken + row_after.1) + after.1 =~= (taken0 + row_before.1) + after.1);
                assert(full_rows.1 == (taken + row_after.1) + after.1);
            }
            x = x + 1;
        }
        proof {
            assert(scan_row(s, player, len, y as int, x as int, diagonal_pattern_ends@) == (
                0int,
                Seq::<Zugzwang>::empty(),
                diagonal_pattern_ends@,
            ));
            assert(taken + Seq::<Zugzwang>::empty() + scan_rows(
                s,
                player,
                len,
                y as int + 1,
                diagonal_pattern_ends@,
            ).1 =~= taken + scan_rows(s, player, len, y as int + 1, diagonal_pattern_ends@).1);
        }
        y = y + 1;
    }

    let mut mirrored_pattern_ends: Vec<Field> = Vec::new();
    let mut x: usize = 0;
    while x < 7
        invariant
            b@ == s,
            s.len() == 42,
            1 <= length <= 7,
            len == length,
            x <= 7,
            full_rows.0 <= count,
            zugzwang_list@ == zl0 + taken,
            full_rows == scan_rows(s, player, len, 0, Seq::empty()),
            full_cols == mscan_cols(s, player, len, 0, Seq::empty()),
            full_rows.0 + full_cols.0 == count + mscan_cols(
                s,
                player,
                len,
                x as int,
                mirrored_pattern_ends@,
            ).0,
            full_rows.1 + full_cols.1 == taken + mscan_cols(
                s,
                player,
                len,
                x as int,
                mirrored_pattern_ends@,
            ).1,
            full_cols.2 == mscan_cols(s, player, len, x as int, mirrored_pattern_ends@).2,
        decreases 7 - x,
    {
        let mut y: usize = 0;
        while y < 6
            invariant
                b@ == s,
                s.len() == 42,
                1 <= length <= 7,
                len == length,
                x < 7,
                y <= 6,
                full_rows.0 <= count,
                zugzwang_list@ == zl0 + taken,
                full_rows == scan_rows(s, player, len, 0, Seq::empty()),
                full_cols == mscan_cols(s, player, len, 0, Seq::empty()),
                ({
                    let col = mscan_col(s, player, len, x as int, y as int, mirrored_pattern_ends@);
                    let after = mscan_cols(s, player, len, x as int + 1, col.2);
                    &&& full_rows.0 + full_cols.0 == count + col.0 + after.0
                    &&& full_rows.1 + full_cols.1 == taken + col.1 + after.1
                    &&& full_cols.2 == after.2
                }),
            decreases 6 - y,
        {
            let ghost ends_before = mirrored_pattern_ends@;
            let ghost col_before = mscan_col(s, player, len, x as int, y as int, ends_before);

            let diagonal_mirrored = check_sequence_diagonal_mirrored(
                b,
                player,
                length,
                x,
                y,
                &mut mirrored_pattern_ends,
            );
            if diagonal_mirrored.0 {
                proof {
                    lemma_scan_rows_bounds(s, player, len, 0, Seq::empty());
                    lemma_mscan_cols_bounds(s, player, len, 0, Seq::empty());
                    lemma_mscan_col_bounds(s, player, len, x as int, y as int, ends_before);
                    lemma_mscan_cols_bounds(s, player, len, x as int + 1, col_before.2);
                }
                count = count + 1;
            }
            if let Some(diagonal_mirrored_zugzwang) = diagonal_mirrored.1 {
                zugzwang_list.push(diagonal_mirrored_zugzwang);
            }

            proof {
                let w = mdwindow(s, player, len, x as int, y as int, ends_before);
                let taken0 = taken;
                taken = taken + opt_seq(w.1);
                assert(zugzwang_list@ == zl0 + taken);
                let col_after = mscan_col(s, player, len, x as int, y as int + 1, w.2);
                assert(col_before.1 == opt_seq(w.1) + col_after.1);
                let after = mscan_cols(s, player, len, x as int + 1, col_after.2);
                assert((taken + col_after.1) + after.1 =~= (taken0 + col_before.1) + after.1);
                assert(full_rows.1 + full_cols.1 == (taken + col_after.1) + after.1);
            }
            y = y + 1;
        }
        proof {
            assert(mscan_col(s, player, len, x as int, y as int, mirrored_pattern_ends@) == (
                0int,
                Seq::<Zugzwang>::empty(),
                mirrored_pattern_ends@,
            ));
            assert(taken + Seq::<Zugzwang>::empty() + mscan_cols(
                s,
                player,
                len,
                x as int + 1,
                mirrored_pattern_ends@,
            ).1 =~= taken + mscan_cols(s, player, len, x as int + 1, mirrored_pattern_ends@).1);
        }
        x = x + 1;
    }
    proof {
        assert(mscan_cols(s, player, len, 7, mirrored_pattern_ends@) == (
            0int,
            Seq::<Zugzwang>::empty(),
            mirrored_pattern_ends@,
        ));
        assert(taken + Seq::<Zugzwang>::empty() =~= taken);
        assert(final(zugzwang_list)@ == zl0 + (full_rows.1 + full_cols.1));
    }
    count
}

} // verus!

verus! {

/// A candidate that lies on the board.
pub open spec fn zug_wf(z: Zugzwang) -> bool {
    z.fulfilment_position.x < 7 && z.fulfilment_position.y < 6
}

/// An optional candidate that lies on the board.
pub open spec fn opt_zug_wf(z: Option<Zugzwang>) -> bool {
    match z {
        Some(v) => zug_wf(v),
        None => true,
    }
}

/// A candidate list whose entries all lie on the board.
pub open spec fn zugs_wf(zs: Seq<Zugzwang>) -> bool {
    forall|i: int| 0 <= i < zs.len() ==> zug_wf(#[trigger] zs[i])
}

proof fn lemma_zugs_wf_add(a: Seq<Zugzwang>, b: Seq<Zugzwang>)
    requires
        zugs_wf(a),
        zugs_wf(b),
    ensures
        zugs_wf(a + b),
{
    assert forall|i: int| 0 <= i < (a + b).len() implies zug_wf(#[trigger] (a + b)[i]) by {
        if i < a.len() {
            assert((a + b)[i] == a[i]);
        } else {
            assert((a + b)[i] == b[i - a.len()]);
        }
    }
}

proof fn lemma_hscan_zug(
    s: Seq<u8>,
    player: u8,
    len: int,
    x0: int,
    y: int,
    i: int,
    wildcard: bool,
    pe: int,
    z: Option<Zugzwang>,
)
    requires
        0 <= x0,
        0 <= i,
        x0 + len - 1 < 7,
        0 <= y,
        opt_zug_wf(z),
    ensures
        opt_zug_wf(hscan(s, player, len, x0, y, i, wildcard, pe, z).1),
    decreases len - i,
{
    if i >= len {
    } else {
        let c = cell(s, x0 + i, y);
        if c == player {
            lemma_hscan_zug(s, player, len, x0, y, i + 1, wildcard, pe, z);
        } else if c == 0 && wildcard {
            lemma_hscan_zug(
                s,
                player,
                len,
                x0,
                y,
                i + 1,
                false,
                i,
                possible_zugzwang(s, player, x0 + i, y),
            );
        }
    }
}

proof fn lemma_dscan_zug(
    s: Seq<u8>,
    player: u8,
    len: int,
    x0: int,
    y0: int,
    i: int,
    wildcard: bool,
    ex: int,
    ey: int,
    z: Option<Zugzwang>,
)
    requires
        0 <= x0,
        0 <= y0,
        0 <= i,
        x0 + len - 1 < 7,
        y0 + len - 1 < 6,
        opt_zug_wf(z),
    ensures
        opt_zug_wf(dscan(s, player, len, x0, y0, i, wildcard, ex, ey, z).1),
    decreases len - i,
{
    if i >= len {
    } else {
        let c = cell(s, x0 + i, y0 + i);
        if c == player {
            lemma_dscan_zug(s, player, len, x0, y0, i + 1, wildcard, ex, ey, z);
        } else if c == 0 && wildcard {
            lemma_dscan_zug(
                s,
                player,
                len,
                x0,
                y0,
                i + 1,
                false,
                x0 + i,
                y0 + i,
                possible_zugzwang(s, player, x0 + i, y0 + i),
            );
        }
    }
}

proof fn lemma_mscan_zug(
    s: Seq<u8>,
    player: u8,
    len: int,
    x0: int,
    y0: int,
    i: int,
    wildcard: bool,
    ex: int,
    ey: int,
    z: Option<Zugzwang>,
)
    requires
        0 <= i,
        len - 1 <= x0 < 7,
        0 <= y0,
        y0 + len - 1 < 6,
        opt_zug_wf(z),
    ensures
        opt_zug_wf(mscan(s, player, len, x0, y0, i, wildcard, ex, ey, z).1),
    decreases len - i,
{
    if i >= len {
    } else {
        let c = cell(s, x0 - i, y0 + i);
        if c == player {
            lemma_mscan_zug(s, player, len, x0, y0, i + 1, wildcard, ex, ey, z);
        } else if c == 0 && wildcard {
            lemma_mscan_zug(
                s,
                player,
                len,
                x0,
                y0,
                i + 1,
                false,
                x0 - i,
                y0 + i,
                possible_zugzwang(s, player, x0 - i, y0 + i),
            );
        }
    }
}

proof fn lemma_scan_row_zug(s: Seq<u8>, player: u8, len: int, y: int, x: int, ends: Seq<Field>)
    requires
        1 <= len,
        0 <= x,
        0 <= y,
    ensures
        zugs_wf(scan_row(s, player, len, y, x, ends).1),
    decreases (if x < 7 {
        7 - x
    } else {
        0
    }),
{
    if x >= 7 {
    } else {
        let h = hwindow(s, player, len, x, y);
        let d = dwindow(s, player, len, h.2, y, ends);
        lemma_hwindow_advance(s, player, len, x, y);
        if x + len - 1 < 7 {
            lemma_hscan_zug(s, player, len, x, y, 0, true, len - 1, None);
        }
        if !(h.2 + len - 1 >= 7 || y + len - 1 >= 6) && !diag_blocked(h.2, y, ends) {
            lemma_dscan_zug(s, player, len, h.2, y, 0, true, h.2 + len - 1, y + len - 1, None);
        }
        lemma_scan_row_zug(s, player, len, y, h.2 + 1, d.2);
        lemma_zugs_wf_add(opt_seq(h.1), opt_seq(d.1));
        lemma_zugs_wf_add(opt_seq(h.1) + opt_seq(d.1), scan_row(s, player, len, y, h.2 + 1, d.2).1);
    }
}

proof fn lemma_scan_rows_zug(s: Seq<u8>, player: u8, len: int, y: int, ends: Seq<Field>)
    requires
        1 <= len,
        0 <= y,
    ensures
        zugs_wf(scan_rows(s, player, len, y, ends).1),
    decreases (if y < 6 {
        6 - y
    } else {
        0
    }),
{
    if y >= 6 {
    } else {
        let row = scan_row(s, player, len, y, 0, ends);
        lemma_scan_row_zug(s, player, len, y, 0, ends);
        lemma_scan_rows_zug(s, player, len, y + 1, row.2);
        lemma_zugs_wf_add(row.1, scan_rows(s, player, len, y + 1, row.2).1);
    }
}

proof fn lemma_mscan_col_zug(s: Seq<u8>, player: u8, len: int, x: int, y: int, ends: Seq<Field>)
    requires
        1 <= len,
        0 <= x < 7,
        0 <= y,
    ensures
        zugs_wf(mscan_col(s, player, len, x, y, ends).1),
    decreases (if y < 6 {
        6 - y
    } else {
        0
    }),
{
    if y >= 6 {
    } else {
        let w = mdwindow(s, player, len, x, y, ends);
        if !(x - (len - 1) < 0 || y + len - 1 >= 6) && !mdiag_blocked(x, y, ends) {
            lemma_mscan_zug(s, player, len, x, y, 0, true, x - (len - 1), y + len - 1, None);
        }
        lemma_mscan_col_zug(s, player, len, x, y + 1, w.2);
        lemma_zugs_wf_add(opt_seq(w.1), mscan_col(s, player, len, x, y + 1, w.2).1);
    }
}

proof fn lemma_mscan_cols_zug(s: Seq<u8>, player: u8, len: int, x: int, ends: Seq<Field>)
    requires
        1 <= len,
        0 <= x,
    ensures
        zugs_wf(mscan_cols(s, player, len, x, ends).1),
    decreases (if x < 7 {
        7 - x
    } else {
        0
    }),
{
    if x >= 7 {
    } else {
        let col = mscan_col(s, player, len, x, 0, ends);
        lemma_mscan_col_zug(s, player, len, x, 0, ends);
        lemma_mscan_cols_zug(s, player, len, x + 1, col.2);
        lemma_zugs_wf_add(col.1, mscan_cols(s, player, len, x + 1, col.2).1);
    }
}

/// Every zugzwang candidate that threat detection yields lies on the board.
pub proof fn lemma_candidates_wf(s: Seq<u8>, player: u8, len: int)
    requires
        1 <= len,
    ensures
        zugs_wf(zugzwang_candidates(s, player, len)),
{
    lemma_scan_rows_zug(s, player, len, 0, Seq::empty());
    lemma_mscan_cols_zug(s, player, len, 0, Seq::empty());
    lemma_zugs_wf_add(
        scan_rows(s, player, len, 0, Seq::empty()).1,
        mscan_cols(s, player, len, 0, Seq::empty()).1,
    );
}

} // verus!
