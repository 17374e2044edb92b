//! The zugzwang simulator: a rule-based forward simulation that decides
//! which player eventually benefits from the forced filling of the columns
//! holding pending zugzwang candidates.
//!
//! Candidates are grouped by column into a compact per-column stack (row
//! coordinates inverted, so play proceeds bottom-up), and the two players
//! then alternate moves chosen by a fixed priority table until one of them
//! gets to fulfil a claim, every column is filled (a draw), or no legal
//! column remains.

use vstd::prelude::*;

use std::collections::BTreeMap;

use crate::board::{other, other_player, HEIGHT};
use crate::threats::Zugzwang;

verus! {

broadcast use vstd::laws_cmp::group_laws_cmp;

/// The candidates of column `c`, in their original list order.
pub open spec fn column_group(l: Seq<Zugzwang>, c: u8) -> Seq<Zugzwang>
    decreases l.len(),
{
    if l.len() == 0 {
        Seq::empty()
    } else {
        column_group(l.drop_last(), c) + (if l.last().fulfilment_position.x == c {
            seq![l.last()]
        } else {
            Seq::empty()
        })
    }
}

/// Every entry of a column group comes from the list and lies in the group's
/// column.
pub proof fn lemma_column_group_entries(l: Seq<Zugzwang>, c: u8)
    ensures
        forall|i: int|
            0 <= i < column_group(l, c).len() ==> (#[trigger] column_group(l, c)[i]).fulfilment_position.x
                == c && l.contains(column_group(l, c)[i]),
    decreases l.len(),
{
    if l.len() == 0 {
    } else {
        lemma_column_group_entries(l.drop_last(), c);
        assert(forall|j: int| 0 <= j < l.len() - 1 ==> l.drop_last()[j] == l[j]);
        assert forall|i: int| 0 <= i < column_group(l, c).len() implies (
        #[trigger] column_group(l, c)[i]).fulfilment_position.x == c && l.contains(
            column_group(l, c)[i],
        ) by {
            let g = column_group(l, c);
            let gp = column_group(l.drop_last(), c);
            if i < gp.len() {
                assert(g[i] == gp[i]);
                let j = choose|j: int| 0 <= j < l.drop_last().len() && l.drop_last()[j] == gp[i];
                assert(l[j] == g[i]);
            } else {
                assert(g[i] == l.last());
                assert(l[l.len() - 1] == l.last());
            }
        }
    }
}

/// Groups a candidate list into a map from column to the candidates of that
/// column, each column's original relative order preserved.
pub fn sort_zugzwang_list(zugzwang_list: Vec<Zugzwang>) -> (r: BTreeMap<u8, Vec<Zugzwang>>)
    ensures
        forall|c: u8| r@.contains_key(c) <==> column_group(zugzwang_list@, c).len() != 0,
        forall|c: u8| r@.contains_key(c) ==> (#[trigger] r@[c])@ == column_group(
            zugzwang_list@,
            c,
        ),
{
    let ghost l = zugzwang_list@;
    let mut zugzwang_map: BTreeMap<u8, Vec<Zugzwang>> = BTreeMap::new();
    let mut i: usize = 0;
    while i < zugzwang_list.len()
        invariant
            zugzwang_list@ == l,
            i <= l.len(),
            forall|c: u8| zugzwang_map@.contains_key(c) <==> column_group(l.take(i as int), c).len()
                != 0,
            forall|c: u8| zugzwang_map@.contains_key(c) ==> (#[trigger] zugzwang_map@[c])@
                == column_group(l.take(i as int), c),
        decreases l.len() - i,
    {
        let z = zugzwang_list[i];
        let x = z.fulfilment_position.x;
        proof {
            assert(l.take(i + 1).drop_last() =~= l.take(i as int));
            assert(l.take(i + 1).last() == l[i as int]);
            assert forall|c: u8| #[trigger]
                column_group(l.take(i + 1), c) == column_group(l.take(i as int), c) + (if l[i as int].fulfilment_position.x
                    == c {
                    seq![l[i as int]]
                } else {
                    Seq::<Zugzwang>::empty()
                }) by {
                assert(column_group(l.take(i + 1), c) == column_group(l.take(i + 1).drop_last(), c)
                    + (if l.take(i + 1).last().fulfilment_position.x == c {
                    seq![l.take(i + 1).last()]
                } else {
                    Seq::<Zugzwang>::empty()
                }));
            }
        }
        match zugzwang_map.remove(&x) {
            Some(mut column) => {
                column.push(z);
                zugzwang_map.insert(x, column);
            },
            None => {
                let mut column: Vec<Zugzwang> = Vec::new();
                column.push(z);
                proof {
                    assert(column@ =~= Seq::<Zugzwang>::empty() + seq![z]);
                }
                zugzwang_map.insert(x, column);
            },
        }
        proof {
            assert forall|c: u8| zugzwang_map@.contains_key(c) <==> column_group(
                l.take(i + 1),
                c,
            ).len() != 0 by {}
        }
        i = i + 1;
    }
    proof {
        assert(l.take(l.len() as int) =~= l);
    }
    zugzwang_map
}

/// The candidates regrouped in canonical order: ascending column, then each
/// column's original order, for columns `c` and above.
pub open spec fn flatten_groups(l: Seq<Zugzwang>, c: int) -> Seq<Zugzwang>
    decreases 256 - c,
{
    if c < 0 || c >= 256 {
        Seq::empty()
    } else {
        column_group(l, c as u8) + flatten_groups(l, c + 1)
    }
}

/// Grouping is canonical: two candidate lists with the same per-column
/// groups flatten, by ascending column and original order within a column,
/// to the same sequence, whatever order the lists interleaved the columns
/// in.
pub proof fn lemma_grouping_canonical(l1: Seq<Zugzwang>, l2: Seq<Zugzwang>)
    requires
        forall|c: u8| #[trigger] column_group(l1, c) == column_group(l2, c),
    ensures
        flatten_groups(l1, 0) == flatten_groups(l2, 0),
{
    lemma_flatten_groups_equal(l1, l2, 0);
}

proof fn lemma_flatten_groups_equal(l1: Seq<Zugzwang>, l2: Seq<Zugzwang>, c: int)
    requires
        forall|c: u8| #[trigger] column_group(l1, c) == column_group(l2, c),
    ensures
        flatten_groups(l1, c) == flatten_groups(l2, c),
    decreases 256 - c,
{
    if c < 0 || c >= 256 {
    } else {
        lemma_flatten_groups_equal(l1, l2, c + 1);
    }
}

} // verus!

verus! {

/// How a new claim combines with what a compact cell already holds: both
/// players claiming one physical cell make it contested (4), and a contested
/// cell never downgrades; otherwise the claimant takes the cell.
pub open spec fn claim_merge(cur: u8, p: u8) -> u8 {
    if cur == other(p) || cur == 4 {
        4u8
    } else {
        p
    }
}

/// The compact column stack built from one column's candidates, in list
/// order: six cells, bottom-up (row `y` of the board lands at index `5 - y`).
pub open spec fn col_fill(g: Seq<Zugzwang>) -> Seq<u8>
    decreases g.len(),
{
    if g.len() == 0 {
        seq![0u8, 0u8, 0u8, 0u8, 0u8, 0u8]
    } else {
        let prev = col_fill(g.drop_last());
        let z = g.last();
        let idx = 5 - z.fulfilment_position.y as int;
        if 0 <= idx < prev.len() {
            prev.update(idx, claim_merge(prev[idx], z.player))
        } else {
            prev
        }
    }
}

/// A compact column stack always has six cells.
pub proof fn lemma_col_fill_len(g: Seq<Zugzwang>)
    ensures
        col_fill(g).len() == 6,
    decreases g.len(),
{
    if g.len() == 0 {
    } else {
        lemma_col_fill_len(g.drop_last());
    }
}

/// The compact board of the candidate columns `c` and above: one stack per
/// column that holds at least one candidate, in ascending column order.
pub open spec fn zz_cols(l: Seq<Zugzwang>, c: int) -> Seq<Seq<u8>>
    decreases 7 - c,
{
    if c < 0 || c >= 7 {
        Seq::empty()
    } else {
        let g = column_group(l, c as u8);
        let rest = zz_cols(l, c + 1);
        if g.len() > 0 {
            seq![col_fill(g)] + rest
        } else {
            rest
        }
    }
}

/// The compact board of all candidate columns, in ascending column order.
pub open spec fn zz_board(l: Seq<Zugzwang>) -> Seq<Seq<u8>> {
    zz_cols(l, 0)
}

/// Every stack of a compact board has six cells.
pub proof fn lemma_zz_cols_wf(l: Seq<Zugzwang>, c: int)
    ensures
        forall|i: int|
            0 <= i < zz_cols(l, c).len() ==> (#[trigger] zz_cols(l, c)[i]).len() == 6,
    decreases 7 - c,
{
    if c < 0 || c >= 7 {
    } else {
        lemma_zz_cols_wf(l, c + 1);
        lemma_col_fill_len(column_group(l, c as u8));
        let g = column_group(l, c as u8);
        let rest = zz_cols(l, c + 1);
        assert forall|i: int| 0 <= i < zz_cols(l, c).len() implies (#[trigger] zz_cols(l, c)[i]).len()
            == 6 by {
            if g.len() > 0 {
                if i == 0 {
                    assert(zz_cols(l, c)[i] == col_fill(g));
                } else {
                    assert(zz_cols(l, c)[i] == rest[i - 1]);
                }
            } else {
                assert(zz_cols(l, c)[i] == rest[i]);
            }
        }
    }
}

/// Whether a compact column is empty from slot `y` upwards.
pub open spec fn column_empty_from(col: Seq<u8>, y: int) -> bool {
    forall|i: int| y <= i < col.len() ==> col[i] == 0
}

/// The priority table for one playable column, highest priority first: the
/// score of a rule, whether its condition holds for the column, and whether
/// a failed score comparison still ends the table scan (first priority).
pub open spec fn turn_rules(col: Seq<u8>, y: int, p: u8) -> Seq<(i8, bool, bool)> {
    seq![
        (7i8, col[y] == other(p), true),
        (6i8, column_empty_from(col, y), false),
        (2i8, y + 1 < col.len() && col[y + 1] == p && (y + 2) % 2 != 0, true),
        (1i8, y + 1 < col.len() && col[y + 1] == p, true),
        (5i8, y + 2 < col.len() && col[y + 2] == p && (y + 1) % 2 == 0, false),
        (4i8, y + 2 < col.len() && col[y + 2] == p, false),
        (4i8, y + 2 < col.len() && (col[y + 2] == other(p) || col[y + 2] == 4), false),
        (3i8, y + 3 < col.len() && col[y] == 0 && col[y + 1] == 0 && col[y + 2] == 0, false),
        (1i8, y + 1 < col.len() && col[y] != p && col[y + 1] != p, false),
        (0i8, true, false),
    ]
}

/// The best move after the rules from index `k` on are applied to a column:
/// the first rule whose condition holds and whose score beats the running
/// best claims the column; a first-priority rule whose condition holds ends
/// the scan either way.
pub open spec fn apply_rules_from(
    rules: Seq<(i8, bool, bool)>,
    k: int,
    best: (usize, i8),
    x: usize,
) -> (usize, i8)
    decreases rules.len() - k,
{
    if k < 0 || k >= rules.len() {
        best
    } else {
        let r = rules[k];
        if r.1 {
            if best.1 < r.0 {
                (x, r.0)
            } else if r.2 {
                best
            } else {
                apply_rules_from(rules, k + 1, best, x)
            }
        } else {
            apply_rules_from(rules, k + 1, best, x)
        }
    }
}

/// Applying rules with non-negative scores either keeps the best move or
/// claims the scanned column with a strictly better, non-negative score.
pub proof fn lemma_apply_rules_props(
    rules: Seq<(i8, bool, bool)>,
    k: int,
    best: (usize, i8),
    x: usize,
)
    requires
        forall|j: int| 0 <= j < rules.len() ==> (#[trigger] rules[j]).0 >= 0,
    ensures
        ({
            let nb = apply_rules_from(rules, k, best, x);
            nb == best || (nb.0 == x && nb.1 >= 0 && nb.1 > best.1)
        }),
    decreases rules.len() - k,
{
    if k < 0 || k >= rules.len() {
    } else {
        lemma_apply_rules_props(rules, k + 1, best, x);
    }
}

/// One player's turn over the columns from `x` on: scans each column in
/// order, counting the filled ones; the mover wins at once on a column whose
/// lowest open slot is their own or a contested claim, must skip a column
/// whose next slot up is the opponent's or a contested claim, and otherwise
/// ranks the column by the priority table. Yields whether the mover won, the
/// filled-column count, and the best move found.
pub open spec fn turn_scan(
    b: Seq<Seq<u8>>,
    h: Seq<usize>,
    p: u8,
    x: int,
    filled: int,
    best: (usize, i8),
) -> (bool, int, (usize, i8))
    decreases b.len() - x,
{
    if x >= b.len() || x < 0 {
        (false, filled, best)
    } else {
        let col = b[x];
        let y = h[x] as int;
        if y >= 6 {
            turn_scan(b, h, p, x + 1, filled + 1, best)
        } else if col[y] == p || col[y] == 4 {
            (true, filled, best)
        } else if y + 1 < 6 && (col[y + 1] == other(p) || col[y + 1] == 4) {
            turn_scan(b, h, p, x + 1, filled, best)
        } else {
            turn_scan(b, h, p, x + 1, filled, apply_rules_from(turn_rules(col, y, p), 0, best, x as usize))
        }
    }
}

/// What a turn's scan can yield: the filled count stays bounded by the
/// columns scanned, and the best move is either still the initial marker or
/// a playable column.
pub proof fn lemma_turn_scan_props(
    b: Seq<Seq<u8>>,
    h: Seq<usize>,
    p: u8,
    x: int,
    filled: int,
    best: (usize, i8),
)
    requires
        h.len() == b.len(),
        b.len() <= usize::MAX,
        0 <= x,
        0 <= filled,
        best == (0usize, -1i8) || (best.0 < b.len() && h[best.0 as int] < 6 && best.1 >= 0),
    ensures
        ({
            let t = turn_scan(b, h, p, x, filled, best);
            &&& t.1 <= filled + (if x <= b.len() {
                b.len() - x
            } else {
                0
            })
            &&& t.2 == (0usize, -1i8) || (t.2.0 < b.len() && h[t.2.0 as int] < 6 && t.2.1 >= 0)
        }),
    decreases b.len() - x,
{
    if x >= b.len() {
    } else {
        let col = b[x];
        let y = h[x] as int;
        if y >= 6 {
            lemma_turn_scan_props(b, h, p, x + 1, filled + 1, best);
        } else if col[y] == p || col[y] == 4 {
        } else if y + 1 < 6 && (col[y + 1] == other(p) || col[y + 1] == 4) {
            lemma_turn_scan_props(b, h, p, x + 1, filled, best);
        } else {
            let rules = turn_rules(col, y, p);
            assert(forall|j: int| 0 <= j < rules.len() ==> (#[trigger] rules[j]).0 >= 0);
            lemma_apply_rules_props(rules, 0, best, x as usize);
            let nb = apply_rules_from(rules, 0, best, x as usize);
            assert(x as usize as int == x);
            assert(nb == best || (nb.0 < b.len() && h[nb.0 as int] < 6 && nb.1 >= 0));
            lemma_turn_scan_props(b, h, p, x + 1, filled, nb);
        }
    }
}

/// The number of chips placed so far over all compact columns.
pub open spec fn chips_sum(h: Seq<usize>) -> int
    decreases h.len(),
{
    if h.len() == 0 {
        0
    } else {
        chips_sum(h.drop_last()) + h.last()
    }
}

/// Raising one column's chip count by one raises the total by one.
pub proof fn lemma_chips_sum_update(h: Seq<usize>, i: int)
    requires
        0 <= i < h.len(),
        h[i] < usize::MAX,
    ensures
        chips_sum(h.update(i, (h[i] + 1) as usize)) == chips_sum(h) + 1,
    decreases h.len(),
{
    let h2 = h.update(i, (h[i] + 1) as usize);
    if i == h.len() - 1 {
        assert(h2.drop_last() =~= h.drop_last());
    } else {
        assert(h2.drop_last() =~= h.drop_last().update(i, (h[i] + 1) as usize));
        lemma_chips_sum_update(h.drop_last(), i);
    }
}

/// With every column holding at most six chips, the total is at most six
/// per column; a column that is not yet full keeps the total strictly below
/// that bound.
pub proof fn lemma_chips_sum_bounds(h: Seq<usize>)
    requires
        forall|i: int| 0 <= i < h.len() ==> h[i] <= 6,
    ensures
        0 <= chips_sum(h) <= 6 * h.len(),
        forall|i: int| 0 <= i < h.len() && h[i] < 6 ==> chips_sum(h) < 6 * h.len(),
    decreases h.len(),
{
    if h.len() == 0 {
    } else {
        lemma_chips_sum_bounds(h.drop_last());
        assert forall|i: int| 0 <= i < h.len() && h[i] < 6 implies chips_sum(h) < 6 * h.len() by {
            if i == h.len() - 1 {
            } else {
                assert(h.drop_last()[i] < 6);
            }
        }
    }
}

/// The simulation from a compact position: the mover takes the turn the
/// priority table dictates; fulfilling a claim wins, a completely filled
/// board is a draw, and a mover left without a legal column loses. The
/// outcome is translated to the scored player's point of view: 1 a win,
/// 0 a draw, -1 a loss.
pub open spec fn sim_from(b: Seq<Seq<u8>>, h: Seq<usize>, mover: u8, player: u8) -> int
    decreases 6 * b.len() - chips_sum(h),
        when h.len() == b.len() && b.len() <= usize::MAX && (forall|i: int|
            0 <= i < h.len() ==> #[trigger] h[i] <= 6)
{
    let t = turn_scan(b, h, mover, 0, 0, (0usize, -1i8));
    if t.0 {
        if mover == player {
            1int
        } else {
            -1int
        }
    } else if t.1 == b.len() {
        0int
    } else if t.2 == (0usize, -1i8) {
        if mover == player {
            -1int
        } else {
            1int
        }
    } else {
        proof {
            lemma_turn_scan_props(b, h, mover, 0, 0, (0usize, -1i8));
            lemma_chips_sum_bounds(h);
            lemma_chips_sum_update(h, t.2.0 as int);
        }
        sim_from(b, h.update(t.2.0 as int, (h[t.2.0 as int] + 1) as usize), other(mover), player)
    }
}

/// The player that opens the simulation.
pub open spec fn first_mover(player: u8, started: bool) -> u8 {
    if started {
        player
    } else {
        other(player)
    }
}

/// The outcome of the zugzwang simulation for a candidate list, from the
/// scored player's point of view: 1 a win, 0 a draw, -1 a loss.
pub open spec fn zugzwang_result(l: Seq<Zugzwang>, player: u8, started: bool) -> int {
    let b = zz_board(l);
    sim_from(b, Seq::new(b.len(), |i: int| 0usize), first_mover(player, started), player)
}

} // verus!

verus! {

/// The compact columns of a column vector, as plain cell sequences.
pub open spec fn cols_view(b: Seq<Vec<u8>>) -> Seq<Seq<u8>> {
    b.map_values(|c: Vec<u8>| c@)
}

/// Whether the column is empty from slot `y` upwards.
fn column_is_empty(column: &Vec<u8>, y: usize) -> (r: bool)
    ensures
        r == column_empty_from(column@, y as int),
{
    let mut i: usize = y;
    while i < column.len()
        invariant
            y <= i,
            i <= column.len() || i == y,
            forall|j: int| y <= j < i ==> column@[j] == 0,
        decreases column@.len() - i,
    {
        if column[i] != 0 {
            return false;
        }
        i = i + 1;
    }
    true
}

/// Assigns the best move by the given priority rules: the rules must come
/// sorted by importance; the first rule whose condition holds and whose
/// score beats the running best takes the column, and a first-priority rule
/// whose condition holds ends the scan either way.
fn evaluate_turns(rules: Vec<(i8, bool, bool)>, best_move: &mut (usize, i8), x: usize)
    ensures
        *final(best_move) == apply_rules_from(rules@, 0, *old(best_move), x),
{
    let ghost best0 = *old(best_move);
    let mut k: usize = 0;
    while k < rules.len()
        invariant
            k <= rules@.len(),
            *best_move == best0,
            best0 == *old(best_move),
            apply_rules_from(rules@, 0, best0, x) == apply_rules_from(rules@, k as int, best0, x),
        decreases rules@.len() - k,
    {
        let (score, condition, first_priority) = rules[k];
        proof {
            assert(rules@[k as int] == (score, condition, first_priority));
        }
        if condition {
            if best_move.1 < score {
                proof {
                    assert(apply_rules_from(rules@, k as int, best0, x) == (x, score));
                }
                *best_move = (x, score);
                return;
            }
            if first_priority {
                proof {
                    assert(apply_rules_from(rules@, k as int, best0, x) == best0);
                }
                return;
            }
        }
        k = k + 1;
    }
}

/// Simulates one turn of `player` by the priority rules. Returns 0 after an
/// ordinary move (recorded in `highest_chip`), 1 when the mover fulfils a
/// claim and wins, 3 when every column is already filled (a draw), and -1
/// when no legal column remains for the mover.
fn simulate_zugzwang_turn(
    board: &Vec<Vec<u8>>,
    player: u8,
    highest_chip: &mut Vec<usize>,
    shared_zugzwang: u8,
) -> (r: i8)
    requires
        shared_zugzwang == 4,
        old(highest_chip)@.len() == board@.len(),
        forall|i: int| 0 <= i < board@.len() ==> (#[trigger] board@[i])@.len() == 6,
        forall|i: int| 0 <= i < old(highest_chip)@.len() ==> #[trigger] old(highest_chip)@[i] <= 6,
    ensures
        ({
            let t = turn_scan(cols_view(board@), old(highest_chip)@, player, 0, 0, (0usize, -1i8));
            &&& (t.0 ==> r == 1 && final(highest_chip)@ == old(highest_chip)@)
            &&& (!t.0 && t.1 == board@.len() ==> r == 3 && final(highest_chip)@ == old(
                highest_chip)@)
            &&& (!t.0 && t.1 != board@.len() && t.2 == (0usize, -1i8) ==> r == -1 && final(
                highest_chip)@ == old(highest_chip)@)
            &&& (!t.0 && t.1 != board@.len() && t.2 != (0usize, -1i8) ==> r == 0 && t.2.0
                < board@.len() && old(highest_chip)@[t.2.0 as int] < 6 && final(highest_chip)@
                == old(highest_chip)@.update(
                t.2.0 as int,
                (old(highest_chip)@[t.2.0 as int] + 1) as usize,
            ))
        }),
{
    let ghost gb = cols_view(board@);
    let ghost h0 = highest_chip@;
    let mut filled_columns: usize = 0;
    let mut best_move: (usize, i8) = (0, -1);

    let mut x: usize = 0;
    while x < board.len()
        invariant
            board@.len() == gb.len(),
            highest_chip@ == h0,
            h0.len() == gb.len(),
            gb == cols_view(board@),
            shared_zugzwang == 4,
            forall|i: int| 0 <= i < board@.len() ==> (#[trigger] board@[i])@.len() == 6,
            forall|i: int| 0 <= i < h0.len() ==> #[trigger] h0[i] <= 6,
            x <= gb.len(),
            filled_columns <= x,
            best_move == (0usize, -1i8) || (best_move.0 < gb.len() && h0[best_move.0 as int] < 6
                && best_move.1 >= 0),
            turn_scan(gb, h0, player, 0, 0, (0usize, -1i8)) == turn_scan(
                gb,
                h0,
                player,
                x as int,
                filled_columns as int,
                best_move,
            ),
        decreases gb.len() - x,
    {
        proof {
            assert(gb[x as int] == board@[x as int]@);
        }
        let y = highest_chip[x];
        if y >= HEIGHT {
            filled_columns = filled_columns + 1;
        } else {
            let column = &board[x];
            if column[y] == player || column[y] == shared_zugzwang {
                return 1;
            } else if y + 1 < HEIGHT && (column[y + 1] == other_player(player) || column[y + 1]
                == shared_zugzwang) {
                // skip: playing here would hand the opponent their square
            } else {
                let rules: Vec<(i8, bool, bool)> = vec![
                    (7, column[y] == other_player(player), true),
                    (6, column_is_empty(column, y), false),
                    (2, y + 1 < column.len() && column[y + 1] == player && (y + 2) % 2 != 0, true),
                    (1, y + 1 < column.len() && column[y + 1] == player, true),
                    (
                        5,
                        y + 2 < column.len() && column[y + 2] == player && (y + 1) % 2 == 0,
                        false,
                    ),
                    (4, y + 2 < column.len() && column[y + 2] == player, false),
                    (
                        4,
                        y + 2 < column.len() && (column[y + 2] == other_player(player) || column[y
                            + 2] == shared_zugzwang),
                        false,
                    ),
                    (
                        3,
                        y + 3 < column.len() && column[y] == 0 && column[y + 1] == 0 && column[y
                            + 2] == 0,
                        false,
                    ),
                    (
                        1,
                        y + 1 < column.len() && column[y] != player && column[y + 1] != player,
                        false,
                    ),
                    (0, true, false),
                ];
                proof {
                    assert(rules@ =~= turn_rules(gb[x as int], y as int, player));
                }
                let ghost best_before = best_move;
                evaluate_turns(rules, &mut best_move, x);
                proof {
                    lemma_apply_rules_props(rules@, 0, best_before, x);
                }
            }
        }
        x = x + 1;
    }

    let ghost t = turn_scan(gb, h0, player, 0, 0, (0usize, -1i8));
    proof {
        assert(t == (false, filled_columns as int, best_move));
    }
    if filled_columns == board.len() {
        return 3;
    }

    if best_move.0 == 0 && best_move.1 == -1 {
        proof {
            assert(best_move == (0usize, -1i8));
        }
        -1
    } else {
        proof {
            assert(best_move.0 < gb.len() && h0[best_move.0 as int] < 6);
        }
        let idx = best_move.0;
        let cur = highest_chip[idx];
        highest_chip.set(idx, cur + 1);
        0
    }
}

} // verus!

verus! {

/// Rates a candidate list from `player`'s point of view with the rule-based
/// simulation: 1 when the forced filling of the candidate columns ends in a
/// win for the player, -1 in a loss, 0 in a draw. `player_started` says
/// whether the scored player makes the first simulated move.
pub fn evaluate_zugzwang_positions(
    zugzwang_list: Vec<Zugzwang>,
    player: u8,
    player_started: bool,
) -> (r: i8)
    requires
        forall|i: int|
            0 <= i < zugzwang_list@.len() ==> (#[trigger] zugzwang_list@[i]).fulfilment_position.x
                < 7 && zugzwang_list@[i].fulfilment_position.y < 6,
    ensures
        r as int == zugzwang_result(zugzwang_list@, player, player_started),
{
    let ghost l = zugzwang_list@;
    let zugzwang_map = sort_zugzwang_list(zugzwang_list);
    let shared_zugzwang: u8 = 4;

    let mut board: Vec<Vec<u8>> = Vec::new();
    let mut c: u8 = 0;
    while c < 7
        invariant
            c <= 7,
            shared_zugzwang == 4,
            board@.len() <= c,
            forall|i: int| 0 <= i < board@.len() ==> (#[trigger] board@[i])@.len() == 6,
            zz_board(l) == cols_view(board@) + zz_cols(l, c as int),
            forall|c2: u8| zugzwang_map@.contains_key(c2) <==> column_group(l, c2).len() != 0,
            forall|c2: u8| zugzwang_map@.contains_key(c2) ==> (#[trigger] zugzwang_map@[c2])@
                == column_group(l, c2),
            forall|i: int|
                0 <= i < l.len() ==> (#[trigger] l[i]).fulfilment_position.x < 7
                    && l[i].fulfilment_position.y < 6,
        decreases 7 - c,
    {
        match zugzwang_map.get(&c) {
            Some(zugzwang_column) => {
                let ghost g = column_group(l, c as u8);
                proof {
                    lemma_column_group_entries(l, c);
                }
                let mut column: Vec<u8> = Vec::new();
                let mut j: usize = 0;
                while j < 6
                    invariant
                        j <= 6,
                        column@.len() == j,
                        forall|i: int| 0 <= i < j ==> column@[i] == 0,
                    decreases 6 - j,
                {
                    column.push(0);
                    j = j + 1;
                }
                proof {
                    assert(column@ =~= col_fill(g.take(0)));
                }
                let mut k: usize = 0;
                while k < zugzwang_column.len()
                    invariant
                        zugzwang_column@ == g,
                        shared_zugzwang == 4,
                        k <= g.len(),
                        column@ == col_fill(g.take(k as int)),
                        column@.len() == 6,
                        forall|i: int|
                            0 <= i < g.len() ==> (#[trigger] g[i]).fulfilment_position.x < 7
                                && g[i].fulfilment_position.y < 6,
                    decreases g.len() - k,
                {
                    let zugzwang = zugzwang_column[k];
                    let ghost prev = column@;
                    let y = HEIGHT - 1 - zugzwang.fulfilment_position.y as usize;
                    let cur = column[y];
                    let value = if cur == other_player(zugzwang.player) || cur
                        == shared_zugzwang {
                        shared_zugzwang
                    } else {
                        zugzwang.player
                    };
                    column.set(y, value);
                    proof {
                        let z = g[k as int];
                        let idx = 5 - z.fulfilment_position.y as int;
                        assert(zugzwang == z);
                        assert(y as int == idx);
                        assert(value == claim_merge(prev[idx], z.player));
                        assert(g.take(k + 1).drop_last() =~= g.take(k as int));
                        assert(g.take(k + 1).last() == z);
                        assert(col_fill(g.take(k + 1)) == prev.update(
                            idx,
                            claim_merge(prev[idx], z.player),
                        ));
                        assert(column@ == col_fill(g.take(k + 1)));
                    }
                    k = k + 1;
                }
                proof {
                    assert(g.take(g.len() as int) =~= g);
                    lemma_col_fill_len(g);
                }
                board.push(column);
                proof {
                    assert(cols_view(board@) =~= cols_view(board@.drop_last()).push(
                        board@.last()@,
                    ));
                    assert(zz_cols(l, c as int) == seq![col_fill(g)] + zz_cols(l, c as int + 1));
                    assert(zz_board(l) =~= cols_view(board@) + zz_cols(l, c as int + 1));
                }
            },
            None => {
                proof {
                    assert(zz_cols(l, c as int) == zz_cols(l, c as int + 1));
                }
            },
        }
        c = c + 1;
    }
    proof {
        assert(zz_cols(l, 7) =~= Seq::<Seq<u8>>::empty());
        assert(cols_view(board@) + zz_cols(l, 7) =~= cols_view(board@));
        assert(zz_board(l) == cols_view(board@));
        lemma_zz_cols_wf(l, 0);
    }

    let width = board.len();
    let mut highest_chip: Vec<usize> = Vec::new();
    let mut j: usize = 0;
    while j < width
        invariant
            j <= width,
            highest_chip@.len() == j,
            forall|i: int| 0 <= i < j ==> highest_chip@[i] == 0,
        decreases width - j,
    {
        highest_chip.push(0);
        j = j + 1;
    }
    proof {
        assert(highest_chip@ =~= Seq::new(zz_board(l).len(), |i: int| 0usize));
    }

    let mut player_at_turn = if player_started {
        player
    } else {
        other_player(player)
    };
    let ghost gbv = zz_board(l);
    loop
        invariant
            l == zugzwang_list@,
            board@.len() == gbv.len(),
            gbv.len() <= 7,
            gbv == zz_board(l),
            gbv == cols_view(board@),
            shared_zugzwang == 4,
            forall|i: int| 0 <= i < board@.len() ==> (#[trigger] board@[i])@.len() == 6,
            highest_chip@.len() == board@.len(),
            forall|i: int| 0 <= i < highest_chip@.len() ==> #[trigger] highest_chip@[i] <= 6,
            sim_from(gbv, highest_chip@, player_at_turn, player) == zugzwang_result(
                l,
                player,
                player_started,
            ),
        decreases 6 * gbv.len() - chips_sum(highest_chip@),
    {
        let ghost h_before = highest_chip@;
        proof {
            lemma_chips_sum_bounds(h_before);
        }
        let result = simulate_zugzwang_turn(
            &board,
            player_at_turn,
            &mut highest_chip,
            shared_zugzwang,
        );
        proof {
            lemma_turn_scan_props(gbv, h_before, player_at_turn, 0, 0, (0usize, -1i8));
        }
        if result != 0 {
            let ghost t = turn_scan(gbv, h_before, player_at_turn, 0, 0, (0usize, -1i8));
            if result == 3 {
                proof {
                    assert(!t.0 && t.1 == gbv.len());
                    assert(sim_from(gbv, h_before, player_at_turn, player) == 0);
                }
                return 0;
            }
            proof {
                if t.0 {
                    assert(result == 1);
                    assert(sim_from(gbv, h_before, player_at_turn, player) == (if player_at_turn
                        == player {
                        1int
                    } else {
                        -1int
                    }));
                } else {
                    assert(t.1 != gbv.len() && t.2 == (0usize, -1i8));
                    assert(result == -1);
                    assert(sim_from(gbv, h_before, player_at_turn, player) == (if player_at_turn
                        == player {
                        -1int
                    } else {
                        1int
                    }));
                }
            }
            return if player_at_turn == player {
                result
            } else {
                -result
            };
        }
        proof {
            let t = turn_scan(gbv, h_before, player_at_turn, 0, 0, (0usize, -1i8));
            lemma_chips_sum_update(h_before, t.2.0 as int);
            lemma_chips_sum_bounds(highest_chip@);
        }
        player_at_turn = other_player(player_at_turn);
    }
}

/// The simulation is a pure function of its inputs: identical candidate
/// lists with the identical starting flag always yield identical outcomes.
pub proof fn lemma_zugzwang_simulation_deterministic(
    l1: Seq<Zugzwang>,
    l2: Seq<Zugzwang>,
    player: u8,
    started: bool,
)
    requires
        l1 == l2,
    ensures
        zugzwang_result(l1, player, started) == zugzwang_result(l2, player, started),
{
}

} // verus!

verus! {

/// Swapping the scored player negates the simulation's outcome, as long as
/// the mover is one of the two sides: the turns played do not depend on who
/// is scored, only the final translation does.
proof fn lemma_sim_sign(b: Seq<Seq<u8>>, h: Seq<usize>, m: u8, p: u8)
    requires
        h.len() == b.len(),
        b.len() <= usize::MAX,
        forall|i: int| 0 <= i < h.len() ==> #[trigger] h[i] <= 6,
        p == 1 || p == 2,
        m == p || m == other(p),
    ensures
        sim_from(b, h, m, p) == -sim_from(b, h, m, other(p)),
    decreases 6 * b.len() - chips_sum(h),
{
    let t = turn_scan(b, h, m, 0, 0, (0usize, -1i8));
    if t.0 {
    } else if t.1 == b.len() {
    } else if t.2 == (0usize, -1i8) {
    } else {
        lemma_turn_scan_props(b, h, m, 0, 0, (0usize, -1i8));
        lemma_chips_sum_bounds(h);
        lemma_chips_sum_update(h, t.2.0 as int);
        let h2 = h.update(t.2.0 as int, (h[t.2.0 as int] + 1) as usize);
        lemma_sim_sign(b, h2, other(m), p);
    }
}

/// Flipping both the scored player and the starting flag negates the
/// simulation's outcome: the same side still opens, the same moves are
/// played, and only the point of view of the translation changes.
pub proof fn lemma_zugzwang_result_antisymmetric(l: Seq<Zugzwang>, p: u8, started: bool)
    requires
        p == 1 || p == 2,
    ensures
        zugzwang_result(l, p, started) == -zugzwang_result(l, other(p), !started),
{
    let b = zz_board(l);
    let h = Seq::new(b.len(), |i: int| 0usize);
    lemma_zz_cols_wf(l, 0);
    assert(b.len() <= 7) by {
        lemma_zz_cols_len(l, 0);
    }
    assert(first_mover(p, started) == first_mover(other(p), !started));
    lemma_sim_sign(b, h, first_mover(p, started), p);
}

/// A compact board has at most seven columns.
pub proof fn lemma_zz_cols_len(l: Seq<Zugzwang>, c: int)
    ensures
        zz_cols(l, c).len() <= (if c < 7 {
            7 - c
        } else {
            0
        }),
    decreases (if c < 7 {
        7 - c
    } else {
        0
    }),
{
    if c < 0 || c >= 7 {
    } else {
        lemma_zz_cols_len(l, c + 1);
    }
}

} // verus!
