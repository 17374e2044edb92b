//! The position evaluator: threat counts plus central-column weighting,
//! with a realized four-in-a-row short-circuiting to the maximum score, and
//! an optional zugzwang adjustment; memoized per search in an evaluation
//! cache keyed by the exact board contents.

use vstd::prelude::*;

use std::collections::HashMap;

use crate::board::{board_wf, cell, col_weight, evaluate_field_position, other, other_player, GameBoard};
use crate::rows::{check_for_row, has_row};
use crate::threats::{
    evaluate_threats, lemma_candidates_wf, lemma_threat_count_bounds, threat_count, zug_wf,
    zugzwang_candidates, zugs_wf, Zugzwang,
};
use crate::zugzwang::{
    chips_sum, evaluate_zugzwang_positions, first_mover, lemma_chips_sum_bounds,
    lemma_chips_sum_update, lemma_turn_scan_props, lemma_zz_cols_len, sim_from, turn_scan,
    zugzwang_result, zz_board,
};

verus! {

pub const MAX_SCORE: i64 = i64::MAX;

pub const MIN_SCORE: i64 = -MAX_SCORE;

pub const ZUGZWANG_SCORE: i64 = 100000000;

pub const THREAT_L4_SCORE: i64 = 10000;

pub const CENTRALITY_SCORE: usize = 1000;

/// The centrality sum of row `y` from column `x` rightwards: the weight of
/// every cell of the row that `player` occupies, scaled by 1000.
pub open spec fn cent_row(s: Seq<u8>, player: u8, y: int, x: int) -> int
    decreases 7 - x,
{
    if x < 0 || x >= 7 {
        0
    } else {
        (if cell(s, x, y) == player {
            col_weight(x) * 1000
        } else {
            0
        }) + cent_row(s, player, y, x + 1)
    }
}

/// The centrality sum of rows `y` and below.
pub open spec fn cent_rows(s: Seq<u8>, player: u8, y: int) -> int
    decreases 6 - y,
{
    if y < 0 || y >= 6 {
        0
    } else {
        cent_row(s, player, y, 0) + cent_rows(s, player, y + 1)
    }
}

/// The centrality of `player`'s position: the sum, over every cell the
/// player occupies, of the cell's column weight scaled by 1000.
pub open spec fn centrality(s: Seq<u8>, player: u8) -> int {
    cent_rows(s, player, 0)
}

proof fn lemma_cent_row_bounds(s: Seq<u8>, player: u8, y: int, x: int)
    ensures
        0 <= cent_row(s, player, y, x) <= (if 0 <= x < 7 {
            3000 * (7 - x)
        } else {
            0
        }),
    decreases 7 - x,
{
    if x < 0 || x >= 7 {
    } else {
        lemma_cent_row_bounds(s, player, y, x + 1);
    }
}

/// Centrality stays between 0 and 126000.
pub proof fn lemma_centrality_bounds(s: Seq<u8>, player: u8, y: int)
    ensures
        0 <= cent_rows(s, player, y) <= (if 0 <= y < 6 {
            21000 * (6 - y)
        } else {
            0
        }),
    decreases 6 - y,
{
    if y < 0 || y >= 6 {
    } else {
        lemma_cent_row_bounds(s, player, y, 0);
        lemma_centrality_bounds(s, player, y + 1);
    }
}

fn evaluate_centrality(game_board_variation: &GameBoard, player: u8) -> (r: i64)
    requires
        game_board_variation@.len() == 42,
    ensures
        r == centrality(game_board_variation@, player),
{
    let ghost s = game_board_variation@;
    let mut result: i64 = 0;
    let mut y: usize = 0;
    while y < 6
        invariant
            game_board_variation@ == s,
            s.len() == 42,
            y <= 6,
            0 <= result,
            centrality(s, player) == result + cent_rows(s, player, y as int),
        decreases 6 - y,
    {
        let mut x: usize = 0;
        while x < 7
            invariant
                game_board_variation@ == s,
                s.len() == 42,
                y < 6,
                x <= 7,
                0 <= result,
                centrality(s, player) == result + cent_row(s, player, y as int, x as int)
                    + cent_rows(s, player, y as int + 1),
            decreases 7 - x,
        {
            proof {
                lemma_centrality_bounds(s, player, 0);
                lemma_centrality_bounds(s, player, y as int + 1);
                lemma_cent_row_bounds(s, player, y as int, x as int);
                lemma_cent_row_bounds(s, player, y as int, x as int + 1);
            }
            if game_board_variation.get(x, y) == player {
                result = result + (evaluate_field_position(x) * CENTRALITY_SCORE) as i64;
            }
            x = x + 1;
        }
        y = y + 1;
    }
    result
}

/// The score of the board for `player` alone: the maximum score when the
/// player already has four in a row, and otherwise 10000 per threat plus
/// the centrality of the player's cells.
pub open spec fn position_value(s: Seq<u8>, player: u8) -> int {
    if has_row(s, player, 4) {
        i64::MAX as int
    } else {
        threat_count(s, player, 4) * 10000 + centrality(s, player)
    }
}

/// The zugzwang candidates that evaluating the board for `player` collects:
/// none when the player already won, else the player's candidates.
pub open spec fn position_candidates(s: Seq<u8>, player: u8) -> Seq<Zugzwang> {
    if has_row(s, player, 4) {
        Seq::empty()
    } else {
        zugzwang_candidates(s, player, 4)
    }
}

/// The position value hits the maximum score exactly on a realized four in
/// a row; otherwise it stays between 0 and 1386000.
pub proof fn lemma_position_value_range(s: Seq<u8>, player: u8)
    ensures
        position_value(s, player) == i64::MAX as int <==> has_row(s, player, 4),
        !has_row(s, player, 4) ==> 0 <= position_value(s, player) <= 1386000,
{
    if !has_row(s, player, 4) {
        lemma_threat_count_bounds(s, player, 4);
        lemma_centrality_bounds(s, player, 0);
    }
}

/// The score of the board for `player`, and the player's zugzwang
/// candidates appended to `zugzwang_list`: the maximum score on a realized
/// four in a row (the list untouched), and otherwise the threat and
/// centrality sum.
pub fn evaluate_game_position(
    game_board_variation: &GameBoard,
    player: u8,
    zugzwang_list: &mut Vec<Zugzwang>,
) -> (r: i64)
    requires
        game_board_variation@.len() == 42,
    ensures
        r == position_value(game_board_variation@, player),
        final(zugzwang_list)@ == old(zugzwang_list)@ + position_candidates(
            game_board_variation@,
            player,
        ),
{
    let ghost s = game_board_variation@;
    if check_for_row(game_board_variation, player, 4).0 {
        proof {
            assert(zugzwang_list@ + Seq::<Zugzwang>::empty() =~= zugzwang_list@);
        }
        return MAX_SCORE;
    }

    let mut result: i64 = 0;
    let count = evaluate_threats(game_board_variation, player, 4, zugzwang_list);
    proof {
        lemma_threat_count_bounds(s, player, 4);
        lemma_centrality_bounds(s, player, 0);
    }
    result = result + count * THREAT_L4_SCORE;
    result = result + evaluate_centrality(game_board_variation, player);
    result
}

/// The union of both players' candidate lists, in the order the evaluator
/// collects them: the scored player's first.
pub open spec fn eval_candidates(s: Seq<u8>, player: u8) -> Seq<Zugzwang> {
    position_candidates(s, player) + position_candidates(s, other(player))
}

/// The score of the board from `player`'s perspective: the difference of
/// the two players' position values, the signed maximum score when either
/// side already has four in a row (the opponent's win dominating), and, when
/// zugzwang evaluation is on, the zugzwang outcome scaled by 100000000 added.
pub open spec fn game_value(
    s: Seq<u8>,
    player: u8,
    player_started: bool,
    zugzwang_evaluation: bool,
) -> int {
    let max_ev = position_value(s, player);
    let min_ev = position_value(s, other(player));
    if min_ev == i64::MAX as int {
        -(i64::MAX as int)
    } else if max_ev == i64::MAX as int {
        i64::MAX as int
    } else {
        max_ev - min_ev + (if zugzwang_evaluation {
            zugzwang_result(eval_candidates(s, player), player, player_started) * 100000000
        } else {
            0
        })
    }
}

/// The simulation outcome stays in the signed unit range.
pub proof fn lemma_zugzwang_result_range(l: Seq<Zugzwang>, player: u8, started: bool)
    ensures
        -1 <= zugzwang_result(l, player, started) <= 1,
{
    let b = zz_board(l);
    let h = Seq::new(b.len(), |i: int| 0usize);
    lemma_zz_cols_len(l, 0);
    lemma_sim_range(b, h, first_mover(player, started), player);
}

proof fn lemma_sim_range(b: Seq<Seq<u8>>, h: Seq<usize>, m: u8, p: u8)
    requires
        h.len() == b.len(),
        b.len() <= usize::MAX,
        forall|i: int| 0 <= i < h.len() ==> #[trigger] h[i] <= 6,
    ensures
        -1 <= sim_from(b, h, m, p) <= 1,
    decreases 6 * b.len() - chips_sum(h),
{
    let t = turn_scan(b, h, m, 0, 0, (0usize, -1i8));
    if t.0 {
    } else if t.1 == b.len() {
    } else if t.2 == (0usize, -1i8) {
    } else {
        lemma_turn_scan_props(b, h, m, 0, 0, (0usize, -1i8));
        lemma_chips_sum_bounds(h);
        lemma_chips_sum_update(h, t.2.0 as int);
        lemma_sim_range(b, h.update(t.2.0 as int, (h[t.2.0 as int] + 1) as usize), other(m), p);
    }
}

/// The board's score never leaves the representable range, and away from
/// the winning sentinels it stays within 102772000 in magnitude.
pub proof fn lemma_game_value_bounds(
    s: Seq<u8>,
    player: u8,
    player_started: bool,
    zugzwang_evaluation: bool,
)
    ensures
        -(i64::MAX as int) <= game_value(s, player, player_started, zugzwang_evaluation)
            <= i64::MAX as int,
{
    lemma_position_value_range(s, player);
    lemma_position_value_range(s, other(player));
    lemma_zugzwang_result_range(eval_candidates(s, player), player, player_started);
}

} // verus!

verus! {

/// Four to the power `n`.
pub open spec fn pow4(n: int) -> int
    decreases n,
{
    if n <= 0 {
        1
    } else {
        4 * pow4(n - 1)
    }
}

proof fn lemma_pow4_mono(a: int, b: int)
    requires
        0 <= a <= b,
    ensures
        0 < pow4(a) <= pow4(b),
    decreases b,
{
    if a < b {
        lemma_pow4_mono(a, b - 1);
    } else if 0 < b {
        lemma_pow4_mono(a - 1, b - 1);
    }
}

proof fn lemma_pow4_42()
    ensures
        pow4(42) == 0x1000000000000000000000,
{
    reveal_with_fuel(pow4, 43);
}

/// The cache key of the first `n` cells of a board: the cells as base-4
/// digits, first cell most significant.
pub open spec fn board_key(s: Seq<u8>, n: int) -> int
    decreases n,
{
    if n <= 0 {
        0
    } else {
        board_key(s, n - 1) * 4 + s[n - 1]
    }
}

proof fn lemma_board_key_bound(s: Seq<u8>, n: int)
    requires
        forall|i: int| 0 <= i < n ==> s[i] <= 3,
    ensures
        0 <= board_key(s, n) < pow4(n),
    decreases n,
{
    if n <= 0 {
    } else {
        lemma_board_key_bound(s, n - 1);
    }
}

/// Boards with cells in the value range share a key only when they agree on
/// every cell: the key is an exact fingerprint of the board contents.
proof fn lemma_board_key_injective(s1: Seq<u8>, s2: Seq<u8>, n: int)
    requires
        forall|i: int| 0 <= i < n ==> s1[i] <= 3,
        forall|i: int| 0 <= i < n ==> s2[i] <= 3,
        board_key(s1, n) == board_key(s2, n),
    ensures
        forall|i: int| 0 <= i < n ==> s1[i] == s2[i],
    decreases n,
{
    if n <= 0 {
    } else {
        let a = board_key(s1, n - 1);
        let b = board_key(s2, n - 1);
        assert(a * 4 + s1[n - 1] == b * 4 + s2[n - 1]);
        assert(a == b && s1[n - 1] == s2[n - 1]) by (nonlinear_arith)
            requires
                a * 4 + s1[n - 1] == b * 4 + s2[n - 1],
                0 <= s1[n - 1] <= 3,
                0 <= s2[n - 1] <= 3,
        ;
        lemma_board_key_injective(s1, s2, n - 1);
    }
}

/// The cache key of a board, as an unsigned integer.
fn board_key_of(b: &GameBoard) -> (r: u128)
    requires
        board_wf(b@),
    ensures
        r as int == board_key(b@, 42),
{
    let ghost s = b@;
    proof {
        lemma_pow4_42();
    }
    let mut key: u128 = 0;
    let mut y: usize = 0;
    while y < 6
        invariant
            b@ == s,
            board_wf(s),
            y <= 6,
            key as int == board_key(s, (y as int) * 7),
            (key as int) < pow4((y as int) * 7),
            pow4(42) == 0x1000000000000000000000,
        decreases 6 - y,
    {
        let mut x: usize = 0;
        while x < 7
            invariant
                b@ == s,
                board_wf(s),
                y < 6,
                x <= 7,
                key as int == board_key(s, (y as int) * 7 + x as int),
                (key as int) < pow4((y as int) * 7 + x as int),
                pow4(42) == 0x1000000000000000000000,
            decreases 7 - x,
        {
            proof {
                lemma_pow4_mono((y as int) * 7 + x as int + 1, 42);
            }
            let c = b.get(x, y);
            key = key * 4 + (c as u128);
            x = x + 1;
        }
        y = y + 1;
    }
    key
}

/// A per-search memo of board scores, keyed by the exact board contents.
/// Every entry scores its board correctly for one fixed set of evaluation
/// parameters, so a hit returns exactly what recomputing would.
pub struct EvalCache {
    map: HashMap<u128, i64>,
}

impl EvalCache {
    /// Every cached entry is the score of the board its key fingerprints,
    /// under the given evaluation parameters.
    pub closed spec fn wf(
        self,
        player: u8,
        player_started: bool,
        zugzwang_evaluation: bool,
    ) -> bool {
        forall|k: u128|
            #[trigger] self.map@.contains_key(k) ==> exists|s: Seq<u8>|
                board_wf(s) && #[trigger] board_key(s, 42) == k as int && self.map@[k]
                    == game_value(s, player, player_started, zugzwang_evaluation)
    }

    /// A fresh, empty cache, fit for any evaluation parameters.
    pub fn new() -> (r: EvalCache)
        ensures
            forall|p: u8, ps: bool, zz: bool| r.wf(p, ps, zz),
    {
        EvalCache { map: HashMap::new() }
    }
}

impl Default for EvalCache {
    /// A fresh, empty cache, fit for any evaluation parameters.
    fn default() -> (r: EvalCache)
        ensures
            forall|p: u8, ps: bool, zz: bool| r.wf(p, ps, zz),
    {
        EvalCache::new()
    }
}

/// The score of the position from `player`'s perspective, memoized in the
/// evaluation cache: the difference of the two players' position values,
/// the signed maximum score when either side already has four in a row, and,
/// when zugzwang evaluation is on, the zugzwang simulation's outcome scaled
/// by 100000000 added in.
pub fn evaluation(
    game_board_variation: &GameBoard,
    evaluation_cache: &mut EvalCache,
    player: u8,
    player_started: bool,
    zugzwang_evaluation: bool,
) -> (r: i64)
    requires
        board_wf(game_board_variation@),
        old(evaluation_cache).wf(player, player_started, zugzwang_evaluation),
    ensures
        r == game_value(game_board_variation@, player, player_started, zugzwang_evaluation),
        final(evaluation_cache).wf(player, player_started, zugzwang_evaluation),
{
    let ghost s = game_board_variation@;
    let key = board_key_of(game_board_variation);
    match evaluation_cache.map.get(&key) {
        Some(ev) => {
            proof {
                assert(evaluation_cache.map@.contains_key(key));
                let s0 = choose|s0: Seq<u8>|
                    board_wf(s0) && #[trigger] board_key(s0, 42) == key as int
                        && evaluation_cache.map@[key] == game_value(
                        s0,
                        player,
                        player_started,
                        zugzwang_evaluation,
                    );
                lemma_board_key_injective(s0, s, 42);
                assert(s0 =~= s);
            }
            return *ev;
        },
        None => {},
    }

    let mut zugzwang_list: Vec<Zugzwang> = Vec::new();
    let max_ev = evaluate_game_position(game_board_variation, player, &mut zugzwang_list);
    let min_ev = evaluate_game_position(
        game_board_variation,
        other_player(player),
        &mut zugzwang_list,
    );

    if min_ev == MAX_SCORE {
        return -MAX_SCORE;
    }

    if max_ev == MAX_SCORE {
        return MAX_SCORE;
    }

    proof {
        lemma_position_value_range(s, player);
        lemma_position_value_range(s, other(player));
    }
    let mut result = max_ev - min_ev;

    if zugzwang_evaluation {
        proof {
            assert(zugzwang_list@ =~= eval_candidates(s, player));
            lemma_candidates_wf(s, player, 4);
            lemma_candidates_wf(s, other(player), 4);
            assert forall|i: int| 0 <= i < zugzwang_list@.len() implies (
            #[trigger] zugzwang_list@[i]).fulfilment_position.x < 7
                && zugzwang_list@[i].fulfilment_position.y < 6 by {
                let a = position_candidates(s, player);
                let b = position_candidates(s, other(player));
                if i < a.len() {
                    assert(zugzwang_list@[i] == a[i]);
                    assert(zugs_wf(a) ==> zug_wf(a[i]));
                } else {
                    assert(zugzwang_list@[i] == b[i - a.len()]);
                    assert(zugs_wf(b) ==> zug_wf(b[i - a.len()]));
                }
            }
            lemma_zugzwang_result_range(eval_candidates(s, player), player, player_started);
        }
        let zugzwang_outcome = evaluate_zugzwang_positions(zugzwang_list, player, player_started);
        result = result + (zugzwang_outcome as i64) * ZUGZWANG_SCORE;
    }

    evaluation_cache.map.insert(key, result);
    proof {
        assert(board_wf(s) && board_key(s, 42) == key as int && evaluation_cache.map@[key]
            == game_value(s, player, player_started, zugzwang_evaluation));
        assert forall|k2: u128| #[trigger] evaluation_cache.map@.contains_key(k2) implies exists|
            s0: Seq<u8>,
        |
            board_wf(s0) && #[trigger] board_key(s0, 42) == k2 as int
                && evaluation_cache.map@[k2] == game_value(
                s0,
                player,
                player_started,
                zugzwang_evaluation,
            ) by {
            if k2 == key {
            } else {
                assert(old(evaluation_cache).map@.contains_key(k2));
                assert(evaluation_cache.map@[k2] == old(evaluation_cache).map@[k2]);
            }
        }
    }
    result
}

/// Away from positions where both sides have completed a row, swapping the
/// scored player negates the evaluation when the zugzwang term is off: each
/// side's threats and centrality enter the difference with opposite signs,
/// and the winning sentinels swap.
pub proof fn lemma_evaluation_antisymmetric(s: Seq<u8>, player: u8, player_started: bool)
    requires
        player == 1 || player == 2,
        !(has_row(s, 1, 4) && has_row(s, 2, 4)),
    ensures
        game_value(s, player, player_started, false) == -game_value(
            s,
            other(player),
            player_started,
            false,
        ),
{
    lemma_position_value_range(s, player);
    lemma_position_value_range(s, other(player));
}

} // verus!
