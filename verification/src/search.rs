//! The search engine: depth-limited minimax with alpha-beta pruning over
//! the board's canonical move order, with a per-call evaluation cache, and
//! the top-level driver that picks the computer's move.

use vstd::prelude::*;

use rand::seq::SliceRandom;

use crate::board::{
    avail_fields, available_fields, board_wf, cell, is_available, lemma_avail_fields_props, place,
    Field, GameBoard, COMPUTER_PLAYER, USER_PLAYER,
};
use crate::eval::{
    eval_candidates, evaluation, game_value, lemma_game_value_bounds, lemma_position_value_range,
    lemma_zugzwang_result_range, EvalCache, MAX_SCORE, MIN_SCORE,
};
use crate::rows::{check_for_row, has_row};

verus! {

/// An immutable search configuration: how many plies to look ahead and
/// whether the evaluator runs the zugzwang simulation.
pub struct Difficulty {
    pub calculation_depth: u8,
    pub zugzwang_evaluation: bool,
}

impl Difficulty {
    /// The preset for an integer level: 0 searches 4 plies without zugzwang
    /// evaluation, 1 searches 6 plies with it, and any other level searches
    /// 8 plies with it.
    pub fn from_int(difficulty: u8) -> (r: Difficulty)
        ensures
            difficulty == 0 ==> r == (Difficulty {
                calculation_depth: 4u8,
                zugzwang_evaluation: false,
            }),
            difficulty == 1 ==> r == (Difficulty {
                calculation_depth: 6u8,
                zugzwang_evaluation: true,
            }),
            difficulty != 0 && difficulty != 1 ==> r == (Difficulty {
                calculation_depth: 8u8,
                zugzwang_evaluation: true,
            }),
    {
        match difficulty {
            0 => Difficulty { calculation_depth: 4, zugzwang_evaluation: false },
            1 => Difficulty { calculation_depth: 6, zugzwang_evaluation: true },
            _ => Difficulty { calculation_depth: 8, zugzwang_evaluation: true },
        }
    }
}

/// The outcome reported with a computed move.
#[derive(PartialEq, Eq, Structural, Debug)]
pub enum NextMoveResult {
    NextMove,
    ComputerWins,
    PlayerWins,
    Draw,
    Unspecified,
}

/// The per-request parameters a transport layer hands the engine alongside
/// the board: which side opened the game, and the difficulty level.
pub struct NextMoveInfo {
    pub computer_started: bool,
    pub difficulty: u8,
}

/// Whether the search stops at this node: depth exhausted, no legal move
/// left, or either side already holding four in a row.
pub open spec fn search_terminal(s: Seq<u8>, depth: nat) -> bool {
    ||| depth == 0
    ||| avail_fields(s).len() == 0
    ||| has_row(s, 2, 4)
    ||| has_row(s, 1, 4)
}

/// The maximizing ply at `depth`: the computer's best score within the
/// window, and, at the root depth, the move that attained it. A terminal
/// node scores the position for the computer.
pub open spec fn ab_max(
    s: Seq<u8>,
    depth: nat,
    alpha: int,
    beta: int,
    ps: bool,
    zz: bool,
    root: nat,
) -> (Option<Field>, int)
    decreases depth, 1int, 0int,
{
    if search_terminal(s, depth) {
        (None, game_value(s, 2, ps, zz))
    } else {
        ab_max_loop(s, avail_fields(s), 0, depth, alpha, beta, ps, zz, root, None)
    }
}

/// The maximizing scan over the moves from index `i` on, with the running
/// best `max_val`: each move is tried against the minimizing ply below, a
/// strict improvement is kept (and remembered at the root), and the scan
/// stops once the running best reaches `beta`.
pub open spec fn ab_max_loop(
    s: Seq<u8>,
    moves: Seq<Field>,
    i: int,
    depth: nat,
    max_val: int,
    beta: int,
    ps: bool,
    zz: bool,
    root: nat,
    result: Option<Field>,
) -> (Option<Field>, int)
    decreases depth, 0int, moves.len() - i,
        when 1 <= depth
{
    if i < 0 || i >= moves.len() {
        (result, max_val)
    } else {
        let mv = moves[i];
        let s2 = place(s, mv.x as int, mv.y as int, 2);
        let val = ab_min(s2, (depth - 1) as nat, max_val, beta, ps, zz, root).1;
        if val > max_val {
            let result2 = if depth == root {
                Some(mv)
            } else {
                result
            };
            if val >= beta {
                (result2, val)
            } else {
                ab_max_loop(s, moves, i + 1, depth, val, beta, ps, zz, root, result2)
            }
        } else {
            ab_max_loop(s, moves, i + 1, depth, max_val, beta, ps, zz, root, result)
        }
    }
}

/// The minimizing ply at `depth`: the opponent's best (lowest) score within
/// the window. A terminal node scores the position for the computer; no
/// move is ever reported from this ply.
pub open spec fn ab_min(
    s: Seq<u8>,
    depth: nat,
    alpha: int,
    beta: int,
    ps: bool,
    zz: bool,
    root: nat,
) -> (Option<Field>, int)
    decreases depth, 1int, 0int,
{
    if search_terminal(s, depth) {
        (None, game_value(s, 2, ps, zz))
    } else {
        (None, ab_min_loop(s, avail_fields(s), 0, depth, alpha, beta, ps, zz, root))
    }
}

/// The minimizing scan over the moves from index `i` on, with the running
/// best `min_val`: a strict improvement is kept, and the scan stops once the
/// running best falls to `alpha`.
pub open spec fn ab_min_loop(
    s: Seq<u8>,
    moves: Seq<Field>,
    i: int,
    depth: nat,
    alpha: int,
    min_val: int,
    ps: bool,
    zz: bool,
    root: nat,
) -> int
    decreases depth, 0int, moves.len() - i,
        when 1 <= depth
{
    if i < 0 || i >= moves.len() {
        min_val
    } else {
        let mv = moves[i];
        let s2 = place(s, mv.x as int, mv.y as int, 1);
        let val = ab_max(s2, (depth - 1) as nat, alpha, min_val, ps, zz, root).1;
        if val < min_val {
            if val <= alpha {
                val
            } else {
                ab_min_loop(s, moves, i + 1, depth, alpha, val, ps, zz, root)
            }
        } else {
            ab_min_loop(s, moves, i + 1, depth, alpha, min_val, ps, zz, root)
        }
    }
}

/// The maximizing ply: tries the available moves in canonical order,
/// recursing into the minimizing ply with a narrowed window, and undoes
/// every move; the board comes back unchanged. At the root depth the best
/// move found is returned alongside its score.
#[verifier::rlimit(60)]
fn max(
    depth: u8,
    alpha: i64,
    beta: i64,
    game_board_variation: &mut GameBoard,
    evaluation_cache: &mut EvalCache,
    player_started: bool,
    difficulty: &Difficulty,
) -> (r: (Option<Field>, i64))
    requires
        board_wf(old(game_board_variation)@),
        old(evaluation_cache).wf(2, player_started, difficulty.zugzwang_evaluation),
    ensures
        final(game_board_variation)@ == old(game_board_variation)@,
        final(evaluation_cache).wf(2, player_started, difficulty.zugzwang_evaluation),
        ({
            let ab = ab_max(
                old(game_board_variation)@,
                depth as nat,
                alpha as int,
                beta as int,
                player_started,
                difficulty.zugzwang_evaluation,
                difficulty.calculation_depth as nat,
            );
            r.0 == ab.0 && r.1 as int == ab.1
        }),
    decreases depth,
{
    let ghost s = game_board_variation@;
    let mut result: Option<Field> = None;
    let possible_moves = available_fields(game_board_variation);

    if depth == 0 || possible_moves.is_empty() || check_for_row(
        game_board_variation,
        COMPUTER_PLAYER,
        4,
    ).0 || check_for_row(game_board_variation, USER_PLAYER, 4).0 {
        return (
            None,
            evaluation(
                game_board_variation,
                evaluation_cache,
                COMPUTER_PLAYER,
                player_started,
                difficulty.zugzwang_evaluation,
            ),
        );
    }

    let ghost moves = possible_moves@;
    proof {
        lemma_avail_fields_props(s);
    }

    let mut max_val = alpha;
    let mut idx: usize = 0;
    while idx < possible_moves.len()
        invariant
            board_wf(s),
            s == old(game_board_variation)@,
            game_board_variation@ == s,
            evaluation_cache.wf(2, player_started, difficulty.zugzwang_evaluation),
            moves == avail_fields(s),
            possible_moves@ == moves,
            1 <= depth,
            !search_terminal(s, depth as nat),
            idx <= moves.len(),
            forall|i: int|
                0 <= i < moves.len() ==> {
                    let f = #[trigger] moves[i];
                    &&& f.x < 7
                    &&& f.y < 6
                    &&& is_available(s, f.x as int, f.y as int)
                },
            ab_max_loop(
                s,
                moves,
                0,
                depth as nat,
                alpha as int,
                beta as int,
                player_started,
                difficulty.zugzwang_evaluation,
                difficulty.calculation_depth as nat,
                None,
            ) == ab_max_loop(
                s,
                moves,
                idx as int,
                depth as nat,
                max_val as int,
                beta as int,
                player_started,
                difficulty.zugzwang_evaluation,
                difficulty.calculation_depth as nat,
                result,
            ),
        decreases moves.len() - idx,
    {
        let possible_move = possible_moves[idx];
        let ghost mval0 = max_val;
        let ghost res0 = result;
        let mx = possible_move.x as usize;
        let my = possible_move.y as usize;
        game_board_variation.set(mx, my, COMPUTER_PLAYER);
        proof {
            assert(game_board_variation@ == place(s, mx as int, my as int, 2));
        }

        let val = min(
            depth - 1,
            max_val,
            beta,
            game_board_variation,
            evaluation_cache,
            player_started,
            difficulty,
        ).1;

        game_board_variation.set(mx, my, 0);
        proof {
            assert(cell(s, mx as int, my as int) == 0);
            assert(game_board_variation@ =~= s);
        }

        if val > max_val {
            max_val = val;

            if depth == difficulty.calculation_depth {
                result = Some(possible_move);
            }

            if max_val >= beta {
                proof {
                    assert(ab_max_loop(
                        s,
                        moves,
                        idx as int,
                        depth as nat,
                        mval0 as int,
                        beta as int,
                        player_started,
                        difficulty.zugzwang_evaluation,
                        difficulty.calculation_depth as nat,
                        res0,
                    ) == (result, max_val as int));
                }
                return (result, max_val);
            }
        }
        proof {
            assert(ab_max_loop(
                s,
                moves,
                idx as int,
                depth as nat,
                mval0 as int,
                beta as int,
                player_started,
                difficulty.zugzwang_evaluation,
                difficulty.calculation_depth as nat,
                res0,
            ) == ab_max_loop(
                s,
                moves,
                idx + 1,
                depth as nat,
                max_val as int,
                beta as int,
                player_started,
                difficulty.zugzwang_evaluation,
                difficulty.calculation_depth as nat,
                result,
            ));
        }
        idx = idx + 1;
    }

    (result, max_val)
}

/// The minimizing ply: symmetric to the maximizing one, tracking the lowest
/// score, cutting off once it falls to `alpha`; never reports a move.
fn min(
    depth: u8,
    alpha: i64,
    beta: i64,
    game_board_variation: &mut GameBoard,
    evaluation_cache: &mut EvalCache,
    player_started: bool,
    difficulty: &Difficulty,
) -> (r: (Option<Field>, i64))
    requires
        board_wf(old(game_board_variation)@),
        old(evaluation_cache).wf(2, player_started, difficulty.zugzwang_evaluation),
    ensures
        final(game_board_variation)@ == old(game_board_variation)@,
        final(evaluation_cache).wf(2, player_started, difficulty.zugzwang_evaluation),
        ({
            let ab = ab_min(
                old(game_board_variation)@,
                depth as nat,
                alpha as int,
                beta as int,
                player_started,
                difficulty.zugzwang_evaluation,
                difficulty.calculation_depth as nat,
            );
            r.0 == ab.0 && r.1 as int == ab.1
        }),
    decreases depth,
{
    let ghost s = game_board_variation@;
    let possible_moves = available_fields(game_board_variation);

    if depth == 0 || possible_moves.is_empty() || check_for_row(
        game_board_variation,
        COMPUTER_PLAYER,
        4,
    ).0 || check_for_row(game_board_variation, USER_PLAYER, 4).0 {
        return (
            None,
            evaluation(
                game_board_variation,
                evaluation_cache,
                COMPUTER_PLAYER,
                player_started,
                difficulty.zugzwang_evaluation,
            ),
        );
    }

    let ghost moves = possible_moves@;
    proof {
        lemma_avail_fields_props(s);
    }

    let mut min_val = beta;
    let mut idx: usize = 0;
    while idx < possible_moves.len()
        invariant
            board_wf(s),
            s == old(game_board_variation)@,
            game_board_variation@ == s,
            evaluation_cache.wf(2, player_started, difficulty.zugzwang_evaluation),
            moves == avail_fields(s),
            possible_moves@ == moves,
            1 <= depth,
            !search_terminal(s, depth as nat),
            idx <= moves.len(),
            forall|i: int|
                0 <= i < moves.len() ==> {
                    let f = #[trigger] moves[i];
                    &&& f.x < 7
                    &&& f.y < 6
                    &&& is_available(s, f.x as int, f.y as int)
                },
            ab_min_loop(
                s,
                moves,
                0,
                depth as nat,
                alpha as int,
                beta as int,
                player_started,
                difficulty.zugzwang_evaluation,
                difficulty.calculation_depth as nat,
            ) == ab_min_loop(
                s,
                moves,
                idx as int,
                depth as nat,
                alpha as int,
                min_val as int,
                player_started,
                difficulty.zugzwang_evaluation,
                difficulty.calculation_depth as nat,
            ),
        decreases moves.len() - idx,
    {
        let possible_move = possible_moves[idx];
        let ghost minv0 = min_val;
        let mx = possible_move.x as usize;
        let my = possible_move.y as usize;
        game_board_variation.set(mx, my, USER_PLAYER);
        proof {
            assert(game_board_variation@ == place(s, mx as int, my as int, 1));
        }

        let val = max(
            depth - 1,
            alpha,
            min_val,
            game_board_variation,
            evaluation_cache,
            player_started,
            difficulty,
        ).1;

        game_board_variation.set(mx, my, 0);
        proof {
            assert(cell(s, mx as int, my as int) == 0);
            assert(game_board_variation@ =~= s);
        }

        if val < min_val {
            min_val = val;

            if min_val <= alpha {
                proof {
                    assert(ab_min_loop(
                        s,
                        moves,
                        idx as int,
                        depth as nat,
                        alpha as int,
                        minv0 as int,
                        player_started,
                        difficulty.zugzwang_evaluation,
                        difficulty.calculation_depth as nat,
                    ) == min_val as int);
                }
                return (None, min_val);
            }
        }
        proof {
            assert(ab_min_loop(
                s,
                moves,
                idx as int,
                depth as nat,
                alpha as int,
                minv0 as int,
                player_started,
                difficulty.zugzwang_evaluation,
                difficulty.calculation_depth as nat,
            ) == ab_min_loop(
                s,
                moves,
                idx + 1,
                depth as nat,
                alpha as int,
                min_val as int,
                player_started,
                difficulty.zugzwang_evaluation,
                difficulty.calculation_depth as nat,
            ));
        }
        idx = idx + 1;
    }

    (None, min_val)
}

} // verus!

verus! {

/// A move kept by the maximizing scan comes from the move list.
proof fn lemma_ab_max_loop_move(
    s: Seq<u8>,
    moves: Seq<Field>,
    i: int,
    depth: nat,
    max_val: int,
    beta: int,
    ps: bool,
    zz: bool,
    root: nat,
    result: Option<Field>,
)
    requires
        1 <= depth,
        match result {
            Some(f) => moves.contains(f),
            None => true,
        },
    ensures
        ({
            let rr = ab_max_loop(s, moves, i, depth, max_val, beta, ps, zz, root, result);
            match rr.0 {
                Some(f) => moves.contains(f),
                None => true,
            }
        }),
    decreases moves.len() - i,
{
    if i < 0 || i >= moves.len() {
    } else {
        let mv = moves[i];
        assert(moves.contains(mv));
        let s2 = place(s, mv.x as int, mv.y as int, 2);
        let val = ab_min(s2, (depth - 1) as nat, max_val, beta, ps, zz, root).1;
        if val > max_val {
            let result2 = if depth == root {
                Some(mv)
            } else {
                result
            };
            if val >= beta {
            } else {
                lemma_ab_max_loop_move(s, moves, i + 1, depth, val, beta, ps, zz, root, result2);
            }
        } else {
            lemma_ab_max_loop_move(s, moves, i + 1, depth, max_val, beta, ps, zz, root, result);
        }
    }
}

/// The move the search reports is one of the legal moves of the position.
pub proof fn lemma_ab_max_move(
    s: Seq<u8>,
    depth: nat,
    alpha: int,
    beta: int,
    ps: bool,
    zz: bool,
    root: nat,
)
    ensures
        ({
            let ab = ab_max(s, depth, alpha, beta, ps, zz, root);
            match ab.0 {
                Some(f) => avail_fields(s).contains(f),
                None => true,
            }
        }),
{
    if !search_terminal(s, depth) {
        lemma_ab_max_loop_move(s, avail_fields(s), 0, depth, alpha, beta, ps, zz, root, None);
    }
}

/// Relies on rand's `SliceRandom::choose` with `thread_rng`: some element
/// of the non-empty list is returned; which one is up to the generator.
#[verifier::external_body]
fn choose_random_field(fields: &Vec<Field>) -> (r: Field)
    requires
        fields@.len() > 0,
    ensures
        fields@.contains(r),
{
    *fields.choose(&mut rand::thread_rng()).unwrap()
}

/// Computes the computer's move for the given position: the alpha-beta
/// search from the root window picks the move and its score, which by
/// `lemma_alpha_beta_equals_minimax` is the full-width minimax value of the
/// position at the configured depth; when the
/// search concedes (no move improves on a certain loss) but moves remain, a
/// random legal move is played instead. The chosen move is written into the
/// board as the computer's mark, and the outcome reports whether it
/// completed a row for either side, or whether a full board ended in a
/// draw.
pub fn next_move(
    game_board: &mut GameBoard,
    computer_started: bool,
    difficulty: &Difficulty,
) -> (r: (Option<Field>, i64, NextMoveResult))
    requires
        board_wf(old(game_board)@),
        !(avail_fields(old(game_board)@).len() == 0 && has_row(old(game_board)@, 1, 4)),
    ensures
        ({
            let s = old(game_board)@;
            let ab = ab_max(
                s,
                difficulty.calculation_depth as nat,
                -(i64::MAX as int),
                i64::MAX as int,
                computer_started,
                difficulty.zugzwang_evaluation,
                difficulty.calculation_depth as nat,
            );
            if avail_fields(s).len() == 0 {
                r == (None::<Field>, 0i64, NextMoveResult::Draw) && final(game_board)@ == s
            } else {
                match r.0 {
                    Some(f) => {
                        let after = place(s, f.x as int, f.y as int, 2);
                        &&& (ab.0 is Some ==> r.0 == ab.0)
                        &&& avail_fields(s).contains(f)
                        &&& r.1 as int == ab.1
                        &&& final(game_board)@ == after
                        &&& r.2 == (if has_row(after, 2, 4) {
                            NextMoveResult::ComputerWins
                        } else if has_row(after, 1, 4) {
                            NextMoveResult::PlayerWins
                        } else {
                            NextMoveResult::NextMove
                        })
                    },
                    None => false,
                }
            }
        }),
{
    let ghost s = game_board@;
    let mut evaluation_cache = EvalCache::new();

    let search_result = max(
        difficulty.calculation_depth,
        MIN_SCORE,
        MAX_SCORE,
        game_board,
        &mut evaluation_cache,
        computer_started,
        difficulty,
    );
    let mut field = search_result.0;
    let val = search_result.1;
    let mut next_move_result = NextMoveResult::NextMove;

    let free_fields = available_fields(game_board);
    proof {
        lemma_ab_max_move(
            s,
            difficulty.calculation_depth as nat,
            MIN_SCORE as int,
            MAX_SCORE as int,
            computer_started,
            difficulty.zugzwang_evaluation,
            difficulty.calculation_depth as nat,
        );
        lemma_avail_fields_props(s);
    }

    if field.is_none() && !free_fields.is_empty() {
        field = Some(choose_random_field(&free_fields));
    }

    if free_fields.is_empty() && val != MIN_SCORE {
        return (None, 0, NextMoveResult::Draw);
    }

    proof {
        if free_fields@.len() == 0 {
            lemma_position_value_range(s, 2);
            lemma_position_value_range(s, 1);
            lemma_zugzwang_result_range(eval_candidates(s, 2), 2, computer_started);
            assert(false);
        }
        let f = field.unwrap();
        let i = choose|i: int| 0 <= i < avail_fields(s).len() && avail_fields(s)[i] == f;
        assert(avail_fields(s)[i].x < 7 && avail_fields(s)[i].y < 6 && is_available(
            s,
            f.x as int,
            f.y as int,
        ));
    }
    let f = field.unwrap();
    game_board.set(f.x as usize, f.y as usize, COMPUTER_PLAYER);
    if check_for_row(game_board, COMPUTER_PLAYER, 4).0 {
        next_move_result = NextMoveResult::ComputerWins;
    } else if check_for_row(game_board, USER_PLAYER, 4).0 {
        next_move_result = NextMoveResult::PlayerWins;
    }

    (field, val, next_move_result)
}

} // verus!

verus! {

/// The larger of two values.
pub open spec fn imax(a: int, b: int) -> int {
    if a >= b {
        a
    } else {
        b
    }
}

/// The smaller of two values.
pub open spec fn imin(a: int, b: int) -> int {
    if a <= b {
        a
    } else {
        b
    }
}

/// The full-width maximizing ply: the best score over every move, with no
/// pruning window.
pub open spec fn mm_max(s: Seq<u8>, depth: nat, ps: bool, zz: bool) -> int
    decreases depth, 1int, 0int,
{
    if search_terminal(s, depth) {
        game_value(s, 2, ps, zz)
    } else {
        mm_max_from(s, avail_fields(s), 0, depth, ps, zz)
    }
}

/// The best score over the moves from index `i` on, maximizing.
pub open spec fn mm_max_from(s: Seq<u8>, moves: Seq<Field>, i: int, depth: nat, ps: bool, zz: bool) -> int
    decreases depth, 0int, moves.len() - i,
        when 1 <= depth
{
    if i < 0 || i >= moves.len() {
        0
    } else {
        let mv = moves[i];
        let v = mm_min(place(s, mv.x as int, mv.y as int, 2), (depth - 1) as nat, ps, zz);
        if i + 1 >= moves.len() {
            v
        } else {
            imax(v, mm_max_from(s, moves, i + 1, depth, ps, zz))
        }
    }
}

/// The full-width minimizing ply: the lowest score over every move, with no
/// pruning window.
pub open spec fn mm_min(s: Seq<u8>, depth: nat, ps: bool, zz: bool) -> int
    decreases depth, 1int, 0int,
{
    if search_terminal(s, depth) {
        game_value(s, 2, ps, zz)
    } else {
        mm_min_from(s, avail_fields(s), 0, depth, ps, zz)
    }
}

/// The lowest score over the moves from index `i` on, minimizing.
pub open spec fn mm_min_from(s: Seq<u8>, moves: Seq<Field>, i: int, depth: nat, ps: bool, zz: bool) -> int
    decreases depth, 0int, moves.len() - i,
        when 1 <= depth
{
    if i < 0 || i >= moves.len() {
        0
    } else {
        let mv = moves[i];
        let v = mm_max(place(s, mv.x as int, mv.y as int, 1), (depth - 1) as nat, ps, zz);
        if i + 1 >= moves.len() {
            v
        } else {
            imin(v, mm_min_from(s, moves, i + 1, depth, ps, zz))
        }
    }
}

/// Full-width values are scores of positions, so they stay representable.
proof fn lemma_mm_max_bounds(s: Seq<u8>, depth: nat, ps: bool, zz: bool)
    ensures
        -(i64::MAX as int) <= mm_max(s, depth, ps, zz) <= i64::MAX as int,
    decreases depth, 1int, 0int,
{
    if search_terminal(s, depth) {
        lemma_game_value_bounds(s, 2, ps, zz);
    } else {
        lemma_mm_max_from_bounds(s, avail_fields(s), 0, depth, ps, zz);
    }
}

proof fn lemma_mm_max_from_bounds(
    s: Seq<u8>,
    moves: Seq<Field>,
    i: int,
    depth: nat,
    ps: bool,
    zz: bool,
)
    requires
        1 <= depth,
        0 <= i < moves.len(),
    ensures
        -(i64::MAX as int) <= mm_max_from(s, moves, i, depth, ps, zz) <= i64::MAX as int,
    decreases depth, 0int, moves.len() - i,
{
    let mv = moves[i];
    lemma_mm_min_bounds(place(s, mv.x as int, mv.y as int, 2), (depth - 1) as nat, ps, zz);
    if i + 1 < moves.len() {
        lemma_mm_max_from_bounds(s, moves, i + 1, depth, ps, zz);
    }
}

proof fn lemma_mm_min_bounds(s: Seq<u8>, depth: nat, ps: bool, zz: bool)
    ensures
        -(i64::MAX as int) <= mm_min(s, depth, ps, zz) <= i64::MAX as int,
    decreases depth, 1int, 0int,
{
    if search_terminal(s, depth) {
        lemma_game_value_bounds(s, 2, ps, zz);
    } else {
        lemma_mm_min_from_bounds(s, avail_fields(s), 0, depth, ps, zz);
    }
}

proof fn lemma_mm_min_from_bounds(
    s: Seq<u8>,
    moves: Seq<Field>,
    i: int,
    depth: nat,
    ps: bool,
    zz: bool,
)
    requires
        1 <= depth,
        0 <= i < moves.len(),
    ensures
        -(i64::MAX as int) <= mm_min_from(s, moves, i, depth, ps, zz) <= i64::MAX as int,
    decreases depth, 0int, moves.len() - i,
{
    let mv = moves[i];
    lemma_mm_max_bounds(place(s, mv.x as int, mv.y as int, 1), (depth - 1) as nat, ps, zz);
    if i + 1 < moves.len() {
        lemma_mm_min_from_bounds(s, moves, i + 1, depth, ps, zz);
    }
}

/// Within a representable window, the pruned maximizing value stays
/// representable and never falls below the running maximum.
proof fn lemma_ab_max_bounds(
    s: Seq<u8>,
    depth: nat,
    alpha: int,
    beta: int,
    ps: bool,
    zz: bool,
    root: nat,
)
    requires
        -(i64::MAX as int) <= alpha <= i64::MAX as int,
        -(i64::MAX as int) <= beta <= i64::MAX as int,
    ensures
        -(i64::MAX as int) <= ab_max(s, depth, alpha, beta, ps, zz, root).1 <= i64::MAX as int,
    decreases depth, 1int, 0int,
{
    if search_terminal(s, depth) {
        lemma_game_value_bounds(s, 2, ps, zz);
    } else {
        lemma_ab_max_loop_bounds(s, avail_fields(s), 0, depth, alpha, beta, ps, zz, root, None);
    }
}

proof fn lemma_ab_max_loop_bounds(
    s: Seq<u8>,
    moves: Seq<Field>,
    i: int,
    depth: nat,
    max_val: int,
    beta: int,
    ps: bool,
    zz: bool,
    root: nat,
    result: Option<Field>,
)
    requires
        1 <= depth,
        -(i64::MAX as int) <= max_val <= i64::MAX as int,
        -(i64::MAX as int) <= beta <= i64::MAX as int,
    ensures
        ({
            let r = ab_max_loop(s, moves, i, depth, max_val, beta, ps, zz, root, result).1;
            max_val <= r <= i64::MAX as int
        }),
    decreases depth, 0int, moves.len() - i,
{
    if i < 0 || i >= moves.len() {
    } else {
        let mv = moves[i];
        let s2 = place(s, mv.x as int, mv.y as int, 2);
        lemma_ab_min_bounds(s2, (depth - 1) as nat, max_val, beta, ps, zz, root);
        let val = ab_min(s2, (depth - 1) as nat, max_val, beta, ps, zz, root).1;
        if val > max_val {
            let result2 = if depth == root {
                Some(mv)
            } else {
                result
            };
            if val >= beta {
            } else {
                lemma_ab_max_loop_bounds(s, moves, i + 1, depth, val, beta, ps, zz, root, result2);
            }
        } else {
            lemma_ab_max_loop_bounds(s, moves, i + 1, depth, max_val, beta, ps, zz, root, result);
        }
    }
}

/// Within a representable window, the pruned minimizing value stays
/// representable and never exceeds the running minimum.
proof fn lemma_ab_min_bounds(
    s: Seq<u8>,
    depth: nat,
    alpha: int,
    beta: int,
    ps: bool,
    zz: bool,
    root: nat,
)
    requires
        -(i64::MAX as int) <= alpha <= i64::MAX as int,
        -(i64::MAX as int) <= beta <= i64::MAX as int,
    ensures
        -(i64::MAX as int) <= ab_min(s, depth, alpha, beta, ps, zz, root).1 <= i64::MAX as int,
    decreases depth, 1int, 0int,
{
    if search_terminal(s, depth) {
        lemma_game_value_bounds(s, 2, ps, zz);
    } else {
        lemma_ab_min_loop_bounds(s, avail_fields(s), 0, depth, alpha, beta, ps, zz, root);
    }
}

proof fn lemma_ab_min_loop_bounds(
    s: Seq<u8>,
    moves: Seq<Field>,
    i: int,
    depth: nat,
    alpha: int,
    min_val: int,
    ps: bool,
    zz: bool,
    root: nat,
)
    requires
        1 <= depth,
        -(i64::MAX as int) <= alpha <= i64::MAX as int,
        -(i64::MAX as int) <= min_val <= i64::MAX as int,
    ensures
        ({
            let r = ab_min_loop(s, moves, i, depth, alpha, min_val, ps, zz, root);
            -(i64::MAX as int) <= r <= min_val
        }),
    decreases depth, 0int, moves.len() - i,
{
    if i < 0 || i >= moves.len() {
    } else {
        let mv = moves[i];
        let s2 = place(s, mv.x as int, mv.y as int, 1);
        lemma_ab_max_bounds(s2, (depth - 1) as nat, alpha, min_val, ps, zz, root);
        let val = ab_max(s2, (depth - 1) as nat, alpha, min_val, ps, zz, root).1;
        if val < min_val {
            if val <= alpha {
            } else {
                lemma_ab_min_loop_bounds(s, moves, i + 1, depth, alpha, val, ps, zz, root);
            }
        } else {
            lemma_ab_min_loop_bounds(s, moves, i + 1, depth, alpha, min_val, ps, zz, root);
        }
    }
}

} // verus!

verus! {

/// A value clamped into the window `[a, b]`.
pub open spec fn clampw(a: int, b: int, x: int) -> int {
    imax(a, imin(b, x))
}

/// The maximizing scan never returns less than its running maximum.
proof fn lemma_ab_max_loop_ge(
    s: Seq<u8>,
    moves: Seq<Field>,
    i: int,
    depth: nat,
    max_val: int,
    beta: int,
    ps: bool,
    zz: bool,
    root: nat,
    result: Option<Field>,
)
    requires
        1 <= depth,
    ensures
        ab_max_loop(s, moves, i, depth, max_val, beta, ps, zz, root, result).1 >= max_val,
    decreases depth, 0int, moves.len() - i,
{
    if i < 0 || i >= moves.len() {
    } else {
        let mv = moves[i];
        let s2 = place(s, mv.x as int, mv.y as int, 2);
        let val = ab_min(s2, (depth - 1) as nat, max_val, beta, ps, zz, root).1;
        if val > max_val {
            let result2 = if depth == root {
                Some(mv)
            } else {
                result
            };
            if val >= beta {
            } else {
                lemma_ab_max_loop_ge(s, moves, i + 1, depth, val, beta, ps, zz, root, result2);
            }
        } else {
            lemma_ab_max_loop_ge(s, moves, i + 1, depth, max_val, beta, ps, zz, root, result);
        }
    }
}

/// The minimizing scan never returns more than its running minimum.
proof fn lemma_ab_min_loop_le(
    s: Seq<u8>,
    moves: Seq<Field>,
    i: int,
    depth: nat,
    alpha: int,
    min_val: int,
    ps: bool,
    zz: bool,
    root: nat,
)
    requires
        1 <= depth,
    ensures
        ab_min_loop(s, moves, i, depth, alpha, min_val, ps, zz, root) <= min_val,
    decreases depth, 0int, moves.len() - i,
{
    if i < 0 || i >= moves.len() {
    } else {
        let mv = moves[i];
        let s2 = place(s, mv.x as int, mv.y as int, 1);
        let val = ab_max(s2, (depth - 1) as nat, alpha, min_val, ps, zz, root).1;
        if val < min_val {
            if val <= alpha {
            } else {
                lemma_ab_min_loop_le(s, moves, i + 1, depth, alpha, val, ps, zz, root);
            }
        } else {
            lemma_ab_min_loop_le(s, moves, i + 1, depth, alpha, min_val, ps, zz, root);
        }
    }
}

/// Within its window, the pruned maximizing value clamps to the same value
/// as the full-width one: pruning never changes what the window can see.
proof fn lemma_ab_mm_max(
    s: Seq<u8>,
    depth: nat,
    alpha: int,
    beta: int,
    ps: bool,
    zz: bool,
    root: nat,
)
    requires
        alpha < beta,
    ensures
        clampw(alpha, beta, ab_max(s, depth, alpha, beta, ps, zz, root).1) == clampw(
            alpha,
            beta,
            mm_max(s, depth, ps, zz),
        ),
    decreases depth, 1int, 0int,
{
    if search_terminal(s, depth) {
    } else {
        lemma_ab_mm_max_loop(s, avail_fields(s), 0, depth, alpha, beta, ps, zz, root, None);
    }
}

proof fn lemma_ab_mm_max_loop(
    s: Seq<u8>,
    moves: Seq<Field>,
    i: int,
    depth: nat,
    max_val: int,
    beta: int,
    ps: bool,
    zz: bool,
    root: nat,
    result: Option<Field>,
)
    requires
        1 <= depth,
        0 <= i < moves.len(),
        max_val < beta,
    ensures
        clampw(max_val, beta, ab_max_loop(s, moves, i, depth, max_val, beta, ps, zz, root, result).1)
            == clampw(max_val, beta, mm_max_from(s, moves, i, depth, ps, zz)),
    decreases depth, 0int, moves.len() - i,
{
    let mv = moves[i];
    let s2 = place(s, mv.x as int, mv.y as int, 2);
    lemma_ab_mm_min(s2, (depth - 1) as nat, max_val, beta, ps, zz, root);
    let val = ab_min(s2, (depth - 1) as nat, max_val, beta, ps, zz, root).1;
    let v = mm_min(s2, (depth - 1) as nat, ps, zz);
    let result2 = if depth == root {
        Some(mv)
    } else {
        result
    };

    if i + 1 >= moves.len() {
        assert(ab_max_loop(s, moves, i + 1, depth, val, beta, ps, zz, root, result2) == (
            result2,
            val,
        ));
        assert(ab_max_loop(s, moves, i + 1, depth, max_val, beta, ps, zz, root, result) == (
            result,
            max_val,
        ));
        assert(ab_max_loop(s, moves, i, depth, max_val, beta, ps, zz, root, result).1 == imax(
            max_val,
            val,
        ));
        assert(mm_max_from(s, moves, i, depth, ps, zz) == v);
    } else {
        let m_rest = mm_max_from(s, moves, i + 1, depth, ps, zz);
        assert(mm_max_from(s, moves, i, depth, ps, zz) == imax(v, m_rest));
        if val > max_val {
            if val >= beta {
                assert(clampw(max_val, beta, val) == beta);
                assert(clampw(max_val, beta, v) == beta);
                assert(v >= beta);
            } else {
                lemma_ab_mm_max_loop(s, moves, i + 1, depth, val, beta, ps, zz, root, result2);
                lemma_ab_max_loop_ge(s, moves, i + 1, depth, val, beta, ps, zz, root, result2);
                let lr = ab_max_loop(s, moves, i + 1, depth, val, beta, ps, zz, root, result2).1;
                assert(clampw(val, beta, lr) == clampw(val, beta, m_rest));
                assert(v == val);
                if m_rest <= val {
                    assert(clampw(val, beta, m_rest) == val);
                    assert(lr == val || imin(beta, lr) <= val);
                    assert(clampw(max_val, beta, lr) == val);
                } else {
                }
            }
        } else {
            lemma_ab_mm_max_loop(s, moves, i + 1, depth, max_val, beta, ps, zz, root, result);
            assert(clampw(max_val, beta, val) == max_val);
            assert(v <= max_val);
        }
    }
}

/// Within its window, the pruned minimizing value clamps to the same value
/// as the full-width one.
proof fn lemma_ab_mm_min(
    s: Seq<u8>,
    depth: nat,
    alpha: int,
    beta: int,
    ps: bool,
    zz: bool,
    root: nat,
)
    requires
        alpha < beta,
    ensures
        clampw(alpha, beta, ab_min(s, depth, alpha, beta, ps, zz, root).1) == clampw(
            alpha,
            beta,
            mm_min(s, depth, ps, zz),
        ),
    decreases depth, 1int, 0int,
{
    if search_terminal(s, depth) {
    } else {
        lemma_ab_mm_min_loop(s, avail_fields(s), 0, depth, alpha, beta, ps, zz, root);
    }
}

proof fn lemma_ab_mm_min_loop(
    s: Seq<u8>,
    moves: Seq<Field>,
    i: int,
    depth: nat,
    alpha: int,
    min_val: int,
    ps: bool,
    zz: bool,
    root: nat,
)
    requires
        1 <= depth,
        0 <= i < moves.len(),
        alpha < min_val,
    ensures
        clampw(alpha, min_val, ab_min_loop(s, moves, i, depth, alpha, min_val, ps, zz, root))
            == clampw(alpha, min_val, mm_min_from(s, moves, i, depth, ps, zz)),
    decreases depth, 0int, moves.len() - i,
{
    let mv = moves[i];
    let s2 = place(s, mv.x as int, mv.y as int, 1);
    lemma_ab_mm_max(s2, (depth - 1) as nat, alpha, min_val, ps, zz, root);
    let val = ab_max(s2, (depth - 1) as nat, alpha, min_val, ps, zz, root).1;
    let v = mm_max(s2, (depth - 1) as nat, ps, zz);

    if i + 1 >= moves.len() {
        assert(ab_min_loop(s, moves, i + 1, depth, alpha, val, ps, zz, root) == val);
        assert(ab_min_loop(s, moves, i + 1, depth, alpha, min_val, ps, zz, root) == min_val);
        assert(ab_min_loop(s, moves, i, depth, alpha, min_val, ps, zz, root) == imin(
            min_val,
            val,
        ));
        assert(mm_min_from(s, moves, i, depth, ps, zz) == v);
    } else {
        let m_rest = mm_min_from(s, moves, i + 1, depth, ps, zz);
        assert(mm_min_from(s, moves, i, depth, ps, zz) == imin(v, m_rest));
        if val < min_val {
            if val <= alpha {
                assert(clampw(alpha, min_val, val) == alpha);
                assert(clampw(alpha, min_val, v) == alpha);
                assert(v <= alpha);
            } else {
                lemma_ab_mm_min_loop(s, moves, i + 1, depth, alpha, val, ps, zz, root);
                lemma_ab_min_loop_le(s, moves, i + 1, depth, alpha, val, ps, zz, root);
                let lr = ab_min_loop(s, moves, i + 1, depth, alpha, val, ps, zz, root);
                assert(clampw(alpha, val, lr) == clampw(alpha, val, m_rest));
                assert(v == val);
                if m_rest >= val {
                    assert(clampw(alpha, val, m_rest) == val);
                    assert(clampw(alpha, min_val, lr) == val);
                } else {
                }
            }
        } else {
            lemma_ab_mm_min_loop(s, moves, i + 1, depth, alpha, min_val, ps, zz, root);
            assert(clampw(alpha, min_val, val) == min_val);
            assert(v >= min_val);
        }
    }
}

/// Pruning does not change the search's answer: from the full root window,
/// the alpha-beta value of a position equals the full-width minimax value at
/// the same depth. Pruning saves work, never accuracy.
pub proof fn lemma_alpha_beta_equals_minimax(s: Seq<u8>, depth: nat, ps: bool, zz: bool, root: nat)
    ensures
        ab_max(s, depth, -(i64::MAX as int), i64::MAX as int, ps, zz, root).1 == mm_max(
            s,
            depth,
            ps,
            zz,
        ),
{
    let a = -(i64::MAX as int);
    let b = i64::MAX as int;
    lemma_ab_mm_max(s, depth, a, b, ps, zz, root);
    lemma_ab_max_bounds(s, depth, a, b, ps, zz, root);
    lemma_mm_max_bounds(s, depth, ps, zz);
}

} // verus!
