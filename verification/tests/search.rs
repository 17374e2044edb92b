use std::time::Instant;

use connect4_server::NextMoveResult::{self, Draw, NextMove};
use connect4_server::{
    available_fields, check_for_row, evaluate_threats, evaluate_zugzwang_positions, evaluation,
    next_move, sort_zugzwang_list, Difficulty, EvalCache, Field, GameBoard, Zugzwang, MAX_SCORE,
    USER_PLAYER,
};

#[test]
fn test_basic_dilemma() {
    let mut game_board = GameBoard::new();
    game_board.set(1, 5, USER_PLAYER);
    game_board.set(2, 5, USER_PLAYER);
    game_board.set(3, 5, USER_PLAYER);

    let next_move_result = next_move(&mut game_board, false, &Difficulty::from_int(3));

    assert!(next_move_result.0.is_some());
    assert_eq!(-MAX_SCORE, next_move_result.1);
    assert_eq!(NextMove, next_move_result.2);
}

#[test]
fn test_basic_row_avert() {
    let mut game_board = GameBoard::new();
    game_board.set(0, 5, USER_PLAYER);
    game_board.set(1, 5, USER_PLAYER);
    game_board.set(2, 5, USER_PLAYER);

    let next_move = next_move(&mut game_board, false, &Difficulty::from_int(3))
        .0
        .unwrap();
    assert_eq!((3, 5), (next_move.x, next_move.y));
}

#[test]
fn test_start_move() {
    let mut game_board = GameBoard::new();
    game_board.set(3, 5, USER_PLAYER);

    let next_move = next_move(&mut game_board, false, &Difficulty::from_int(3))
        .0
        .unwrap();
    assert_eq!((3, 4), (next_move.x, next_move.y));
}

#[test]
fn performance_test() {
    let mut game_board = GameBoard::new();
    game_board.set(3, 5, USER_PLAYER);

    let now = Instant::now();

    let next_move = next_move(&mut game_board, false, &Difficulty::from_int(3))
        .0
        .unwrap();

    let elapsed = now.elapsed();
    println!("Elapsed: {:.2?}", elapsed);
    assert_eq!((3, 4), (next_move.x, next_move.y));
}

#[test]
fn test_difficulty_setting() {
    let grid: [[u8; 7]; 6] = [
        [0, 0, 1, 2, 1, 2, 0],
        [0, 0, 1, 2, 2, 1, 0],
        [0, 0, 1, 1, 1, 2, 0],
        [0, 0, 2, 2, 2, 1, 0],
        [0, 2, 2, 1, 1, 2, 0],
        [0, 1, 1, 2, 2, 2, 1],
    ];

    let mut game_board = GameBoard::from(grid);
    assert_eq!(
        -100014000,
        evaluation(&game_board, &mut EvalCache::default(), 1, false, true)
    );

    assert_eq!(
        -14000,
        evaluation(&game_board, &mut EvalCache::default(), 1, false, false)
    );

    assert_ne!(
        next_move(&mut game_board, true, &Difficulty::from_int(0)),
        next_move(&mut game_board, true, &Difficulty::from_int(3))
    )
}

// The random fallback in a lost position still plays a legal move: an
// empty, grounded cell of the position it was given.
#[test]
fn fallback_move_is_legal() {
    let mut game_board = GameBoard::new();
    game_board.set(1, 5, USER_PLAYER);
    game_board.set(2, 5, USER_PLAYER);
    game_board.set(3, 5, USER_PLAYER);

    let mut reference = GameBoard::new();
    reference.set(1, 5, USER_PLAYER);
    reference.set(2, 5, USER_PLAYER);
    reference.set(3, 5, USER_PLAYER);
    let legal = available_fields(&reference);

    let result = next_move(&mut game_board, false, &Difficulty::from_int(0));
    let field = result.0.unwrap();
    assert!(legal.contains(&field));
    assert_eq!(2, game_board.get(field.x as usize, field.y as usize));
}

// A full board with no completed row is reported as a draw, the board
// untouched and no move returned.
#[test]
fn full_board_is_draw() {
    let grid: [[u8; 7]; 6] = [
        [1, 1, 2, 2, 1, 1, 2],
        [2, 2, 1, 1, 2, 2, 1],
        [1, 1, 2, 2, 1, 1, 2],
        [2, 2, 1, 1, 2, 2, 1],
        [1, 1, 2, 2, 1, 1, 2],
        [2, 2, 1, 1, 2, 2, 1],
    ];
    let mut game_board = GameBoard::from(grid);
    let result = next_move(&mut game_board, false, &Difficulty::from_int(1));
    assert_eq!((None, 0, Draw), result);
}

// Winning and losing moves are reported as such: completing a computer row
// yields the computer-wins outcome.
#[test]
fn computer_win_is_reported() {
    let mut game_board = GameBoard::new();
    game_board.set(0, 5, 2);
    game_board.set(1, 5, 2);
    game_board.set(2, 5, 2);

    let result = next_move(&mut game_board, true, &Difficulty::from_int(0));
    assert_eq!(NextMoveResult::ComputerWins, result.2);
    assert_eq!(MAX_SCORE, result.1);
    assert!(check_for_row(&game_board, 2, 4).0);
}

// Swapping the scored player negates the evaluation when the zugzwang term
// is off.
#[test]
fn evaluation_antisymmetry() {
    let grid: [[u8; 7]; 6] = [
        [0, 0, 0, 0, 0, 0, 0],
        [0, 0, 0, 0, 0, 0, 0],
        [0, 0, 0, 0, 0, 0, 0],
        [0, 0, 0, 2, 0, 0, 0],
        [0, 0, 2, 1, 0, 0, 0],
        [0, 2, 1, 1, 2, 0, 0],
    ];
    let game_board = GameBoard::from(grid);
    let for_computer = evaluation(&game_board, &mut EvalCache::new(), 2, false, false);
    let for_user = evaluation(&game_board, &mut EvalCache::new(), 1, false, false);
    assert_eq!(for_computer, -for_user);
}

// Flipping both the scored player and the starting flag negates the
// zugzwang simulation's outcome.
#[test]
fn zugzwang_antisymmetry() {
    let zugzwang_list = vec![
        Zugzwang::create(Field::new(0, 3), 2),
        Zugzwang::create(Field::new(0, 2), 1),
        Zugzwang::create(Field::new(4, 4), 2),
    ];
    let a = evaluate_zugzwang_positions(zugzwang_list.clone(), 2, true);
    let b = evaluate_zugzwang_positions(zugzwang_list, 1, false);
    assert_eq!(a, -b);
}

// Identical candidate lists and an identical starting flag always produce
// identical outcomes.
#[test]
fn zugzwang_simulation_deterministic() {
    let zugzwang_list = vec![
        Zugzwang::create(Field::new(1, 1), 1),
        Zugzwang::create(Field::new(1, 3), 2),
        Zugzwang::create(Field::new(5, 0), 2),
        Zugzwang::create(Field::new(5, 2), 1),
    ];
    let first = evaluate_zugzwang_positions(zugzwang_list.clone(), 1, true);
    let second = evaluate_zugzwang_positions(zugzwang_list, 1, true);
    assert_eq!(first, second);
}

// Grouping is canonical: two candidate lists with the same per-column
// candidates in the same relative order group identically, whatever order
// the columns were interleaved in.
#[test]
fn sort_zugzwang_list_canonical() {
    let interleaved = vec![
        Zugzwang::create(Field::new(4, 2), 1),
        Zugzwang::create(Field::new(1, 3), 2),
        Zugzwang::create(Field::new(4, 4), 2),
        Zugzwang::create(Field::new(1, 1), 1),
    ];
    let by_column = vec![
        Zugzwang::create(Field::new(1, 3), 2),
        Zugzwang::create(Field::new(1, 1), 1),
        Zugzwang::create(Field::new(4, 2), 1),
        Zugzwang::create(Field::new(4, 4), 2),
    ];
    let grouped1 = sort_zugzwang_list(interleaved);
    let grouped2 = sort_zugzwang_list(by_column);
    assert_eq!(grouped1, grouped2);

    let flat1: Vec<Zugzwang> = grouped1.values().flatten().cloned().collect();
    let flat2: Vec<Zugzwang> = grouped2.values().flatten().cloned().collect();
    assert_eq!(flat1, flat2);
}

// No enumerated move is floating or occupied: every move sits on an empty
// cell that is grounded.
#[test]
fn available_fields_are_grounded_and_empty() {
    let mut game_board = GameBoard::new();
    game_board.set(2, 5, 1);
    game_board.set(2, 4, 2);
    game_board.set(5, 5, 2);

    for field in available_fields(&game_board) {
        let x = field.x as usize;
        let y = field.y as usize;
        assert_eq!(0, game_board.get(x, y));
        assert!(y == 5 || game_board.get(x, y + 1) != 0);
    }
}

// A mirrored board holds a row exactly when the original does.
#[test]
fn check_for_row_mirror_consistent() {
    let grid: [[u8; 7]; 6] = [
        [0, 0, 0, 0, 0, 0, 0],
        [0, 0, 0, 0, 0, 0, 0],
        [0, 0, 1, 0, 0, 0, 0],
        [0, 0, 0, 1, 0, 0, 0],
        [0, 0, 0, 0, 1, 0, 0],
        [0, 0, 0, 0, 0, 1, 0],
    ];
    let mut mirrored = [[0u8; 7]; 6];
    for y in 0..6 {
        for x in 0..7 {
            mirrored[y][6 - x] = grid[y][x];
        }
    }
    assert_eq!(
        check_for_row(&GameBoard::from(grid), 1, 4).0,
        check_for_row(&GameBoard::from(mirrored), 1, 4).0
    );
    assert_eq!(
        check_for_row(&GameBoard::from(grid), 2, 4).0,
        check_for_row(&GameBoard::from(mirrored), 2, 4).0
    );
}

// The empty board has no threats for either player.
#[test]
fn empty_board_has_no_threats() {
    let game_board = GameBoard::new();
    assert_eq!(0, evaluate_threats(&game_board, 1, 4, &mut Vec::new()));
    assert_eq!(0, evaluate_threats(&game_board, 2, 4, &mut Vec::new()));
    assert!(!check_for_row(&game_board, 1, 4).0);
    assert!(!check_for_row(&game_board, 2, 4).0);
}

// An exact evaluation value: one computer threat on an otherwise scored
// board, with the zugzwang term off.
#[test]
fn evaluation_exact_value() {
    let grid: [[u8; 7]; 6] = [
        [0, 0, 0, 0, 0, 0, 0],
        [0, 0, 0, 0, 0, 0, 0],
        [0, 0, 0, 0, 0, 0, 0],
        [0, 0, 0, 0, 0, 0, 0],
        [0, 0, 0, 0, 0, 0, 0],
        [0, 2, 2, 2, 0, 0, 0],
    ];
    let game_board = GameBoard::from(grid);
    // two horizontal threat windows (gap left of and right of the run), and
    // centrality 1 + 2 + 3 = 6 for the computer, nothing for the user
    assert_eq!(
        2 * 10000 + 6000,
        evaluation(&game_board, &mut EvalCache::new(), 2, false, false)
    );
}
