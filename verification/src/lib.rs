//! Engine for an automated connect-four player on a 7x6 board: win detection,
//! threat counting, a rule-based zugzwang simulation, and a depth-limited
//! alpha-beta search that picks the computer's next move.

pub mod board;
pub mod eval;
pub mod rows;
pub mod search;
pub mod threats;
pub mod zugzwang;

pub use board::available_fields;
pub use board::evaluate_field_position;
pub use board::other_player;
pub use board::Field;
pub use board::GameBoard;
pub use board::COMPUTER_PLAYER;
pub use board::HEIGHT;
pub use board::USER_PLAYER;
pub use board::WIDTH;
pub use eval::evaluate_game_position;
pub use eval::evaluation;
pub use eval::EvalCache;
pub use eval::MAX_SCORE;
pub use rows::check_for_row;
pub use search::next_move;
pub use search::Difficulty;
pub use search::NextMoveInfo;
pub use search::NextMoveResult;
pub use threats::check_sequence_diagonal;
pub use threats::check_sequence_diagonal_mirrored;
pub use threats::check_sequence_horizontal;
pub use threats::evaluate_threats;
pub use threats::Zugzwang;
pub use zugzwang::evaluate_zugzwang_positions;
pub use zugzwang::sort_zugzwang_list;
