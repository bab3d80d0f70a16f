//! Core of a two-player territory-capture grid game: players claim empty
//! squares by moving next to an owned square (a take) or leaping two squares
//! (a jump); each move converts surrounding opponent squares. A fixed-depth
//! minimax search picks the next move.

use vstd::prelude::*;

pub mod apply;
pub mod board;
pub mod codec;
pub mod moves;
pub mod player;
pub mod search;

pub use board::Board;
pub use board::Position;
pub use board::MAX_EDGE;
pub use player::Player;

verus! {

/// What can go wrong: a board string that is not a square grid of rows, or
/// a move that the rules do not allow on the given board.
#[derive(Clone, Copy, PartialEq, Eq, Structural, Debug)]
pub enum GameError {
    MalformedBoard,
    IllegalMove,
}

/// The search depth of the host-facing move computation.
pub const AI_DEPTH: u8 = 3;

/// Flip a one-character player tag: "1" becomes "2", "2" becomes "1",
/// anything else "0".
pub fn invert_player(player_string: &str) -> (r: String)
    ensures
        r@ == seq![Player::spec_of_string(player_string@).spec_other().player_char()],
{
    let start_player = Player::parse_string(player_string);
    let new_player = start_player.other_player();
    new_player.to_string().to_owned()
}

/// The move the search picks for player two on the given board, to the
/// fixed depth, as "r1,c1>r2,c2"; empty when the board string is malformed
/// or player two has no move.
pub fn calc_next_move(board_string: &str) -> (r: String)
    ensures
        (forall|e: int| !codec::valid_board_string(board_string@, e)) ==> r@ == Seq::<
            char,
        >::empty(),
        (exists|e: int| codec::valid_board_string(board_string@, e)) ==> ({
            let e = choose|e: int| codec::valid_board_string(board_string@, e);
            let sq = codec::spec_parsed_squares(board_string@, e);
            let best = search::spec_minimax(sq, e, board::sum_points(sq), true, AI_DEPTH as nat).0;
            match best {
                Some(m) => r@ == codec::spec_move_string(m),
                None => r@ == Seq::<char>::empty(),
            }
        }),
{
    match Board::parse_board(board_string) {
        Err(_) => String::new(),
        Ok(start) => {
            let node_value = start.get_best_move(true, AI_DEPTH);
            proof {
                let ghost_e = choose|e: int| codec::valid_board_string(board_string@, e);
                codec::lemma_valid_pattern_unique(
                    board_string@,
                    ghost_e,
                    start.board.edge_size as int,
                );
            }
            match node_value.0 {
                Some(m) => codec::format_move(&m),
                None => String::new(),
            }
        },
    }
}

/// A fresh board string for the given edge length: player one in the
/// top-left and bottom-right corners, player two in the other two, all
/// other squares unclaimed.
pub fn new_board(edge_size: usize) -> (r: String)
    requires
        1 <= edge_size <= MAX_EDGE,
    ensures
        r@ == codec::spec_serialized(
            board::start_squares_from(edge_size as int, 0, 0),
            edge_size as int,
        ),
{
    let board = Board::starting_board(edge_size);
    board.serialize_board()
}

} // verus!
