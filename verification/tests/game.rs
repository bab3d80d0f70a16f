use takejump::apply::BoardAndPoints;
use takejump::moves::{Move, MoveType, usize_abs_delta};
use takejump::{calc_next_move, invert_player, new_board, Board, GameError, Player, Position};

fn parsed(s: &str) -> BoardAndPoints {
    Board::parse_board(s).expect("board string should parse")
}

#[test]
fn player_points_weights() {
    assert_eq!(Player::P1.get_points(), 1);
    assert_eq!(Player::P2.get_points(), -1);
    assert_eq!(Player::NoOne.get_points(), 0);
}

#[test]
fn other_player_flips_sides() {
    assert_eq!(Player::P1.other_player(), Player::P2);
    assert_eq!(Player::P2.other_player(), Player::P1);
    assert_eq!(Player::NoOne.other_player(), Player::NoOne);
}

#[test]
fn score_is_better_polarity() {
    assert!(Player::P1.score_is_better(3, 2));
    assert!(!Player::P1.score_is_better(2, 3));
    assert!(!Player::P1.score_is_better(2, 2));
    assert!(Player::P2.score_is_better(2, 3));
    assert!(!Player::P2.score_is_better(3, 2));
    assert!(!Player::P2.score_is_better(2, 2));
    assert!(Player::NoOne.score_is_better(0, 7));
}

#[test]
fn parse_string_tags() {
    assert_eq!(Player::parse_string("1"), Player::P1);
    assert_eq!(Player::parse_string("2"), Player::P2);
    assert_eq!(Player::parse_string("0"), Player::NoOne);
    assert_eq!(Player::parse_string("x"), Player::NoOne);
    assert_eq!(Player::parse_string(""), Player::NoOne);
    assert_eq!(Player::parse_string("12"), Player::NoOne);
}

#[test]
fn player_to_string_tags() {
    assert_eq!(Player::P1.to_string(), "1");
    assert_eq!(Player::P2.to_string(), "2");
    assert_eq!(Player::NoOne.to_string(), "0");
}

#[test]
fn invert_player_tags() {
    assert_eq!(invert_player("1"), "2");
    assert_eq!(invert_player("2"), "1");
    assert_eq!(invert_player("0"), "0");
    assert_eq!(invert_player("x"), "0");
    assert_eq!(invert_player(""), "0");
}

#[test]
fn parse_board_small_scenario() {
    let bp = parsed("1000:0000:0000:0002");
    assert_eq!(bp.board.edge_size, 4);
    assert_eq!(bp.points, 0);
    assert_eq!(bp.board.get_points(), 0);
}

#[test]
fn parse_board_rejects_ragged_rows() {
    assert!(matches!(Board::parse_board("10:0"), Err(GameError::MalformedBoard)));
    assert!(matches!(Board::parse_board(""), Err(GameError::MalformedBoard)));
    assert!(matches!(Board::parse_board(":"), Err(GameError::MalformedBoard)));
    assert!(matches!(Board::parse_board("10:00:00"), Err(GameError::MalformedBoard)));
    assert!(matches!(Board::parse_board("100:000"), Err(GameError::MalformedBoard)));
}

#[test]
fn parse_serialize_round_trip() {
    let text = "1002:0000:0000:2001";
    let bp = parsed(text);
    assert_eq!(bp.board.serialize_board(), text);
    let single = parsed("0");
    assert_eq!(single.board.serialize_board(), "0");
}

#[test]
fn starting_board_corners() {
    assert_eq!(new_board(4), "1002:0000:0000:2001");
    assert_eq!(new_board(2), "12:21");
    assert_eq!(new_board(1), "1");
    let bp = parsed(&new_board(4));
    assert_eq!(bp.points, 0);
    assert_eq!(bp.board.get_points(), 0);
}

#[test]
fn takes_preempt_jumps() {
    let bp = parsed("100:000:000");
    let (takes, jumps) = bp.board.get_all_moves(Player::P1);
    let take_tos: Vec<(usize, usize)> = takes.iter().map(|m| (m.to.row, m.to.col)).collect();
    assert_eq!(take_tos, vec![(0, 1), (1, 0), (1, 1)]);
    for m in &takes {
        assert_eq!(m.move_type, MoveType::Take);
        assert_eq!(m.from, Position { row: 0, col: 0 });
    }
    let jump_tos: Vec<(usize, usize)> = jumps.iter().map(|m| (m.to.row, m.to.col)).collect();
    assert_eq!(jump_tos, vec![(0, 2), (1, 2), (2, 0), (2, 1), (2, 2)]);
    for m in &jumps {
        assert_eq!(m.move_type, MoveType::Jump);
        assert_eq!(m.from, Position { row: 0, col: 0 });
    }
}

#[test]
fn small_scenario_takes_from_corner() {
    let bp = parsed("1000:0000:0000:0002");
    let (takes, _jumps) = bp.board.get_all_moves(Player::P1);
    let expected = [(0, 1), (1, 0), (1, 1)];
    for to in expected {
        assert!(takes.iter().any(|m| m.move_type == MoveType::Take
            && m.from == Position { row: 0, col: 0 }
            && m.to == Position { row: to.0, col: to.1 }));
    }
}

#[test]
fn applying_corner_take_scores_one() {
    let bp = parsed("1000:0000:0000:0002");
    let take = Move {
        move_type: MoveType::Take,
        from: Position { row: 0, col: 0 },
        to: Position { row: 1, col: 1 },
    };
    let after = bp
        .try_move_into_square(false, &take)
        .expect("the corner take should be legal");
    assert_eq!(after.points, 1);
    assert_eq!(after.board.get_points(), 1);
    assert_eq!(after.board.serialize_board(), "1000:0100:0000:0002");
}

#[test]
fn applying_take_flips_window_opponents() {
    // player one takes (1, 0); the opponent square (0, 1) sits in the
    // destination's capture window and flips: delta is 1 + 2*1 = 3
    let bp = parsed("120:000:000");
    assert_eq!(bp.points, 0);
    let take = Move {
        move_type: MoveType::Take,
        from: Position { row: 0, col: 0 },
        to: Position { row: 1, col: 0 },
    };
    let after = bp
        .try_move_into_square(false, &take)
        .expect("the take should be legal");
    assert_eq!(after.points, 3);
    assert_eq!(after.board.get_points(), 3);
    assert_eq!(after.board.serialize_board(), "110:100:000");
}

#[test]
fn applying_jump_vacates_origin() {
    let bp = parsed("100:000:002");
    let jump = Move {
        move_type: MoveType::Jump,
        from: Position { row: 0, col: 0 },
        to: Position { row: 2, col: 0 },
    };
    let after = bp
        .try_move_into_square(false, &jump)
        .expect("the jump should be legal");
    assert_eq!(after.points, 0);
    assert_eq!(after.board.get_points(), 0);
    assert_eq!(after.board.serialize_board(), "000:000:102");
}

#[test]
fn jump_captures_score_two_per_flip() {
    // player one jumps into (2, 0); the opponent square (2, 1) sits in the
    // destination's capture window and flips: delta is 2*1, no take bonus
    let bp = parsed("100:000:022");
    assert_eq!(bp.points, -1);
    let jump = Move {
        move_type: MoveType::Jump,
        from: Position { row: 0, col: 0 },
        to: Position { row: 2, col: 0 },
    };
    let after = bp
        .try_move_into_square(false, &jump)
        .expect("the jump should be legal");
    assert_eq!(after.points, 1);
    assert_eq!(after.board.get_points(), 1);
    assert_eq!(after.board.serialize_board(), "000:000:112");
}

#[test]
fn illegal_moves_are_reported() {
    let bp = parsed("10:02");
    // destination already occupied
    let onto_occupied = Move {
        move_type: MoveType::Take,
        from: Position { row: 0, col: 0 },
        to: Position { row: 1, col: 1 },
    };
    assert_eq!(
        bp.try_move_into_square(false, &onto_occupied).unwrap_err(),
        GameError::IllegalMove
    );
    // origin not owned by the acting side
    let from_opponent = Move {
        move_type: MoveType::Take,
        from: Position { row: 1, col: 1 },
        to: Position { row: 0, col: 1 },
    };
    assert_eq!(
        bp.try_move_into_square(false, &from_opponent).unwrap_err(),
        GameError::IllegalMove
    );
    // a jump three squares away
    let bp3 = parsed("1000:0000:0000:0002");
    let too_far = Move {
        move_type: MoveType::Jump,
        from: Position { row: 0, col: 0 },
        to: Position { row: 3, col: 0 },
    };
    assert_eq!(
        bp3.try_move_into_square(false, &too_far).unwrap_err(),
        GameError::IllegalMove
    );
}

#[test]
fn can_take_reports_first_window_match() {
    let bp = parsed("00:12");
    let for_p1 = bp
        .board
        .can_take(Player::P1, Position { row: 0, col: 0 })
        .expect("player one owns a window square");
    assert_eq!(for_p1.from, Position { row: 1, col: 0 });
    assert_eq!(for_p1.to, Position { row: 0, col: 0 });
    assert_eq!(for_p1.move_type, MoveType::Take);
    let for_p2 = bp
        .board
        .can_take(Player::P2, Position { row: 0, col: 0 })
        .expect("player two owns a window square");
    assert_eq!(for_p2.from, Position { row: 1, col: 1 });
}

#[test]
fn get_jumps_lists_origins_in_row_major_order() {
    let bp = parsed("102:000:100");
    let origins = bp.board.get_jumps(Player::P1, Position { row: 2, col: 2 });
    assert_eq!(
        origins,
        vec![Position { row: 0, col: 0 }, Position { row: 2, col: 0 }]
    );
}

#[test]
fn depth_zero_search_returns_board_points() {
    let bp = parsed("1000:0000:0000:0002");
    assert_eq!(bp.get_best_move(true, 0), (None, 0));
    let bp2 = parsed("120:000:000");
    assert_eq!(bp2.get_best_move(false, 0), (None, 0));
}

#[test]
fn search_with_no_moves_returns_board_points() {
    // player two owns nothing and cannot move
    let bp = parsed("1");
    assert_eq!(bp.get_best_move(true, 3), (None, 1));
}

#[test]
fn tie_break_keeps_first_move_in_generation_order() {
    // all three takes of player two score the same; the first destination
    // in row-major order wins
    let bp = parsed("20:00");
    let (best, score) = bp.get_best_move(true, 1);
    assert_eq!(
        best,
        Some(Move {
            move_type: MoveType::Take,
            from: Position { row: 0, col: 0 },
            to: Position { row: 0, col: 1 },
        })
    );
    assert_eq!(score, -2);
}

#[test]
fn calc_next_move_picks_first_of_equals() {
    assert_eq!(calc_next_move("20:00"), "0,0>0,1");
}

#[test]
fn calc_next_move_captures() {
    assert_eq!(calc_next_move("10:02"), "1,1>0,1");
}

#[test]
fn calc_next_move_without_moves_is_empty() {
    assert_eq!(calc_next_move("1"), "");
}

#[test]
fn calc_next_move_on_malformed_board_is_empty() {
    assert_eq!(calc_next_move(""), "");
    assert_eq!(calc_next_move("10:0"), "");
    assert_eq!(calc_next_move("abc"), "");
}

#[test]
fn one_square_board_has_no_moves() {
    let bp = parsed("0");
    let (takes, jumps) = bp.board.get_all_moves(Player::P1);
    assert!(takes.is_empty());
    assert!(jumps.is_empty());
    assert_eq!(bp.get_best_move(false, 3), (None, 0));
}

#[test]
fn abs_delta_is_symmetric() {
    assert_eq!(usize_abs_delta(5, 2), 3);
    assert_eq!(usize_abs_delta(2, 5), 3);
    assert_eq!(usize_abs_delta(4, 4), 0);
}

#[test]
fn attach_moves_caches_the_lists() {
    let bp = parsed("100:000:000");
    let view = bp.attach_moves(Player::P1);
    assert_eq!(view.player, Player::P1);
    assert_eq!(view.board_and_points.points, 1);
    assert_eq!(view.takes.len(), 3);
    assert_eq!(view.jumps.len(), 5);
}
