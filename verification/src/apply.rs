//! The move applicator: applying a move claims the destination, flips every
//! opponent square in the destination's capture window to the mover, vacates
//! a jump's origin, and updates the running score by the signed delta.

use vstd::prelude::*;
use crate::board::{
    Board, MAX_EDGE, Position, cell_at, in_win, lemma_edge_sq_bound, lemma_flat_index,
    lemma_flat_index_injective, lemma_sum_points_bound, lemma_sum_points_update, pos_in_range,
    sum_points, win_hi, win_lo, window_bounds,
};
use crate::moves::{Move, MoveType, legal_move};
use crate::player::Player;

verus! {

/// A board together with its running score, kept equal to the board's point
/// total.
#[derive(Debug)]
pub struct BoardAndPoints {
    pub board: Board,
    pub points: i32,
}

impl BoardAndPoints {
    /// Well-formed: the board is, and the running score equals the board's
    /// point total.
    pub open spec fn wf(self) -> bool {
        &&& self.board.wf()
        &&& self.points as int == sum_points(self.board.squares@)
    }
}

/// The side a move-applicator call acts for.
pub open spec fn mover_of(is_p2: bool) -> Player {
    if is_p2 {
        Player::P2
    } else {
        Player::P1
    }
}

/// Does (r0, c0) come before (r, c) in row-major order?
pub open spec fn lex_before(r0: int, c0: int, r: int, c: int) -> bool {
    r0 < r || (r0 == r && c0 < c)
}

/// How many squares from (r, c) on, in row-major order, lie in the capture
/// window of `to` and are owned by the mover's opponent: the squares a move
/// into `to` flips.
pub open spec fn flips_scan(
    s: Seq<Player>,
    edge: int,
    mover: Player,
    to: Position,
    r: int,
    c: int,
) -> int
    decreases edge - r, edge - c,
{
    if r >= edge {
        0
    } else if c >= edge {
        flips_scan(s, edge, mover, to, r + 1, 0)
    } else {
        let here: int = if in_win(r, to.row as int, edge) && in_win(c, to.col as int, edge)
            && cell_at(s, edge, r, c) == mover.spec_other() {
            1
        } else {
            0
        };
        here + flips_scan(s, edge, mover, to, r, c + 1)
    }
}

/// The number of flipped squares of a move into `to`.
pub open spec fn spec_flips(s: Seq<Player>, edge: int, mover: Player, to: Position) -> int {
    flips_scan(s, edge, mover, to, 0, 0)
}

/// The flip count is never negative and never exceeds the grid size.
pub proof fn lemma_flips_scan_bound(
    s: Seq<Player>,
    edge: int,
    mover: Player,
    to: Position,
    r: int,
    c: int,
)
    requires
        0 <= r,
        0 <= c <= edge,
    ensures
        0 <= flips_scan(s, edge, mover, to, r, c),
        r < edge ==> flips_scan(s, edge, mover, to, r, c) <= (edge - r) * edge - c,
        r >= edge ==> flips_scan(s, edge, mover, to, r, c) == 0,
    decreases edge - r, edge - c,
{
    if r >= edge {
    } else if c >= edge {
        lemma_flips_scan_bound(s, edge, mover, to, r + 1, 0);
        assert((edge - r - 1) * edge == (edge - r) * edge - edge) by (nonlinear_arith);
    } else {
        lemma_flips_scan_bound(s, edge, mover, to, r, c + 1);
    }
}

/// The grid after the flips for the squares from (r, c) on, in row-major
/// order: each square in the capture window of `to` owned by the mover's
/// opponent becomes the mover's.
pub open spec fn capture_rest(
    s: Seq<Player>,
    edge: int,
    mover: Player,
    to: Position,
    r: int,
    c: int,
) -> Seq<Player>
    decreases edge - r, edge - c,
{
    if r >= edge {
        s
    } else if c >= edge {
        capture_rest(s, edge, mover, to, r + 1, 0)
    } else {
        let rest = capture_rest(s, edge, mover, to, r, c + 1);
        if in_win(r, to.row as int, edge) && in_win(c, to.col as int, edge) && cell_at(s, edge, r, c)
            == mover.spec_other() {
            rest.update(r * edge + c, mover)
        } else {
            rest
        }
    }
}

/// The grid after all flips of a move into `to`.
pub open spec fn spec_captured(s: Seq<Player>, edge: int, mover: Player, to: Position) -> Seq<
    Player,
> {
    capture_rest(s, edge, mover, to, 0, 0)
}

/// Square by square, the flips from (r, c) on change exactly the window
/// squares owned by the opponent at or after (r, c), and nothing else.
pub proof fn lemma_capture_rest_cell(
    s: Seq<Player>,
    edge: int,
    mover: Player,
    to: Position,
    r: int,
    c: int,
)
    requires
        s.len() == edge * edge,
        1 <= edge <= MAX_EDGE,
        0 <= r,
        0 <= c,
    ensures
        capture_rest(s, edge, mover, to, r, c).len() == s.len(),
        forall|r0: int, c0: int|
            pos_in_range(edge, r0, c0) ==> #[trigger] cell_at(
                capture_rest(s, edge, mover, to, r, c),
                edge,
                r0,
                c0,
            ) == (if !lex_before(r0, c0, r, c) && in_win(r0, to.row as int, edge) && in_win(
                c0,
                to.col as int,
                edge,
            ) && cell_at(s, edge, r0, c0) == mover.spec_other() {
                mover
            } else {
                cell_at(s, edge, r0, c0)
            }),
    decreases edge - r, edge - c,
{
    if r >= edge {
        // every square of the grid is lexicographically before (r, c)
        assert forall|r0: int, c0: int| pos_in_range(edge, r0, c0) implies lex_before(
            r0,
            c0,
            r,
            c,
        ) by {}
    } else if c >= edge {
        lemma_capture_rest_cell(s, edge, mover, to, r + 1, 0);
        // (r, c) sits past the row's end, so scanning from it is scanning
        // from the start of the next row
        assert forall|r0: int, c0: int| pos_in_range(edge, r0, c0) implies (lex_before(
            r0,
            c0,
            r,
            c,
        ) == lex_before(r0, c0, r + 1, 0)) by {}
    } else {
        lemma_capture_rest_cell(s, edge, mover, to, r, c + 1);
        let rest = capture_rest(s, edge, mover, to, r, c + 1);
        let whole = capture_rest(s, edge, mover, to, r, c);
        lemma_flat_index(r, c, edge);
        if in_win(r, to.row as int, edge) && in_win(c, to.col as int, edge) && cell_at(s, edge, r, c)
            == mover.spec_other() {
            assert forall|r0: int, c0: int| pos_in_range(edge, r0, c0) implies #[trigger] cell_at(
                whole,
                edge,
                r0,
                c0,
            ) == (if !lex_before(r0, c0, r, c) && in_win(r0, to.row as int, edge) && in_win(
                c0,
                to.col as int,
                edge,
            ) && cell_at(s, edge, r0, c0) == mover.spec_other() {
                mover
            } else {
                cell_at(s, edge, r0, c0)
            }) by {
                lemma_flat_index(r0, c0, edge);
                assert(cell_at(rest, edge, r0, c0) == (if !lex_before(r0, c0, r, c + 1) && in_win(
                    r0,
                    to.row as int,
                    edge,
                ) && in_win(c0, to.col as int, edge) && cell_at(s, edge, r0, c0)
                    == mover.spec_other() {
                    mover
                } else {
                    cell_at(s, edge, r0, c0)
                }));
                if r0 * edge + c0 == r * edge + c {
                    lemma_flat_index_injective(r0, c0, r, c, edge);
                    assert(whole[r * edge + c] == mover);
                } else {
                    assert(whole[r0 * edge + c0] == rest[r0 * edge + c0]);
                }
            }
        } else {
            assert forall|r0: int, c0: int| pos_in_range(edge, r0, c0) implies #[trigger] cell_at(
                whole,
                edge,
                r0,
                c0,
            ) == (if !lex_before(r0, c0, r, c) && in_win(r0, to.row as int, edge) && in_win(
                c0,
                to.col as int,
                edge,
            ) && cell_at(s, edge, r0, c0) == mover.spec_other() {
                mover
            } else {
                cell_at(s, edge, r0, c0)
            }) by {
                lemma_flat_index(r0, c0, edge);
                assert(cell_at(rest, edge, r0, c0) == (if !lex_before(r0, c0, r, c + 1) && in_win(
                    r0,
                    to.row as int,
                    edge,
                ) && in_win(c0, to.col as int, edge) && cell_at(s, edge, r0, c0)
                    == mover.spec_other() {
                    mover
                } else {
                    cell_at(s, edge, r0, c0)
                }));
                if r0 == r && c0 == c {
                } else if r0 * edge + c0 == r * edge + c {
                    lemma_flat_index_injective(r0, c0, r, c, edge);
                }
            }
        }
    }
}

/// The flips from (r, c) on move the point total by the weight difference
/// between the mover and the opponent, once per flipped square.
pub proof fn lemma_capture_rest_sum(
    s: Seq<Player>,
    edge: int,
    mover: Player,
    to: Position,
    r: int,
    c: int,
)
    requires
        s.len() == edge * edge,
        1 <= edge <= MAX_EDGE,
        0 <= r,
        0 <= c,
    ensures
        sum_points(capture_rest(s, edge, mover, to, r, c)) == sum_points(s) + (mover.spec_points()
            - mover.spec_other().spec_points()) * flips_scan(s, edge, mover, to, r, c),
    decreases edge - r, edge - c,
{
    let d = mover.spec_points() - mover.spec_other().spec_points();
    if r >= edge {
        assert(d * 0 == 0) by (nonlinear_arith);
    } else if c >= edge {
        lemma_capture_rest_sum(s, edge, mover, to, r + 1, 0);
    } else {
        lemma_capture_rest_sum(s, edge, mover, to, r, c + 1);
        let rest = capture_rest(s, edge, mover, to, r, c + 1);
        let f0 = flips_scan(s, edge, mover, to, r, c + 1);
        if in_win(r, to.row as int, edge) && in_win(c, to.col as int, edge) && cell_at(s, edge, r, c)
            == mover.spec_other() {
            lemma_flat_index(r, c, edge);
            lemma_capture_rest_cell(s, edge, mover, to, r, c + 1);
            assert(cell_at(rest, edge, r, c) == cell_at(s, edge, r, c));
            lemma_sum_points_update(rest, r * edge + c, mover);
            assert(d * (f0 + 1) == d * f0 + d) by (nonlinear_arith);
        }
    }
}

/// The outcome of applying move `m` for the side given by `is_p2` to a grid
/// whose running score is `points`: the new grid and the new score.
///
/// Every opponent square in the capture window of the destination flips to
/// the mover, the destination becomes the mover's, and a jump vacates its
/// origin. The score moves by 1 for a take's newly claimed square plus 2
/// per flipped square, negated when player two acts, since the score is
/// expressed from player one's side.
pub open spec fn spec_apply(s: Seq<Player>, edge: int, points: int, is_p2: bool, m: Move) -> (
    Seq<Player>,
    int,
) {
    let mover = mover_of(is_p2);
    let captured = spec_captured(s, edge, mover, m.to);
    let claimed = captured.update((m.to.row as int) * edge + m.to.col, mover);
    let moved = if m.move_type == MoveType::Jump {
        claimed.update((m.from.row as int) * edge + m.from.col, Player::NoOne)
    } else {
        claimed
    };
    let delta = (if m.move_type == MoveType::Take {
        1int
    } else {
        0int
    }) + 2 * spec_flips(s, edge, mover, m.to);
    let signed = if is_p2 {
        -delta
    } else {
        delta
    };
    (moved, points + signed)
}

/// Applying a legal move keeps the running score equal to the grid's point
/// total.
pub proof fn lemma_apply_preserves_sum(s: Seq<Player>, edge: int, points: int, is_p2: bool, m: Move)
    requires
        s.len() == edge * edge,
        1 <= edge <= MAX_EDGE,
        points == sum_points(s),
        legal_move(s, edge, mover_of(is_p2), m),
    ensures
        spec_apply(s, edge, points, is_p2, m).0.len() == s.len(),
        spec_apply(s, edge, points, is_p2, m).1 == sum_points(spec_apply(s, edge, points, is_p2, m).0),
{
    let mover = mover_of(is_p2);
    let to = m.to;
    let from = m.from;
    let captured = spec_captured(s, edge, mover, to);
    let to_idx = (to.row as int) * edge + to.col;
    let from_idx = (from.row as int) * edge + from.col;
    let f = spec_flips(s, edge, mover, to);
    lemma_capture_rest_cell(s, edge, mover, to, 0, 0);
    lemma_capture_rest_sum(s, edge, mover, to, 0, 0);
    lemma_flat_index(to.row as int, to.col as int, edge);
    lemma_flat_index(from.row as int, from.col as int, edge);
    // the destination is unclaimed, so the flips leave it alone
    assert(cell_at(captured, edge, to.row as int, to.col as int) == Player::NoOne);
    let claimed = captured.update(to_idx, mover);
    lemma_sum_points_update(captured, to_idx, mover);
    if m.move_type == MoveType::Jump {
        // a jump's origin differs from its destination and is the mover's,
        // so the flips and the claim leave it alone
        assert(from.row != to.row || from.col != to.col);
        lemma_flat_index_injective_contra(from.row as int, from.col as int, to.row as int, to.col as int, edge);
        assert(cell_at(captured, edge, from.row as int, from.col as int) == mover);
        assert(claimed[from_idx] == captured[from_idx]);
        lemma_sum_points_update(claimed, from_idx, Player::NoOne);
    }
    if is_p2 {
        assert((mover.spec_points() - mover.spec_other().spec_points()) * f == -2 * f)
            by (nonlinear_arith)
            requires
                mover.spec_points() == -1,
                mover.spec_other().spec_points() == 1,
        ;
    } else {
        assert((mover.spec_points() - mover.spec_other().spec_points()) * f == 2 * f)
            by (nonlinear_arith)
            requires
                mover.spec_points() == 1,
                mover.spec_other().spec_points() == -1,
        ;
    }
}

/// Distinct coordinates give distinct flat indices.
proof fn lemma_flat_index_injective_contra(r1: int, c1: int, r2: int, c2: int, edge: int)
    requires
        0 <= r1 < edge,
        0 <= c1 < edge,
        0 <= r2 < edge,
        0 <= c2 < edge,
        r1 != r2 || c1 != c2,
    ensures
        r1 * edge + c1 != r2 * edge + c2,
{
    if r1 * edge + c1 == r2 * edge + c2 {
        lemma_flat_index_injective(r1, c1, r2, c2, edge);
    }
}

impl BoardAndPoints {
    /// Apply `the_move` for the acting side: flip every opponent square in
    /// the destination's capture window, claim the destination, vacate a
    /// jump's origin, and move the score by the signed delta. The move must
    /// be legal; `try_move_into_square` checks instead of requiring.
    pub fn move_into_square(&self, is_p2: bool, the_move: &Move) -> (r: BoardAndPoints)
        requires
            self.wf(),
            legal_move(
                self.board.squares@,
                self.board.edge_size as int,
                mover_of(is_p2),
                *the_move,
            ),
        ensures
            r.board.edge_size == self.board.edge_size,
            r.board.squares@ == spec_apply(
                self.board.squares@,
                self.board.edge_size as int,
                self.points as int,
                is_p2,
                *the_move,
            ).0,
            r.points as int == spec_apply(
                self.board.squares@,
                self.board.edge_size as int,
                self.points as int,
                is_p2,
                *the_move,
            ).1,
            r.wf(),
    {
        let edge: usize = self.board.edge_size;
        let ghost sq0 = self.board.squares@;
        let player = if is_p2 {
            Player::P2
        } else {
            Player::P1
        };
        let other = player.other_player();
        let is_jump = the_move.move_type == MoveType::Jump;
        let to = the_move.to;
        let from = the_move.from;
        let (rlo, rhi) = window_bounds(to.row, edge);
        let (clo, chi) = window_bounds(to.col, edge);
        proof {
            lemma_edge_sq_bound(edge as int);
            lemma_flips_scan_bound(sq0, edge as int, player, to, 0, 0);
        }
        let mut new_squares: Vec<Player> = Vec::new();
        let mut count: usize = 0;
        let mut r: usize = 0;
        while r < edge
            invariant
                self.wf(),
                edge == self.board.edge_size,
                sq0 == self.board.squares@,
                player == mover_of(is_p2),
                other == player.spec_other(),
                is_jump == (the_move.move_type == MoveType::Jump),
                to == the_move.to,
                from == the_move.from,
                legal_move(sq0, edge as int, player, *the_move),
                rlo == win_lo(to.row as int, edge as int),
                rhi == win_hi(to.row as int, edge as int),
                clo == win_lo(to.col as int, edge as int),
                chi == win_hi(to.col as int, edge as int),
                0 <= r <= edge,
                new_squares@.len() == r * edge,
                count as int == spec_flips(sq0, edge as int, player, to) - flips_scan(
                    sq0,
                    edge as int,
                    player,
                    to,
                    r as int,
                    0,
                ),
                count <= edge * edge,
                spec_flips(sq0, edge as int, player, to) <= edge * edge,
                forall|r0: int, c0: int|
                    0 <= r0 < r && 0 <= c0 < edge ==> new_squares@[r0 * edge + c0] == cell_after(
                        sq0,
                        edge as int,
                        player,
                        is_jump,
                        from,
                        to,
                        r0,
                        c0,
                    ),
            decreases edge - r,
        {
            let mut c: usize = 0;
            while c < edge
                invariant
                    self.wf(),
                    edge == self.board.edge_size,
                    sq0 == self.board.squares@,
                    player == mover_of(is_p2),
                    other == player.spec_other(),
                    is_jump == (the_move.move_type == MoveType::Jump),
                    to == the_move.to,
                    from == the_move.from,
                    legal_move(sq0, edge as int, player, *the_move),
                    rlo == win_lo(to.row as int, edge as int),
                    rhi == win_hi(to.row as int, edge as int),
                    clo == win_lo(to.col as int, edge as int),
                    chi == win_hi(to.col as int, edge as int),
                    0 <= r < edge,
                    0 <= c <= edge,
                    new_squares@.len() == r * edge + c,
                    count as int == spec_flips(sq0, edge as int, player, to) - flips_scan(
                        sq0,
                        edge as int,
                        player,
                        to,
                        r as int,
                        c as int,
                    ),
                    count <= edge * edge,
                    spec_flips(sq0, edge as int, player, to) <= edge * edge,
                    forall|r0: int, c0: int|
                        0 <= r0 < r && 0 <= c0 < edge ==> new_squares@[r0 * edge + c0]
                            == cell_after(sq0, edge as int, player, is_jump, from, to, r0, c0),
                    forall|c0: int|
                        0 <= c0 < c ==> new_squares@[r as int * edge + c0] == cell_after(
                            sq0,
                            edge as int,
                            player,
                            is_jump,
                            from,
                            to,
                            r as int,
                            c0,
                        ),
                decreases edge - c,
            {
                proof {
                    lemma_edge_sq_bound(edge as int);
                    lemma_flat_index(r as int, c as int, edge as int);
                    lemma_flips_scan_bound(sq0, edge as int, player, to, r as int, c as int);
                    lemma_flips_scan_bound(sq0, edge as int, player, to, r as int, c as int + 1);
                }
                let here = self.board.squares[r * edge + c];
                let ghost before = new_squares@;
                if r == to.row && c == to.col {
                    new_squares.push(player);
                } else if is_jump && r == from.row && c == from.col {
                    new_squares.push(Player::NoOne);
                } else if rlo <= r && r <= rhi && clo <= c && c <= chi && here == other {
                    new_squares.push(player);
                    count = count + 1;
                } else {
                    new_squares.push(here);
                }
                proof {
                    assert forall|r0: int, c0: int|
                        0 <= r0 < r && 0 <= c0 < edge implies new_squares@[r0 * edge + c0]
                        == cell_after(sq0, edge as int, player, is_jump, from, to, r0, c0) by {
                        lemma_flat_index(r0, c0, edge as int);
                        assert(r0 * edge + c0 < r * edge + c) by (nonlinear_arith)
                            requires
                                0 <= r0 < r,
                                0 <= c0 < edge,
                                0 <= c,
                                edge as int >= 1,
                        ;
                        assert(new_squares@[r0 * edge + c0] == before[r0 * edge + c0]);
                    }
                    assert forall|c0: int|
                        0 <= c0 < c + 1 implies new_squares@[r as int * edge + c0] == cell_after(
                        sq0,
                        edge as int,
                        player,
                        is_jump,
                        from,
                        to,
                        r as int,
                        c0,
                    ) by {
                        if c0 < c {
                            assert(new_squares@[r as int * edge + c0] == before[r as int * edge
                                + c0]);
                        }
                    }
                }
                c = c + 1;
            }
            proof {
                assert(r * edge + edge == (r + 1) * edge) by (nonlinear_arith);
            }
            r = r + 1;
        }
        let ghost applied = spec_apply(sq0, edge as int, self.points as int, is_p2, *the_move);
        proof {
            lemma_flips_scan_bound(sq0, edge as int, player, to, edge as int, 0);
            lemma_apply_effect(sq0, edge as int, self.points as int, is_p2, *the_move);
            assert(new_squares@ =~= applied.0) by {
                assert forall|i: int| 0 <= i < new_squares@.len() implies new_squares@[i]
                    == applied.0[i] by {
                    crate::board::lemma_index_to_coords(i, edge as int);
                    let r0 = i / (edge as int);
                    let c0 = i % (edge as int);
                    assert(new_squares@[r0 * edge + c0] == cell_after(
                        sq0,
                        edge as int,
                        player,
                        is_jump,
                        from,
                        to,
                        r0,
                        c0,
                    ));
                    assert(cell_at(applied.0, edge as int, r0, c0) == cell_after(
                        sq0,
                        edge as int,
                        player,
                        is_jump,
                        from,
                        to,
                        r0,
                        c0,
                    ));
                }
            }
            lemma_apply_preserves_sum(sq0, edge as int, self.points as int, is_p2, *the_move);
            lemma_sum_points_bound(applied.0);
        }
        let bonus: i64 = if the_move.move_type == MoveType::Take {
            1
        } else {
            0
        };
        let delta: i64 = bonus + 2 * (count as i64);
        let signed: i64 = if is_p2 {
            -delta
        } else {
            delta
        };
        let new_points_i64: i64 = (self.points as i64) + signed;
        proof {
            lemma_edge_sq_bound(edge as int);
        }
        let new_points: i32 = new_points_i64 as i32;
        BoardAndPoints {
            board: Board { squares: new_squares, edge_size: edge },
            points: new_points,
        }
    }
}

impl Board {
    /// Is `m` a legal move for `player` on this board?
    pub fn is_legal_move(&self, player: Player, m: &Move) -> (r: bool)
        requires
            self.wf(),
        ensures
            r == legal_move(self.squares@, self.edge_size as int, player, *m),
    {
        let edge: usize = self.edge_size;
        proof {
            lemma_edge_sq_bound(edge as int);
        }
        if m.to.row >= edge || m.to.col >= edge || m.from.row >= edge || m.from.col >= edge {
            return false;
        }
        proof {
            lemma_flat_index(m.to.row as int, m.to.col as int, edge as int);
            lemma_flat_index(m.from.row as int, m.from.col as int, edge as int);
        }
        if self.squares[m.to.row * edge + m.to.col] != Player::NoOne {
            return false;
        }
        if self.squares[m.from.row * edge + m.from.col] != player {
            return false;
        }
        match m.move_type {
            MoveType::Take => {
                let (rlo, rhi) = window_bounds(m.to.row, edge);
                let (clo, chi) = window_bounds(m.to.col, edge);
                rlo <= m.from.row && m.from.row <= rhi && clo <= m.from.col && m.from.col <= chi
            },
            MoveType::Jump => {
                let rd: usize = crate::moves::usize_abs_delta(m.from.row, m.to.row);
                let cd: usize = crate::moves::usize_abs_delta(m.from.col, m.to.col);
                (rd == 2 && cd <= 2) || (cd == 2 && rd <= 2)
            },
        }
    }
}

impl BoardAndPoints {
    /// Apply `the_move` for the acting side after checking that it is
    /// legal; an illegal move is reported, never applied.
    pub fn try_move_into_square(&self, is_p2: bool, the_move: &Move) -> (r: Result<
        BoardAndPoints,
        crate::GameError,
    >)
        requires
            self.wf(),
        ensures
            r is Ok <==> legal_move(
                self.board.squares@,
                self.board.edge_size as int,
                mover_of(is_p2),
                *the_move,
            ),
            r matches Ok(bp) ==> {
                &&& bp.board.edge_size == self.board.edge_size
                &&& bp.board.squares@ == spec_apply(
                    self.board.squares@,
                    self.board.edge_size as int,
                    self.points as int,
                    is_p2,
                    *the_move,
                ).0
                &&& bp.points as int == spec_apply(
                    self.board.squares@,
                    self.board.edge_size as int,
                    self.points as int,
                    is_p2,
                    *the_move,
                ).1
                &&& bp.wf()
            },
            r matches Err(e) ==> e == crate::GameError::IllegalMove,
    {
        let player = if is_p2 {
            Player::P2
        } else {
            Player::P1
        };
        if self.board.is_legal_move(player, the_move) {
            Ok(self.move_into_square(is_p2, the_move))
        } else {
            Err(crate::GameError::IllegalMove)
        }
    }
}

/// The owner of square (r0, c0) after a move of `player` from `from` into
/// `to` on grid `s`: a jump's origin is vacated, the destination claimed,
/// window squares of the opponent flipped, everything else kept.
pub open spec fn cell_after(
    s: Seq<Player>,
    edge: int,
    player: Player,
    is_jump: bool,
    from: Position,
    to: Position,
    r0: int,
    c0: int,
) -> Player {
    if is_jump && r0 == from.row && c0 == from.col {
        Player::NoOne
    } else if r0 == to.row && c0 == to.col {
        player
    } else if in_win(r0, to.row as int, edge) && in_win(c0, to.col as int, edge) && cell_at(
        s,
        edge,
        r0,
        c0,
    ) == player.spec_other() {
        player
    } else {
        cell_at(s, edge, r0, c0)
    }
}

/// Law of the move applicator: a take moves the acting side's signed score
/// delta by exactly 1 + 2*k, a jump by exactly 2*k, where k is the number
/// of opponent squares in the destination's capture window; exactly those
/// squares flip to the mover, the destination becomes the mover's, and a
/// jump vacates its origin.
pub proof fn lemma_apply_effect(s: Seq<Player>, edge: int, points: int, is_p2: bool, m: Move)
    requires
        s.len() == edge * edge,
        1 <= edge <= MAX_EDGE,
        legal_move(s, edge, mover_of(is_p2), m),
    ensures
        ({
            let ns = spec_apply(s, edge, points, is_p2, m).0;
            let np = spec_apply(s, edge, points, is_p2, m).1;
            let mover = mover_of(is_p2);
            let k = spec_flips(s, edge, mover, m.to);
            let bonus: int = if m.move_type == MoveType::Take {
                1
            } else {
                0
            };
            &&& ns.len() == s.len()
            &&& np == points + (if is_p2 {
                -(bonus + 2 * k)
            } else {
                bonus + 2 * k
            })
            &&& forall|r0: int, c0: int|
                pos_in_range(edge, r0, c0) ==> #[trigger] cell_at(ns, edge, r0, c0) == cell_after(
                    s,
                    edge,
                    mover,
                    m.move_type == MoveType::Jump,
                    m.from,
                    m.to,
                    r0,
                    c0,
                )
        }),
{
    let mover = mover_of(is_p2);
    let to = m.to;
    let from = m.from;
    let is_jump = m.move_type == MoveType::Jump;
    let ns = spec_apply(s, edge, points, is_p2, m).0;
    let captured = capture_rest(s, edge, mover, to, 0, 0);
    let to_idx = (to.row as int) * edge + to.col;
    let from_idx = (from.row as int) * edge + from.col;
    let claimed = captured.update(to_idx, mover);
    lemma_capture_rest_cell(s, edge, mover, to, 0, 0);
    lemma_flat_index(to.row as int, to.col as int, edge);
    lemma_flat_index(from.row as int, from.col as int, edge);
    if is_jump {
        // a jump starts exactly two squares away on one axis, so its
        // origin differs from its destination
        assert(from.row != to.row || from.col != to.col);
        lemma_flat_index_injective_contra(
            from.row as int,
            from.col as int,
            to.row as int,
            to.col as int,
            edge,
        );
    }
    assert forall|r0: int, c0: int| pos_in_range(edge, r0, c0) implies #[trigger] cell_at(
        ns,
        edge,
        r0,
        c0,
    ) == cell_after(s, edge, mover, is_jump, from, to, r0, c0) by {
        lemma_flat_index(r0, c0, edge);
        let idx0 = r0 * edge + c0;
        assert(cell_at(captured, edge, r0, c0) == (if !lex_before(r0, c0, 0, 0) && in_win(
            r0,
            to.row as int,
            edge,
        ) && in_win(c0, to.col as int, edge) && cell_at(s, edge, r0, c0) == mover.spec_other() {
            mover
        } else {
            cell_at(s, edge, r0, c0)
        }));
        if r0 == to.row && c0 == to.col {
            assert(claimed[idx0] == mover);
        } else {
            lemma_flat_index_injective_contra(r0, c0, to.row as int, to.col as int, edge);
            assert(claimed[idx0] == captured[idx0]);
        }
        if is_jump {
            if r0 == from.row && c0 == from.col {
                assert(ns[idx0] == Player::NoOne);
            } else {
                lemma_flat_index_injective_contra(r0, c0, from.row as int, from.col as int, edge);
                assert(ns[idx0] == claimed[idx0]);
            }
        }
    }
}

} // verus!
