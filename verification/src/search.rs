//! The search engine: exhaustive fixed-depth minimax over the move
//! generator and the move applicator. Player one maximises the score,
//! player two minimises it; ties keep the move met first in generation
//! order (takes before jumps, row-major destinations).

use vstd::prelude::*;
use crate::apply::{BoardAndPoints, mover_of, spec_apply};
use crate::moves::{
    Move, legal_move, lemma_generated_moves_legal, spec_jumps, spec_move_list, spec_takes,
};
use crate::player::Player;

verus! {

/// A board snapshot with its score, the side to move, and that side's move
/// lists at the snapshot: a cached view for the search.
#[derive(Debug)]
pub struct BoardAndPointsAndPossibleMoves {
    pub board_and_points: BoardAndPoints,
    pub player: Player,
    pub takes: Vec<Move>,
    pub jumps: Vec<Move>,
}

impl BoardAndPoints {
    /// This snapshot together with the move lists of `player` on it.
    pub fn attach_moves(&self, player: Player) -> (r: BoardAndPointsAndPossibleMoves)
        requires
            self.wf(),
        ensures
            r.board_and_points.board.squares@ == self.board.squares@,
            r.board_and_points.board.edge_size == self.board.edge_size,
            r.board_and_points.points == self.points,
            r.board_and_points.wf(),
            r.player == player,
            r.takes@ == spec_takes(self.board.squares@, self.board.edge_size as int, player),
            r.jumps@ == spec_jumps(self.board.squares@, self.board.edge_size as int, player),
    {
        let moves = self.board.get_all_moves(player);
        BoardAndPointsAndPossibleMoves {
            board_and_points: BoardAndPoints {
                board: self.board.duplicate(),
                points: self.points,
            },
            player,
            takes: moves.0,
            jumps: moves.1,
        }
    }
}

/// The minimax value of the position: the chosen move (none when the depth
/// is exhausted or the acting side has no move) and the score the search
/// attributes to the subtree. The acting side walks its move list in
/// generation order and keeps the first move whose propagated score no
/// other strictly beats for that side.
pub open spec fn spec_minimax(s: Seq<Player>, edge: int, points: int, is_p2: bool, levels: nat) -> (
    Option<Move>,
    int,
)
    decreases levels, spec_move_list(s, edge, mover_of(is_p2)).len() + 1,
{
    if levels == 0 {
        (None, points)
    } else {
        let mover = mover_of(is_p2);
        let moves = spec_move_list(s, edge, mover);
        if moves.len() == 0 {
            (None, points)
        } else {
            let applied = spec_apply(s, edge, points, is_p2, moves[0]);
            let first_score = spec_minimax(applied.0, edge, applied.1, !is_p2, (levels - 1) as nat).1;
            best_scan(s, edge, points, is_p2, levels, moves, 1, moves[0], first_score)
        }
    }
}

/// Fold over `moves[k..]`: keep the incumbent unless a candidate's
/// propagated score is strictly better for the acting side.
pub open spec fn best_scan(
    s: Seq<Player>,
    edge: int,
    points: int,
    is_p2: bool,
    levels: nat,
    moves: Seq<Move>,
    k: int,
    best_m: Move,
    best_s: int,
) -> (Option<Move>, int)
    decreases levels, moves.len() - k,
{
    if levels == 0 || k < 0 || k >= moves.len() {
        (Some(best_m), best_s)
    } else {
        let applied = spec_apply(s, edge, points, is_p2, moves[k]);
        let cand = spec_minimax(applied.0, edge, applied.1, !is_p2, (levels - 1) as nat).1;
        if mover_of(is_p2).spec_better(cand, best_s) {
            best_scan(s, edge, points, is_p2, levels, moves, k + 1, moves[k], cand)
        } else {
            best_scan(s, edge, points, is_p2, levels, moves, k + 1, best_m, best_s)
        }
    }
}

/// The score the search propagates for one candidate move: the minimax
/// value of the position after it, searched one level shallower for the
/// other side.
pub open spec fn cand_score(
    s: Seq<Player>,
    edge: int,
    points: int,
    is_p2: bool,
    levels: nat,
    m: Move,
) -> int {
    let applied = spec_apply(s, edge, points, is_p2, m);
    spec_minimax(applied.0, edge, applied.1, !is_p2, (levels - 1) as nat).1
}

/// `res` picks the move at index `j`: the earliest whose propagated score
/// no other strictly beats for the acting side — it strictly beats every
/// earlier candidate's score and no later candidate's score beats it.
pub open spec fn first_best_from(
    s: Seq<Player>,
    edge: int,
    points: int,
    is_p2: bool,
    levels: nat,
    moves: Seq<Move>,
    res: (Option<Move>, int),
    j: int,
) -> bool {
    &&& 0 <= j < moves.len()
    &&& res.0 == Some(moves[j])
    &&& res.1 == cand_score(s, edge, points, is_p2, levels, moves[j])
    &&& forall|i: int|
        0 <= i < j ==> mover_of(is_p2).spec_better(
            res.1,
            #[trigger] cand_score(s, edge, points, is_p2, levels, moves[i]),
        )
    &&& forall|i: int|
        j < i < moves.len() ==> !mover_of(is_p2).spec_better(
            #[trigger] cand_score(s, edge, points, is_p2, levels, moves[i]),
            res.1,
        )
}

/// The fold keeps the first-best choice: starting from an incumbent that is
/// first-best among `moves[..k]`, the fold over the rest returns a
/// first-best choice among all of `moves`.
proof fn lemma_best_scan_first_best(
    s: Seq<Player>,
    edge: int,
    points: int,
    is_p2: bool,
    levels: nat,
    moves: Seq<Move>,
    k: int,
    j: int,
)
    requires
        levels >= 1,
        0 <= j < k <= moves.len(),
        forall|i: int|
            0 <= i < j ==> mover_of(is_p2).spec_better(
                cand_score(s, edge, points, is_p2, levels, moves[j]),
                #[trigger] cand_score(s, edge, points, is_p2, levels, moves[i]),
            ),
        forall|i: int|
            j < i < k ==> !mover_of(is_p2).spec_better(
                #[trigger] cand_score(s, edge, points, is_p2, levels, moves[i]),
                cand_score(s, edge, points, is_p2, levels, moves[j]),
            ),
    ensures
        exists|j2: int|
            first_best_from(
                s,
                edge,
                points,
                is_p2,
                levels,
                moves,
                best_scan(
                    s,
                    edge,
                    points,
                    is_p2,
                    levels,
                    moves,
                    k,
                    moves[j],
                    cand_score(s, edge, points, is_p2, levels, moves[j]),
                ),
                j2,
            ),
    decreases moves.len() - k,
{
    let mover = mover_of(is_p2);
    let bs = cand_score(s, edge, points, is_p2, levels, moves[j]);
    let res = best_scan(s, edge, points, is_p2, levels, moves, k, moves[j], bs);
    if k >= moves.len() {
        assert(first_best_from(s, edge, points, is_p2, levels, moves, res, j));
    } else {
        let cand = cand_score(s, edge, points, is_p2, levels, moves[k]);
        if mover.spec_better(cand, bs) {
            assert forall|i: int| 0 <= i < k implies mover.spec_better(
                cand,
                #[trigger] cand_score(s, edge, points, is_p2, levels, moves[i]),
            ) by {}
            lemma_best_scan_first_best(s, edge, points, is_p2, levels, moves, k + 1, k);
        } else {
            lemma_best_scan_first_best(s, edge, points, is_p2, levels, moves, k + 1, j);
        }
    }
}

/// Tie-break law of the search: with moves available and depth left, the
/// search returns the move met first in generation order among the best —
/// its propagated score strictly beats every earlier candidate's for the
/// acting side, and no later candidate's score strictly beats it. Two
/// candidates with equal scores therefore resolve to the earlier one.
pub proof fn lemma_search_tie_break(
    s: Seq<Player>,
    edge: int,
    points: int,
    is_p2: bool,
    levels: nat,
)
    requires
        levels >= 1,
        spec_move_list(s, edge, mover_of(is_p2)).len() > 0,
    ensures
        exists|j: int|
            first_best_from(
                s,
                edge,
                points,
                is_p2,
                levels,
                spec_move_list(s, edge, mover_of(is_p2)),
                spec_minimax(s, edge, points, is_p2, levels),
                j,
            ),
{
    let moves = spec_move_list(s, edge, mover_of(is_p2));
    lemma_best_scan_first_best(s, edge, points, is_p2, levels, moves, 1, 0);
    assert(spec_minimax(s, edge, points, is_p2, levels) == best_scan(
        s,
        edge,
        points,
        is_p2,
        levels,
        moves,
        1,
        moves[0],
        cand_score(s, edge, points, is_p2, levels, moves[0]),
    ));
}

/// Depth-zero law of the search: with no depth left the search returns no
/// move and the position's score unchanged.
pub proof fn lemma_search_depth_zero(s: Seq<Player>, edge: int, points: int, is_p2: bool)
    ensures
        spec_minimax(s, edge, points, is_p2, 0) == (None::<Move>, points),
{
}

impl BoardAndPoints {
    /// The best move for the acting side by exhaustive minimax to depth
    /// `levels_left`, with the score the search attributes to it; no move
    /// when the depth is exhausted or the side cannot move, with the score
    /// unchanged.
    pub fn get_best_move(&self, is_p2: bool, levels_left: u8) -> (r: (Option<Move>, i32))
        requires
            self.wf(),
        ensures
            r.0 == spec_minimax(
                self.board.squares@,
                self.board.edge_size as int,
                self.points as int,
                is_p2,
                levels_left as nat,
            ).0,
            r.1 as int == spec_minimax(
                self.board.squares@,
                self.board.edge_size as int,
                self.points as int,
                is_p2,
                levels_left as nat,
            ).1,
            levels_left == 0 ==> r == (None::<Move>, self.points),
        decreases levels_left,
    {
        if levels_left == 0 {
            return (None, self.points);
        }
        let ghost sq = self.board.squares@;
        let ghost edge_i = self.board.edge_size as int;
        let ghost pts = self.points as int;
        let ghost levels = levels_left as nat;
        let moving_player = if is_p2 {
            Player::P2
        } else {
            Player::P1
        };
        let board_with_moves = self.attach_moves(moving_player);
        let ghost ml = spec_move_list(sq, edge_i, moving_player);
        let mut all_moves: Vec<Move> = Vec::new();
        let n_takes: usize = board_with_moves.takes.len();
        let mut i: usize = 0;
        while i < n_takes
            invariant
                0 <= i <= n_takes,
                n_takes == board_with_moves.takes@.len(),
                all_moves@ =~= board_with_moves.takes@.take(i as int),
            decreases n_takes - i,
        {
            all_moves.push(board_with_moves.takes[i]);
            i = i + 1;
        }
        let n_jumps: usize = board_with_moves.jumps.len();
        let mut k: usize = 0;
        while k < n_jumps
            invariant
                0 <= k <= n_jumps,
                n_jumps == board_with_moves.jumps@.len(),
                all_moves@ =~= board_with_moves.takes@ + board_with_moves.jumps@.take(k as int),
            decreases n_jumps - k,
        {
            all_moves.push(board_with_moves.jumps[k]);
            k = k + 1;
        }
        proof {
            assert(board_with_moves.takes@.take(n_takes as int) =~= board_with_moves.takes@);
            assert(board_with_moves.jumps@.take(n_jumps as int) =~= board_with_moves.jumps@);
            assert(all_moves@ =~= ml);
        }
        if all_moves.len() == 0 {
            return (None, self.points);
        }
        proof {
            lemma_generated_moves_legal(sq, edge_i, moving_player);
            assert(legal_move(sq, edge_i, moving_player, ml[0]));
        }
        let m0: Move = all_moves[0];
        let applied0 = self.move_into_square(is_p2, &m0);
        let rec0 = applied0.get_best_move(!is_p2, levels_left - 1);
        let mut best_move: Move = m0;
        let mut best_score: i32 = rec0.1;
        let n: usize = all_moves.len();
        let mut idx: usize = 1;
        while idx < n
            invariant
                self.wf(),
                sq == self.board.squares@,
                edge_i == self.board.edge_size as int,
                pts == self.points as int,
                levels == levels_left as nat,
                1 <= levels_left,
                moving_player == mover_of(is_p2),
                all_moves@ == ml,
                ml == spec_move_list(sq, edge_i, moving_player),
                n == all_moves@.len(),
                1 <= idx <= n,
                spec_minimax(sq, edge_i, pts, is_p2, levels) == best_scan(
                    sq,
                    edge_i,
                    pts,
                    is_p2,
                    levels,
                    ml,
                    idx as int,
                    best_move,
                    best_score as int,
                ),
            decreases n - idx,
        {
            proof {
                lemma_generated_moves_legal(sq, edge_i, moving_player);
                assert(legal_move(sq, edge_i, moving_player, ml[idx as int]));
            }
            let mk: Move = all_moves[idx];
            let applied = self.move_into_square(is_p2, &mk);
            let reck = applied.get_best_move(!is_p2, levels_left - 1);
            if moving_player.score_is_better(reck.1, best_score) {
                best_move = mk;
                best_score = reck.1;
            }
            idx = idx + 1;
        }
        (Some(best_move), best_score)
    }
}

} // verus!
