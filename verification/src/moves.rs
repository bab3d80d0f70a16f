//! Move generation: takes into the capture window of an owned square, jumps
//! from exactly two squares away, and the combined move list with takes
//! preempting jumps per destination.
//!
//! The scan spec functions walk a flat row-major grid `s` of edge length
//! `edge` from square (r, c) to the end, so that each loop of the exec code
//! maintains "what was built so far plus the rest of the scan is the whole".

use vstd::prelude::*;
use crate::board::{
    Board, MAX_EDGE, Position, cell_at, in_win, lemma_flat_index, pos_in_range, win_hi, win_lo,
    window_bounds,
};
use crate::player::Player;

verus! {

/// The two kinds of move: a take claims a square next to an owned one; a
/// jump moves an owned piece to a square exactly two away on one axis.
#[derive(Clone, Copy, PartialEq, Eq, Structural, Debug)]
pub enum MoveType {
    Take,
    Jump,
}

/// One move: its kind, the square it starts from, and the square it claims.
#[derive(Clone, Copy, PartialEq, Eq, Structural, Debug)]
pub struct Move {
    pub move_type: MoveType,
    pub from: Position,
    pub to: Position,
}

/// Absolute difference.
pub open spec fn abs_delta(a: int, b: int) -> int {
    if a > b {
        a - b
    } else {
        b - a
    }
}

/// Absolute difference of two indices.
pub fn usize_abs_delta(a: usize, b: usize) -> (r: usize)
    ensures
        r as int == abs_delta(a as int, b as int),
{
    if a > b {
        a - b
    } else {
        b - a
    }
}

/// Jump geometry: exactly two apart on one axis, at most two on the other.
pub open spec fn jump_reach(from_r: int, from_c: int, to_r: int, to_c: int) -> bool {
    let rd = abs_delta(from_r, to_r);
    let cd = abs_delta(from_c, to_c);
    (rd == 2 && cd <= 2) || (cd == 2 && rd <= 2)
}

/// A move `m` of player `player` is legal on the grid: it claims an
/// unclaimed square from a square the player owns, and its kind's geometry
/// holds: a take starts inside the capture window of its destination, a
/// jump within jump reach of it.
pub open spec fn legal_move(s: Seq<Player>, edge: int, player: Player, m: Move) -> bool {
    &&& pos_in_range(edge, m.to.row as int, m.to.col as int)
    &&& pos_in_range(edge, m.from.row as int, m.from.col as int)
    &&& cell_at(s, edge, m.to.row as int, m.to.col as int) == Player::NoOne
    &&& cell_at(s, edge, m.from.row as int, m.from.col as int) == player
    &&& match m.move_type {
        MoveType::Take => in_win(m.from.row as int, m.to.row as int, edge) && in_win(
            m.from.col as int,
            m.to.col as int,
            edge,
        ),
        MoveType::Jump => jump_reach(
            m.from.row as int,
            m.from.col as int,
            m.to.row as int,
            m.to.col as int,
        ),
    }
}

/// Row-major scan for the first square owned by `player` inside the capture
/// window of `to`, starting the scan at square (r, c).
pub open spec fn take_scan(
    s: Seq<Player>,
    edge: int,
    player: Player,
    to: Position,
    r: int,
    c: int,
) -> Option<Position>
    decreases edge - r, edge - c,
{
    if r >= edge {
        None
    } else if c >= edge {
        take_scan(s, edge, player, to, r + 1, 0)
    } else if in_win(r, to.row as int, edge) && in_win(c, to.col as int, edge) && cell_at(
        s,
        edge,
        r,
        c,
    ) == player {
        Some(Position { row: r as usize, col: c as usize })
    } else {
        take_scan(s, edge, player, to, r, c + 1)
    }
}

/// The first square owned by `player` in the capture window of `to`,
/// scanning rows then columns; the origin of a take into `to`, if any.
pub open spec fn spec_take_origin(s: Seq<Player>, edge: int, player: Player, to: Position) -> Option<
    Position,
> {
    take_scan(s, edge, player, to, 0, 0)
}

/// A take found by the window scan starts on the grid, inside the window,
/// from a square the player owns.
pub proof fn lemma_take_scan_props(
    s: Seq<Player>,
    edge: int,
    player: Player,
    to: Position,
    r: int,
    c: int,
)
    requires
        0 <= r,
        0 <= c,
        1 <= edge <= MAX_EDGE,
    ensures
        take_scan(s, edge, player, to, r, c) matches Some(o) ==> {
            &&& pos_in_range(edge, o.row as int, o.col as int)
            &&& cell_at(s, edge, o.row as int, o.col as int) == player
            &&& in_win(o.row as int, to.row as int, edge)
            &&& in_win(o.col as int, to.col as int, edge)
        },
    decreases edge - r, edge - c,
{
    if r >= edge {
    } else if c >= edge {
        lemma_take_scan_props(s, edge, player, to, r + 1, 0);
    } else if in_win(r, to.row as int, edge) && in_win(c, to.col as int, edge) && cell_at(
        s,
        edge,
        r,
        c,
    ) == player {
    } else {
        lemma_take_scan_props(s, edge, player, to, r, c + 1);
    }
}

/// The take move into `to`, if the window scan finds an origin.
pub open spec fn spec_can_take(s: Seq<Player>, edge: int, player: Player, to: Position) -> Option<
    Move,
> {
    match spec_take_origin(s, edge, player, to) {
        Some(o) => Some(Move { move_type: MoveType::Take, from: o, to }),
        None => None,
    }
}

impl Board {
    /// The first square in the capture window of `pos` owned by `player`,
    /// scanning rows then columns, wrapped as a take move into `pos`;
    /// nothing if the player owns no square of the window.
    pub fn can_take(&self, player: Player, pos: Position) -> (r: Option<Move>)
        requires
            self.wf(),
            self.in_range(pos.row as int, pos.col as int),
        ensures
            r == spec_can_take(self.squares@, self.edge_size as int, player, pos),
    {
        let edge: usize = self.edge_size;
        let ghost sq = self.squares@;
        let (rlo, rhi) = window_bounds(pos.row, edge);
        let (clo, chi) = window_bounds(pos.col, edge);
        let mut r: usize = 0;
        while r < edge
            invariant
                self.wf(),
                self.in_range(pos.row as int, pos.col as int),
                edge == self.edge_size,
                sq == self.squares@,
                rlo == win_lo(pos.row as int, edge as int),
                rhi == win_hi(pos.row as int, edge as int),
                clo == win_lo(pos.col as int, edge as int),
                chi == win_hi(pos.col as int, edge as int),
                0 <= r <= edge,
                take_scan(sq, edge as int, player, pos, r as int, 0) == spec_take_origin(
                    sq,
                    edge as int,
                    player,
                    pos,
                ),
            decreases edge - r,
        {
            let mut c: usize = 0;
            while c < edge
                invariant
                    self.wf(),
                    self.in_range(pos.row as int, pos.col as int),
                    edge == self.edge_size,
                    sq == self.squares@,
                    rlo == win_lo(pos.row as int, edge as int),
                    rhi == win_hi(pos.row as int, edge as int),
                    clo == win_lo(pos.col as int, edge as int),
                    chi == win_hi(pos.col as int, edge as int),
                    0 <= r < edge,
                    0 <= c <= edge,
                    take_scan(sq, edge as int, player, pos, r as int, c as int)
                        == spec_take_origin(sq, edge as int, player, pos),
                decreases edge - c,
            {
                proof {
                    crate::board::lemma_edge_sq_bound(edge as int);
                    lemma_flat_index(r as int, c as int, edge as int);
                }
                if rlo <= r && r <= rhi && clo <= c && c <= chi && self.squares[r * edge + c]
                    == player {
                    return Some(
                        Move {
                            move_type: MoveType::Take,
                            from: Position { row: r, col: c },
                            to: pos,
                        },
                    );
                }
                c = c + 1;
            }
            r = r + 1;
        }
        None
    }
}

/// Row-major scan for every square owned by `player` within jump reach of
/// `to`, starting the scan at square (r, c).
pub open spec fn jump_scan(
    s: Seq<Player>,
    edge: int,
    player: Player,
    to: Position,
    r: int,
    c: int,
) -> Seq<Position>
    decreases edge - r, edge - c,
{
    if r >= edge {
        Seq::empty()
    } else if c >= edge {
        jump_scan(s, edge, player, to, r + 1, 0)
    } else {
        let rest = jump_scan(s, edge, player, to, r, c + 1);
        if cell_at(s, edge, r, c) == player && jump_reach(r, c, to.row as int, to.col as int) {
            seq![Position { row: r as usize, col: c as usize }] + rest
        } else {
            rest
        }
    }
}

/// Every square owned by `player` within jump reach of `to`, in row-major
/// order: the origins of the jumps into `to`.
pub open spec fn spec_jump_origins(s: Seq<Player>, edge: int, player: Player, to: Position) -> Seq<
    Position,
> {
    jump_scan(s, edge, player, to, 0, 0)
}

/// Every origin the jump scan finds is on the grid, owned by the player,
/// and within jump reach of the destination.
pub proof fn lemma_jump_scan_props(
    s: Seq<Player>,
    edge: int,
    player: Player,
    to: Position,
    r: int,
    c: int,
)
    requires
        0 <= r,
        0 <= c,
        edge <= MAX_EDGE,
    ensures
        forall|i: int|
            0 <= i < jump_scan(s, edge, player, to, r, c).len() ==> {
                let o = #[trigger] jump_scan(s, edge, player, to, r, c)[i];
                &&& pos_in_range(edge, o.row as int, o.col as int)
                &&& cell_at(s, edge, o.row as int, o.col as int) == player
                &&& jump_reach(o.row as int, o.col as int, to.row as int, to.col as int)
            },
    decreases edge - r, edge - c,
{
    if r >= edge {
    } else if c >= edge {
        lemma_jump_scan_props(s, edge, player, to, r + 1, 0);
    } else {
        lemma_jump_scan_props(s, edge, player, to, r, c + 1);
    }
}

impl Board {
    /// Every possible starting square for a jump into `pos`, in row-major
    /// order.
    pub fn get_jumps(&self, player: Player, pos: Position) -> (r: Vec<Position>)
        requires
            self.wf(),
            self.in_range(pos.row as int, pos.col as int),
        ensures
            r@ == spec_jump_origins(self.squares@, self.edge_size as int, player, pos),
    {
        let edge: usize = self.edge_size;
        let ghost sq = self.squares@;
        let mut ret: Vec<Position> = Vec::new();
        let mut r: usize = 0;
        while r < edge
            invariant
                self.wf(),
                self.in_range(pos.row as int, pos.col as int),
                edge == self.edge_size,
                sq == self.squares@,
                0 <= r <= edge,
                ret@ + jump_scan(sq, edge as int, player, pos, r as int, 0) == spec_jump_origins(
                    sq,
                    edge as int,
                    player,
                    pos,
                ),
            decreases edge - r,
        {
            let mut c: usize = 0;
            while c < edge
                invariant
                    self.wf(),
                    self.in_range(pos.row as int, pos.col as int),
                    edge == self.edge_size,
                    sq == self.squares@,
                    0 <= r < edge,
                    0 <= c <= edge,
                    ret@ + jump_scan(sq, edge as int, player, pos, r as int, c as int)
                        == spec_jump_origins(sq, edge as int, player, pos),
                decreases edge - c,
            {
                proof {
                    crate::board::lemma_edge_sq_bound(edge as int);
                    lemma_flat_index(r as int, c as int, edge as int);
                }
                let owner = self.squares[r * edge + c];
                if owner == player {
                    let row_delta: usize = usize_abs_delta(r, pos.row);
                    let col_delta: usize = usize_abs_delta(c, pos.col);
                    if (row_delta == 2 && col_delta <= 2) || (col_delta == 2 && row_delta <= 2) {
                        let ghost before = ret@;
                        ret.push(Position { row: r, col: c });
                        proof {
                            assert(ret@ + jump_scan(sq, edge as int, player, pos, r as int, c as int
                                + 1) =~= before + jump_scan(
                                sq,
                                edge as int,
                                player,
                                pos,
                                r as int,
                                c as int,
                            ));
                        }
                    }
                }
                c = c + 1;
            }
            r = r + 1;
        }
        proof {
            assert(ret@ + jump_scan(sq, edge as int, player, pos, edge as int, 0) =~= ret@);
        }
        ret
    }
}

/// Row-major scan of the grid for its take moves: one take per unclaimed
/// square whose capture window holds a square owned by `player`, starting
/// the scan at square (r, c).
pub open spec fn takes_scan(s: Seq<Player>, edge: int, player: Player, r: int, c: int) -> Seq<Move>
    decreases edge - r, edge - c,
{
    if r >= edge {
        Seq::empty()
    } else if c >= edge {
        takes_scan(s, edge, player, r + 1, 0)
    } else {
        let pos = Position { row: r as usize, col: c as usize };
        let rest = takes_scan(s, edge, player, r, c + 1);
        if cell_at(s, edge, r, c) == Player::NoOne && spec_take_origin(s, edge, player, pos)
            is Some {
            seq![
                Move {
                    move_type: MoveType::Take,
                    from: spec_take_origin(s, edge, player, pos)->Some_0,
                    to: pos,
                },
            ] + rest
        } else {
            rest
        }
    }
}

/// Row-major scan of the grid for its jump moves: for each unclaimed
/// square with no take available, one jump per origin within reach,
/// starting the scan at square (r, c).
pub open spec fn jump_moves_scan(s: Seq<Player>, edge: int, player: Player, r: int, c: int) -> Seq<
    Move,
>
    decreases edge - r, edge - c,
{
    if r >= edge {
        Seq::empty()
    } else if c >= edge {
        jump_moves_scan(s, edge, player, r + 1, 0)
    } else {
        let pos = Position { row: r as usize, col: c as usize };
        let rest = jump_moves_scan(s, edge, player, r, c + 1);
        if cell_at(s, edge, r, c) == Player::NoOne && spec_take_origin(s, edge, player, pos)
            is None {
            spec_jump_origins(s, edge, player, pos).map_values(
                |o: Position| Move { move_type: MoveType::Jump, from: o, to: pos },
            ) + rest
        } else {
            rest
        }
    }
}

/// All take moves of `player`, in row-major order of their destinations.
pub open spec fn spec_takes(s: Seq<Player>, edge: int, player: Player) -> Seq<Move> {
    takes_scan(s, edge, player, 0, 0)
}

/// All jump moves of `player`, in row-major order of their destinations,
/// each destination's origins in row-major order.
pub open spec fn spec_jumps(s: Seq<Player>, edge: int, player: Player) -> Seq<Move> {
    jump_moves_scan(s, edge, player, 0, 0)
}

/// The move list the search walks: all takes, then all jumps.
pub open spec fn spec_move_list(s: Seq<Player>, edge: int, player: Player) -> Seq<Move> {
    spec_takes(s, edge, player) + spec_jumps(s, edge, player)
}

/// Every move the take scan yields is a legal take.
pub proof fn lemma_takes_scan_legal(s: Seq<Player>, edge: int, player: Player, r: int, c: int)
    requires
        1 <= edge <= MAX_EDGE,
        0 <= r,
        0 <= c,
    ensures
        forall|i: int|
            0 <= i < takes_scan(s, edge, player, r, c).len() ==> {
                let m = #[trigger] takes_scan(s, edge, player, r, c)[i];
                legal_move(s, edge, player, m) && m.move_type == MoveType::Take
            },
    decreases edge - r, edge - c,
{
    if r >= edge {
    } else if c >= edge {
        lemma_takes_scan_legal(s, edge, player, r + 1, 0);
    } else {
        lemma_takes_scan_legal(s, edge, player, r, c + 1);
        let pos = Position { row: r as usize, col: c as usize };
        if cell_at(s, edge, r, c) == Player::NoOne && spec_take_origin(s, edge, player, pos)
            is Some {
            lemma_take_scan_props(s, edge, player, pos, 0, 0);
        }
    }
}

/// Every move the jump scan yields is a legal jump.
pub proof fn lemma_jump_moves_scan_legal(s: Seq<Player>, edge: int, player: Player, r: int, c: int)
    requires
        1 <= edge <= MAX_EDGE,
        0 <= r,
        0 <= c,
    ensures
        forall|i: int|
            0 <= i < jump_moves_scan(s, edge, player, r, c).len() ==> {
                let m = #[trigger] jump_moves_scan(s, edge, player, r, c)[i];
                legal_move(s, edge, player, m) && m.move_type == MoveType::Jump
            },
    decreases edge - r, edge - c,
{
    if r >= edge {
    } else if c >= edge {
        lemma_jump_moves_scan_legal(s, edge, player, r + 1, 0);
    } else {
        lemma_jump_moves_scan_legal(s, edge, player, r, c + 1);
        let pos = Position { row: r as usize, col: c as usize };
        if cell_at(s, edge, r, c) == Player::NoOne && spec_take_origin(s, edge, player, pos)
            is None {
            lemma_jump_scan_props(s, edge, player, pos, 0, 0);
        }
    }
}

/// Every move the generator returns claims a square that is unclaimed on
/// the grid; a take starts from a square the player owns inside the
/// capture window of its destination; a jump starts from a square the
/// player owns exactly two away on one axis and at most two on the other.
pub proof fn lemma_generated_moves_legal(s: Seq<Player>, edge: int, player: Player)
    requires
        1 <= edge <= MAX_EDGE,
    ensures
        forall|i: int|
            0 <= i < spec_move_list(s, edge, player).len() ==> legal_move(
                s,
                edge,
                player,
                #[trigger] spec_move_list(s, edge, player)[i],
            ),
        forall|i: int|
            0 <= i < spec_takes(s, edge, player).len() ==> (#[trigger] spec_takes(
                s,
                edge,
                player,
            )[i]).move_type == MoveType::Take,
        forall|i: int|
            0 <= i < spec_jumps(s, edge, player).len() ==> (#[trigger] spec_jumps(
                s,
                edge,
                player,
            )[i]).move_type == MoveType::Jump,
{
    lemma_takes_scan_legal(s, edge, player, 0, 0);
    lemma_jump_moves_scan_legal(s, edge, player, 0, 0);
    assert forall|i: int| 0 <= i < spec_move_list(s, edge, player).len() implies legal_move(
        s,
        edge,
        player,
        #[trigger] spec_move_list(s, edge, player)[i],
    ) by {
        let takes = spec_takes(s, edge, player);
        let jumps = spec_jumps(s, edge, player);
        if i < takes.len() {
            assert(spec_move_list(s, edge, player)[i] == takes[i]);
        } else {
            assert(spec_move_list(s, edge, player)[i] == jumps[i - takes.len()]);
        }
    }
}

impl Board {
    /// All moves of `player`: the takes and the jumps, each list in
    /// row-major order of destinations. A destination with a take available
    /// contributes no jumps.
    pub fn get_all_moves(&self, player: Player) -> (r: (Vec<Move>, Vec<Move>))
        requires
            self.wf(),
        ensures
            r.0@ == spec_takes(self.squares@, self.edge_size as int, player),
            r.1@ == spec_jumps(self.squares@, self.edge_size as int, player),
    {
        let edge: usize = self.edge_size;
        let ghost sq = self.squares@;
        let mut takes: Vec<Move> = Vec::new();
        let mut jumps: Vec<Move> = Vec::new();
        let mut row: usize = 0;
        while row < edge
            invariant
                self.wf(),
                edge == self.edge_size,
                sq == self.squares@,
                0 <= row <= edge,
                takes@ + takes_scan(sq, edge as int, player, row as int, 0) == spec_takes(
                    sq,
                    edge as int,
                    player,
                ),
                jumps@ + jump_moves_scan(sq, edge as int, player, row as int, 0) == spec_jumps(
                    sq,
                    edge as int,
                    player,
                ),
            decreases edge - row,
        {
            let mut col: usize = 0;
            while col < edge
                invariant
                    self.wf(),
                    edge == self.edge_size,
                    sq == self.squares@,
                    0 <= row < edge,
                    0 <= col <= edge,
                    takes@ + takes_scan(sq, edge as int, player, row as int, col as int)
                        == spec_takes(sq, edge as int, player),
                    jumps@ + jump_moves_scan(sq, edge as int, player, row as int, col as int)
                        == spec_jumps(sq, edge as int, player),
                decreases edge - col,
            {
                proof {
                    crate::board::lemma_edge_sq_bound(edge as int);
                    lemma_flat_index(row as int, col as int, edge as int);
                }
                let owner = self.squares[row * edge + col];
                if owner == Player::NoOne {
                    let pos = Position { row, col };
                    match self.can_take(player, pos) {
                        Some(m) => {
                            let ghost before = takes@;
                            takes.push(m);
                            proof {
                                assert(takes@ + takes_scan(
                                    sq,
                                    edge as int,
                                    player,
                                    row as int,
                                    col as int + 1,
                                ) =~= before + takes_scan(
                                    sq,
                                    edge as int,
                                    player,
                                    row as int,
                                    col as int,
                                ));
                            }
                        },
                        None => {
                            let origins = self.get_jumps(player, pos);
                            let ghost jump_seq = spec_jump_origins(
                                sq,
                                edge as int,
                                player,
                                pos,
                            ).map_values(
                                |o: Position| Move { move_type: MoveType::Jump, from: o, to: pos },
                            );
                            let ghost before = jumps@;
                            let mut k: usize = 0;
                            let n: usize = origins.len();
                            while k < n
                                invariant
                                    0 <= k <= n,
                                    n == origins@.len(),
                                    jump_seq == origins@.map_values(
                                        |o: Position| Move {
                                            move_type: MoveType::Jump,
                                            from: o,
                                            to: pos,
                                        },
                                    ),
                                    jumps@ =~= before + jump_seq.take(k as int),
                                decreases n - k,
                            {
                                let o = origins[k];
                                jumps.push(Move { move_type: MoveType::Jump, from: o, to: pos });
                                proof {
                                    assert(jump_seq.take(k as int + 1) =~= jump_seq.take(k as int)
                                        + seq![jump_seq[k as int]]);
                                }
                                k = k + 1;
                            }
                            proof {
                                assert(jump_seq.take(n as int) =~= jump_seq);
                                assert(jumps@ + jump_moves_scan(
                                    sq,
                                    edge as int,
                                    player,
                                    row as int,
                                    col as int + 1,
                                ) =~= before + jump_moves_scan(
                                    sq,
                                    edge as int,
                                    player,
                                    row as int,
                                    col as int,
                                ));
                            }
                        },
                    }
                }
                col = col + 1;
            }
            row = row + 1;
        }
        proof {
            assert(takes@ + takes_scan(sq, edge as int, player, edge as int, 0) =~= takes@);
            assert(jumps@ + jump_moves_scan(sq, edge as int, player, edge as int, 0) =~= jumps@);
        }
        (takes, jumps)
    }
}

} // verus!
