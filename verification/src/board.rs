//! The square grid of owners, its point total, the capture window around a
//! square, and the starting layout.

use vstd::prelude::*;
use crate::player::Player;

verus! {

/// A grid coordinate, row-major, zero-based.
#[derive(Clone, Copy, PartialEq, Eq, Structural, Debug, Hash)]
pub struct Position {
    pub row: usize,
    pub col: usize,
}

/// Largest supported edge length. A board of this size still keeps every
/// point total (at most one point per square) and every score update
/// within `i32`.
pub const MAX_EDGE: usize = 46340;

/// A square grid of owners, stored row-major in one flat vector:
/// the square at row `r`, column `c` sits at index `r * edge_size + c`.
#[derive(Debug)]
pub struct Board {
    pub squares: Vec<Player>,
    pub edge_size: usize,
}

/// The owner of the square at row `r`, column `c` of a flat row-major grid
/// of the given edge length.
pub open spec fn cell_at(s: Seq<Player>, edge: int, r: int, c: int) -> Player {
    s[r * edge + c]
}

/// Is (r, c) a coordinate on a grid of the given edge length?
pub open spec fn pos_in_range(edge: int, r: int, c: int) -> bool {
    0 <= r < edge && 0 <= c < edge
}

impl Board {
    /// The owner of the square at row `r`, column `c`.
    pub open spec fn cell(self, r: int, c: int) -> Player {
        cell_at(self.squares@, self.edge_size as int, r, c)
    }

    /// Is (r, c) a coordinate on this board?
    pub open spec fn in_range(self, r: int, c: int) -> bool {
        pos_in_range(self.edge_size as int, r, c)
    }

    /// The vector holds exactly one owner per square of the grid, and the
    /// grid is small enough for flat indices and point totals.
    pub open spec fn shape_ok(self) -> bool {
        &&& self.edge_size <= MAX_EDGE
        &&& self.squares@.len() == self.edge_size * self.edge_size
    }

    /// A well-formed board: square, non-empty, and of supported size.
    pub open spec fn wf(self) -> bool {
        &&& 1 <= self.edge_size
        &&& self.shape_ok()
    }
}

/// Sum of the scoring weights of a sequence of owners.
pub open spec fn sum_points(s: Seq<Player>) -> int
    decreases s.len(),
{
    if s.len() == 0 {
        0
    } else {
        s[0].spec_points() + sum_points(s.drop_first())
    }
}

/// A square's weight splits off the front of the sum.
pub proof fn lemma_sum_points_skip(s: Seq<Player>, k: int)
    requires
        0 <= k < s.len(),
    ensures
        sum_points(s.skip(k)) == s[k].spec_points() + sum_points(s.skip(k + 1)),
{
    assert(s.skip(k).len() > 0);
    assert(s.skip(k)[0] == s[k]);
    assert(s.skip(k).drop_first() =~= s.skip(k + 1));
}

/// The sum of weights is bounded by the number of squares.
pub proof fn lemma_sum_points_bound(s: Seq<Player>)
    ensures
        -(s.len() as int) <= sum_points(s) <= s.len() as int,
    decreases s.len(),
{
    if s.len() > 0 {
        lemma_sum_points_bound(s.drop_first());
    }
}

/// Dropping one owner takes its weight off the sum.
pub proof fn lemma_sum_points_remove(s: Seq<Player>, i: int)
    requires
        0 <= i < s.len(),
    ensures
        sum_points(s.remove(i)) == sum_points(s) - s[i].spec_points(),
    decreases s.len(),
{
    if i == 0 {
        assert(s.remove(0) =~= s.drop_first());
    } else {
        assert(s.remove(i).drop_first() =~= s.drop_first().remove(i - 1));
        lemma_sum_points_remove(s.drop_first(), i - 1);
    }
}

/// The point total does not depend on traversal order: two sequences that
/// hold the same owners, each the same number of times, have the same sum.
pub proof fn lemma_sum_points_order_independent(s1: Seq<Player>, s2: Seq<Player>)
    requires
        s1.to_multiset() == s2.to_multiset(),
    ensures
        sum_points(s1) == sum_points(s2),
    decreases s1.len(),
{
    broadcast use vstd::seq_lib::group_to_multiset_ensures;

    if s1.len() == 0 {
        assert(s2.to_multiset().len() == 0);
        assert(s2.len() == 0);
    } else {
        let x = s1[0];
        assert(s1.contains(x));
        assert(s2.to_multiset().count(x) > 0);
        assert(s2.contains(x));
        let i = choose|i: int| 0 <= i < s2.len() && s2[i] == x;
        lemma_sum_points_remove(s2, i);
        assert(s1.remove(0) =~= s1.drop_first());
        assert(s1.drop_first().to_multiset() =~= s2.remove(i).to_multiset());
        lemma_sum_points_order_independent(s1.drop_first(), s2.remove(i));
    }
}

/// Replacing one owner moves the sum by the difference of the weights.
pub proof fn lemma_sum_points_update(s: Seq<Player>, i: int, v: Player)
    requires
        0 <= i < s.len(),
    ensures
        sum_points(s.update(i, v)) == sum_points(s) - s[i].spec_points() + v.spec_points(),
    decreases s.len(),
{
    let t = s.update(i, v);
    if i == 0 {
        assert(t.drop_first() =~= s.drop_first());
    } else {
        assert(t.drop_first() =~= s.drop_first().update(i - 1, v));
        lemma_sum_points_update(s.drop_first(), i - 1, v);
    }
}

/// A square grid never has more squares than the supported maximum,
/// which fits in `i32`.
pub proof fn lemma_edge_sq_bound(edge: int)
    requires
        0 <= edge <= MAX_EDGE,
    ensures
        edge * edge <= 2147395600,
{
    assert(edge * edge <= 46340 * 46340) by (nonlinear_arith)
        requires
            0 <= edge <= 46340,
    ;
}

/// A flat row-major index stays inside the grid.
pub proof fn lemma_flat_index(r: int, c: int, edge: int)
    requires
        0 <= r < edge,
        0 <= c < edge,
    ensures
        0 <= r * edge + c < edge * edge,
{
    assert(r * edge + c < edge * edge) by (nonlinear_arith)
        requires
            0 <= r < edge,
            0 <= c < edge,
    ;
    assert(r * edge >= 0) by (nonlinear_arith)
        requires
            r >= 0,
            edge >= 0,
    ;
}

/// A flat index inside the grid names the square at row `i / edge`,
/// column `i % edge`.
pub proof fn lemma_index_to_coords(i: int, edge: int)
    requires
        1 <= edge,
        0 <= i < edge * edge,
    ensures
        0 <= i / edge < edge,
        0 <= i % edge < edge,
        (i / edge) * edge + (i % edge) == i,
{
    vstd::arithmetic::div_mod::lemma_fundamental_div_mod(i, edge);
    vstd::arithmetic::div_mod::lemma_mod_bound(i, edge);
    let q = i / edge;
    assert(q >= 0) by (nonlinear_arith)
        requires
            edge >= 1,
            i >= 0,
            edge * q + i % edge == i,
            0 <= i % edge < edge,
    ;
    assert(q < edge) by (nonlinear_arith)
        requires
            edge >= 1,
            i < edge * edge,
            edge * q + i % edge == i,
            0 <= i % edge < edge,
    ;
    assert(q * edge == edge * q) by (nonlinear_arith);
}

/// Distinct coordinates have distinct flat indices.
pub proof fn lemma_flat_index_injective(r1: int, c1: int, r2: int, c2: int, edge: int)
    requires
        0 <= r1 < edge,
        0 <= c1 < edge,
        0 <= r2 < edge,
        0 <= c2 < edge,
        r1 * edge + c1 == r2 * edge + c2,
    ensures
        r1 == r2 && c1 == c2,
{
    assert(r1 == r2 && c1 == c2) by (nonlinear_arith)
        requires
            0 <= r1 < edge,
            0 <= c1 < edge,
            0 <= r2 < edge,
            0 <= c2 < edge,
            r1 * edge + c1 == r2 * edge + c2,
    ;
}

impl Board {
    /// The score of this board: the sum of every square's weight.
    pub fn get_points(&self) -> (r: i32)
        requires
            self.shape_ok(),
        ensures
            r as int == sum_points(self.squares@),
    {
        let n: usize = self.squares.len();
        proof {
            lemma_edge_sq_bound(self.edge_size as int);
            assert(self.squares@.skip(0) =~= self.squares@);
        }
        let mut acc: i32 = 0;
        let mut i: usize = 0;
        while i < n
            invariant
                0 <= i <= n,
                n == self.squares@.len(),
                n <= 2147395600,
                acc as int + sum_points(self.squares@.skip(i as int)) == sum_points(self.squares@),
                -(i as int) <= acc as int <= i as int,
            decreases n - i,
        {
            proof {
                lemma_sum_points_skip(self.squares@, i as int);
            }
            acc = acc + self.squares[i].get_points();
            i = i + 1;
        }
        proof {
            assert(self.squares@.skip(n as int) =~= Seq::<Player>::empty());
        }
        acc
    }
}

impl Board {
    /// A board with the same squares and the same edge length.
    pub fn duplicate(&self) -> (b: Board)
        ensures
            b.squares@ == self.squares@,
            b.edge_size == self.edge_size,
    {
        let n: usize = self.squares.len();
        let mut squares: Vec<Player> = Vec::new();
        let mut i: usize = 0;
        while i < n
            invariant
                0 <= i <= n,
                n == self.squares@.len(),
                squares@ =~= self.squares@.take(i as int),
            decreases n - i,
        {
            squares.push(self.squares[i]);
            i = i + 1;
        }
        proof {
            assert(self.squares@.take(n as int) =~= self.squares@);
        }
        Board { squares, edge_size: self.edge_size }
    }
}

/// Lowest row (or column) of the capture window around row (or column) `i`:
/// a two-wide window biased inward at the board edge, three-wide around an
/// interior square, and just the square itself on a one-square board.
pub open spec fn win_lo(i: int, edge: int) -> int {
    if edge == 1 {
        0
    } else if i == 0 {
        0
    } else if i == edge - 1 {
        edge - 2
    } else {
        i - 1
    }
}

/// Highest row (or column) of the capture window around row (or column) `i`.
pub open spec fn win_hi(i: int, edge: int) -> int {
    if edge == 1 {
        0
    } else if i == 0 {
        1
    } else if i == edge - 1 {
        edge - 1
    } else {
        i + 1
    }
}

/// Does row (or column) `j` lie in the capture window around `i`?
pub open spec fn in_win(j: int, i: int, edge: int) -> bool {
    win_lo(i, edge) <= j <= win_hi(i, edge)
}

/// The bounds of the capture window around row (or column) `i`.
pub fn window_bounds(i: usize, edge: usize) -> (r: (usize, usize))
    requires
        1 <= edge,
        i < edge,
    ensures
        r.0 == win_lo(i as int, edge as int),
        r.1 == win_hi(i as int, edge as int),
        r.0 <= i <= r.1 < edge,
{
    if edge == 1 {
        (0, 0)
    } else if i == 0 {
        (0, 1)
    } else if i == edge - 1 {
        (edge - 2, edge - 1)
    } else {
        (i - 1, i + 1)
    }
}

/// The starting owner of square (r, c) on a fresh board: player one in the
/// top-left and bottom-right corners, player two in the other two corners,
/// everything else unclaimed.
pub open spec fn spec_start_player(r: int, c: int, edge: int) -> Player {
    if r == 0 && c == 0 {
        Player::P1
    } else if r == edge - 1 && c == edge - 1 {
        Player::P1
    } else if r == 0 && c == edge - 1 {
        Player::P2
    } else if r == edge - 1 && c == 0 {
        Player::P2
    } else {
        Player::NoOne
    }
}

/// The starting owner of square (row, col) on an `edge_size`-wide board.
fn who_starts(row: usize, col: usize, edge_size: usize) -> (r: Player)
    requires
        1 <= edge_size,
    ensures
        r == spec_start_player(row as int, col as int, edge_size as int),
{
    let edge_minus_one: usize = edge_size - 1;
    if row == 0 && col == 0 {
        Player::P1
    } else if row == edge_minus_one && col == edge_minus_one {
        Player::P1
    } else if row == 0 && col == edge_minus_one {
        Player::P2
    } else if row == edge_minus_one && col == 0 {
        Player::P2
    } else {
        Player::NoOne
    }
}

/// The squares of a fresh board, row-major, from square (r, c) on.
pub open spec fn start_squares_from(edge: int, r: int, c: int) -> Seq<Player>
    decreases edge - r, edge - c,
{
    if r >= edge {
        Seq::empty()
    } else if c >= edge {
        start_squares_from(edge, r + 1, 0)
    } else {
        seq![spec_start_player(r, c, edge)] + start_squares_from(edge, r, c + 1)
    }
}

impl Board {
    /// A fresh board: the four corners claimed as `spec_start_player` says,
    /// all other squares unclaimed.
    pub fn starting_board(edge_size: usize) -> (b: Board)
        requires
            1 <= edge_size <= MAX_EDGE,
        ensures
            b.edge_size == edge_size,
            b.wf(),
            b.squares@ == start_squares_from(edge_size as int, 0, 0),
            forall|r: int, c: int|
                b.in_range(r, c) ==> b.cell(r, c) == spec_start_player(r, c, edge_size as int),
    {
        let edge: usize = edge_size;
        proof {
            lemma_edge_sq_bound(edge as int);
        }
        let mut squares: Vec<Player> = Vec::new();
        let mut row: usize = 0;
        while row < edge
            invariant
                1 <= edge <= MAX_EDGE,
                edge * edge <= 2147395600,
                0 <= row <= edge,
                squares@.len() == row * edge,
                squares@ + start_squares_from(edge as int, row as int, 0) == start_squares_from(
                    edge as int,
                    0,
                    0,
                ),
                forall|r: int, c: int|
                    0 <= r < row && 0 <= c < edge ==> squares@[r * edge + c] == spec_start_player(
                        r,
                        c,
                        edge as int,
                    ),
            decreases edge - row,
        {
            let mut col: usize = 0;
            while col < edge
                invariant
                    1 <= edge <= MAX_EDGE,
                    edge * edge <= 2147395600,
                    0 <= row < edge,
                    0 <= col <= edge,
                    squares@.len() == row * edge + col,
                    squares@ + start_squares_from(edge as int, row as int, col as int)
                        == start_squares_from(edge as int, 0, 0),
                    forall|r: int, c: int|
                        0 <= r < row && 0 <= c < edge ==> squares@[r * edge + c]
                            == spec_start_player(r, c, edge as int),
                    forall|c: int|
                        0 <= c < col ==> squares@[row * edge + c] == spec_start_player(
                            row as int,
                            c,
                            edge as int,
                        ),
                decreases edge - col,
            {
                proof {
                    lemma_flat_index(row as int, col as int, edge as int);
                    assert(start_squares_from(edge as int, row as int, col as int) == seq![
                        spec_start_player(row as int, col as int, edge as int),
                    ] + start_squares_from(edge as int, row as int, col as int + 1));
                }
                let ghost old_squares = squares@;
                squares.push(who_starts(row, col, edge));
                proof {
                    assert(squares@ + start_squares_from(edge as int, row as int, col as int + 1)
                        =~= old_squares + start_squares_from(edge as int, row as int, col as int));
                    assert forall|r: int, c: int|
                        0 <= r < row && 0 <= c < edge implies squares@[r * edge + c]
                        == spec_start_player(r, c, edge as int) by {
                        lemma_flat_index(r, c, edge as int);
                        assert(r * edge + c < row * edge + col) by (nonlinear_arith)
                            requires
                                0 <= r < row,
                                0 <= c < edge,
                                0 <= col,
                                edge >= 1,
                        ;
                    }
                    assert forall|c: int|
                        0 <= c < col + 1 implies squares@[row * edge + c] == spec_start_player(
                        row as int,
                        c,
                        edge as int,
                    ) by {}
                }
                col = col + 1;
            }
            proof {
                assert(row * edge + edge == (row + 1) * edge) by (nonlinear_arith);
            }
            row = row + 1;
        }
        proof {
            assert(start_squares_from(edge as int, edge as int, 0) =~= Seq::<Player>::empty());
            assert(squares@ + Seq::<Player>::empty() =~= squares@);
            assert(edge * edge == squares@.len());
        }
        let b = Board { squares, edge_size: edge };
        proof {
            assert forall|r: int, c: int| b.in_range(r, c) implies b.cell(r, c)
                == spec_start_player(r, c, edge as int) by {
                lemma_flat_index(r, c, edge as int);
            }
        }
        b
    }
}

} // verus!
