//! The board codec: a board is written as its rows of one character per
//! square ('1' and '2' for the two sides, anything else unclaimed), joined
//! by ':'. Parsing validates that the string is a square grid and fails
//! fast on anything else; serializing writes '0', '1' or '2' per square.
//! A move is written "r1,c1>r2,c2" in decimal.

use vstd::prelude::*;
use vstd::string::StringExecFns;
use vstd::string::StrSliceExecFns;
use crate::GameError;
use crate::apply::BoardAndPoints;
use crate::board::{Board, MAX_EDGE, cell_at, lemma_edge_sq_bound, lemma_flat_index};
use crate::moves::Move;
use crate::player::Player;

verus! {

/// Is `s` the text of a square board of edge length `e`: `e` rows of `e`
/// characters joined by single colons — so its length is e*e + e - 1 and
/// its colons stand exactly at the indices congruent to `e` modulo `e + 1`.
pub open spec fn valid_pattern(s: Seq<char>, e: int) -> bool {
    &&& 1 <= e
    &&& s.len() == e * e + e - 1
    &&& forall|k: int| 0 <= k < s.len() ==> ((#[trigger] s[k] == ':') <==> k % (e + 1) == e)
}

/// A board string the parser accepts: a square pattern of supported size.
pub open spec fn valid_board_string(s: Seq<char>, e: int) -> bool {
    valid_pattern(s, e) && e <= MAX_EDGE
}

/// A string is a valid pattern for at most one edge length, since the
/// length e*e + e - 1 grows strictly with e.
pub proof fn lemma_valid_pattern_unique(s: Seq<char>, e1: int, e2: int)
    requires
        valid_pattern(s, e1),
        valid_pattern(s, e2),
    ensures
        e1 == e2,
{
    assert(e1 == e2) by (nonlinear_arith)
        requires
            e1 >= 1,
            e2 >= 1,
            e1 * e1 + e1 == e2 * e2 + e2,
    ;
}

/// The squares a valid board string denotes, row-major, from (r, c) on:
/// square (r, c) is written at string index r * (e + 1) + c.
pub open spec fn parse_squares_from(s: Seq<char>, e: int, r: int, c: int) -> Seq<Player>
    decreases e - r, e - c,
{
    if r >= e {
        Seq::empty()
    } else if c >= e {
        parse_squares_from(s, e, r + 1, 0)
    } else {
        seq![Player::spec_of_char(s[r * (e + 1) + c])] + parse_squares_from(s, e, r, c + 1)
    }
}

/// All squares a valid board string denotes, row-major.
pub open spec fn spec_parsed_squares(s: Seq<char>, e: int) -> Seq<Player> {
    parse_squares_from(s, e, 0, 0)
}

/// A valid pattern pins its edge length: the first colon stands at index
/// `e`, or the string is the single square of a one-square board.
proof fn lemma_pattern_edge(s: Seq<char>, e: int, f: int)
    requires
        valid_pattern(s, e),
        0 <= f <= s.len(),
        forall|k: int| 0 <= k < f ==> s[k] != ':',
        f < s.len() ==> s[f] == ':',
    ensures
        e == f,
{
    if e < s.len() {
        vstd::arithmetic::div_mod::lemma_small_mod(e as nat, (e + 1) as nat);
        assert(s[e] == ':');
        assert(f <= e);
        if f < e {
            vstd::arithmetic::div_mod::lemma_small_mod(f as nat, (e + 1) as nat);
            assert(s[f] != ':');
            assert(false);
        }
    } else {
        assert(e == 1 && e * e == 1) by (nonlinear_arith)
            requires
                e >= 1,
                e * e + e - 1 <= e,
        ;
        assert(s.len() == 1);
        vstd::arithmetic::div_mod::lemma_small_mod(0nat, 2nat);
        assert(s[0] != ':');
        assert(f == 1);
    }
}

impl Board {
    /// Parse a board string: accepted exactly when the string is a square
    /// grid of rows joined by colons, of supported size; '1' and '2' name
    /// the two sides, any other character an unclaimed square. Anything
    /// else is reported as a malformed board.
    pub fn parse_board(board_string: &str) -> (r: Result<BoardAndPoints, GameError>)
        ensures
            r is Ok <==> exists|e: int| valid_board_string(board_string@, e),
            r matches Ok(bp) ==> {
                let e = bp.board.edge_size as int;
                &&& valid_board_string(board_string@, e)
                &&& bp.wf()
                &&& bp.board.squares@ == spec_parsed_squares(board_string@, e)
            },
            r matches Err(er) ==> er == GameError::MalformedBoard,
    {
        let ghost s = board_string@;
        let n: usize = board_string.unicode_len();
        // the first colon, or the whole length without one, is the only
        // possible edge length
        let mut f: usize = 0;
        while f < n && board_string.get_char(f) != ':'
            invariant
                0 <= f <= n,
                n == s.len(),
                s == board_string@,
                forall|k: int| 0 <= k < f ==> s[k] != ':',
            decreases n - f,
        {
            f = f + 1;
        }
        if f == 0 {
            proof {
                assert forall|e: int| !valid_board_string(s, e) by {
                    if valid_pattern(s, e) {
                        lemma_pattern_edge(s, e, 0);
                    }
                }
            }
            return Err(GameError::MalformedBoard);
        }
        let big_f: u128 = f as u128;
        proof {
            assert((big_f as int) * (big_f as int) + (big_f as int)
                < 0x1_0000_0000_0000_0000_0000_0000_0000_0000) by (nonlinear_arith)
                requires
                    1 <= (big_f as int) < 0x1_0000_0000_0000_0000,
            ;
        }
        if (n as u128) != big_f * big_f + big_f - 1 {
            proof {
                assert forall|e: int| !valid_board_string(s, e) by {
                    if valid_pattern(s, e) {
                        lemma_pattern_edge(s, e, f as int);
                    }
                }
            }
            return Err(GameError::MalformedBoard);
        }
        proof {
            assert((f as int) + 1 <= usize::MAX as int) by (nonlinear_arith)
                requires
                    (f as int) * (f as int) + (f as int) - 1 <= usize::MAX as int,
                    (f as int) >= 1,
                    usize::MAX as int >= 0xffff_ffff,
            ;
        }
        let mut k: usize = 0;
        while k < n
            invariant
                0 <= k <= n,
                n == s.len(),
                s == board_string@,
                1 <= f <= n,
                (f as int) + 1 <= usize::MAX as int,
                n as int == (f as int) * (f as int) + f as int - 1,
                forall|k0: int| 0 <= k0 < f ==> s[k0] != ':',
                f < n ==> s[f as int] == ':',
                forall|k0: int| 0 <= k0 < k ==> ((#[trigger] s[k0] == ':') <==> k0 % (f as int + 1) == f as int),
            decreases n - k,
        {
            let is_colon = board_string.get_char(k) == ':';
            let at_boundary = k % (f + 1) == f;
            if is_colon != at_boundary {
                proof {
                    assert forall|e: int| !valid_board_string(s, e) by {
                        if valid_pattern(s, e) {
                            lemma_pattern_edge(s, e, f as int);
                        }
                    }
                }
                return Err(GameError::MalformedBoard);
            }
            k = k + 1;
        }
        proof {
            assert(valid_pattern(s, f as int));
        }
        if f > MAX_EDGE {
            proof {
                assert forall|e: int| !valid_board_string(s, e) by {
                    if valid_pattern(s, e) {
                        lemma_pattern_edge(s, e, f as int);
                    }
                }
            }
            return Err(GameError::MalformedBoard);
        }
        proof {
            lemma_edge_sq_bound(f as int);
        }
        let mut squares: Vec<Player> = Vec::new();
        let mut row: usize = 0;
        while row < f
            invariant
                0 <= row <= f,
                1 <= f <= MAX_EDGE,
                n == s.len(),
                s == board_string@,
                n as int == (f as int) * (f as int) + f as int - 1,
                f as int * f as int <= 2147395600,
                squares@.len() == row * f,
                squares@ + parse_squares_from(s, f as int, row as int, 0) == spec_parsed_squares(
                    s,
                    f as int,
                ),
            decreases f - row,
        {
            let mut col: usize = 0;
            while col < f
                invariant
                    0 <= row < f,
                    0 <= col <= f,
                    1 <= f <= MAX_EDGE,
                    n == s.len(),
                    s == board_string@,
                    n as int == (f as int) * (f as int) + f as int - 1,
                    f as int * f as int <= 2147395600,
                    squares@.len() == row * f + col,
                    squares@ + parse_squares_from(s, f as int, row as int, col as int)
                        == spec_parsed_squares(s, f as int),
                decreases f - col,
            {
                proof {
                    assert(row as int * (f as int + 1) + col < n as int) by (nonlinear_arith)
                        requires
                            0 <= (row as int) < (f as int),
                            0 <= (col as int) < (f as int),
                            n as int == (f as int) * (f as int) + (f as int) - 1,
                    ;
                    lemma_flat_index(row as int, col as int, f as int);
                }
                let ghost before = squares@;
                let ch = board_string.get_char(row * (f + 1) + col);
                squares.push(Player::parse_char(ch));
                proof {
                    assert(squares@ + parse_squares_from(s, f as int, row as int, col as int + 1)
                        =~= before + parse_squares_from(s, f as int, row as int, col as int));
                }
                col = col + 1;
            }
            proof {
                assert(row * f + f == (row + 1) * f) by (nonlinear_arith);
            }
            row = row + 1;
        }
        proof {
            assert(parse_squares_from(s, f as int, f as int, 0) =~= Seq::<Player>::empty());
            assert(squares@ + Seq::<Player>::empty() =~= squares@);
        }
        let board = Board { squares, edge_size: f };
        let points = board.get_points();
        proof {
            assert(valid_board_string(s, f as int));
            assert(exists|e: int| valid_board_string(s, e));
        }
        Ok(BoardAndPoints { board, points })
    }
}

/// The text of the squares from (r, c) on, row-major: one character per
/// square, a colon after each row but the last.
pub open spec fn serialize_from(s: Seq<Player>, edge: int, r: int, c: int) -> Seq<char>
    decreases edge - r, edge - c,
{
    if r >= edge {
        Seq::empty()
    } else if c >= edge {
        (if r + 1 < edge {
            seq![':']
        } else {
            Seq::empty()
        }) + serialize_from(s, edge, r + 1, 0)
    } else {
        seq![cell_at(s, edge, r, c).player_char()] + serialize_from(s, edge, r, c + 1)
    }
}

/// The text of a whole board.
pub open spec fn spec_serialized(s: Seq<Player>, edge: int) -> Seq<char> {
    serialize_from(s, edge, 0, 0)
}

impl Board {
    /// Write this board as its rows joined by colons.
    pub fn serialize_board(&self) -> (r: String)
        requires
            self.wf(),
        ensures
            r@ == spec_serialized(self.squares@, self.edge_size as int),
    {
        let edge: usize = self.edge_size;
        let ghost sq = self.squares@;
        let mut out: String = String::new();
        let mut row: usize = 0;
        while row < edge
            invariant
                self.wf(),
                edge == self.edge_size,
                sq == self.squares@,
                0 <= row <= edge,
                out@ + serialize_from(sq, edge as int, row as int, 0) == spec_serialized(
                    sq,
                    edge as int,
                ),
            decreases edge - row,
        {
            let mut col: usize = 0;
            while col < edge
                invariant
                    self.wf(),
                    edge == self.edge_size,
                    sq == self.squares@,
                    0 <= row < edge,
                    0 <= col <= edge,
                    out@ + serialize_from(sq, edge as int, row as int, col as int)
                        == spec_serialized(sq, edge as int),
                decreases edge - col,
            {
                proof {
                    lemma_edge_sq_bound(edge as int);
                    lemma_flat_index(row as int, col as int, edge as int);
                }
                let ghost before = out@;
                let cell_str = self.squares[row * edge + col].to_string();
                out.append(cell_str);
                proof {
                    assert(out@ + serialize_from(sq, edge as int, row as int, col as int + 1)
                        =~= before + serialize_from(sq, edge as int, row as int, col as int));
                }
                col = col + 1;
            }
            if row + 1 < edge {
                let ghost before = out@;
                let sep = ":";
                proof {
                    reveal_strlit(":");
                    assert(sep@ =~= seq![':']);
                }
                out.append(sep);
                proof {
                    assert(out@ + serialize_from(sq, edge as int, row as int + 1, 0) =~= before
                        + serialize_from(sq, edge as int, row as int, edge as int));
                }
            } else {
                proof {
                    assert(out@ + serialize_from(sq, edge as int, row as int + 1, 0) =~= out@
                        + serialize_from(sq, edge as int, row as int, edge as int));
                }
            }
            row = row + 1;
        }
        proof {
            assert(out@ + Seq::<char>::empty() =~= out@);
        }
        out
    }
}

/// The character of one decimal digit.
pub open spec fn digit_char(d: nat) -> char {
    if d == 0 {
        '0'
    } else if d == 1 {
        '1'
    } else if d == 2 {
        '2'
    } else if d == 3 {
        '3'
    } else if d == 4 {
        '4'
    } else if d == 5 {
        '5'
    } else if d == 6 {
        '6'
    } else if d == 7 {
        '7'
    } else if d == 8 {
        '8'
    } else {
        '9'
    }
}

/// The decimal digits of `n`, most significant first.
pub open spec fn dec_rep(n: nat) -> Seq<char>
    decreases n,
{
    if n < 10 {
        seq![digit_char(n)]
    } else {
        dec_rep(n / 10) + seq![digit_char(n % 10)]
    }
}

/// Append the decimal digits of `n`.
fn push_decimal(out: &mut String, n: usize)
    ensures
        final(out)@ == old(out)@ + dec_rep(n as nat),
    decreases n,
{
    let ghost at_entry = out@;
    if n >= 10 {
        proof {
            vstd::arithmetic::div_mod::lemma_div_is_ordered_by_denominator(n as int, 1, 10);
            vstd::arithmetic::div_mod::lemma_div_by_self(10);
        }
        push_decimal(out, n / 10);
    }
    let d: usize = n % 10;
    let ds: &str = match d {
        0 => "0",
        1 => "1",
        2 => "2",
        3 => "3",
        4 => "4",
        5 => "5",
        6 => "6",
        7 => "7",
        8 => "8",
        _ => "9",
    };
    proof {
        reveal_strlit("0");
        reveal_strlit("1");
        reveal_strlit("2");
        reveal_strlit("3");
        reveal_strlit("4");
        reveal_strlit("5");
        reveal_strlit("6");
        reveal_strlit("7");
        reveal_strlit("8");
        reveal_strlit("9");
        assert(ds@ =~= seq![digit_char((n % 10) as nat)]);
    }
    out.append(ds);
    proof {
        if n >= 10 {
            assert(out@ =~= at_entry + dec_rep(n as nat));
        } else {
            assert(n % 10 == n as int % 10);
            assert(out@ =~= at_entry + dec_rep(n as nat));
        }
    }
}

/// The text of a move: origin and destination as "row,col", joined by '>'.
pub open spec fn spec_move_string(m: Move) -> Seq<char> {
    dec_rep(m.from.row as nat) + seq![','] + dec_rep(m.from.col as nat) + seq!['>'] + dec_rep(
        m.to.row as nat,
    ) + seq![','] + dec_rep(m.to.col as nat)
}

/// Write a move as "r1,c1>r2,c2".
pub fn format_move(m: &Move) -> (r: String)
    ensures
        r@ == spec_move_string(*m),
{
    let mut out: String = String::new();
    let comma = ",";
    let arrow = ">";
    proof {
        reveal_strlit(",");
        reveal_strlit(">");
        assert(comma@ =~= seq![',']);
        assert(arrow@ =~= seq!['>']);
    }
    push_decimal(&mut out, m.from.row);
    out.append(comma);
    push_decimal(&mut out, m.from.col);
    out.append(arrow);
    push_decimal(&mut out, m.to.row);
    out.append(comma);
    push_decimal(&mut out, m.to.col);
    proof {
        assert(out@ =~= spec_move_string(*m));
    }
    out
}

} // verus!
