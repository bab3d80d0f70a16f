//! The three-valued owner tag of a square, with its scoring weight,
//! polarity and search-preference operations.

use vstd::prelude::*;

verus! {

/// Who owns a square: nobody, player one, or player two.
///
/// Player one's squares count +1 towards the board score, player two's
/// count -1, unclaimed squares count 0.
#[derive(Clone, Copy, PartialEq, Eq, Structural, Debug)]
pub enum Player {
    NoOne,
    P1,
    P2,
}

impl Player {
    /// Scoring weight of one square owned by this player.
    pub open spec fn spec_points(self) -> int {
        match self {
            Player::P1 => 1,
            Player::P2 => -1,
            Player::NoOne => 0,
        }
    }

    /// How many points a square owned by this player is worth.
    pub fn get_points(&self) -> (r: i32)
        ensures
            r as int == self.spec_points(),
    {
        match self {
            Player::P1 => 1,
            Player::P2 => -1,
            Player::NoOne => 0,
        }
    }

    /// The opposing side; nobody opposes nobody.
    pub open spec fn spec_other(self) -> Player {
        match self {
            Player::P1 => Player::P2,
            Player::P2 => Player::P1,
            Player::NoOne => Player::NoOne,
        }
    }

    /// Reverse polarity.
    pub fn other_player(&self) -> (r: Player)
        ensures
            r == self.spec_other(),
    {
        match self {
            Player::P1 => Player::P2,
            Player::P2 => Player::P1,
            Player::NoOne => Player::NoOne,
        }
    }

    /// Search preference: player one wants a strictly greater score,
    /// player two a strictly smaller one; nobody accepts any candidate.
    pub open spec fn spec_better(self, new_score: int, old_score: int) -> bool {
        match self {
            Player::P1 => new_score > old_score,
            Player::P2 => old_score > new_score,
            Player::NoOne => true,
        }
    }

    /// Does this player strictly prefer `new_score` over `old_score`?
    pub fn score_is_better(&self, new_score: i32, old_score: i32) -> (r: bool)
        ensures
            r == self.spec_better(new_score as int, old_score as int),
    {
        match self {
            Player::P1 => new_score > old_score,
            Player::P2 => old_score > new_score,
            Player::NoOne => true,
        }
    }

    /// The single character that stands for this player in a board string.
    pub open spec fn player_char(self) -> char {
        match self {
            Player::P1 => '1',
            Player::P2 => '2',
            Player::NoOne => '0',
        }
    }

    /// The player a single board-string character stands for: '1' and '2'
    /// name the two sides, any other character means unclaimed.
    pub open spec fn spec_of_char(c: char) -> Player {
        if c == '2' {
            Player::P2
        } else if c == '1' {
            Player::P1
        } else {
            Player::NoOne
        }
    }

    /// Parse a single board-string character.
    pub fn parse_char(c: char) -> (r: Player)
        ensures
            r == Player::spec_of_char(c),
    {
        if c == '2' {
            Player::P2
        } else if c == '1' {
            Player::P1
        } else {
            Player::NoOne
        }
    }

    /// The player a whole string stands for: exactly "1" or exactly "2"
    /// name the two sides, anything else means unclaimed.
    pub open spec fn spec_of_string(s: Seq<char>) -> Player {
        if s.len() == 1 {
            Player::spec_of_char(s[0])
        } else {
            Player::NoOne
        }
    }

    /// Parse a string as a player.
    pub fn parse_string(s: &str) -> (r: Player)
        ensures
            r == Player::spec_of_string(s@),
    {
        let n: usize = s.unicode_len();
        if n == 1 {
            Player::parse_char(s.get_char(0))
        } else {
            Player::NoOne
        }
    }

    /// The one-character string that stands for this player.
    pub fn to_string(&self) -> (r: &'static str)
        ensures
            r@ == seq![self.player_char()],
    {
        match self {
            Player::P1 => {
                let s = "1";
                proof {
                    reveal_strlit("1");
                    assert(s@ =~= seq!['1']);
                }
                s
            },
            Player::P2 => {
                let s = "2";
                proof {
                    reveal_strlit("2");
                    assert(s@ =~= seq!['2']);
                }
                s
            },
            Player::NoOne => {
                let s = "0";
                proof {
                    reveal_strlit("0");
                    assert(s@ =~= seq!['0']);
                }
                s
            },
        }
    }
}

} // verus!
