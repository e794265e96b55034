//! Cell states and players.
use vstd::prelude::*;

verus! {

/// The state of one cell of the board.
#[derive(Debug, Clone, Copy, PartialEq, Eq, Hash, Structural)]
pub enum Color {
    White,
    Black,
    Empty,
    /// The sentinel ring around the playable area.
    Invalid,
}

/// The symbol with which a cell is drawn.
pub open spec fn color_symbol(c: Color) -> Seq<char> {
    match c {
        Color::Empty => seq!['.'],
        Color::White => seq!['#'],
        Color::Black => seq!['O'],
        Color::Invalid => seq!['/'],
    }
}

impl Color {
    pub fn to_string(&self) -> (r: String)
        ensures
            r@ == color_symbol(*self),
    {
        proof {
            reveal_strlit(".");
            reveal_strlit("#");
            reveal_strlit("O");
            reveal_strlit("/");
        }
        match self {
            Color::Empty => String::from_str("."),
            Color::White => String::from_str("#"),
            Color::Black => String::from_str("O"),
            Color::Invalid => String::from_str("/"),
        }
    }
}

#[derive(Debug, Clone, Copy, PartialEq, Eq, Hash, Structural)]
pub enum Player {
    White,
    Black,
}

pub open spec fn spec_opponent(p: Player) -> Player {
    match p {
        Player::Black => Player::White,
        Player::White => Player::Black,
    }
}

pub open spec fn stone_of(p: Player) -> Color {
    match p {
        Player::Black => Color::Black,
        Player::White => Color::White,
    }
}

impl Player {
    pub fn to_color(&self) -> (r: Color)
        ensures
            r == stone_of(*self),
    {
        match self {
            Player::Black => Color::Black,
            Player::White => Color::White,
        }
    }

    pub fn opponent(self) -> (r: Self)
        ensures
            r == spec_opponent(self),
    {
        match self {
            Player::Black => Player::White,
            Player::White => Player::Black,
        }
    }
}

} // verus!
