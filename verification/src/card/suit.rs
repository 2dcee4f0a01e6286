use vstd::prelude::*;

verus! {

/// The four card suits. They carry no strength of their own; the derived
/// order only serves deterministic sorting.
#[derive(Debug, PartialEq, Eq, PartialOrd, Ord, Hash, Copy, Clone, Structural)]
pub enum Suit {
    Diamond,
    Club,
    Heart,
    Spade,
}

impl Suit {
    /// Position of this suit in the declaration order, `Diamond` at 0 up to `Spade` at 3.
    pub open spec fn index(self) -> int {
        match self {
            Suit::Diamond => 0,
            Suit::Club => 1,
            Suit::Heart => 2,
            Suit::Spade => 3,
        }
    }

    /// The suit denoted by a character, if any: `D`, `C`, `H`, `S`, case-insensitive.
    pub open spec fn of_char(c: char) -> Option<Suit> {
        match c {
            'D' | 'd' => Some(Suit::Diamond),
            'C' | 'c' => Some(Suit::Club),
            'H' | 'h' => Some(Suit::Heart),
            'S' | 's' => Some(Suit::Spade),
            _ => None,
        }
    }

    /// Parses a suit character.
    pub fn from_char(c: char) -> (r: Option<Suit>)
        ensures
            r == Suit::of_char(c),
    {
        match c {
            'D' | 'd' => Some(Suit::Diamond),
            'C' | 'c' => Some(Suit::Club),
            'H' | 'h' => Some(Suit::Heart),
            'S' | 's' => Some(Suit::Spade),
            _ => None,
        }
    }
}

/// The suit standing at a given position of the declaration order
/// (positions 0 through 3; other arguments give `Diamond`).
pub open spec fn suit_at(i: int) -> Suit {
    if i == 1 {
        Suit::Club
    } else if i == 2 {
        Suit::Heart
    } else if i == 3 {
        Suit::Spade
    } else {
        Suit::Diamond
    }
}

/// `suit_at` and `index` are inverse to one another.
pub broadcast proof fn lemma_suit_at_index(s: Suit)
    ensures
        #[trigger] suit_at(s.index()) == s,
{
}

/// Executable counterpart of `suit_at`.
pub fn suit_from_index(i: u8) -> (s: Suit)
    requires
        i < 4,
    ensures
        s == suit_at(i as int),
{
    match i {
        1 => Suit::Club,
        2 => Suit::Heart,
        3 => Suit::Spade,
        _ => Suit::Diamond,
    }
}

} // verus!
