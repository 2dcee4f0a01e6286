use vstd::prelude::*;

verus! {

/// The thirteen card ranks, in ascending order of strength:
/// `Two < Three < ... < King < Ace`.
#[derive(Debug, PartialEq, Eq, PartialOrd, Ord, Hash, Copy, Clone, Structural)]
pub enum Value {
    Two,
    Three,
    Four,
    Five,
    Six,
    Seven,
    Eight,
    Nine,
    Ten,
    Jack,
    Queen,
    King,
    Ace,
}

impl Value {
    /// Position of this rank in the ascending order: `Two` at 0 up to `Ace` at 12.
    pub open spec fn index(self) -> int {
        match self {
            Value::Two => 0,
            Value::Three => 1,
            Value::Four => 2,
            Value::Five => 3,
            Value::Six => 4,
            Value::Seven => 5,
            Value::Eight => 6,
            Value::Nine => 7,
            Value::Ten => 8,
            Value::Jack => 9,
            Value::Queen => 10,
            Value::King => 11,
            Value::Ace => 12,
        }
    }

    /// The rank denoted by a character, if any: `A`, `2`-`9`, `0` (for Ten),
    /// `J`, `Q`, `K`, case-insensitive.
    pub open spec fn of_char(c: char) -> Option<Value> {
        match c {
            'A' | 'a' => Some(Value::Ace),
            '2' => Some(Value::Two),
            '3' => Some(Value::Three),
            '4' => Some(Value::Four),
            '5' => Some(Value::Five),
            '6' => Some(Value::Six),
            '7' => Some(Value::Seven),
            '8' => Some(Value::Eight),
            '9' => Some(Value::Nine),
            '0' => Some(Value::Ten),
            'J' | 'j' => Some(Value::Jack),
            'Q' | 'q' => Some(Value::Queen),
            'K' | 'k' => Some(Value::King),
            _ => None,
        }
    }

    /// Parses a rank character.
    pub fn from_char(c: char) -> (r: Option<Value>)
        ensures
            r == Value::of_char(c),
    {
        match c {
            'A' | 'a' => Some(Value::Ace),
            '2' => Some(Value::Two),
            '3' => Some(Value::Three),
            '4' => Some(Value::Four),
            '5' => Some(Value::Five),
            '6' => Some(Value::Six),
            '7' => Some(Value::Seven),
            '8' => Some(Value::Eight),
            '9' => Some(Value::Nine),
            '0' => Some(Value::Ten),
            'J' | 'j' => Some(Value::Jack),
            'Q' | 'q' => Some(Value::Queen),
            'K' | 'k' => Some(Value::King),
            _ => None,
        }
    }

    /// The position of this rank in the ascending order, as a machine integer.
    pub fn to_index(self) -> (r: u8)
        ensures
            r as int == self.index(),
    {
        match self {
            Value::Two => 0,
            Value::Three => 1,
            Value::Four => 2,
            Value::Five => 3,
            Value::Six => 4,
            Value::Seven => 5,
            Value::Eight => 6,
            Value::Nine => 7,
            Value::Ten => 8,
            Value::Jack => 9,
            Value::Queen => 10,
            Value::King => 11,
            Value::Ace => 12,
        }
    }
}

/// The rank standing at a given position of the ascending order
/// (positions 0 through 12; other arguments give `Two`).
pub open spec fn value_at(i: int) -> Value {
    if i == 1 {
        Value::Three
    } else if i == 2 {
        Value::Four
    } else if i == 3 {
        Value::Five
    } else if i == 4 {
        Value::Six
    } else if i == 5 {
        Value::Seven
    } else if i == 6 {
        Value::Eight
    } else if i == 7 {
        Value::Nine
    } else if i == 8 {
        Value::Ten
    } else if i == 9 {
        Value::Jack
    } else if i == 10 {
        Value::Queen
    } else if i == 11 {
        Value::King
    } else if i == 12 {
        Value::Ace
    } else {
        Value::Two
    }
}

/// `value_at` and `index` are inverse to one another.
pub broadcast proof fn lemma_value_at_index(v: Value)
    ensures
        #[trigger] value_at(v.index()) == v,
{
}

/// `index` and `value_at` are inverse to one another on positions 0 through 12.
pub broadcast proof fn lemma_index_value_at(i: int)
    requires
        0 <= i < 13,
    ensures
        (#[trigger] value_at(i)).index() == i,
{
}

/// Executable counterpart of `value_at`.
pub fn value_from_index(i: u8) -> (v: Value)
    requires
        i < 13,
    ensures
        v == value_at(i as int),
{
    match i {
        1 => Value::Three,
        2 => Value::Four,
        3 => Value::Five,
        4 => Value::Six,
        5 => Value::Seven,
        6 => Value::Eight,
        7 => Value::Nine,
        8 => Value::Ten,
        9 => Value::Jack,
        10 => Value::Queen,
        11 => Value::King,
        12 => Value::Ace,
        _ => Value::Two,
    }
}

} // verus!
