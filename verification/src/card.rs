pub mod suit;
pub mod value;

pub use suit::Suit;
pub use value::Value;

use vstd::prelude::*;
use vstd::string::StrSliceExecFns;

verus! {

/// A playing card: a rank together with a suit.
#[derive(Debug, PartialEq, Eq, PartialOrd, Ord, Hash, Copy, Clone, Structural)]
pub struct Card {
    pub value: Value,
    pub suit: Suit,
}

/// Failure to read a card from a two-character token.
#[derive(Debug, PartialEq, Eq, Copy, Clone)]
pub enum CardParseErr {
    Unrecognized,
}

/// The card denoted by a token: the first character names the rank, the
/// second the suit; any further characters are ignored. `None` when the
/// token is too short or either character is unrecognized.
pub open spec fn token_card(s: Seq<char>) -> Option<Card> {
    if s.len() < 2 {
        None
    } else {
        match (Value::of_char(s[0]), Suit::of_char(s[1])) {
            (Some(value), Some(suit)) => Some(Card { value, suit }),
            _ => None,
        }
    }
}

impl Card {
    /// Pairs a rank with a suit.
    pub fn new(value: Value, suit: Suit) -> (c: Card)
        ensures
            c == (Card { value, suit }),
    {
        Card { value, suit }
    }

    /// The card's rank.
    pub fn value(&self) -> (r: &Value)
        ensures
            *r == self.value,
    {
        &self.value
    }

    /// The card's suit.
    pub fn suit(&self) -> (r: &Suit)
        ensures
            *r == self.suit,
    {
        &self.suit
    }

    /// Reads a card from a token given as characters, as `from_str` does.
    pub(crate) fn from_chars(t: &Vec<char>) -> (r: Result<Card, CardParseErr>)
        ensures
            match r {
                Ok(c) => token_card(t@) == Some(c),
                Err(_) => token_card(t@) is None,
            },
    {
        if t.len() < 2 {
            return Err(CardParseErr::Unrecognized);
        }
        match (Value::from_char(t[0]), Suit::from_char(t[1])) {
            (Some(value), Some(suit)) => Ok(Card::new(value, suit)),
            _ => Err(CardParseErr::Unrecognized),
        }
    }

    /// Reads a card from a token such as `"AS"` or `"0h"`: rank character
    /// first, suit character second, both case-insensitive.
    pub fn from_str(s: &str) -> (r: Result<Card, CardParseErr>)
        ensures
            match r {
                Ok(c) => token_card(s@) == Some(c),
                Err(_) => token_card(s@) is None,
            },
    {
        let n = s.unicode_len();
        if n < 2 {
            return Err(CardParseErr::Unrecognized);
        }
        let value = Value::from_char(s.get_char(0));
        let suit = Suit::from_char(s.get_char(1));
        match (value, suit) {
            (Some(value), Some(suit)) => Ok(Card::new(value, suit)),
            _ => Err(CardParseErr::Unrecognized),
        }
    }
}

} // verus!
