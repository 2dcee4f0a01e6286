use poker::card::Card;
use poker::card::Suit;
use poker::card::Suit::{Club, Diamond, Heart, Spade};
use poker::card::Value;
use poker::card::Value::{
    Ace, Eight, Five, Four, Jack, King, Nine, Queen, Seven, Six, Ten, Three, Two,
};

#[test]
fn card_suits_equal_themselves() {
    assert!(Diamond == Diamond);
    assert!(Club == Club);
    assert!(Heart == Heart);
    assert!(Spade == Spade);
}

#[test]
fn card_suits_dont_equal_others() {
    assert!(Diamond != Club);
    assert!(Diamond != Heart);
    assert!(Diamond != Spade);

    assert!(Club != Diamond);
    assert!(Club != Heart);
    assert!(Club != Spade);

    assert!(Heart != Diamond);
    assert!(Heart != Club);
    assert!(Heart != Spade);

    assert!(Spade != Diamond);
    assert!(Spade != Club);
    assert!(Spade != Heart);
}

#[test]
fn card_suits_are_ordered() {
    assert!(Diamond < Club);
    assert!(Diamond < Heart);
    assert!(Diamond < Spade);

    assert!(Club > Diamond);
    assert!(Club < Heart);
    assert!(Club < Spade);

    assert!(Heart > Diamond);
    assert!(Heart > Club);
    assert!(Heart < Spade);

    assert!(Spade > Diamond);
    assert!(Spade > Club);
    assert!(Spade > Heart);
}

#[test]
fn card_values_equal_themselves() {
    assert!(Ace == Ace);
    assert!(Two == Two);
    assert!(Three == Three);
    assert!(Four == Four);
    assert!(Five == Five);
    assert!(Six == Six);
    assert!(Seven == Seven);
    assert!(Eight == Eight);
    assert!(Nine == Nine);
    assert!(Ten == Ten);
    assert!(Jack == Jack);
    assert!(Queen == Queen);
    assert!(King == King);
}

#[test]
fn card_values_dont_equal_others() {
    assert!(Ace != Two);
    assert!(Two != Three);
    assert!(Three != Four);
    assert!(Four != Five);
    assert!(Five != Six);
    assert!(Six != Seven);
    assert!(Seven != Eight);
    assert!(Eight != Nine);
    assert!(Nine != Ten);
    assert!(Ten != Jack);
    assert!(Jack != Queen);
    assert!(Queen != King);
    assert!(King != Ace);
}

#[test]
fn card_values_are_ordered() {
    assert!(Two < Three);
    assert!(Three < Four);
    assert!(Four < Five);
    assert!(Five < Six);
    assert!(Six < Seven);
    assert!(Seven < Eight);
    assert!(Eight < Nine);
    assert!(Nine < Ten);
    assert!(Ten < Jack);
    assert!(Jack < Queen);
    assert!(Queen < King);
    assert!(King < Ace);
    assert!(Two < Ace);
}

#[test]
fn card_cards_have_value_and_suit() {
    let card = Card::new(Three, Heart);
    assert!(card.value == Three);
    assert!(card.suit == Heart);
}

#[test]
fn mod_cards_have_value_and_suit() {
    let card = Card::new(Value::Three, Suit::Heart);
    assert!(card.value == Value::Three);
    assert!(card.suit == Suit::Heart);
}

#[test]
fn suit_suits_equal_themselves() {
    assert!(Diamond == Diamond);
    assert!(Club == Club);
    assert!(Heart == Heart);
    assert!(Spade == Spade);
}

#[test]
fn suit_suits_dont_equal_others() {
    assert!(Diamond != Club);
    assert!(Diamond != Heart);
    assert!(Diamond != Spade);

    assert!(Club != Diamond);
    assert!(Club != Heart);
    assert!(Club != Spade);

    assert!(Heart != Diamond);
    assert!(Heart != Club);
    assert!(Heart != Spade);

    assert!(Spade != Diamond);
    assert!(Spade != Club);
    assert!(Spade != Heart);
}

#[test]
fn suit_suits_are_ordered() {
    assert!(Diamond < Club);
    assert!(Diamond < Heart);
    assert!(Diamond < Spade);

    assert!(Club > Diamond);
    assert!(Club < Heart);
    assert!(Club < Spade);

    assert!(Heart > Diamond);
    assert!(Heart > Club);
    assert!(Heart < Spade);

    assert!(Spade > Diamond);
    assert!(Spade > Club);
    assert!(Spade > Heart);
}

#[test]
fn value_values_equal_themselves() {
    assert!(Ace == Ace);
    assert!(Two == Two);
    assert!(Three == Three);
    assert!(Four == Four);
    assert!(Five == Five);
    assert!(Six == Six);
    assert!(Seven == Seven);
    assert!(Eight == Eight);
    assert!(Nine == Nine);
    assert!(Ten == Ten);
    assert!(Jack == Jack);
    assert!(Queen == Queen);
    assert!(King == King);
}

#[test]
fn value_values_dont_equal_others() {
    assert!(Ace != Two);
    assert!(Two != Three);
    assert!(Three != Four);
    assert!(Four != Five);
    assert!(Five != Six);
    assert!(Six != Seven);
    assert!(Seven != Eight);
    assert!(Eight != Nine);
    assert!(Nine != Ten);
    assert!(Ten != Jack);
    assert!(Jack != Queen);
    assert!(Queen != King);
    assert!(King != Ace);
}

#[test]
fn value_values_are_ordered() {
    assert!(Two < Three);
    assert!(Three < Four);
    assert!(Four < Five);
    assert!(Five < Six);
    assert!(Six < Seven);
    assert!(Seven < Eight);
    assert!(Eight < Nine);
    assert!(Nine < Ten);
    assert!(Ten < Jack);
    assert!(Jack < Queen);
    assert!(Queen < King);
    assert!(King < Ace);
    assert!(Two < Ace);
}

#[test]
fn cards_parse_from_tokens() {
    let card = Card::from_str("AS").unwrap();
    assert!(card.value == Ace);
    assert!(card.suit == Spade);

    let card = Card::from_str("0h").unwrap();
    assert!(card.value == Ten);
    assert!(card.suit == Heart);

    let card = Card::from_str("qd").unwrap();
    assert!(card.value == Queen);
    assert!(card.suit == Diamond);
}

#[test]
fn cards_fail_to_parse_from_bad_tokens() {
    assert!(Card::from_str("").is_err());
    assert!(Card::from_str("A").is_err());
    assert!(Card::from_str("1S").is_err());
    assert!(Card::from_str("AX").is_err());
    assert!(Card::from_str("XS").is_err());

    assert!(Value::from_char('x').is_none());
    assert!(Suit::from_char('x').is_none());
    assert!(Value::from_char('k') == Some(King));
    assert!(Suit::from_char('c') == Some(Club));
}
