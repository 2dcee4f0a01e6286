use poker::card::Card;
use poker::card::Suit;
use poker::card::Value;
use poker::hand::Hand;
use poker::hand::HandRank;
use std::cmp::Ordering;

fn hand_of(s: &str) -> Hand {
    Hand::from_str(s).ok().unwrap()
}

#[test]
fn categories_come_out_right() {
    assert_eq!(hand_of("KS 4C 8C JD QH").categorize(), HandRank::HighCard);
    assert_eq!(hand_of("3S 3H 7H JD QH").categorize(), HandRank::Pair);
    assert_eq!(hand_of("2S 2H 3H 3D QH").categorize(), HandRank::TwoPair);
    assert_eq!(hand_of("4S 4H 4D 5D AH").categorize(), HandRank::ThreeOfAKind);
    assert_eq!(hand_of("2S 3H 4H 5D 6H").categorize(), HandRank::Straight);
    assert_eq!(hand_of("AH QH 2H 6H 7H").categorize(), HandRank::Flush);
    assert_eq!(hand_of("0H 0S 0D AS AD").categorize(), HandRank::FullHouse);
    assert_eq!(hand_of("0H 0S 0D 0C AD").categorize(), HandRank::FourOfAKind);
    assert_eq!(hand_of("2H 3H 4H 5H 6H").categorize(), HandRank::StraightFlush);
}

#[test]
fn the_wheel_is_a_straight_with_high_card_five() {
    let wheel = hand_of("AH 2S 3H 4H 5D");
    assert_eq!(wheel.categorize(), HandRank::Straight);
    assert_eq!(
        wheel.most_common_values(),
        vec![Value::Five, Value::Four, Value::Three, Value::Two, Value::Ace],
    );
}

#[test]
fn tie_break_orders_by_multiplicity_then_rank() {
    let two_pair = hand_of("2S 2H 3H 3D QH");
    assert_eq!(
        two_pair.most_common_values(),
        vec![Value::Three, Value::Two, Value::Queen],
    );
    let full_house = hand_of("0H 0S 0D AS AD");
    assert_eq!(full_house.most_common_values(), vec![Value::Ten, Value::Ace]);
}

#[test]
fn straight_and_flush_detection() {
    assert!(hand_of("2S 3H 4H 5D 6H").is_straight());
    assert!(hand_of("0S JS QH KD AS").is_straight());
    assert!(hand_of("AH 2S 3H 4H 5D").is_straight());
    assert!(!hand_of("QS KH AH 2S 3H").is_straight());
    assert!(!hand_of("2S 2H 3H 4D 5H").is_straight());
    assert!(hand_of("AH QH 2H 6H 7H").is_flush());
    assert!(!hand_of("AH QH 2H 6H 7S").is_flush());
}

#[test]
fn permutations_of_a_hand_rank_equal() {
    let one = hand_of("5D 6H 7H AS JD");
    let permuted = hand_of("JD AS 7H 6H 5D");
    assert!(one == permuted);
    let one = hand_of("0H 0S 0D AS AD");
    let permuted = hand_of("AD 0S AS 0D 0H");
    assert!(one == permuted);
}

#[test]
fn sub_hands_drop_one_card_each() {
    let hand = hand_of("2H 3H 4H 5H 6H 7H");
    let subs = hand.sub_hands();
    assert_eq!(subs.len(), 6);
    for (i, sub) in subs.iter().enumerate() {
        let cards = sub.cards();
        assert_eq!(cards.len(), 5);
        assert!(!cards.contains(&hand.cards()[i]));
    }
}

#[test]
fn cmp_is_total_on_hands() {
    let stronger = hand_of("3S 3H 7H JD QH");
    let weaker = hand_of("KS 4C 8C JD QH");
    assert_eq!(stronger.cmp(&weaker), Ordering::Greater);
    assert_eq!(weaker.cmp(&stronger), Ordering::Less);
    assert_eq!(stronger.cmp(&stronger), Ordering::Equal);
}

#[test]
fn short_hands_are_incomparable() {
    let two_cards = hand_of("AS AH");
    let five_cards = hand_of("KS 4C 8C JD QH");
    assert_eq!(two_cards.partial_cmp(&five_cards), None);
    assert_eq!(five_cards.partial_cmp(&two_cards), None);
    assert!(!(two_cards == five_cards));
}

#[test]
fn hands_parse_from_text() {
    let hand = hand_of("AS 2H 0C QD 6H");
    assert_eq!(hand.cards().len(), 5);
    assert_eq!(hand.cards()[0], Card::new(Value::Ace, Suit::Spade));
    assert_eq!(hand.cards()[2], Card::new(Value::Ten, Suit::Club));

    let spaced = hand_of("  AS   2H ");
    assert_eq!(spaced.cards().len(), 2);

    let empty = hand_of("");
    assert_eq!(empty.cards().len(), 0);
}

#[test]
fn hands_fail_to_parse_when_any_token_fails() {
    assert!(Hand::from_str("AS XX").is_err());
    assert!(Hand::from_str("ZZ").is_err());
    assert!(Hand::from_str("AS 2").is_err());
}
