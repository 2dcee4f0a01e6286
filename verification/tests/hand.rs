use poker::hand::Hand;

fn parse_hand(s: &str) -> Hand {
    Hand::from_str(s).ok().unwrap()
}

fn assert_hand_beats(winner: Hand, loser: Hand) {
    assert!(winner != loser);
    assert!(winner > loser);
    assert!(loser < winner);
}

#[test]
fn high_card_equals_high_card() {
    let high_card = parse_hand("5D 6H 7H AS JD");
    let other_high_card = parse_hand("5H 6C 7C AS JD");
    assert!(high_card == other_high_card);
}

#[test]
fn high_card_beats_a_lower_high_card() {
    assert_hand_beats(parse_hand("AS 6H 7H JD QH"), parse_hand("KS 7C 8C JD QH"));
}

#[test]
fn tied_high_card_decides_with_lower_cards() {
    assert_hand_beats(parse_hand("5D 6H 7H AS JD"), parse_hand("4H 6C 7C AS JD"));
}

#[test]
fn a_pair_beats_a_high_card() {
    assert_hand_beats(parse_hand("3S 3H 7H JD QH"), parse_hand("KS 4C 8C JD QH"));
}

#[test]
fn a_pair_beats_a_worse_pair() {
    assert_hand_beats(parse_hand("3S 3H 7H JD QH"), parse_hand("2S 2H 7H JD QH"));
}

#[test]
fn tied_pairs_decide_with_high_card() {
    assert_hand_beats(parse_hand("3S 3H 7H JD QH"), parse_hand("3S 3H 6H JD QH"));
}

#[test]
fn two_pair_beats_a_pair() {
    assert_hand_beats(parse_hand("2S 2H 3H 3D QH"), parse_hand("6S 6H 7H JD QH"));
}

#[test]
fn two_pair_beats_a_lower_two_pair() {
    assert_hand_beats(parse_hand("4S 4H 5H 5D QH"), parse_hand("2S 2H 3H 3D QH"));
}

#[test]
fn two_pair_tied_first_decides_with_lower() {
    assert_hand_beats(parse_hand("4S 4H 5H 5D QH"), parse_hand("2S 2H 5H 5D QH"));
}

#[test]
fn two_pair_tied_all_decides_with_last_card() {
    assert_hand_beats(parse_hand("4S 4H 5H 5D AH"), parse_hand("4S 4H 5H 5D KH"));
}

#[test]
fn three_of_a_kind_beats_two_pair() {
    assert_hand_beats(parse_hand("4S 4H 4H 5D AH"), parse_hand("4S 4H 5H 5D KH"));
}

#[test]
fn three_of_a_kind_beats_a_lower_three_of_a_kind() {
    assert_hand_beats(parse_hand("4S 4H 4H 5D AH"), parse_hand("3S 3H 3H 5D KH"));
}

#[test]
fn three_of_a_kind_beats_a_tied_three_of_a_kind_with_remaining_cards() {
    assert_hand_beats(parse_hand("4S 4H 4H 5D AH"), parse_hand("4S 4H 4H 3D AH"));
}

#[test]
fn straight_beats_a_three_of_a_kind() {
    assert_hand_beats(parse_hand("2S 3H 4H 5D 6H"), parse_hand("4S 4H 4H 3D AH"));
}

#[test]
fn ace_high_straight_beats_five_high() {
    assert_hand_beats(parse_hand("0S JS QH KD AS"), parse_hand("AH 2S 3H 4H 5D"));
}

#[test]
fn six_high_straight_beats_five_high() {
    assert_hand_beats(parse_hand("2H 3S 4H 5H 6D"), parse_hand("AH 2S 3H 4H 5D"));
}

#[test]
fn straight_with_ace_wrapped_around_is_a_high_card() {
    assert_hand_beats(parse_hand("4S 4H 4H 3D AH"), parse_hand("QS KH AH 2S 3H"));
}

#[test]
fn flush_beats_a_straight() {
    assert_hand_beats(parse_hand("AH QH 2H 6H 7H"), parse_hand("2S 3H 4H 5D 6H"));
}

#[test]
fn flush_is_tied_despite_suits() {
    assert!(parse_hand("AH QH 2H 6H 7H") == parse_hand("AD QD 2D 6D 7D"));
}

#[test]
fn flushes_are_decided_by_values() {
    assert_hand_beats(parse_hand("AH QH 3H 6H 7H"), parse_hand("AD QD 2D 6D 7D"));
}

#[test]
fn full_house_beats_a_flush() {
    assert_hand_beats(parse_hand("0H 0S 0D AS AD"), parse_hand("AH QH 2H 6H 7H"));
}

#[test]
fn full_house_uses_three_cards_first() {
    assert_hand_beats(parse_hand("0H 0S 0D KS KD"), parse_hand("9H 9S 9D AS AD"));
}

#[test]
fn full_house_uses_two_cards_last() {
    assert_hand_beats(parse_hand("0H 0S 0D JS JD"), parse_hand("0H 0S 0D 8S 8D"));
}

#[test]
fn four_of_a_kind_beats_a_full_house() {
    assert_hand_beats(parse_hand("0H 0S 0D 0C AD"), parse_hand("JH JS JD 8S 8D"));
}

#[test]
fn four_of_a_kind_uses_final_card_for_ties() {
    assert_hand_beats(parse_hand("0H 0S 0D 0C 6D"), parse_hand("0H 0S 0D 0C 5D"));
}

#[test]
fn straight_flush_beats_a_four_of_a_kind() {
    assert_hand_beats(parse_hand("AH 2H 3H 4H 5H"), parse_hand("JH JS JD JC 8D"));
}

#[test]
fn straight_flush_beats_a_lower_straight_flush() {
    assert_hand_beats(parse_hand("2H 3H 4H 5H 6H"), parse_hand("AH 2H 3H 4H 5H"));
}

#[test]
fn seven_card_hand_high_cards() {
    assert_hand_beats(
        parse_hand("2H 3H 7C 5H 6H 9D JS"),
        parse_hand("2H 3H 7C 5H 6H 9D 0S"),
    );
}

#[test]
fn seven_card_hand_flush() {
    assert_hand_beats(
        parse_hand("2H 3H 0H 5H 6H 9D KS"),
        parse_hand("2H 3H 7C 5H 6H 9D AS"),
    );
}
