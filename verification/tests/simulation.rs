use poker::calculations::count_wins;
use poker::calculations::full_deck;
use poker::calculations::remaining_deck;
use poker::calculations::shuffle;
use poker::calculations::trial_outcome;
use poker::calculations::Rng;
use poker::hand::Hand;

fn deal(s: &str) -> Hand {
    Hand::from_str(s).ok().unwrap()
}

#[test]
fn the_full_deck_has_52_distinct_cards() {
    let deck = full_deck();
    assert_eq!(deck.len(), 52);
    let mut sorted = deck.clone();
    sorted.sort();
    sorted.dedup();
    assert_eq!(sorted.len(), 52);
}

#[test]
fn the_remaining_deck_leaves_out_the_dealt_cards() {
    let pocket = deal("AS AH");
    let community = deal("2D 3D 4D");
    let rest = remaining_deck(&pocket, &community);
    assert_eq!(rest.len(), 52 - 2 - 3);
    for card in rest.iter() {
        assert!(!pocket.cards().contains(card));
        assert!(!community.cards().contains(card));
    }
}

#[test]
fn the_remaining_deck_of_a_bare_pocket_has_50_cards() {
    let pocket = deal("2C 9S");
    let community = deal("");
    let rest = remaining_deck(&pocket, &community);
    assert_eq!(rest.len(), 50);
}

#[test]
fn shuffling_keeps_the_same_cards() {
    let mut cards = full_deck();
    let mut rng = Rng::new(7);
    shuffle(&mut cards, &mut rng);
    assert_eq!(cards.len(), 52);
    let mut sorted = cards.clone();
    sorted.sort();
    let mut expected = full_deck();
    expected.sort();
    assert_eq!(sorted, expected);
}

#[test]
fn no_opponents_means_every_deal_is_won() {
    let pocket = deal("AS AH");
    let community = deal("2D 3D 4D 5C 8H");
    let mut rng = Rng::new(42);
    let wins = count_wins(&pocket, &community, 0, 250, &mut rng).unwrap();
    assert_eq!(wins, 250);
}

#[test]
fn too_many_opponents_exhaust_the_deck() {
    let pocket = deal("AS AH");
    let community = deal("");
    let mut rng = Rng::new(42);
    assert!(count_wins(&pocket, &community, 23, 10, &mut rng).is_err());
    assert!(count_wins(&pocket, &community, 22, 10, &mut rng).is_ok());
}

#[test]
fn wins_never_exceed_samples() {
    let pocket = deal("2C 7D");
    let community = deal("");
    let mut rng = Rng::new(3);
    let wins = count_wins(&pocket, &community, 4, 100, &mut rng).unwrap();
    assert!(wins <= 100);
}

#[test]
fn equal_seeds_give_equal_runs() {
    let pocket = deal("KS KH");
    let community = deal("2D 7C");
    let mut rng_a = Rng::new(12345);
    let mut rng_b = Rng::new(12345);
    let wins_a = count_wins(&pocket, &community, 2, 200, &mut rng_a).unwrap();
    let wins_b = count_wins(&pocket, &community, 2, 200, &mut rng_b).unwrap();
    assert_eq!(wins_a, wins_b);
}

#[test]
fn a_pair_of_aces_usually_wins_a_completed_board() {
    let pocket = deal("AS AH");
    let community = deal("AD AC 2H 7S 9C");
    let mut rng = Rng::new(99);
    let wins = count_wins(&pocket, &community, 1, 100, &mut rng).unwrap();
    assert_eq!(wins, 100);
}

#[test]
fn a_dealt_deck_decides_the_trial_exactly() {
    // Off the unshuffled remaining deck the board comes out 2D 3D 4D 5D
    // 6D, a straight flush shared by both players, and the opponent's 7D
    // 8D stretches it one card higher: the deal is lost.
    let pocket = deal("AS AH");
    let community = deal("");
    let rest = remaining_deck(&pocket, &community);
    assert!(!trial_outcome(&pocket, &community, 1, &rest));
    // With nobody to beat, the same deal is won.
    assert!(trial_outcome(&pocket, &community, 0, &rest));
}

#[test]
fn a_trial_with_a_full_board_compares_the_pockets() {
    // The board is fully known, so only the pockets differ: the opponent
    // draws 3D 4D off the unshuffled deck and holds queen high against a
    // pair of aces.
    let pocket = deal("AS AH");
    let community = deal("2D 7C 9H JS QD");
    let rest = remaining_deck(&pocket, &community);
    assert!(trial_outcome(&pocket, &community, 1, &rest));
}

#[test]
fn bounded_draws_stay_below_their_bound() {
    let mut rng = Rng::new(0);
    for bound in 1..40u64 {
        for _ in 0..20 {
            assert!(rng.next_below(bound) < bound);
        }
    }
}
