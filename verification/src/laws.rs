use crate::card::Card;
use crate::card::Value;
use crate::hand::category_spec;
use crate::hand::count_index;
use crate::hand::covered_below;
use crate::hand::flush_spec;
use crate::hand::hand_cmp_spec;
use crate::hand::key_of;
use crate::hand::mcv_level_down;
use crate::hand::mcv_levels;
use crate::hand::multi_values_below;
use crate::hand::straight_spec;
use crate::hand::tie_break_spec;
use crate::hand::wheel_counts;
use crate::hand::HandRank;
use core::cmp::Ordering;
use vstd::prelude::*;

verus! {

broadcast use vstd::seq_lib::group_to_multiset_ensures, vstd::multiset::group_multiset_axioms;

/// Taking one card out lowers its rank's count by one and no other.
proof fn lemma_count_index_remove(cards: Seq<Card>, j: int, i: int)
    requires
        0 <= j < cards.len(),
    ensures
        count_index(cards, i) == count_index(cards.remove(j), i) + (if cards[j].value.index()
            == i {
            1nat
        } else {
            0nat
        }),
    decreases cards.len(),
{
    if j == cards.len() - 1 {
        assert(cards.remove(j) =~= cards.drop_last());
    } else {
        let prefix = cards.drop_last();
        lemma_count_index_remove(prefix, j, i);
        assert(cards.remove(j).drop_last() =~= prefix.remove(j));
        assert(cards.remove(j).last() == cards.last());
    }
}

/// Hands made of the same cards have the same rank counts, whatever the
/// order.
pub proof fn lemma_count_index_permutation(a: Seq<Card>, b: Seq<Card>, i: int)
    requires
        a.to_multiset() == b.to_multiset(),
    ensures
        count_index(a, i) == count_index(b, i),
    decreases a.len(),
{
    if a.len() == 0 {
        assert(b.len() == 0) by {
            a.to_multiset_ensures();
            b.to_multiset_ensures();
        }
    } else {
        let c = a.last();
        assert(a.contains(c));
        assert(b.contains(c)) by {
            assert(a.to_multiset().count(c) > 0);
        }
        let j = choose|j: int| 0 <= j < b.len() && b[j] == c;
        assert(a.drop_last().to_multiset() == b.remove(j).to_multiset()) by {
            assert(a.drop_last().push(c) =~= a);
            assert(a.to_multiset() == a.drop_last().to_multiset().insert(c));
            assert(a.drop_last().to_multiset() =~= a.to_multiset().remove(c));
            assert(b.remove(j).to_multiset() == b.to_multiset().remove(c));
        }
        lemma_count_index_permutation(a.drop_last(), b.remove(j), i);
        lemma_count_index_remove(b, j, i);
        assert(a.drop_last() =~= a.remove(a.len() - 1));
        lemma_count_index_remove(a, a.len() - 1, i);
    }
}

/// The multiplicity statistics depend on the rank counts alone.
proof fn lemma_multi_stats_from_counts(a: Seq<Card>, b: Seq<Card>, n: int)
    requires
        forall|i: int| 0 <= i < 13 ==> count_index(a, i) == count_index(b, i),
        n <= 13,
    ensures
        multi_values_below(a, n) == multi_values_below(b, n),
        covered_below(a, n) == covered_below(b, n),
    decreases n,
{
    if n > 0 {
        lemma_multi_stats_from_counts(a, b, n - 1);
    }
}

/// A stretch of the tie-break order depends on the rank counts alone.
proof fn lemma_mcv_level_from_counts(a: Seq<Card>, b: Seq<Card>, c: int, i: int)
    requires
        forall|j: int| 0 <= j < 13 ==> count_index(a, j) == count_index(b, j),
        i >= 0,
    ensures
        mcv_level_down(a, c, i) == mcv_level_down(b, c, i),
    decreases 13 - i,
{
    if i <= 12 {
        lemma_mcv_level_from_counts(a, b, c, i + 1);
    }
}

/// The tie-break order depends on the rank counts alone.
proof fn lemma_mcv_levels_from_counts(a: Seq<Card>, b: Seq<Card>, c: int)
    requires
        forall|j: int| 0 <= j < 13 ==> count_index(a, j) == count_index(b, j),
    ensures
        mcv_levels(a, c) == mcv_levels(b, c),
    decreases 6 - c,
{
    if c <= 5 {
        lemma_mcv_levels_from_counts(a, b, c + 1);
        lemma_mcv_level_from_counts(a, b, c, 0);
    }
}

/// A hand's category and tie-break sequence depend only on its rank
/// counts and on whether it is a flush: the suits carry no strength of
/// their own.
pub proof fn lemma_rank_from_counts(a: Seq<Card>, b: Seq<Card>)
    requires
        forall|i: int| 0 <= i < 13 ==> count_index(a, i) == count_index(b, i),
        flush_spec(a) == flush_spec(b),
    ensures
        category_spec(a) == category_spec(b),
        tie_break_spec(a) == tie_break_spec(b),
        key_of(a) == key_of(b),
{
    assert(straight_spec(a) == straight_spec(b)) by {
        if straight_spec(a) {
            straight_transfer(a, b);
        }
        if straight_spec(b) {
            straight_transfer(b, a);
        }
    }
    lemma_multi_stats_from_counts(a, b, 13);
    lemma_mcv_levels_from_counts(a, b, 1);
}

/// A straight is read off the rank counts, so equal counts carry it over.
proof fn straight_transfer(a: Seq<Card>, b: Seq<Card>)
    requires
        forall|i: int| 0 <= i < 13 ==> count_index(a, i) == count_index(b, i),
        straight_spec(a),
    ensures
        straight_spec(b),
{
    if wheel_counts(a) {
        assert(wheel_counts(b));
    } else {
        let lo = choose|lo: int| 0 <= lo <= 8 && crate::hand::run_counts(a, lo);
        assert(crate::hand::run_counts(b, lo));
    }
}

/// A flush stays a flush under any rearrangement of the same cards.
proof fn lemma_flush_permutation(a: Seq<Card>, b: Seq<Card>)
    requires
        a.to_multiset() == b.to_multiset(),
        a.len() > 0,
        flush_spec(a),
    ensures
        flush_spec(b),
{
    assert forall|k: int| 0 <= k < b.len() implies #[trigger] b[k].suit == b[0].suit by {
        assert(b.contains(b[k]));
        assert(a.to_multiset().count(b[k]) > 0);
        assert(a.contains(b[k]));
        let w = choose|w: int| 0 <= w < a.len() && a[w] == b[k];
        assert(a[w].suit == a[0].suit);
        assert(b.contains(b[0]));
        assert(a.to_multiset().count(b[0]) > 0);
        assert(a.contains(b[0]));
        let w0 = choose|w0: int| 0 <= w0 < a.len() && a[w0] == b[0];
        assert(a[w0].suit == a[0].suit);
    }
}

/// Rearranging the cards of a hand changes neither its category nor its
/// tie-break sequence: the rank is a function of the multiset of cards.
pub proof fn lemma_rank_permutation_invariant(a: Seq<Card>, b: Seq<Card>)
    requires
        a.len() == 5,
        a.to_multiset() == b.to_multiset(),
    ensures
        category_spec(a) == category_spec(b),
        tie_break_spec(a) == tie_break_spec(b),
        key_of(a) == key_of(b),
    decreases a.len(),
{
    assert forall|i: int| 0 <= i < 13 implies count_index(a, i) == count_index(b, i) by {
        lemma_count_index_permutation(a, b, i);
    }
    assert(flush_spec(a) == flush_spec(b)) by {
        assert(b.len() == a.len()) by {
            a.to_multiset_ensures();
            b.to_multiset_ensures();
        }
        if flush_spec(a) {
            lemma_flush_permutation(a, b);
        }
        if flush_spec(b) {
            lemma_flush_permutation(b, a);
        }
    }
    lemma_rank_from_counts(a, b);
}

/// A hand of a stronger category beats any hand of a weaker category,
/// whatever the ranks involved.
pub proof fn lemma_category_order_wins(a: Seq<Card>, b: Seq<Card>)
    requires
        a.len() == 5,
        b.len() == 5,
        category_spec(a).index() > category_spec(b).index(),
    ensures
        hand_cmp_spec(a, b) == Ordering::Greater,
        hand_cmp_spec(b, a) == Ordering::Less,
{
}

/// Any straight — the wheel included — beats any hand that is neither a
/// straight nor a flush, as long as that hand is no full house and no
/// four of a kind (those outrank every straight).
pub proof fn lemma_straight_beats_plain(a: Seq<Card>, b: Seq<Card>)
    requires
        a.len() == 5,
        b.len() == 5,
        straight_spec(a),
        !straight_spec(b),
        !flush_spec(b),
        category_spec(b) != HandRank::FullHouse,
        category_spec(b) != HandRank::FourOfAKind,
    ensures
        hand_cmp_spec(a, b) == Ordering::Greater,
{
    lemma_category_order_wins(a, b);
}

/// No rank of the given multiplicity leaves that tie-break stretch empty.
proof fn lemma_level_empty(cards: Seq<Card>, c: int, i: int)
    requires
        forall|j: int| 0 <= j < 13 ==> count_index(cards, j) != c,
        i >= 0,
    ensures
        mcv_level_down(cards, c, i) == Seq::<Value>::empty(),
    decreases 13 - i,
{
    if i <= 12 {
        lemma_level_empty(cards, c, i + 1);
        assert(mcv_level_down(cards, c, i) =~= Seq::<Value>::empty());
    }
}

/// The wheel is a straight whose high card is the Five: its tie-break
/// sequence runs Five, Four, Three, Two and ends with the Ace, which here
/// counts as the lowest card.
pub proof fn lemma_wheel_tie_break(cards: Seq<Card>)
    requires
        cards.len() == 5,
        wheel_counts(cards),
    ensures
        straight_spec(cards),
        category_spec(cards) == HandRank::Straight || category_spec(cards)
            == HandRank::StraightFlush,
        tie_break_spec(cards) == seq![Value::Five, Value::Four, Value::Three, Value::Two, Value::Ace],
{
    let lvl = |i: int| mcv_level_down(cards, 1, i);
    assert(lvl(13) =~= Seq::<Value>::empty());
    assert(lvl(12) =~= seq![Value::Ace]);
    assert(lvl(11) =~= seq![Value::Ace]);
    assert(lvl(10) =~= seq![Value::Ace]);
    assert(lvl(9) =~= seq![Value::Ace]);
    assert(lvl(8) =~= seq![Value::Ace]);
    assert(lvl(7) =~= seq![Value::Ace]);
    assert(lvl(6) =~= seq![Value::Ace]);
    assert(lvl(5) =~= seq![Value::Ace]);
    assert(lvl(4) =~= seq![Value::Ace]);
    assert(lvl(3) =~= seq![Value::Ace, Value::Five]);
    assert(lvl(2) =~= seq![Value::Ace, Value::Five, Value::Four]);
    assert(lvl(1) =~= seq![Value::Ace, Value::Five, Value::Four, Value::Three]);
    assert(lvl(0) =~= seq![Value::Ace, Value::Five, Value::Four, Value::Three, Value::Two]);
    assert(mcv_levels(cards, 6) =~= Seq::<Value>::empty());
    lemma_level_empty(cards, 5, 0);
    assert(mcv_levels(cards, 5) =~= Seq::<Value>::empty());
    lemma_level_empty(cards, 4, 0);
    assert(mcv_levels(cards, 4) =~= Seq::<Value>::empty());
    lemma_level_empty(cards, 3, 0);
    assert(mcv_levels(cards, 3) =~= Seq::<Value>::empty());
    lemma_level_empty(cards, 2, 0);
    assert(mcv_levels(cards, 2) =~= Seq::<Value>::empty());
    assert(mcv_levels(cards, 1) =~= seq![Value::Ace, Value::Five, Value::Four, Value::Three, Value::Two]);
    assert(tie_break_spec(cards) =~= seq![Value::Five, Value::Four, Value::Three, Value::Two, Value::Ace]);
}

} // verus!
