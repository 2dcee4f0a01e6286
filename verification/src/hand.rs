use crate::card::token_card;
use crate::card::value::value_at;
use crate::card::Card;
use crate::card::Value;
use core::cmp::Ordering;
use vstd::prelude::*;

verus! {

/// The nine hand categories, in ascending order of strength.
#[derive(Debug, PartialEq, Eq, PartialOrd, Ord, Hash, Copy, Clone, Structural)]
pub enum HandRank {
    HighCard,
    Pair,
    TwoPair,
    ThreeOfAKind,
    Straight,
    Flush,
    FullHouse,
    FourOfAKind,
    StraightFlush,
}

impl HandRank {
    /// Position of this category in the ascending order of strength,
    /// `HighCard` at 0 up to `StraightFlush` at 8.
    pub open spec fn index(self) -> int {
        match self {
            HandRank::HighCard => 0,
            HandRank::Pair => 1,
            HandRank::TwoPair => 2,
            HandRank::ThreeOfAKind => 3,
            HandRank::Straight => 4,
            HandRank::Flush => 5,
            HandRank::FullHouse => 6,
            HandRank::FourOfAKind => 7,
            HandRank::StraightFlush => 8,
        }
    }

    /// The position of this category in the ascending order of strength,
    /// as a machine integer.
    pub fn to_index(self) -> (r: u8)
        ensures
            r as int == self.index(),
    {
        match self {
            HandRank::HighCard => 0,
            HandRank::Pair => 1,
            HandRank::TwoPair => 2,
            HandRank::ThreeOfAKind => 3,
            HandRank::Straight => 4,
            HandRank::Flush => 5,
            HandRank::FullHouse => 6,
            HandRank::FourOfAKind => 7,
            HandRank::StraightFlush => 8,
        }
    }
}

/// How many cards of the sequence carry the rank standing at position `i`
/// of the rank order.
pub open spec fn count_index(cards: Seq<Card>, i: int) -> nat
    decreases cards.len(),
{
    if cards.len() == 0 {
        0
    } else {
        count_index(cards.drop_last(), i) + (if cards.last().value.index() == i {
            1nat
        } else {
            0nat
        })
    }
}

/// Every rank of the wheel (Ace, Two, Three, Four, Five) occurs exactly
/// once and no other rank occurs.
pub open spec fn wheel_counts(cards: Seq<Card>) -> bool {
    forall|i: int|
        0 <= i < 13 ==> count_index(cards, i) == (if i <= 3 || i == 12 {
            1nat
        } else {
            0nat
        })
}

/// The five ranks at positions `lo` through `lo + 4` occur exactly once
/// each and no other rank occurs.
pub open spec fn run_counts(cards: Seq<Card>, lo: int) -> bool {
    forall|i: int|
        0 <= i < 13 ==> count_index(cards, i) == (if lo <= i <= lo + 4 {
            1nat
        } else {
            0nat
        })
}

/// The cards form a straight: five consecutive ranks, or the wheel, in
/// which the Ace stands below the Two.
pub open spec fn straight_spec(cards: Seq<Card>) -> bool {
    wheel_counts(cards) || exists|lo: int| 0 <= lo <= 8 && run_counts(cards, lo)
}

/// All cards share one suit.
pub open spec fn flush_spec(cards: Seq<Card>) -> bool {
    forall|i: int| 0 <= i < cards.len() ==> #[trigger] cards[i].suit == cards[0].suit
}

/// How many of the ranks at positions below `n` occur more than once.
pub open spec fn multi_values_below(cards: Seq<Card>, n: int) -> nat
    decreases n,
{
    if n <= 0 {
        0
    } else {
        multi_values_below(cards, n - 1) + (if count_index(cards, n - 1) >= 2 {
            1nat
        } else {
            0nat
        })
    }
}

/// How many ranks occur more than once.
pub open spec fn multi_values(cards: Seq<Card>) -> nat {
    multi_values_below(cards, 13)
}

/// How many cards carry a rank that occurs more than once, among ranks at
/// positions below `n`.
pub open spec fn covered_below(cards: Seq<Card>, n: int) -> nat
    decreases n,
{
    if n <= 0 {
        0
    } else {
        covered_below(cards, n - 1) + (if count_index(cards, n - 1) >= 2 {
            count_index(cards, n - 1)
        } else {
            0nat
        })
    }
}

/// How many cards carry a rank that occurs more than once.
pub open spec fn covered(cards: Seq<Card>) -> nat {
    covered_below(cards, 13)
}

/// The category of a hand that is neither a straight nor a flush, read off
/// the rank multiplicities.
pub open spec fn multiplicity_category(cards: Seq<Card>) -> HandRank {
    if multi_values(cards) == 2 {
        if covered(cards) == 5 {
            HandRank::FullHouse
        } else {
            HandRank::TwoPair
        }
    } else if multi_values(cards) == 1 {
        if covered(cards) == 4 {
            HandRank::FourOfAKind
        } else if covered(cards) == 3 {
            HandRank::ThreeOfAKind
        } else {
            HandRank::Pair
        }
    } else {
        HandRank::HighCard
    }
}

/// The category of a five-card hand.
pub open spec fn category_spec(cards: Seq<Card>) -> HandRank {
    if straight_spec(cards) && flush_spec(cards) {
        HandRank::StraightFlush
    } else if straight_spec(cards) {
        HandRank::Straight
    } else if flush_spec(cards) {
        HandRank::Flush
    } else {
        multiplicity_category(cards)
    }
}

/// The ranks occurring exactly `c` times, from position 12 down to
/// position `i`, in descending position order.
pub open spec fn mcv_level_down(cards: Seq<Card>, c: int, i: int) -> Seq<Value>
    decreases 13 - i,
{
    if i > 12 {
        Seq::empty()
    } else {
        mcv_level_down(cards, c, i + 1) + (if count_index(cards, i) == c {
            seq![value_at(i)]
        } else {
            Seq::empty()
        })
    }
}

/// The ranks of the hand ordered by descending multiplicity, then by
/// descending rank, taking multiplicities from 5 down to `c`.
pub open spec fn mcv_levels(cards: Seq<Card>, c: int) -> Seq<Value>
    decreases 6 - c,
{
    if c > 5 {
        Seq::empty()
    } else {
        mcv_levels(cards, c + 1) + mcv_level_down(cards, c, 0)
    }
}

/// The ranks of the hand ordered by descending multiplicity, then by
/// descending rank, before the wheel adjustment.
pub open spec fn mcv_spec(cards: Seq<Card>) -> Seq<Value> {
    mcv_levels(cards, 1)
}

/// The hand is the wheel straight: its high card is the Five, and the Ace
/// must fall to the back of the tie-break sequence.
pub open spec fn wheel_case(cards: Seq<Card>) -> bool {
    straight_spec(cards) && count_index(cards, 12) >= 1 && count_index(cards, 3) >= 1
}

/// The tie-break sequence of a five-card hand: its ranks by descending
/// multiplicity, then descending rank, except that the Ace of a wheel
/// straight counts as the lowest card and moves to the back.
pub open spec fn tie_break_spec(cards: Seq<Card>) -> Seq<Value> {
    let s = mcv_spec(cards);
    if wheel_case(cards) && s.len() > 0 {
        s.drop_first().push(s[0])
    } else {
        s
    }
}

/// Lexicographic comparison of rank sequences; a strict prefix counts as
/// smaller.
pub open spec fn lex_value_cmp(a: Seq<Value>, b: Seq<Value>) -> Ordering
    decreases a.len(),
{
    if a.len() == 0 && b.len() == 0 {
        Ordering::Equal
    } else if a.len() == 0 {
        Ordering::Less
    } else if b.len() == 0 {
        Ordering::Greater
    } else if a[0].index() < b[0].index() {
        Ordering::Less
    } else if a[0].index() > b[0].index() {
        Ordering::Greater
    } else {
        lex_value_cmp(a.drop_first(), b.drop_first())
    }
}

/// A hand's ranking key: its category's position, and its tie-break
/// sequence.
pub open spec fn key_of(cards: Seq<Card>) -> (int, Seq<Value>) {
    (category_spec(cards).index(), tie_break_spec(cards))
}

/// Comparison of ranking keys: category first, then the tie-break
/// sequences lexicographically.
pub open spec fn key_cmp(x: (int, Seq<Value>), y: (int, Seq<Value>)) -> Ordering {
    if x.0 < y.0 {
        Ordering::Less
    } else if x.0 > y.0 {
        Ordering::Greater
    } else {
        lex_value_cmp(x.1, y.1)
    }
}

/// The larger of two ranking keys; on equal keys the second is kept.
pub open spec fn key_max(x: (int, Seq<Value>), y: (int, Seq<Value>)) -> (int, Seq<Value>) {
    if key_cmp(y, x) == Ordering::Less {
        x
    } else {
        y
    }
}

/// The sub-hand obtained by discarding the card at position `i` (every
/// copy of it, when the hand repeats a card).
pub open spec fn sub_hand(cards: Seq<Card>, i: int) -> Seq<Card> {
    cards.filter(|c: Card| c != cards[i])
}

/// A filter that rejects some element shortens the sequence strictly.
proof fn lemma_filter_excluding(s: Seq<Card>, pred: spec_fn(Card) -> bool, i: int)
    requires
        0 <= i < s.len(),
        !pred(s[i]),
    ensures
        s.filter(pred).len() < s.len(),
    decreases s.len(),
{
    reveal(Seq::filter);
    if i == s.len() - 1 {
        s.drop_last().lemma_filter_len(pred);
    } else {
        lemma_filter_excluding(s.drop_last(), pred, i);
    }
}

/// Discarding a card leaves a strictly shorter hand.
pub proof fn lemma_sub_hand_shorter(cards: Seq<Card>, i: int)
    requires
        0 <= i < cards.len(),
    ensures
        sub_hand(cards, i).len() < cards.len(),
{
    lemma_filter_excluding(cards, |c: Card| c != cards[i], i);
}

/// A filter that accepts every element leaves the sequence unchanged.
proof fn lemma_filter_keeps_all(s: Seq<Card>, pred: spec_fn(Card) -> bool)
    requires
        forall|k: int| 0 <= k < s.len() ==> pred(#[trigger] s[k]),
    ensures
        s.filter(pred) == s,
    decreases s.len(),
{
    reveal(Seq::filter);
    if s.len() > 0 {
        lemma_filter_keeps_all(s.drop_last(), pred);
        assert(s.drop_last().push(s.last()) =~= s);
    }
}

/// In a hand without repeated cards, discarding the card at position `i`
/// removes exactly that position.
pub proof fn lemma_sub_hand_distinct(cards: Seq<Card>, i: int)
    requires
        cards.no_duplicates(),
        0 <= i < cards.len(),
    ensures
        sub_hand(cards, i) == cards.remove(i),
        sub_hand(cards, i).len() == cards.len() - 1,
        sub_hand(cards, i).no_duplicates(),
    decreases cards.len(),
{
    reveal(Seq::filter);
    let pred = |c: Card| c != cards[i];
    if i == cards.len() - 1 {
        lemma_filter_keeps_all(cards.drop_last(), pred);
        assert(cards.remove(i) =~= cards.drop_last());
    } else {
        let prefix = cards.drop_last();
        assert(prefix.no_duplicates());
        lemma_sub_hand_distinct(prefix, i);
        assert(prefix.filter(|c: Card| c != prefix[i]) == prefix.remove(i));
        assert(prefix[i] == cards[i]);
        assert(prefix.filter(pred) == prefix.remove(i));
        assert(cards.filter(pred) == prefix.remove(i).push(cards.last()));
        assert(cards.remove(i) =~= prefix.remove(i).push(cards.last()));
    }
    assert forall|x: int, y: int|
        0 <= x < cards.remove(i).len() && 0 <= y < cards.remove(i).len() && x
            != y implies cards.remove(i)[x] != cards.remove(i)[y] by {
        assert(cards.remove(i)[x] == (if x < i {
            cards[x]
        } else {
            cards[x + 1]
        }));
        assert(cards.remove(i)[y] == (if y < i {
            cards[y]
        } else {
            cards[y + 1]
        }));
    }
}

/// The ranking key of a hand: for five cards or fewer, the key read off
/// the cards themselves; for more, the best key among the sub-hands that
/// discard one card, found recursively.
pub open spec fn best_key(cards: Seq<Card>) -> (int, Seq<Value>)
    decreases cards.len(), cards.len() + 1,
{
    if cards.len() <= 5 {
        key_of(cards)
    } else {
        best_sub_key(cards, cards.len() as int)
    }
}

/// The best ranking key among the sub-hands discarding one of the first
/// `n` cards.
pub open spec fn best_sub_key(cards: Seq<Card>, n: int) -> (int, Seq<Value>)
    decreases cards.len(), n,
    via best_sub_key_decreases
{
    if 1 <= n <= cards.len() {
        if n == 1 {
            best_key(sub_hand(cards, 0))
        } else {
            key_max(best_sub_key(cards, n - 1), best_key(sub_hand(cards, n - 1)))
        }
    } else {
        key_of(cards)
    }
}

#[via_fn]
proof fn best_sub_key_decreases(cards: Seq<Card>, n: int) {
    if 1 <= n <= cards.len() {
        lemma_sub_hand_shorter(cards, 0);
        lemma_sub_hand_shorter(cards, n - 1);
    }
}

/// How two hands of equal size compare: by their ranking keys.
pub open spec fn hand_cmp_spec(a: Seq<Card>, b: Seq<Card>) -> Ordering {
    key_cmp(best_key(a), best_key(b))
}

/// A hand the ranking functions accept: five to seven cards, no repeated
/// card when there are more than five.
pub open spec fn wf_hand(cards: Seq<Card>) -> bool {
    &&& 5 <= cards.len() <= 7
    &&& cards.len() > 5 ==> cards.no_duplicates()
}

/// Two hands may be compared when both are well formed and have the same
/// size.
pub open spec fn comparable(a: Seq<Card>, b: Seq<Card>) -> bool {
    wf_hand(a) && wf_hand(b) && a.len() == b.len()
}

/// What `partial_cmp` on hands returns: the key comparison for comparable
/// hands, `None` otherwise.
pub open spec fn hand_partial_cmp_spec(a: Seq<Card>, b: Seq<Card>) -> Option<Ordering> {
    if comparable(a, b) {
        Some(hand_cmp_spec(a, b))
    } else {
        None
    }
}

/// No rank occurs more often than the hand has cards.
pub proof fn lemma_count_index_bound(cards: Seq<Card>, i: int)
    ensures
        count_index(cards, i) <= cards.len(),
    decreases cards.len(),
{
    if cards.len() > 0 {
        lemma_count_index_bound(cards.drop_last(), i);
    }
}

/// A hand of cards. Ranking functions expect five to seven cards; hands of
/// more than five cards must not repeat a card.
#[derive(Debug)]
pub struct Hand {
    cards: Vec<Card>,
}

impl View for Hand {
    type V = Seq<Card>;

    closed spec fn view(&self) -> Seq<Card> {
        self.cards@
    }
}

impl Hand {
    /// Wraps a vector of cards as a hand.
    pub fn new(cards: Vec<Card>) -> (h: Hand)
        ensures
            h@ == cards@,
    {
        Hand { cards }
    }

    /// The cards of the hand, in their stored order.
    pub fn cards(&self) -> (r: &Vec<Card>)
        ensures
            r@ == self@,
    {
        &self.cards
    }

    /// Tallies, for each rank position, how many cards of the hand carry
    /// that rank.
    fn value_counts(&self) -> (counts: Vec<u8>)
        requires
            self@.len() <= 7,
        ensures
            counts@.len() == 13,
            forall|i: int| 0 <= i < 13 ==> counts@[i] as nat == count_index(self@, i),
    {
        let mut counts: Vec<u8> = vec![0, 0, 0, 0, 0, 0, 0, 0, 0, 0, 0, 0, 0];
        let mut k: usize = 0;
        while k < self.cards.len()
            invariant
                k <= self@.len() <= 7,
                counts@.len() == 13,
                forall|i: int| 0 <= i < 13 ==> counts@[i] as nat == count_index(self@.take(k as int), i),
            decreases self@.len() - k,
        {
            proof {
                assert(self@.take(k as int + 1).drop_last() =~= self@.take(k as int));
                assert(self@.take(k as int + 1).last() == self@[k as int]);
                lemma_count_index_bound(self@.take(k as int), self@[k as int].value.index());
            }
            let idx = self.cards[k].value.to_index();
            counts[idx as usize] = counts[idx as usize] + 1;
            k = k + 1;
        }
        proof {
            assert(self@.take(self@.len() as int) =~= self@);
        }
        counts
    }

    /// Does every card share the suit of the first?
    pub fn is_flush(&self) -> (r: bool)
        requires
            self@.len() >= 1,
        ensures
            r == flush_spec(self@),
    {
        let first_suit = self.cards[0].suit;
        let mut k: usize = 0;
        let mut all_same = true;
        while k < self.cards.len()
            invariant
                k <= self@.len(),
                self@.len() >= 1,
                first_suit == self@[0].suit,
                all_same == (forall|i: int| 0 <= i < k ==> #[trigger] self@[i].suit == self@[0].suit),
            decreases self@.len() - k,
        {
            if !(self.cards[k].suit == first_suit) {
                all_same = false;
            }
            k = k + 1;
        }
        all_same
    }

    /// Do the five cards form a straight (five consecutive ranks, or the
    /// wheel)?
    pub fn is_straight(&self) -> (r: bool)
        requires
            self@.len() == 5,
        ensures
            r == straight_spec(self@),
    {
        let counts = self.value_counts();
        let mut wheel = true;
        let mut i: usize = 0;
        while i < 13
            invariant
                i <= 13,
                counts@.len() == 13,
                forall|j: int| 0 <= j < 13 ==> counts@[j] as nat == count_index(self@, j),
                wheel == (forall|j: int|
                    0 <= j < i ==> count_index(self@, j) == (if j <= 3 || j == 12 {
                        1nat
                    } else {
                        0nat
                    })),
            decreases 13 - i,
        {
            let expected: u8 = if i <= 3 || i == 12 {
                1
            } else {
                0
            };
            if counts[i] != expected {
                wheel = false;
            }
            i = i + 1;
        }
        let mut found = false;
        let mut lo: usize = 0;
        while lo < 9
            invariant
                lo <= 9,
                counts@.len() == 13,
                forall|j: int| 0 <= j < 13 ==> counts@[j] as nat == count_index(self@, j),
                found == (exists|l: int| 0 <= l < lo && run_counts(self@, l)),
            decreases 9 - lo,
        {
            let mut ok = true;
            let mut j: usize = 0;
            while j < 13
                invariant
                    j <= 13,
                    lo < 9,
                    counts@.len() == 13,
                    forall|jj: int| 0 <= jj < 13 ==> counts@[jj] as nat == count_index(self@, jj),
                    ok == (forall|jj: int|
                        0 <= jj < j ==> count_index(self@, jj) == (if lo <= jj <= lo + 4 {
                            1nat
                        } else {
                            0nat
                        })),
                decreases 13 - j,
            {
                let expected: u8 = if lo <= j && j <= lo + 4 {
                    1
                } else {
                    0
                };
                if counts[j] != expected {
                    ok = false;
                }
                j = j + 1;
            }
            proof {
                assert(ok == run_counts(self@, lo as int));
            }
            if ok {
                found = true;
            }
            lo = lo + 1;
        }
        wheel || found
    }

    /// The category of a hand that is neither a straight nor a flush.
    pub fn non_straight_flush_categorize(&self) -> (r: HandRank)
        requires
            self@.len() == 5,
        ensures
            r == multiplicity_category(self@),
    {
        let counts = self.value_counts();
        let mut multi: u8 = 0;
        let mut cov: u8 = 0;
        let mut i: usize = 0;
        while i < 13
            invariant
                i <= 13,
                counts@.len() == 13,
                self@.len() == 5,
                forall|j: int| 0 <= j < 13 ==> counts@[j] as nat == count_index(self@, j),
                multi as nat == multi_values_below(self@, i as int),
                cov as nat == covered_below(self@, i as int),
                multi <= i,
                cov <= 5 * i,
            decreases 13 - i,
        {
            proof {
                lemma_count_index_bound(self@, i as int);
            }
            if counts[i] >= 2 {
                multi = multi + 1;
                cov = cov + counts[i];
            }
            i = i + 1;
        }
        if multi == 2 {
            if cov == 5 {
                HandRank::FullHouse
            } else {
                HandRank::TwoPair
            }
        } else if multi == 1 {
            if cov == 4 {
                HandRank::FourOfAKind
            } else if cov == 3 {
                HandRank::ThreeOfAKind
            } else {
                HandRank::Pair
            }
        } else {
            HandRank::HighCard
        }
    }

    /// The ranks of the hand ordered by descending multiplicity, then by
    /// descending rank; in a wheel straight the Ace moves to the back, as
    /// the straight's lowest card.
    pub fn most_common_values(&self) -> (r: Vec<Value>)
        requires
            self@.len() == 5,
        ensures
            r@ == tie_break_spec(self@),
    {
        let counts = self.value_counts();
        let mut values: Vec<Value> = Vec::new();
        let mut c: u8 = 5;
        while c >= 1
            invariant
                c <= 5,
                counts@.len() == 13,
                self@.len() == 5,
                forall|j: int| 0 <= j < 13 ==> counts@[j] as nat == count_index(self@, j),
                values@ == mcv_levels(self@, c as int + 1),
            decreases c,
        {
            let mut ii: u8 = 13;
            while ii > 0
                invariant
                    ii <= 13,
                    1 <= c <= 5,
                    counts@.len() == 13,
                    self@.len() == 5,
                    forall|j: int| 0 <= j < 13 ==> counts@[j] as nat == count_index(self@, j),
                    values@ == mcv_levels(self@, c as int + 1) + mcv_level_down(
                        self@,
                        c as int,
                        ii as int,
                    ),
                decreases ii,
            {
                ii = ii - 1;
                if counts[ii as usize] == c {
                    values.push(crate::card::value::value_from_index(ii));
                }
            }
            c = c - 1;
        }
        if self.is_straight() && counts[12] >= 1 && counts[3] >= 1 && values.len() > 0 {
            let removed = values.remove(0);
            values.push(removed);
            proof {
                assert(values@ =~= tie_break_spec(self@));
            }
        }
        values
    }

    /// The category of a five-card hand.
    pub fn categorize(&self) -> (r: HandRank)
        requires
            self@.len() == 5,
        ensures
            r == category_spec(self@),
    {
        match (self.is_straight(), self.is_flush()) {
            (true, true) => HandRank::StraightFlush,
            (true, false) => HandRank::Straight,
            (false, true) => HandRank::Flush,
            (false, false) => self.non_straight_flush_categorize(),
        }
    }

    /// Every hand obtained by discarding one card: the entry at position
    /// `i` discards the card at position `i` (and every copy of it).
    pub fn sub_hands(&self) -> (r: Vec<Hand>)
        ensures
            r@.len() == self@.len(),
            forall|i: int| 0 <= i < r@.len() ==> #[trigger] r@[i]@ == sub_hand(self@, i),
    {
        let mut subs: Vec<Hand> = Vec::new();
        let mut i: usize = 0;
        while i < self.cards.len()
            invariant
                i <= self@.len(),
                subs@.len() == i,
                forall|k: int| 0 <= k < i ==> #[trigger] subs@[k]@ == sub_hand(self@, k),
            decreases self@.len() - i,
        {
            let mut kept: Vec<Card> = Vec::new();
            let mut k: usize = 0;
            while k < self.cards.len()
                invariant
                    k <= self@.len(),
                    i < self@.len(),
                    kept@ == self@.take(k as int).filter(|c: Card| c != self@[i as int]),
                decreases self@.len() - k,
            {
                proof {
                    reveal(Seq::filter);
                    assert(self@.take(k as int + 1).drop_last() =~= self@.take(k as int));
                }
                if !(self.cards[k] == self.cards[i]) {
                    kept.push(self.cards[k]);
                }
                k = k + 1;
            }
            proof {
                assert(self@.take(self@.len() as int) =~= self@);
            }
            subs.push(Hand::new(kept));
            i = i + 1;
        }
        subs
    }
}

/// Lexicographic comparison of two rank vectors, the ranks compared by
/// their strength.
fn lex_cmp_values(a: &Vec<Value>, b: &Vec<Value>) -> (r: Ordering)
    ensures
        r == lex_value_cmp(a@, b@),
{
    let mut i: usize = 0;
    proof {
        assert(a@.skip(0) =~= a@);
        assert(b@.skip(0) =~= b@);
    }
    while i < a.len() && i < b.len()
        invariant
            i <= a@.len(),
            i <= b@.len(),
            lex_value_cmp(a@, b@) == lex_value_cmp(a@.skip(i as int), b@.skip(i as int)),
        decreases a@.len() - i,
    {
        let va = a[i].to_index();
        let vb = b[i].to_index();
        proof {
            assert(a@.skip(i as int)[0] == a@[i as int]);
            assert(b@.skip(i as int)[0] == b@[i as int]);
            assert(a@.skip(i as int + 1) =~= a@.skip(i as int).drop_first());
            assert(b@.skip(i as int + 1) =~= b@.skip(i as int).drop_first());
        }
        if va < vb {
            return Ordering::Less;
        }
        if va > vb {
            return Ordering::Greater;
        }
        i = i + 1;
    }
    if a.len() == b.len() {
        Ordering::Equal
    } else if a.len() < b.len() {
        Ordering::Less
    } else {
        Ordering::Greater
    }
}

/// How two comparable hands rank against one another. Five-card hands are
/// compared by category, then tie-break sequence; longer hands by the best
/// hand reachable by repeatedly discarding a card.
pub(crate) fn cmp_hands(a: &Hand, b: &Hand) -> (r: Ordering)
    requires
        comparable(a@, b@),
    ensures
        r == hand_cmp_spec(a@, b@),
    decreases a@.len(), 1nat,
{
    if a.cards().len() > 5 {
        let a_best = best_sub_hand(a);
        let b_best = best_sub_hand(b);
        cmp_hands(&a_best, &b_best)
    } else {
        let cat_a = a.categorize().to_index();
        let cat_b = b.categorize().to_index();
        if cat_a < cat_b {
            Ordering::Less
        } else if cat_a > cat_b {
            Ordering::Greater
        } else {
            let ta = a.most_common_values();
            let tb = b.most_common_values();
            lex_cmp_values(&ta, &tb)
        }
    }
}

/// The best hand obtained from a six- or seven-card hand by discarding one
/// card; on ties the last such hand is kept.
fn best_sub_hand(h: &Hand) -> (r: Hand)
    requires
        wf_hand(h@),
        h@.len() > 5,
    ensures
        wf_hand(r@),
        r@.len() == h@.len() - 1,
        best_key(r@) == best_key(h@),
    decreases h@.len(), 0nat,
{
    let mut subs = h.sub_hands();
    proof {
        lemma_sub_hand_distinct(h@, 0);
    }
    let n = subs.len();
    let mut best_idx: usize = 0;
    let mut j: usize = 1;
    while j < n
        invariant
            wf_hand(h@),
            h@.len() > 5,
            n == subs@.len() == h@.len(),
            1 <= j <= n,
            best_idx < j,
            forall|k: int| 0 <= k < n ==> #[trigger] subs@[k]@ == sub_hand(h@, k),
            best_key(subs@[best_idx as int]@) == best_sub_key(h@, j as int),
        decreases n - j,
    {
        proof {
            lemma_sub_hand_distinct(h@, j as int);
            lemma_sub_hand_distinct(h@, best_idx as int);
        }
        let ord = cmp_hands(&subs[j], &subs[best_idx]);
        if !matches!(ord, Ordering::Less) {
            best_idx = j;
        }
        j = j + 1;
    }
    proof {
        lemma_sub_hand_distinct(h@, best_idx as int);
    }
    subs.remove(best_idx)
}

/// Does the vector repeat a card?
fn has_duplicate_cards(cards: &Vec<Card>) -> (r: bool)
    ensures
        r == !cards@.no_duplicates(),
{
    let n = cards.len();
    let mut i: usize = 0;
    while i < n
        invariant
            i <= n,
            n == cards@.len(),
            forall|x: int, y: int| 0 <= x < i && x < y < n ==> cards@[x] != cards@[y],
        decreases n - i,
    {
        let mut j: usize = i + 1;
        while j < n
            invariant
                i < j <= n,
                n == cards@.len(),
                forall|y: int| i < y < j ==> cards@[i as int] != cards@[y],
            decreases n - j,
        {
            if cards[i] == cards[j] {
                return true;
            }
            j = j + 1;
        }
        i = i + 1;
    }
    false
}

/// Are the two hands within the sizes the ranking accepts, and of equal
/// size?
fn hands_comparable(a: &Hand, b: &Hand) -> (r: bool)
    ensures
        r == comparable(a@, b@),
{
    let la = a.cards().len();
    let lb = b.cards().len();
    if la != lb || la < 5 || la > 7 {
        return false;
    }
    if la > 5 {
        if has_duplicate_cards(a.cards()) || has_duplicate_cards(b.cards()) {
            return false;
        }
    }
    true
}

/// How two hands compare, when they can: `None` for hands outside the
/// ranking's domain (fewer than five or more than seven cards, unequal
/// sizes, or a repeated card in a hand of more than five).
fn try_cmp_hands(a: &Hand, b: &Hand) -> (r: Option<Ordering>)
    ensures
        r == hand_partial_cmp_spec(a@, b@),
{
    if hands_comparable(a, b) {
        Some(cmp_hands(a, b))
    } else {
        None
    }
}

impl PartialEq for Hand {
    /// Two hands are equal when they rank equal: same category and same
    /// tie-break sequence, whatever the suits and the card order.
    fn eq(&self, other: &Self) -> (r: bool) {
        match try_cmp_hands(self, other) {
            Some(Ordering::Equal) => true,
            _ => false,
        }
    }
}

impl vstd::std_specs::cmp::PartialEqSpecImpl for Hand {
    open spec fn obeys_eq_spec() -> bool {
        true
    }

    open spec fn eq_spec(&self, other: &Hand) -> bool {
        hand_partial_cmp_spec(self@, other@) == Some(Ordering::Equal)
    }
}

impl PartialOrd for Hand {
    /// Hands order by ranking strength; incomparable hands (sizes outside
    /// five to seven, unequal sizes, or repeated cards beyond five) give
    /// `None`.
    fn partial_cmp(&self, other: &Self) -> (r: Option<Ordering>) {
        try_cmp_hands(self, other)
    }
}

impl vstd::std_specs::cmp::PartialOrdSpecImpl for Hand {
    open spec fn obeys_partial_cmp_spec() -> bool {
        true
    }

    open spec fn partial_cmp_spec(&self, other: &Hand) -> Option<Ordering> {
        hand_partial_cmp_spec(self@, other@)
    }
}

/// Failure to read a hand from text: some card token did not parse.
#[derive(Debug, PartialEq, Eq, Copy, Clone)]
pub enum HandParseErr {
    Unrecognized,
}

/// A separator between card tokens: a plain whitespace character.
pub open spec fn is_space(c: char) -> bool {
    c == ' ' || c == '\t' || c == '\n' || c == '\r'
}

/// The whitespace-separated tokens of a text, continuing a token already
/// begun.
pub open spec fn tokenize_from(s: Seq<char>, cur: Seq<char>) -> Seq<Seq<char>>
    decreases s.len(),
{
    if s.len() == 0 {
        if cur.len() == 0 {
            Seq::empty()
        } else {
            seq![cur]
        }
    } else if is_space(s[0]) {
        if cur.len() == 0 {
            tokenize_from(s.drop_first(), Seq::empty())
        } else {
            seq![cur] + tokenize_from(s.drop_first(), Seq::empty())
        }
    } else {
        tokenize_from(s.drop_first(), cur.push(s[0]))
    }
}

/// The whitespace-separated tokens of a text.
pub open spec fn tokens_of(s: Seq<char>) -> Seq<Seq<char>> {
    tokenize_from(s, Seq::empty())
}

/// The cards a text denotes: one card per whitespace-separated token.
/// `None` when any token fails to denote a card; no partial hands.
pub open spec fn parse_hand_spec(s: Seq<char>) -> Option<Seq<Card>> {
    let toks = tokens_of(s);
    if forall|i: int| 0 <= i < toks.len() ==> (#[trigger] token_card(toks[i])) is Some {
        Some(Seq::new(toks.len(), |i: int| token_card(toks[i]).unwrap()))
    } else {
        None
    }
}

/// A text one of whose tokens denotes no card denotes no hand.
proof fn lemma_parse_fails(s: Seq<char>, done: Seq<Seq<char>>, t: Seq<char>)
    requires
        done.len() < tokens_of(s).len(),
        tokens_of(s)[done.len() as int] == t,
        token_card(t) is None,
    ensures
        parse_hand_spec(s) is None,
{
}

impl Hand {
    /// Reads a hand from a whitespace-separated list of card tokens, such
    /// as `"AS 2H 0C QD 6H"`. Fails as a whole when any token fails.
    pub fn from_str(s: &str) -> (r: Result<Hand, HandParseErr>)
        ensures
            match r {
                Ok(h) => parse_hand_spec(s@) == Some(h@),
                Err(_) => parse_hand_spec(s@) is None,
            },
    {
        let n = s.unicode_len();
        let mut cards: Vec<Card> = Vec::new();
        let mut cur: Vec<char> = Vec::new();
        let ghost mut done: Seq<Seq<char>> = Seq::empty();
        let mut i: usize = 0;
        proof {
            assert(s@.skip(0) =~= s@);
            assert(Seq::<Seq<char>>::empty() + tokens_of(s@) =~= tokens_of(s@));
        }
        while i < n
            invariant
                i <= n,
                n == s@.len(),
                tokens_of(s@) == done + tokenize_from(s@.skip(i as int), cur@),
                done.len() == cards@.len(),
                forall|k: int| 0 <= k < done.len() ==> token_card(#[trigger] done[k]) == Some(
                    cards@[k],
                ),
            decreases n - i,
        {
            proof {
                assert(s@.skip(i as int)[0] == s@[i as int]);
                assert(s@.skip(i as int).drop_first() =~= s@.skip(i as int + 1));
            }
            let c = s.get_char(i);
            if c == ' ' || c == '\t' || c == '\n' || c == '\r' {
                if cur.len() > 0 {
                    proof {
                        assert(tokens_of(s@) =~= (done + seq![cur@]) + tokenize_from(
                            s@.skip(i as int + 1),
                            Seq::empty(),
                        ));
                    }
                    match Card::from_chars(&cur) {
                        Ok(card) => {
                            cards.push(card);
                            proof {
                                done = done + seq![cur@];
                            }
                            cur.clear();
                        },
                        Err(_) => {
                            proof {
                                lemma_parse_fails(s@, done, cur@);
                            }
                            return Err(HandParseErr::Unrecognized);
                        },
                    }
                } else {
                    proof {
                        assert(cur@ =~= Seq::<char>::empty());
                    }
                }
            } else {
                cur.push(c);
            }
            i = i + 1;
        }
        proof {
            assert(s@.skip(n as int) =~= Seq::<char>::empty());
        }
        if cur.len() > 0 {
            proof {
                assert(tokens_of(s@) =~= done + seq![cur@]);
            }
            match Card::from_chars(&cur) {
                Ok(card) => {
                    cards.push(card);
                    proof {
                        done = done + seq![cur@];
                    }
                },
                Err(_) => {
                    proof {
                        lemma_parse_fails(s@, done, cur@);
                    }
                    return Err(HandParseErr::Unrecognized);
                },
            }
        } else {
            proof {
                assert(cur@ =~= Seq::<char>::empty());
                assert(done + Seq::<Seq<char>>::empty() =~= done);
            }
        }
        proof {
            assert(tokens_of(s@) == done);
            let toks = tokens_of(s@);
            assert(cards@ =~= Seq::new(toks.len(), |k: int| token_card(toks[k]).unwrap()));
        }
        Ok(Hand::new(cards))
    }

    /// Total comparison of two hands: their ranking order, with hands the
    /// ranking cannot compare counted as equal.
    pub fn cmp(&self, other: &Hand) -> (r: Ordering)
        ensures
            r == match hand_partial_cmp_spec(self@, other@) {
                Some(order) => order,
                None => Ordering::Equal,
            },
    {
        match try_cmp_hands(self, other) {
            Some(order) => order,
            None => Ordering::Equal,
        }
    }
}

} // verus!
