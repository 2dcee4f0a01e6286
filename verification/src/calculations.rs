use crate::card::suit::suit_at;
use crate::card::value::value_at;
use crate::card::Card;
use crate::hand::cmp_hands;
use crate::hand::hand_cmp_spec;
use crate::hand::Hand;
use core::cmp::Ordering;
use vstd::prelude::*;

verus! {

broadcast use vstd::seq_lib::group_to_multiset_ensures, vstd::multiset::group_multiset_axioms;

/// The deck has run out: the pocket, board and opponents together ask for
/// more cards than the 52 of the deck.
#[derive(Debug, PartialEq, Eq, Copy, Clone)]
pub struct InsufficientDeckError;

/// A small deterministic pseudo-random generator (a 64-bit linear
/// congruential generator). One instance drives one simulation, so runs
/// are reproducible from their seed.
pub struct Rng {
    state: u64,
}

impl Rng {
    /// Starts the generator from a seed.
    pub fn new(seed: u64) -> Rng {
        Rng { state: seed }
    }

    /// Advances the generator and returns its next raw value.
    pub fn next_u64(&mut self) -> u64 {
        self.state = self.state.wrapping_mul(6364136223846793005).wrapping_add(1442695040888963407);
        self.state >> 16
    }

    /// Advances the generator and returns a value below the given bound.
    /// Raw values past the largest multiple of the bound are rejected and
    /// drawn again, so no residue is favoured; after 64 rejections in a
    /// row the last draw is reduced as it stands.
    pub fn next_below(&mut self, n: u64) -> (r: u64)
        requires
            n > 0,
        ensures
            r < n,
    {
        let zone = u64::MAX - (u64::MAX % n);
        let mut raw = self.next_u64();
        let mut tries: u64 = 0;
        while raw >= zone && tries < 64
            invariant
                n > 0,
            decreases 64 - tries,
        {
            raw = self.next_u64();
            tries = tries + 1;
        }
        raw % n
    }
}

/// The card at a position of the fixed 52-card deck: the thirteen ranks of
/// diamonds, then of clubs, of hearts, and of spades.
pub open spec fn deck_card(i: int) -> Card {
    Card { value: value_at(i % 13), suit: suit_at(i / 13) }
}

/// The deck position holding a card.
pub open spec fn deck_position(c: Card) -> int {
    c.suit.index() * 13 + c.value.index()
}

/// Every card stands at exactly its own position of the deck.
pub proof fn lemma_deck_position(c: Card)
    ensures
        0 <= deck_position(c) < 52,
        deck_card(deck_position(c)) == c,
{
    crate::card::value::lemma_value_at_index(c.value);
    crate::card::suit::lemma_suit_at_index(c.suit);
}

/// Distinct deck positions hold distinct cards.
pub proof fn lemma_deck_card_injective(i: int, j: int)
    requires
        0 <= i < 52,
        0 <= j < 52,
        deck_card(i) == deck_card(j),
    ensures
        i == j,
{
    crate::card::value::lemma_index_value_at(i % 13);
    crate::card::value::lemma_index_value_at(j % 13);
}

/// The fixed 52-card deck, position by position.
pub open spec fn full_deck_spec() -> Seq<Card> {
    Seq::new(52, |i: int| deck_card(i))
}

/// The deck left once the given pocket and community cards are out, in
/// deck order.
pub open spec fn remaining_deck_spec(pocket: Seq<Card>, community: Seq<Card>) -> Seq<Card> {
    full_deck_spec().filter(|c: Card| !pocket.contains(c) && !community.contains(c))
}

/// The full deck: 52 cards, each exactly once.
pub fn full_deck() -> (r: Vec<Card>)
    ensures
        r@ == full_deck_spec(),
        r@.len() == 52,
        forall|i: int| 0 <= i < 52 ==> #[trigger] r@[i] == deck_card(i),
        r@.no_duplicates(),
{
    let mut deck: Vec<Card> = Vec::new();
    let mut s: u8 = 0;
    while s < 4
        invariant
            s <= 4,
            deck@.len() == 13 * s,
            forall|i: int| 0 <= i < deck@.len() ==> #[trigger] deck@[i] == deck_card(i),
        decreases 4 - s,
    {
        let mut v: u8 = 0;
        while v < 13
            invariant
                s < 4,
                v <= 13,
                deck@.len() == 13 * s + v,
                forall|i: int| 0 <= i < deck@.len() ==> #[trigger] deck@[i] == deck_card(i),
            decreases 13 - v,
        {
            let card = Card::new(
                crate::card::value::value_from_index(v),
                crate::card::suit::suit_from_index(s),
            );
            proof {
                assert((13 * s + v) % 13 == v as int && (13 * s + v) / 13 == s as int) by (
                nonlinear_arith)
                    requires
                        0 <= v < 13 && 0 <= s < 4,
                ;
            }
            deck.push(card);
            v = v + 1;
        }
        s = s + 1;
    }
    proof {
        assert forall|i: int, j: int|
            0 <= i < deck@.len() && 0 <= j < deck@.len() && i != j implies deck@[i] != deck@[j] by {
            if deck@[i] == deck@[j] {
                lemma_deck_card_injective(i, j);
            }
        }
        assert(deck@ =~= full_deck_spec());
    }
    deck
}

/// How many of the first `k` deck positions hold a card of the given
/// sequence.
pub open spec fn dealt_below(dealt: Seq<Card>, k: int) -> nat
    decreases k,
{
    if k <= 0 {
        0
    } else {
        dealt_below(dealt, k - 1) + (if dealt.contains(deck_card(k - 1)) {
            1nat
        } else {
            0nat
        })
    }
}

/// No cards at all are dealt from an empty sequence.
proof fn lemma_dealt_below_empty(k: int)
    ensures
        dealt_below(Seq::<Card>::empty(), k) == 0,
    decreases k,
{
    if k > 0 {
        lemma_dealt_below_empty(k - 1);
    }
}

/// Adding a fresh card to the dealt cards claims exactly one more deck
/// position, namely its own.
proof fn lemma_dealt_below_push(dealt: Seq<Card>, c: Card, k: int)
    requires
        !dealt.contains(c),
        k <= 52,
    ensures
        dealt_below(dealt.push(c), k) == dealt_below(dealt, k) + (if deck_position(c) < k {
            1int
        } else {
            0int
        }),
    decreases k,
{
    lemma_deck_position(c);
    if k > 0 {
        lemma_dealt_below_push(dealt, c, k - 1);
        if deck_card(k - 1) == c {
            lemma_deck_card_injective(k - 1, deck_position(c));
        }
        assert(dealt.push(c).contains(deck_card(k - 1)) == (dealt.contains(deck_card(k - 1))
            || deck_card(k - 1) == c)) by {
            if dealt.push(c).contains(deck_card(k - 1)) {
                let w = choose|w: int|
                    0 <= w < dealt.push(c).len() && dealt.push(c)[w] == deck_card(k - 1);
                if w < dealt.len() {
                    assert(dealt[w] == deck_card(k - 1));
                }
            } else {
                assert(dealt.push(c)[dealt.len() as int] == c);
                assert forall|w: int| 0 <= w < dealt.len() implies dealt[w] != deck_card(k - 1) by {
                    assert(dealt.push(c)[w] == dealt[w]);
                }
            }
        }
    }
}

/// A sequence of distinct cards claims exactly as many deck positions as
/// it has cards.
pub proof fn lemma_dealt_below_all(dealt: Seq<Card>)
    requires
        dealt.no_duplicates(),
    ensures
        dealt_below(dealt, 52) == dealt.len(),
    decreases dealt.len(),
{
    if dealt.len() == 0 {
        assert(dealt =~= Seq::<Card>::empty());
        lemma_dealt_below_empty(52);
    } else {
        let prefix = dealt.drop_last();
        let c = dealt.last();
        assert(prefix.push(c) =~= dealt);
        assert(!prefix.contains(c)) by {
            if prefix.contains(c) {
                let w = choose|w: int| 0 <= w < prefix.len() && prefix[w] == c;
                assert(dealt[w] == dealt[dealt.len() - 1]);
            }
        }
        lemma_dealt_below_all(prefix);
        lemma_dealt_below_push(prefix, c, 52);
        lemma_deck_position(c);
    }
}

/// The dealt positions among the first `k` are at most `k`.
proof fn lemma_dealt_below_bound(dealt: Seq<Card>, k: int)
    ensures
        dealt_below(dealt, k) <= (if k >= 0 {
            k
        } else {
            0
        }),
    decreases k,
{
    if k > 0 {
        lemma_dealt_below_bound(dealt, k - 1);
    }
}

/// Does the vector hold the card?
fn contains_card(cards: &Vec<Card>, card: Card) -> (r: bool)
    ensures
        r == cards@.contains(card),
{
    let mut i: usize = 0;
    while i < cards.len()
        invariant
            i <= cards@.len(),
            forall|k: int| 0 <= k < i ==> cards@[k] != card,
        decreases cards@.len() - i,
    {
        if cards[i] == card {
            return true;
        }
        i = i + 1;
    }
    false
}

/// The deck left once the pocket and the community cards are out: every
/// card of the full deck not yet dealt, each exactly once. When the dealt
/// cards are distinct, exactly `52 - |pocket| - |community|` cards remain.
pub fn remaining_deck(pocket: &Hand, community: &Hand) -> (r: Vec<Card>)
    ensures
        r@ == remaining_deck_spec(pocket@, community@),
        r@.no_duplicates(),
        forall|k: int|
            0 <= k < r@.len() ==> !pocket@.contains(#[trigger] r@[k]) && !community@.contains(
                r@[k],
            ),
        forall|c: Card|
            !pocket@.contains(c) && !community@.contains(c) ==> #[trigger] r@.contains(c),
        (pocket@ + community@).no_duplicates() ==> r@.len() + pocket@.len() + community@.len()
            == 52,
{
    let ghost dealt = pocket@ + community@;
    let ghost pred = |c: Card| !pocket@.contains(c) && !community@.contains(c);
    let deck = full_deck();
    let mut r: Vec<Card> = Vec::new();
    let mut d: usize = 0;
    proof {
        reveal(Seq::filter);
        assert(deck@.take(0) =~= Seq::<Card>::empty());
    }
    while d < 52
        invariant
            d <= 52,
            deck@.len() == 52,
            forall|i: int| 0 <= i < 52 ==> #[trigger] deck@[i] == deck_card(i),
            deck@.no_duplicates(),
            pred == (|c: Card| !pocket@.contains(c) && !community@.contains(c)),
            dealt == pocket@ + community@,
            r@ == deck@.take(d as int).filter(pred),
            r@.len() + dealt_below(dealt, d as int) == d,
        decreases 52 - d,
    {
        proof {
            reveal(Seq::filter);
            assert(deck@.take(d as int + 1).drop_last() =~= deck@.take(d as int));
            assert(dealt.contains(deck@[d as int]) == (pocket@.contains(deck@[d as int])
                || community@.contains(deck@[d as int]))) by {
                if dealt.contains(deck@[d as int]) {
                    let w = choose|w: int| 0 <= w < dealt.len() && dealt[w] == deck@[d as int];
                    if w < pocket@.len() {
                        assert(pocket@[w] == deck@[d as int]);
                    } else {
                        assert(community@[w - pocket@.len()] == deck@[d as int]);
                    }
                } else {
                    let dc = deck@[d as int];
                    assert forall|w: int| 0 <= w < pocket@.len() implies pocket@[w] != dc by {
                        assert(dealt[w] == pocket@[w]);
                    }
                    assert forall|w: int| 0 <= w < community@.len() implies community@[w] != dc by {
                        assert(dealt[pocket@.len() + w] == community@[w]);
                    }
                }
            }
        }
        let card = deck[d];
        if !contains_card(pocket.cards(), card) && !contains_card(community.cards(), card) {
            r.push(card);
        }
        d = d + 1;
    }
    proof {
        assert(deck@.take(52) =~= deck@);
        let rv = r@;
        assert forall|x: int, y: int|
            0 <= x < rv.len() && 0 <= y < rv.len() && x != y implies rv[x] != rv[y] by {
            broadcast use vstd::seq_lib::group_filter_ensures;

            if rv[x] == rv[y] {
                if x < y {
                    lemma_filter_two_positions(deck@, pred, x, y);
                } else {
                    lemma_filter_two_positions(deck@, pred, y, x);
                }
            }
        }
        assert forall|k: int| 0 <= k < rv.len() implies !pocket@.contains(#[trigger] rv[k])
            && !community@.contains(rv[k]) by {
            broadcast use vstd::seq_lib::group_filter_ensures;

            assert(pred(rv[k]));
        }
        assert forall|c: Card|
            !pocket@.contains(c) && !community@.contains(c) implies #[trigger] rv.contains(c) by {
            broadcast use vstd::seq_lib::group_filter_ensures;

            lemma_deck_position(c);
            assert(deck@[deck_position(c)] == c);
            assert(pred(c));
            deck@.lemma_filter_contains(pred, deck_position(c));
        }
        if (pocket@ + community@).no_duplicates() {
            lemma_dealt_below_all(dealt);
        }
        assert(rv == remaining_deck_spec(pocket@, community@));
    }
    r
}

/// Overwriting one position swaps the old card out of the multiset and
/// the new card in.
proof fn lemma_update_multiset(s: Seq<Card>, i: int, x: Card)
    requires
        0 <= i < s.len(),
    ensures
        s.update(i, x).to_multiset() == s.to_multiset().remove(s[i]).insert(x),
{
    let t = s.update(i, x);
    assert(t.remove(i) =~= s.remove(i));
    assert(t.remove(i).to_multiset() == t.to_multiset().remove(t[i]));
    assert(s.remove(i).to_multiset() == s.to_multiset().remove(s[i]));
    assert(t.to_multiset().contains(x)) by {
        assert(t[i] == x);
    }
    assert(t.to_multiset().remove(x).insert(x) =~= t.to_multiset());
}

/// Swapping two positions leaves the multiset of cards unchanged.
proof fn lemma_swap_multiset(s: Seq<Card>, i: int, j: int)
    requires
        0 <= i < s.len(),
        0 <= j < s.len(),
    ensures
        s.update(i, s[j]).update(j, s[i]).to_multiset() == s.to_multiset(),
{
    if i == j {
        assert(s.update(i, s[j]).update(j, s[i]) =~= s);
    } else {
        let t = s.update(i, s[j]);
        lemma_update_multiset(s, i, s[j]);
        lemma_update_multiset(t, j, s[i]);
        assert(t[j] == s[j]);
        assert(s.to_multiset().contains(s[i]));
        assert(s.to_multiset().remove(s[i]).insert(s[j]).remove(s[j]).insert(s[i])
            =~= s.to_multiset());
    }
}

/// Rearranges the cards in place; which order comes out depends on the
/// generator, but the cards stay the same.
pub fn shuffle(cards: &mut Vec<Card>, rng: &mut Rng)
    ensures
        final(cards)@.len() == old(cards)@.len(),
        final(cards)@.to_multiset() == old(cards)@.to_multiset(),
{
    let mut i = cards.len();
    while i > 1
        invariant
            i <= cards@.len(),
            cards@.len() == old(cards)@.len(),
            cards@.to_multiset() == old(cards)@.to_multiset(),
        decreases i,
    {
        i = i - 1;
        let j = rng.next_below((i as u64) + 1) as usize;
        let ghost before = cards@;
        let card_i = cards[i];
        let card_j = cards[j];
        cards[i] = card_j;
        cards[j] = card_i;
        proof {
            assert(cards@ == before.update(i as int, before[j as int]).update(
                j as int,
                before[i as int],
            ));
            lemma_swap_multiset(before, i as int, j as int);
        }
    }
}

/// Copies a vector of cards.
fn copy_cards(cards: &Vec<Card>) -> (r: Vec<Card>)
    ensures
        r@ == cards@,
{
    let mut r: Vec<Card> = Vec::new();
    let mut i: usize = 0;
    while i < cards.len()
        invariant
            i <= cards@.len(),
            r@ == cards@.take(i as int),
        decreases cards@.len() - i,
    {
        r.push(cards[i]);
        proof {
            assert(cards@.take(i as int + 1) =~= cards@.take(i as int).push(cards@[i as int]));
        }
        i = i + 1;
    }
    proof {
        assert(cards@.take(cards@.len() as int) =~= cards@);
    }
    r
}

/// A card stands in a concatenation exactly when it stands in one of the
/// parts.
proof fn lemma_contains_concat(a: Seq<Card>, b: Seq<Card>, x: Card)
    ensures
        (a + b).contains(x) == (a.contains(x) || b.contains(x)),
{
    if (a + b).contains(x) {
        let w = choose|w: int| 0 <= w < (a + b).len() && (a + b)[w] == x;
        if w < a.len() {
            assert(a[w] == x);
        } else {
            assert(b[w - a.len()] == x);
        }
    }
    if a.contains(x) {
        let w = choose|w: int| 0 <= w < a.len() && a[w] == x;
        assert((a + b)[w] == x);
    }
    if b.contains(x) {
        let w = choose|w: int| 0 <= w < b.len() && b[w] == x;
        assert((a + b)[a.len() + w] == x);
    }
}

/// Any stretch of a sequence without repeats has none either.
proof fn lemma_subrange_no_duplicates(s: Seq<Card>, from: int, to: int)
    requires
        s.no_duplicates(),
        0 <= from <= to <= s.len(),
    ensures
        s.subrange(from, to).no_duplicates(),
{
}

/// Appends the cards of one vector to another.
fn push_all(dst: &mut Vec<Card>, src: &Vec<Card>)
    ensures
        final(dst)@ == old(dst)@ + src@,
{
    let mut i: usize = 0;
    proof {
        assert(dst@ =~= dst@ + src@.take(0));
    }
    while i < src.len()
        invariant
            i <= src@.len(),
            dst@ == old(dst)@ + src@.take(i as int),
        decreases src@.len() - i,
    {
        proof {
            assert((old(dst)@ + src@.take(i as int)).push(src@[i as int]) =~= old(dst)@ + src@.take(
                i as int + 1,
            ));
        }
        dst.push(src[i]);
        i = i + 1;
    }
    proof {
        assert(src@.take(src@.len() as int) =~= src@);
    }
}

/// Appends a stretch of one vector of cards to another.
fn push_range(dst: &mut Vec<Card>, src: &Vec<Card>, from: usize, to: usize)
    requires
        from <= to <= src@.len(),
    ensures
        final(dst)@ == old(dst)@ + src@.subrange(from as int, to as int),
{
    let mut i: usize = from;
    proof {
        assert(dst@ =~= dst@ + src@.subrange(from as int, from as int));
    }
    while i < to
        invariant
            from <= i <= to <= src@.len(),
            dst@ == old(dst)@ + src@.subrange(from as int, i as int),
        decreases to - i,
    {
        proof {
            assert((old(dst)@ + src@.subrange(from as int, i as int)).push(src@[i as int])
                =~= old(dst)@ + src@.subrange(from as int, i as int + 1));
        }
        dst.push(src[i]);
        i = i + 1;
    }
}

/// Can the remaining deck complete the five community cards and hand two
/// cards to each opponent? The remaining deck holds `50 - community_len`
/// cards once a two-card pocket and the board are out.
pub open spec fn enough_cards(community_len: int, opponents: int) -> bool {
    (5 - community_len) + 2 * opponents <= 50 - community_len
}

/// The full board of a deal: the known community cards, completed from
/// the front of the shuffled deck.
pub open spec fn board_spec(community: Seq<Card>, shuffled: Seq<Card>) -> Seq<Card> {
    community + shuffled.take(5 - community.len())
}

/// The seven cards of the opponent at the given seat: the two cards
/// dealt off the shuffled deck after the board, then the board.
pub open spec fn opponent_cards_spec(community: Seq<Card>, shuffled: Seq<Card>, p: int) -> Seq<
    Card,
> {
    let needed = 5 - community.len();
    shuffled.subrange(needed + 2 * p, needed + 2 * p + 2) + board_spec(community, shuffled)
}

/// Does the player win the deal outright on this shuffle: the pocket
/// together with the board ranks strictly above every opponent's two
/// dealt cards together with the same board. A tie against any single
/// opponent loses the deal.
pub open spec fn trial_win_spec(
    pocket: Seq<Card>,
    community: Seq<Card>,
    opponents: int,
    shuffled: Seq<Card>,
) -> bool {
    forall|p: int|
        0 <= p < opponents ==> hand_cmp_spec(
            pocket + board_spec(community, shuffled),
            #[trigger] opponent_cards_spec(community, shuffled, p),
        ) == Ordering::Greater
}

/// How many of the given shuffles the player wins outright.
pub open spec fn win_count_spec(
    pocket: Seq<Card>,
    community: Seq<Card>,
    opponents: int,
    shuffles: Seq<Seq<Card>>,
) -> nat
    decreases shuffles.len(),
{
    if shuffles.len() == 0 {
        0
    } else {
        win_count_spec(pocket, community, opponents, shuffles.drop_last()) + (if trial_win_spec(
            pocket,
            community,
            opponents,
            shuffles.last(),
        ) {
            1nat
        } else {
            0nat
        })
    }
}

/// A faithful tally of a whole simulation: each trial's deck is a
/// rearrangement of the remaining deck, and `wins` counts exactly the
/// trials whose deal the player wins outright.
pub open spec fn simulation_tally(
    pocket: Seq<Card>,
    community: Seq<Card>,
    opponents: int,
    samples: int,
    wins: int,
    shuffles: Seq<Seq<Card>>,
) -> bool {
    &&& shuffles.len() == samples
    &&& forall|t: int|
        0 <= t < shuffles.len() ==> (#[trigger] shuffles[t]).to_multiset() == remaining_deck_spec(
            pocket,
            community,
        ).to_multiset()
    &&& wins == win_count_spec(pocket, community, opponents, shuffles)
}

/// Plays one deal off an already shuffled deck: completes the board,
/// hands each opponent two cards, and says — exactly — whether the
/// player's hand beats every opponent's hand outright.
pub fn trial_outcome(
    pocket: &Hand,
    community: &Hand,
    opponents: usize,
    shuffled: &Vec<Card>,
) -> (win: bool)
    requires
        pocket@.len() == 2,
        community@.len() <= 5,
        (pocket@ + community@).no_duplicates(),
        shuffled@.no_duplicates(),
        forall|k: int|
            0 <= k < shuffled@.len() ==> !pocket@.contains(#[trigger] shuffled@[k])
                && !community@.contains(shuffled@[k]),
        shuffled@.len() + pocket@.len() + community@.len() == 52,
        enough_cards(community@.len() as int, opponents as int),
    ensures
        win == trial_win_spec(pocket@, community@, opponents as int, shuffled@),
{
    let ghost sh = shuffled@;
    proof {
        assert forall|i: int, j: int|
            0 <= i < pocket@.len() && 0 <= j < community@.len() implies pocket@[i] != community@[j]
        by {
            let pc = pocket@ + community@;
            assert(pc[i] == pocket@[i]);
            assert(pc[pocket@.len() + j] == community@[j]);
        }
        assert(community@.no_duplicates()) by {
            let pc = pocket@ + community@;
            assert forall|i: int, j: int|
                0 <= i < community@.len() && 0 <= j < community@.len() && i
                    != j implies community@[i] != community@[j] by {
                assert(pc[pocket@.len() + i] == community@[i]);
                assert(pc[pocket@.len() + j] == community@[j]);
            }
        }
        assert(pocket@.no_duplicates()) by {
            let pc = pocket@ + community@;
            assert forall|i: int, j: int|
                0 <= i < pocket@.len() && 0 <= j < pocket@.len() && i != j implies pocket@[i]
                    != pocket@[j] by {
                assert(pc[i] == pocket@[i]);
                assert(pc[j] == pocket@[j]);
            }
        }
    }
    let needed = 5 - community.cards().len();
    let mut board = copy_cards(community.cards());
    push_range(&mut board, shuffled, 0, needed);
    proof {
        assert(sh.subrange(0, needed as int) =~= sh.take(needed as int));
        lemma_subrange_no_duplicates(sh, 0, needed as int);
        assert(board@.no_duplicates()) by {
            assert forall|i: int, j: int|
                0 <= i < community@.len() && 0 <= j < sh.take(needed as int).len()
                    implies community@[i] != sh.take(needed as int)[j] by {
                assert(sh.take(needed as int)[j] == sh[j]);
                assert(!community@.contains(sh[j]));
                if community@[i] == sh[j] {
                    assert(community@.contains(sh[j]));
                }
            }
            vstd::seq_lib::lemma_no_dup_in_concat(community@, sh.take(needed as int));
        }
        assert forall|j: int| 0 <= j < board@.len() implies !pocket@.contains(
            #[trigger] board@[j],
        ) by {
            if j < community@.len() {
                assert(board@[j] == community@[j]);
                if pocket@.contains(community@[j]) {
                    let w = choose|w: int| 0 <= w < pocket@.len() && pocket@[w] == community@[j];
                }
            } else {
                assert(board@[j] == sh[j - community@.len()]);
            }
        }
    }
    let mut mine = copy_cards(pocket.cards());
    push_all(&mut mine, &board);
    let my_hand = Hand::new(mine);
    proof {
        assert(my_hand@.no_duplicates()) by {
            assert forall|i: int, j: int|
                0 <= i < pocket@.len() && 0 <= j < board@.len() implies pocket@[i] != board@[j] by {
                if pocket@[i] == board@[j] {
                    assert(pocket@.contains(board@[j]));
                }
            }
            vstd::seq_lib::lemma_no_dup_in_concat(pocket@, board@);
        }
        assert(my_hand@.len() == 7);
    }
    let mut win = true;
    let mut p: usize = 0;
    while p < opponents
        invariant
            p <= opponents,
            pocket@.len() == 2,
            community@.len() <= 5,
            needed == 5 - community@.len(),
            enough_cards(community@.len() as int, opponents as int),
            sh == shuffled@,
            sh.len() + 2 + community@.len() == 52,
            sh.no_duplicates(),
            forall|k: int|
                0 <= k < sh.len() ==> !pocket@.contains(#[trigger] sh[k]) && !community@.contains(
                    sh[k],
                ),
            board@ == community@ + sh.take(needed as int),
            board@.len() == 5,
            board@.no_duplicates(),
            forall|j: int| 0 <= j < board@.len() ==> !pocket@.contains(#[trigger] board@[j]),
            my_hand@ == pocket@ + board@,
            my_hand@.no_duplicates(),
            my_hand@.len() == 7,
            win == (forall|q: int|
                0 <= q < p ==> hand_cmp_spec(
                    pocket@ + board_spec(community@, sh),
                    #[trigger] opponent_cards_spec(community@, sh, q),
                ) == Ordering::Greater),
        decreases opponents - p,
    {
        let base = needed + 2 * p;
        let mut opp = Vec::new();
        push_range(&mut opp, shuffled, base, base + 2);
        push_all(&mut opp, &board);
        let ghost two = sh.subrange(base as int, base as int + 2);
        proof {
            lemma_subrange_no_duplicates(sh, base as int, base as int + 2);
            assert(opp@.no_duplicates()) by {
                assert forall|i: int, j: int|
                    0 <= i < two.len() && 0 <= j < board@.len() implies two[i] != board@[j] by {
                    assert(two[i] == sh[base + i]);
                    if j < community@.len() {
                        assert(board@[j] == community@[j]);
                        if two[i] == community@[j] {
                            assert(community@.contains(sh[base + i]));
                        }
                    } else {
                        assert(board@[j] == sh[j - community@.len()]);
                        assert(j - community@.len() < needed <= base + i);
                    }
                }
                vstd::seq_lib::lemma_no_dup_in_concat(two, board@);
            }
            assert(opp@.len() == 7);
        }
        let opp_hand = Hand::new(opp);
        let ord = cmp_hands(&my_hand, &opp_hand);
        proof {
            assert(board@ == board_spec(community@, sh));
            assert(opp_hand@ == opponent_cards_spec(community@, sh, p as int));
            assert(ord == hand_cmp_spec(
                pocket@ + board_spec(community@, sh),
                opponent_cards_spec(community@, sh, p as int),
            ));
        }
        if !matches!(ord, Ordering::Greater) {
            win = false;
        }
        p = p + 1;
    }
    win
}

/// One simulated deal: shuffles the remaining deck and plays it out with
/// `trial_outcome`. The result is the win predicate of some
/// rearrangement of the deck; which rearrangement depends on the
/// generator. With no opponents every deal is won.
fn simulate_trial(
    pocket: &Hand,
    community: &Hand,
    opponents: usize,
    deck: &Vec<Card>,
    rng: &mut Rng,
) -> (win: bool)
    requires
        pocket@.len() == 2,
        community@.len() <= 5,
        (pocket@ + community@).no_duplicates(),
        deck@.no_duplicates(),
        forall|k: int|
            0 <= k < deck@.len() ==> !pocket@.contains(#[trigger] deck@[k]) && !community@.contains(
                deck@[k],
            ),
        deck@.len() + pocket@.len() + community@.len() == 52,
        enough_cards(community@.len() as int, opponents as int),
    ensures
        exists|sh: Seq<Card>|
            (#[trigger] sh.to_multiset()) == deck@.to_multiset() && win == trial_win_spec(
                pocket@,
                community@,
                opponents as int,
                sh,
            ),
        opponents == 0 ==> win,
{
    let mut cards = copy_cards(deck);
    shuffle(&mut cards, rng);
    let ghost sh = cards@;
    proof {
        deck@.lemma_multiset_has_no_duplicates();
        sh.lemma_multiset_has_no_duplicates_conv();
        assert forall|k: int|
            0 <= k < sh.len() implies !pocket@.contains(#[trigger] sh[k]) && !community@.contains(
            sh[k],
        ) by {
            assert(sh.contains(sh[k]));
            assert(sh.to_multiset().count(sh[k]) > 0);
            assert(deck@.to_multiset().count(sh[k]) > 0);
            assert(deck@.contains(sh[k]));
            let w = choose|w: int| 0 <= w < deck@.len() && deck@[w] == sh[k];
            assert(!pocket@.contains(deck@[w]) && !community@.contains(deck@[w]));
        }
    }
    let win = trial_outcome(pocket, community, opponents, &cards);
    proof {
        assert(sh.to_multiset() == deck@.to_multiset() && win == trial_win_spec(
            pocket@,
            community@,
            opponents as int,
            sh,
        ));
    }
    win
}

/// Runs the given number of simulated deals and counts how many the
/// player wins outright: the count is, provably, the number of dealt
/// decks — each a rearrangement of the remaining deck — on which the
/// player's hand beat every opponent's hand. Fails up front when the
/// deck cannot serve the board and every opponent; with no opponents
/// every deal is a win.
pub fn count_wins(
    pocket: &Hand,
    community: &Hand,
    opponents: usize,
    samples: usize,
    rng: &mut Rng,
) -> (r: Result<usize, InsufficientDeckError>)
    requires
        pocket@.len() == 2,
        community@.len() <= 5,
        (pocket@ + community@).no_duplicates(),
    ensures
        match r {
            Ok(wins) => {
                &&& enough_cards(community@.len() as int, opponents as int)
                &&& wins <= samples
                &&& (opponents == 0 ==> wins == samples)
                &&& (exists|shuffles: Seq<Seq<Card>>|
                    simulation_tally(
                        pocket@,
                        community@,
                        opponents as int,
                        samples as int,
                        wins as int,
                        shuffles,
                    ))
            },
            Err(_) => !enough_cards(community@.len() as int, opponents as int),
        },
{
    if opponents > 22 {
        return Err(InsufficientDeckError);
    }
    let deck = remaining_deck(pocket, community);
    let ghost mut shuffles: Seq<Seq<Card>> = Seq::empty();
    let mut wins: usize = 0;
    let mut t: usize = 0;
    while t < samples
        invariant
            wins <= t <= samples,
            opponents == 0 ==> wins == t,
            opponents <= 22,
            pocket@.len() == 2,
            community@.len() <= 5,
            (pocket@ + community@).no_duplicates(),
            deck@ == remaining_deck_spec(pocket@, community@),
            deck@.no_duplicates(),
            forall|k: int|
                0 <= k < deck@.len() ==> !pocket@.contains(#[trigger] deck@[k])
                    && !community@.contains(deck@[k]),
            deck@.len() + pocket@.len() + community@.len() == 52,
            shuffles.len() == t,
            forall|u: int|
                0 <= u < shuffles.len() ==> (#[trigger] shuffles[u]).to_multiset()
                    == deck@.to_multiset(),
            wins as nat == win_count_spec(pocket@, community@, opponents as int, shuffles),
        decreases samples - t,
    {
        let won = simulate_trial(pocket, community, opponents, &deck, rng);
        proof {
            let sh = choose|sh: Seq<Card>|
                (#[trigger] sh.to_multiset()) == deck@.to_multiset() && won == trial_win_spec(
                    pocket@,
                    community@,
                    opponents as int,
                    sh,
                );
            assert(shuffles.push(sh).drop_last() =~= shuffles);
            assert(shuffles.push(sh).last() == sh);
            shuffles = shuffles.push(sh);
        }
        if won {
            wins = wins + 1;
        }
        t = t + 1;
    }
    proof {
        assert(simulation_tally(
            pocket@,
            community@,
            opponents as int,
            samples as int,
            wins as int,
            shuffles,
        ));
        assert(exists|s: Seq<Seq<Card>>|
            simulation_tally(pocket@, community@, opponents as int, samples as int, wins as int, s));
    }
    Ok(wins)
}

/// Two positions of a filtered sequence come from two positions of the
/// original, in the same order.
proof fn lemma_filter_two_positions(s: Seq<Card>, pred: spec_fn(Card) -> bool, x: int, y: int)
    requires
        0 <= x < y < s.filter(pred).len(),
        s.no_duplicates(),
    ensures
        s.filter(pred)[x] != s.filter(pred)[y],
    decreases s.len(),
{
    reveal(Seq::filter);
    if s.len() > 0 {
        let rest = s.drop_last();
        assert(rest.no_duplicates());
        if pred(s.last()) && y == s.filter(pred).len() - 1 {
            assert(s.filter(pred)[y] == s.last());
            assert(s.filter(pred)[x] == rest.filter(pred)[x]);
            broadcast use vstd::seq_lib::group_filter_ensures;

            assert(rest.filter(pred).contains(rest.filter(pred)[x]));
            rest.lemma_filter_contains_rev(pred, rest.filter(pred)[x]);
            let w = choose|w: int| 0 <= w < rest.len() && rest[w] == rest.filter(pred)[x];
            assert(s[w] == rest[w]);
            if s.filter(pred)[x] == s.last() {
                assert(s[w] == s[s.len() - 1]);
            }
        } else {
            lemma_filter_two_positions(rest, pred, x, y);
        }
    }
}

} // verus!
