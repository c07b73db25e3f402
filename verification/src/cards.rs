//! Card model: suits, ranked cards, validated construction, hand
//! classification, and the exact frequency engine over board completions.

use vstd::prelude::*;
use vstd::multiset::Multiset;
use vstd::relations::{sorted_by, total_ordering};
use vstd::seq_lib::lemma_sorted_unique;
use crate::combinatorics::{
    choose_seqs, combinations, lemma_binom_pos, lemma_choose_seqs_elem_len, lemma_choose_seqs_len,
};
use crate::freq::FrequencyTable;

verus! {

/// One of the four French suits. Suits carry no ordering, only equality.
#[derive(Debug, Copy, Clone, PartialEq, Eq, Structural)]
pub enum Suit {
    Spades,
    Diamonds,
    Clubs,
    Hearts,
}

/// A single playing card: a suit and a rank in `[2, 14]`, where 14 is the ace.
#[derive(Debug, Copy, Clone, PartialEq, Eq, Structural)]
pub struct Card {
    suit: Suit,
    value: u8,
}

/// The failure reported when a card is built with a rank outside `[min, max]`.
#[derive(Debug, Copy, Clone, PartialEq, Eq, Structural)]
pub struct InvalidRank {
    pub min: u8,
    pub max: u8,
}

impl Card {
    /// The card's rank, between 2 (two) and 14 (ace).
    pub closed spec fn rank(self) -> u8 {
        self.value
    }

    /// The card's suit.
    pub closed spec fn suit(self) -> Suit {
        self.suit
    }

    /// Every card that can be built has a rank in `[2, 14]`.
    #[verifier::type_invariant]
    spec fn rank_in_range(self) -> bool {
        2 <= self.value <= 14
    }

    /// Builds a card, succeeding exactly when the rank lies in `[2, 14]`.
    pub fn build(suit: Suit, value: u8) -> (r: Result<Card, InvalidRank>)
        ensures
            2 <= value <= 14 <==> r is Ok,
            r matches Ok(c) ==> c.suit() == suit && c.rank() == value,
            r matches Err(e) ==> e == (InvalidRank { min: 2, max: 14 }),
    {
        if value < 2 || value > 14 {
            return Err(InvalidRank { min: 2, max: 14 });
        }
        Ok(Card { suit, value })
    }
}

/// One of the ten poker hand categories, strongest last, each carrying the
/// rank(s) that break ties inside the category.
#[derive(Debug, Copy, Clone, PartialEq, PartialOrd, Eq, Hash, Structural)]
pub enum Hand {
    HighCard(u8),
    Pair(u8),
    TwoPair(u8, u8),
    ThreeOfAKind(u8),
    /// Rank of the highest card of the straight.
    Straight(u8),
    /// Rank of the highest card of the flush.
    Flush(u8),
    /// Rank of the three of a kind, then rank of the pair.
    FullHouse(u8, u8),
    FourOfAKind(u8),
    /// Rank of the highest card of the straight flush.
    StraightFlush(u8),
    RoyalFlush,
}

/// The ordering on ranks used to sort a hand before classifying it.
pub open spec fn rank_le() -> spec_fn(u8, u8) -> bool {
    |x: u8, y: u8| x <= y
}

/// The ranks of `cards`, in ascending order.
pub open spec fn sorted_ranks_of(cards: Seq<Card>) -> Seq<u8> {
    cards.map_values(|c: Card| c.rank()).sort_by(rank_le())
}

/// All five cards share one suit.
pub open spec fn all_same_suit(cards: Seq<Card>) -> bool {
    cards[1].suit() == cards[0].suit() && cards[2].suit() == cards[0].suit()
        && cards[3].suit() == cards[0].suit() && cards[4].suit() == cards[0].suit()
}

/// The sorted ranks are exactly 2, 3, 4, 5, ace: the "wheel", the one
/// straight in which the ace plays low.
pub open spec fn is_wheel(v: Seq<u8>) -> bool {
    v == seq![2u8, 3u8, 4u8, 5u8, 14u8]
}

/// Five consecutive ranks, in sorted order.
pub open spec fn is_run(v: Seq<u8>) -> bool {
    v[1] == v[0] + 1 && v[2] == v[1] + 1 && v[3] == v[2] + 1 && v[4] == v[3] + 1
}

/// A straight: a run of five, or the wheel.
pub open spec fn is_straight_ranks(v: Seq<u8>) -> bool {
    is_wheel(v) || is_run(v)
}

/// Four equal ranks: one of the two four-card windows of the sorted ranks is
/// constant.
pub open spec fn has_four(v: Seq<u8>) -> bool {
    (v[0] == v[1] && v[1] == v[2] && v[2] == v[3]) || (v[1] == v[2] && v[2] == v[3] && v[3] == v[4])
}

/// A pair and a three of a kind, in either order along the sorted ranks.
pub open spec fn has_full_house(v: Seq<u8>) -> bool {
    (v[0] == v[1] && v[2] == v[3] && v[3] == v[4]) || (v[0] == v[1] && v[1] == v[2] && v[3] == v[4])
}

/// Three equal ranks: one of the three three-card windows of the sorted ranks
/// is constant.
pub open spec fn has_three(v: Seq<u8>) -> bool {
    (v[0] == v[1] && v[1] == v[2]) || (v[1] == v[2] && v[2] == v[3]) || (v[2] == v[3] && v[3]
        == v[4])
}

/// Two distinct pairs: one of the three adjacency patterns of the sorted
/// ranks holds.
pub open spec fn has_two_pair(v: Seq<u8>) -> bool {
    (v[0] == v[1] && v[2] == v[3]) || (v[0] == v[1] && v[3] == v[4]) || (v[1] == v[2] && v[3]
        == v[4])
}

/// Some two adjacent sorted ranks are equal.
pub open spec fn has_pair(v: Seq<u8>) -> bool {
    v[0] == v[1] || v[1] == v[2] || v[2] == v[3] || v[3] == v[4]
}

/// Classification of a five-card hand from its sorted ranks `v` and whether
/// all suits agree, trying the strongest category first. A hand may satisfy
/// several of the predicates at once; the first match decides.
pub open spec fn classify_sorted(v: Seq<u8>, flush: bool) -> Hand {
    if is_straight_ranks(v) && flush && v[4] == 14 {
        Hand::RoyalFlush
    } else if is_straight_ranks(v) && flush {
        Hand::StraightFlush(v[4])
    } else if has_four(v) {
        Hand::FourOfAKind(v[2])
    } else if v[0] == v[1] && v[2] == v[3] && v[3] == v[4] {
        Hand::FullHouse(v[4], v[0])
    } else if v[0] == v[1] && v[1] == v[2] && v[3] == v[4] {
        Hand::FullHouse(v[0], v[4])
    } else if flush {
        Hand::Flush(v[4])
    } else if is_straight_ranks(v) {
        Hand::Straight(v[4])
    } else if has_three(v) {
        Hand::ThreeOfAKind(v[2])
    } else if v[0] == v[1] && v[2] == v[3] {
        Hand::TwoPair(v[2], v[0])
    } else if v[0] == v[1] && v[3] == v[4] {
        Hand::TwoPair(v[3], v[0])
    } else if v[1] == v[2] && v[3] == v[4] {
        Hand::TwoPair(v[3], v[1])
    } else if v[0] == v[1] {
        Hand::Pair(v[0])
    } else if v[1] == v[2] {
        Hand::Pair(v[1])
    } else if v[2] == v[3] {
        Hand::Pair(v[2])
    } else if v[3] == v[4] {
        Hand::Pair(v[3])
    } else {
        Hand::HighCard(v[4])
    }
}

/// The category of a five-card hand.
pub open spec fn best_hand_spec(cards: Seq<Card>) -> Hand {
    classify_sorted(sorted_ranks_of(cards), all_same_suit(cards))
}

/// Sorts a vector of ranks ascending by insertion into the sorted prefix.
fn sort_ranks(v: &mut Vec<u8>)
    ensures
        final(v)@.len() == old(v)@.len(),
        sorted_by(final(v)@, rank_le()),
        final(v)@.to_multiset() == old(v)@.to_multiset(),
{
    broadcast use vstd::seq_lib::group_to_multiset_ensures;

    let mut i: usize = 0;
    while i < v.len()
        invariant
            i <= v@.len(),
            v@.len() == old(v)@.len(),
            v@.to_multiset() == old(v)@.to_multiset(),
            sorted_by(v@.subrange(0, i as int), rank_le()),
        decreases v@.len() - i,
    {
        let x = v[i];
        let mut p: usize = i;
        while p > 0 && v[p - 1] > x
            invariant
                p <= i < v@.len(),
                x == v@[i as int],
                sorted_by(v@.subrange(0, i as int), rank_le()),
                forall|q: int| p <= q < i ==> v@[q] > x,
            decreases p,
        {
            p -= 1;
        }
        let ghost before = v@;
        let y = v.remove(i);
        v.insert(p, y);
        proof {
            broadcast use vstd::seq_lib::group_to_multiset_ensures;

            assert(v@ =~= before.remove(i as int).insert(p as int, x));
            assert(v@.to_multiset() == before.to_multiset()) by {
                assert(before.remove(i as int).to_multiset() =~= before.to_multiset().remove(x));
                assert(v@.to_multiset() =~= before.to_multiset().remove(x).insert(x));
                assert(before.to_multiset().contains(x));
                assert(before.to_multiset().remove(x).insert(x) =~= before.to_multiset());
            }
            assert(sorted_by(v@.subrange(0, i + 1), rank_le())) by {
                let ghost sorted_prefix = before.subrange(0, i as int);
                assert forall|a: int, b: int| 0 <= a < b < i + 1 implies #[trigger] v@[a]
                    <= #[trigger] v@[b] by {
                    if a < p && b < p {
                        assert(rank_le()(sorted_prefix[a], sorted_prefix[b]));
                    } else if a < p && b == p {
                        assert(v@[a] == before[a] && v@[b] == x);
                        if a < p - 1 {
                            assert(rank_le()(sorted_prefix[a], sorted_prefix[p - 1]));
                        }
                        assert(before[p - 1] <= x);
                    } else if a < p {
                        assert(v@[a] == before[a] && v@[b] == before[b - 1]);
                        assert(rank_le()(sorted_prefix[a], sorted_prefix[b - 1]));
                    } else if a == p {
                        assert(v@[a] == x && v@[b] == before[b - 1]);
                        assert(before[b - 1] > x);
                    } else {
                        assert(v@[a] == before[a - 1] && v@[b] == before[b - 1]);
                        assert(rank_le()(sorted_prefix[a - 1], sorted_prefix[b - 1]));
                    }
                }
            }
        }
        i += 1;
    }
    proof {
        assert(v@.subrange(0, v@.len() as int) =~= v@);
    }
}

/// Classifies five cards into their hand category.
///
/// The result depends only on which cards are given, not on their order.
pub fn get_best_hand(cards: &[Card; 5]) -> (h: Hand)
    ensures
        h == best_hand_spec(cards@),
{
    broadcast use vstd::seq_lib::group_to_multiset_ensures;

    let mut vals: Vec<u8> = Vec::new();
    vals.push(cards[0].value);
    vals.push(cards[1].value);
    vals.push(cards[2].value);
    vals.push(cards[3].value);
    vals.push(cards[4].value);
    let ghost ranks = cards@.map_values(|c: Card| c.rank());
    proof {
        assert(vals@ =~= ranks);
    }
    sort_ranks(&mut vals);
    proof {
        assert(total_ordering(rank_le()));
        ranks.lemma_sort_by_ensures(rank_le());
        lemma_sorted_unique(vals@, ranks.sort_by(rank_le()), rank_le());
        assert(vals@ == sorted_ranks_of(cards@));
    }
    let v0 = vals[0];
    let v1 = vals[1];
    let v2 = vals[2];
    let v3 = vals[3];
    let v4 = vals[4];
    let flush = cards[1].suit == cards[0].suit && cards[2].suit == cards[0].suit
        && cards[3].suit == cards[0].suit && cards[4].suit == cards[0].suit;
    let wheel = v0 == 2 && v1 == 3 && v2 == 4 && v3 == 5 && v4 == 14;
    proof {
        if wheel {
            assert(vals@ =~= seq![2u8, 3u8, 4u8, 5u8, 14u8]);
        } else {
            assert(vals@ != seq![2u8, 3u8, 4u8, 5u8, 14u8]) by {
                let w = seq![2u8, 3u8, 4u8, 5u8, 14u8];
                if vals@ == w {
                    assert(vals@[0] == 2 && vals@[1] == 3 && vals@[2] == 4 && vals@[3] == 5
                        && vals@[4] == 14);
                }
            }
        }
    }
    proof {
        assert(rank_le()(vals@[0], vals@[1]) && rank_le()(vals@[1], vals@[2]) && rank_le()(
            vals@[2],
            vals@[3],
        ) && rank_le()(vals@[3], vals@[4]));
    }
    let straight = wheel || (v1 - v0 == 1 && v2 - v1 == 1 && v3 - v2 == 1 && v4 - v3 == 1);
    let h = if straight && flush && v4 == 14 {
        Hand::RoyalFlush
    } else if straight && flush {
        Hand::StraightFlush(v4)
    } else if (v0 == v1 && v1 == v2 && v2 == v3) || (v1 == v2 && v2 == v3 && v3 == v4) {
        Hand::FourOfAKind(v2)
    } else if v0 == v1 && v2 == v3 && v3 == v4 {
        Hand::FullHouse(v4, v0)
    } else if v0 == v1 && v1 == v2 && v3 == v4 {
        Hand::FullHouse(v0, v4)
    } else if flush {
        Hand::Flush(v4)
    } else if straight {
        Hand::Straight(v4)
    } else if (v0 == v1 && v1 == v2) || (v1 == v2 && v2 == v3) || (v2 == v3 && v3 == v4) {
        Hand::ThreeOfAKind(v2)
    } else if v0 == v1 && v2 == v3 {
        Hand::TwoPair(v2, v0)
    } else if v0 == v1 && v3 == v4 {
        Hand::TwoPair(v3, v0)
    } else if v1 == v2 && v3 == v4 {
        Hand::TwoPair(v3, v1)
    } else if v0 == v1 {
        Hand::Pair(v0)
    } else if v1 == v2 {
        Hand::Pair(v1)
    } else if v2 == v3 {
        Hand::Pair(v2)
    } else if v3 == v4 {
        Hand::Pair(v3)
    } else {
        Hand::HighCard(v4)
    };
    proof {
        assert(straight == is_straight_ranks(vals@));
        assert(flush == all_same_suit(cards@));
        assert(h == classify_sorted(vals@, flush));
    }
    h
}

/// The category's position in the strength order, high card lowest.
pub open spec fn category_index(h: Hand) -> int {
    match h {
        Hand::HighCard(_) => 0,
        Hand::Pair(_) => 1,
        Hand::TwoPair(_, _) => 2,
        Hand::ThreeOfAKind(_) => 3,
        Hand::Straight(_) => 4,
        Hand::Flush(_) => 5,
        Hand::FullHouse(_, _) => 6,
        Hand::FourOfAKind(_) => 7,
        Hand::StraightFlush(_) => 8,
        Hand::RoyalFlush => 9,
    }
}

/// The first tie-break rank a hand carries; zero when it carries none.
pub open spec fn primary_rank(h: Hand) -> u8 {
    match h {
        Hand::HighCard(r) => r,
        Hand::Pair(r) => r,
        Hand::TwoPair(hi, _) => hi,
        Hand::ThreeOfAKind(r) => r,
        Hand::Straight(r) => r,
        Hand::Flush(r) => r,
        Hand::FullHouse(t, _) => t,
        Hand::FourOfAKind(r) => r,
        Hand::StraightFlush(r) => r,
        Hand::RoyalFlush => 0,
    }
}

/// The second tie-break rank; zero when the hand carries fewer than two.
pub open spec fn secondary_rank(h: Hand) -> u8 {
    match h {
        Hand::TwoPair(_, lo) => lo,
        Hand::FullHouse(_, p) => p,
        _ => 0,
    }
}

/// `a` is at most as strong as `b`: by category, then by the carried ranks.
pub open spec fn hand_le(a: Hand, b: Hand) -> bool {
    category_index(a) < category_index(b) || (category_index(a) == category_index(b) && (
    primary_rank(a) < primary_rank(b) || (primary_rank(a) == primary_rank(b) && secondary_rank(a)
        <= secondary_rank(b))))
}

/// The stronger of two hands, preferring the second on a tie.
pub open spec fn stronger(a: Hand, b: Hand) -> Hand {
    if hand_le(a, b) {
        b
    } else {
        a
    }
}

/// The strongest hand of a non-empty sequence.
pub open spec fn strongest_of(hands: Seq<Hand>) -> Hand
    decreases hands.len(),
{
    if hands.len() <= 1 {
        hands[0]
    } else {
        stronger(strongest_of(hands.drop_last()), hands.last())
    }
}

/// The best five-card hand among `cards` (at least five): the strongest
/// classification over every five-card subset.
pub open spec fn best_of(cards: Seq<Card>) -> Hand {
    strongest_of(choose_seqs(cards, 5).map_values(|s: Seq<Card>| best_hand_spec(s)))
}

fn category_code(h: &Hand) -> (c: u8)
    ensures
        c as int == category_index(*h),
{
    match h {
        Hand::HighCard(_) => 0,
        Hand::Pair(_) => 1,
        Hand::TwoPair(_, _) => 2,
        Hand::ThreeOfAKind(_) => 3,
        Hand::Straight(_) => 4,
        Hand::Flush(_) => 5,
        Hand::FullHouse(_, _) => 6,
        Hand::FourOfAKind(_) => 7,
        Hand::StraightFlush(_) => 8,
        Hand::RoyalFlush => 9,
    }
}

fn tie_break_ranks(h: &Hand) -> (p: (u8, u8))
    ensures
        p.0 == primary_rank(*h),
        p.1 == secondary_rank(*h),
{
    match h {
        Hand::HighCard(r) => (*r, 0),
        Hand::Pair(r) => (*r, 0),
        Hand::TwoPair(hi, lo) => (*hi, *lo),
        Hand::ThreeOfAKind(r) => (*r, 0),
        Hand::Straight(r) => (*r, 0),
        Hand::Flush(r) => (*r, 0),
        Hand::FullHouse(t, p) => (*t, *p),
        Hand::FourOfAKind(r) => (*r, 0),
        Hand::StraightFlush(r) => (*r, 0),
        Hand::RoyalFlush => (0, 0),
    }
}

fn stronger_hand(a: Hand, b: Hand) -> (r: Hand)
    ensures
        r == stronger(a, b),
{
    let ca = category_code(&a);
    let cb = category_code(&b);
    let (pa, sa) = tie_break_ranks(&a);
    let (pb, sb) = tie_break_ranks(&b);
    let le = ca < cb || (ca == cb && (pa < pb || (pa == pb && sa <= sb)));
    if le {
        b
    } else {
        a
    }
}

/// Classifies a five-card hand given as a vector.
fn classify_five(cards: &Vec<Card>) -> (h: Hand)
    requires
        cards@.len() == 5,
    ensures
        h == best_hand_spec(cards@),
{
    let arr = [cards[0], cards[1], cards[2], cards[3], cards[4]];
    let h = get_best_hand(&arr);
    proof {
        assert(arr@ =~= cards@);
    }
    h
}

/// The best five-card hand among at least five available cards.
fn best_hand_of(cards: &Vec<Card>) -> (h: Hand)
    requires
        5 <= cards@.len(),
    ensures
        h == best_of(cards@),
{
    let combos = combinations(cards, 5);
    let ghost picks = choose_seqs(cards@, 5nat);
    let ghost hands = picks.map_values(|s: Seq<Card>| best_hand_spec(s));
    proof {
        lemma_choose_seqs_len(cards@, 5nat);
        lemma_binom_pos(cards@.len(), 5nat);
        assert(combos@.len() == picks.len());
        lemma_choose_seqs_elem_len(cards@, 5nat, 0);
        assert(combos@.map_values(|v: Vec<Card>| v@)[0] == combos@[0]@);
    }
    let mut best = classify_five(&combos[0]);
    proof {
        assert(combos@.map_values(|v: Vec<Card>| v@)[0] == combos@[0]@);
        assert(best == hands[0]);
        assert(best == strongest_of(hands.subrange(0, 1)));
    }
    let n = combos.len();
    let mut i: usize = 1;
    while i < n
        invariant
            1 <= i <= n,
            n == combos@.len(),
            n == hands.len(),
            picks == choose_seqs(cards@, 5nat),
            combos@.map_values(|v: Vec<Card>| v@) == picks,
            hands == picks.map_values(|s: Seq<Card>| best_hand_spec(s)),
            best == strongest_of(hands.subrange(0, i as int)),
        decreases n - i,
    {
        proof {
            lemma_choose_seqs_elem_len(cards@, 5nat, i as int);
            assert(combos@.map_values(|v: Vec<Card>| v@)[i as int] == combos@[i as int]@);
        }
        let h = classify_five(&combos[i]);
        proof {
            assert(combos@.map_values(|v: Vec<Card>| v@)[i as int] == combos@[i as int]@);
            assert(h == hands[i as int]);
            assert(hands.subrange(0, i + 1).drop_last() =~= hands.subrange(0, i as int));
            assert(hands.subrange(0, i + 1).last() == hands[i as int]);
        }
        best = stronger_hand(best, h);
        i += 1;
    }
    proof {
        assert(hands.subrange(0, n as int) =~= hands);
    }
    best
}

/// Whose cards count as known when a game state is completed.
#[derive(Debug, Copy, Clone, PartialEq, Eq, Structural)]
pub enum Perspective {
    /// The holder's view: the two hole cards are known and fixed.
    Own,
    /// A watcher's view of an opponent: only the community cards are known.
    Opponent,
}

/// The failure reported when one physical card appears twice in a game state.
#[derive(Debug, Copy, Clone, PartialEq, Eq, Structural)]
pub struct DuplicateCard;

/// One hand of play: two hole cards, the flop, and the turn and river once
/// dealt. No card appears twice across the state.
pub struct Game {
    hole: [Card; 2],
    flop: [Card; 3],
    turn: Option<Card>,
    river: Option<Card>,
}

/// The zero or one cards of an optional street.
pub open spec fn opt_seq(c: Option<Card>) -> Seq<Card> {
    match c {
        Some(c) => seq![c],
        None => Seq::empty(),
    }
}

spec fn suit_index(s: Suit) -> int {
    match s {
        Suit::Spades => 0,
        Suit::Diamonds => 1,
        Suit::Clubs => 2,
        Suit::Hearts => 3,
    }
}

spec fn suit_of_index(i: int) -> Suit {
    if i == 0 {
        Suit::Spades
    } else if i == 1 {
        Suit::Diamonds
    } else if i == 2 {
        Suit::Clubs
    } else {
        Suit::Hearts
    }
}

/// The 52-card deck, suit by suit, ranks ascending within each suit.
pub closed spec fn deck_seq() -> Seq<Card> {
    Seq::new(52, |i: int| Card { suit: suit_of_index(i / 13), value: (2 + i % 13) as u8 })
}

/// Every card with a valid rank: the full deck as a set.
pub open spec fn full_deck() -> Set<Card> {
    Set::new(|c: Card| 2 <= c.rank() <= 14)
}

/// The deck holds each of the 52 valid cards exactly once.
pub proof fn lemma_deck_seq_props()
    ensures
        deck_seq().len() == 52,
        deck_seq().no_duplicates(),
        forall|c: Card| deck_seq().contains(c) <==> 2 <= c.rank() <= 14,
        deck_seq().to_set() == full_deck(),
        full_deck().len() == 52,
{
    assert forall|c: Card| deck_seq().contains(c) <==> 2 <= c.rank() <= 14 by {
        if 2 <= c.rank() <= 14 {
            let i = 13 * suit_index(c.suit()) + c.rank() - 2;
            assert(deck_seq()[i] == c);
        }
    }
    assert(deck_seq().no_duplicates()) by {
        assert forall|i: int, j: int| 0 <= i < j < 52 implies deck_seq()[i] != deck_seq()[j] by {
            if i / 13 == j / 13 {
                assert(i % 13 != j % 13);
            }
        }
    }
    assert(deck_seq().to_set() =~= full_deck());
    deck_seq().unique_seq_to_set();
}

/// All cards the state holds, in dealing order.
pub open spec fn all_cards(g: Game) -> Seq<Card> {
    g.hole() + g.flop() + opt_seq(g.turn()) + opt_seq(g.river())
}

/// A well-formed state: every rank valid, no card dealt twice.
pub open spec fn game_wf(g: Game) -> bool {
    &&& all_cards(g).no_duplicates()
    &&& forall|i: int|
        0 <= i < all_cards(g).len() ==> 2 <= (#[trigger] all_cards(g)[i]).rank() <= 14
}

/// A game state always holds two hole cards and three flop cards.
pub proof fn lemma_game_shape(g: Game)
    ensures
        g.hole().len() == 2,
        g.flop().len() == 3,
{
}

/// The cards known and fixed from `perspective`: the community cards, plus
/// the hole cards only from the holder's own perspective.
pub open spec fn used_cards_spec(g: Game, perspective: Perspective) -> Seq<Card> {
    match perspective {
        Perspective::Own => all_cards(g),
        Perspective::Opponent => g.flop() + opt_seq(g.turn()) + opt_seq(g.river()),
    }
}

/// The deck cards that are not among `used`, in deck order.
pub open spec fn unused_cards_spec(used: Seq<Card>) -> Seq<Card> {
    deck_seq().filter(|c: Card| !used.contains(c))
}

/// Whether `cards` holds `card`, by structural equality.
fn contains_card(cards: &[Card], card: Card) -> (b: bool)
    ensures
        b == cards@.contains(card),
{
    let n = cards.len();
    let mut i: usize = 0;
    while i < n
        invariant
            i <= n == cards@.len(),
            forall|j: int| 0 <= j < i ==> cards@[j] != card,
        decreases n - i,
    {
        if cards[i] == card {
            return true;
        }
        i += 1;
    }
    false
}

impl Game {
    /// The two hole cards.
    pub closed spec fn hole(self) -> Seq<Card> {
        self.hole@
    }

    /// The three flop cards.
    pub closed spec fn flop(self) -> Seq<Card> {
        self.flop@
    }

    /// The turn card, once dealt.
    pub closed spec fn turn(self) -> Option<Card> {
        self.turn
    }

    /// The river card, once dealt.
    pub closed spec fn river(self) -> Option<Card> {
        self.river
    }

    #[verifier::type_invariant]
    spec fn wf(self) -> bool {
        game_wf(self)
    }

    /// Builds a game state, succeeding exactly when no card appears twice.
    pub fn build(hole: [Card; 2], flop: [Card; 3], turn: Option<Card>, river: Option<Card>) -> (r:
        Result<Game, DuplicateCard>)
        ensures
            r is Ok <==> (hole@ + flop@ + opt_seq(turn) + opt_seq(river)).no_duplicates(),
            r matches Ok(g) ==> g.hole() == hole@ && g.flop() == flop@ && g.turn() == turn
                && g.river() == river,
    {
        let mut cards: Vec<Card> = Vec::new();
        cards.push(hole[0]);
        cards.push(hole[1]);
        cards.push(flop[0]);
        cards.push(flop[1]);
        cards.push(flop[2]);
        if let Some(c) = turn {
            cards.push(c);
        }
        if let Some(c) = river {
            cards.push(c);
        }
        proof {
            assert(cards@ =~= hole@ + flop@ + opt_seq(turn) + opt_seq(river));
        }
        let n = cards.len();
        let mut i: usize = 0;
        while i < n
            invariant
                i <= n == cards@.len(),
                cards@ == hole@ + flop@ + opt_seq(turn) + opt_seq(river),
                forall|a: int, b: int| 0 <= a < b < cards@.len() && a < i ==> cards@[a] != cards@[b],
                forall|a: int| 0 <= a < i ==> 2 <= (#[trigger] cards@[a]).rank() <= 14,
            decreases n - i,
        {
            let c = cards[i];
            proof {
                use_type_invariant(c);
            }
            let mut j: usize = i + 1;
            while j < n
                invariant
                    i < j <= n == cards@.len(),
                    cards@ == hole@ + flop@ + opt_seq(turn) + opt_seq(river),
                    c == cards@[i as int],
                    forall|b: int| i < b < j ==> cards@[b] != c,
                decreases n - j,
            {
                if cards[j] == c {
                    return Err(DuplicateCard);
                }
                j += 1;
            }
            i += 1;
        }
        let g = Game { hole, flop, turn, river };
        proof {
            assert(all_cards(g) =~= cards@);
        }
        Ok(g)
    }

    /// The cards fixed and known from `perspective`, in dealing order.
    pub fn get_used_cards(&self, perspective: Perspective) -> (r: Vec<Card>)
        ensures
            r@ == used_cards_spec(*self, perspective),
    {
        let mut used: Vec<Card> = Vec::new();
        match perspective {
            Perspective::Own => {
                used.push(self.hole[0]);
                used.push(self.hole[1]);
            },
            Perspective::Opponent => {},
        }
        used.push(self.flop[0]);
        used.push(self.flop[1]);
        used.push(self.flop[2]);
        if let Some(c) = self.turn {
            used.push(c);
        }
        if let Some(c) = self.river {
            used.push(c);
        }
        proof {
            assert(used@ =~= used_cards_spec(*self, perspective));
        }
        used
    }

    /// The deck cards still unaccounted for, given the used ones.
    pub fn get_unused_cards(&self, used_cards: &[Card]) -> (r: Vec<Card>)
        ensures
            r@ == unused_cards_spec(used_cards@),
    {
        broadcast use vstd::seq_lib::group_filter_ensures;

        let suits = [Suit::Spades, Suit::Diamonds, Suit::Clubs, Suit::Hearts];
        let ghost pred = (|c: Card| !used_cards@.contains(c));
        let mut unused: Vec<Card> = Vec::new();
        let mut si: usize = 0;
        while si < 4
            invariant
                si <= 4,
                suits@ =~= seq![Suit::Spades, Suit::Diamonds, Suit::Clubs, Suit::Hearts],
                pred == (|c: Card| !used_cards@.contains(c)),
                unused@ == deck_seq().take(13 * si as int).filter(pred),
            decreases 4 - si,
        {
            let suit = suits[si];
            let mut value: u8 = 2;
            while value <= 14
                invariant
                    si < 4,
                    2 <= value <= 15,
                    suit == suit_of_index(si as int),
                    pred == (|c: Card| !used_cards@.contains(c)),
                    unused@ == deck_seq().take(13 * si as int + value - 2).filter(pred),
                decreases 15 - value,
            {
                let card = Card { suit, value };
                let ghost pos = 13 * si as int + value - 2;
                proof {
                    assert(deck_seq()[pos] == card) by {
                        assert(pos / 13 == si as int && pos % 13 == value - 2);
                    }
                    assert(deck_seq().take(pos + 1) =~= deck_seq().take(pos).push(card));
                    deck_seq().take(pos).lemma_filter_push(card, pred);
                }
                if !contains_card(used_cards, card) {
                    unused.push(card);
                }
                value += 1;
            }
            proof {
                assert(13 * si as int + 15 - 2 == 13 * (si + 1) as int);
            }
            si += 1;
        }
        proof {
            assert(deck_seq().take(52) =~= deck_seq());
        }
        unused
    }

    /// Counts, over every way of completing the unknown cards from
    /// `perspective`, how often each category is the best achievable hand.
    ///
    /// The state's fixed cards (for the holder's own perspective the hole
    /// cards count as fixed, for an opponent only the community cards do) are
    /// topped up to five with every combination of still-unused cards; each
    /// completion contributes exactly one count, for the best five-card hand
    /// it allows.
    pub fn frequencies(&self, perspective: Perspective) -> (t: FrequencyTable)
        ensures
            t@ == frequencies_spec(*self, perspective),
    {
        broadcast use vstd::seq_lib::group_to_multiset_ensures;

        let used = self.get_used_cards(perspective);
        let unused = self.get_unused_cards(used.as_slice());
        let missing: usize = if used.len() >= 5 {
            0
        } else {
            5 - used.len()
        };
        let combos = combinations(&unused, missing);
        let ghost picks = choose_seqs(unused@, missing_count(*self, perspective));
        let ghost hands = completion_hands(*self, perspective);
        proof {
            assert(missing == missing_count(*self, perspective));
            assert(combos@.map_values(|v: Vec<Card>| v@) == picks);
        }
        let mut t = FrequencyTable::new();
        let n = combos.len();
        let mut i: usize = 0;
        while i < n
            invariant
                i <= n == combos@.len(),
                used@ == used_cards_spec(*self, perspective),
                unused@ == unused_cards_spec(used@),
                missing == missing_count(*self, perspective),
                used@.len() + missing >= 5,
                picks == choose_seqs(unused@, missing as nat),
                combos@.map_values(|v: Vec<Card>| v@) == picks,
                hands == completion_hands(*self, perspective),
                hands.len() == n,
                t@ == hands.subrange(0, i as int).to_multiset(),
            decreases n - i,
        {
            broadcast use vstd::seq_lib::group_to_multiset_ensures;

            let mut hand: Vec<Card> = Vec::new();
            push_all(&mut hand, &used);
            proof {
                lemma_choose_seqs_elem_len(unused@, missing as nat, i as int);
                assert(combos@.map_values(|v: Vec<Card>| v@)[i as int] == combos@[i as int]@);
            }
            push_all(&mut hand, &combos[i]);
            let best = best_hand_of(&hand);
            proof {
                assert(hands[i as int] == best_of(used@ + combos@[i as int]@));
                assert(t@.len() == i) by {
                    assert(hands.subrange(0, i as int).len() == i);
                }
                assert(hands.subrange(0, i + 1) =~= hands.subrange(0, i as int).push(
                    hands[i as int],
                ));
            }
            t.increment(best);
            i += 1;
        }
        proof {
            assert(hands.subrange(0, n as int) =~= hands);
        }
        t
    }

    /// Both distributions at once: the holder's own, then an opponent's.
    ///
    /// Kept under its historical, misspelled name for callers that still use
    /// it; see [`Game::get_best_hand_frequencies`].
    pub fn get_best_hand_frequenicies(&self) -> (r: (FrequencyTable, FrequencyTable))
        ensures
            r.0@ == frequencies_spec(*self, Perspective::Own),
            r.1@ == frequencies_spec(*self, Perspective::Opponent),
    {
        self.get_best_hand_frequencies()
    }

    /// Both distributions at once: the holder's own, then an opponent's.
    pub fn get_best_hand_frequencies(&self) -> (r: (FrequencyTable, FrequencyTable))
        ensures
            r.0@ == frequencies_spec(*self, Perspective::Own),
            r.1@ == frequencies_spec(*self, Perspective::Opponent),
    {
        (self.frequencies(Perspective::Own), self.frequencies(Perspective::Opponent))
    }
}

/// How many cards are still missing to reach a five-card hand.
pub open spec fn missing_count(g: Game, perspective: Perspective) -> nat {
    if used_cards_spec(g, perspective).len() >= 5 {
        0
    } else {
        (5 - used_cards_spec(g, perspective).len()) as nat
    }
}

/// The best hand of each way of completing the state from `perspective`.
pub open spec fn completion_hands(g: Game, perspective: Perspective) -> Seq<Hand> {
    choose_seqs(
        unused_cards_spec(used_cards_spec(g, perspective)),
        missing_count(g, perspective),
    ).map_values(|c: Seq<Card>| best_of(used_cards_spec(g, perspective) + c))
}

/// The exact frequency distribution over all completions: each completion
/// contributes one count for its best hand.
pub open spec fn frequencies_spec(g: Game, perspective: Perspective) -> Multiset<Hand> {
    completion_hands(g, perspective).to_multiset()
}

/// Appends all of `src` to `dst`.
fn push_all(dst: &mut Vec<Card>, src: &Vec<Card>)
    ensures
        final(dst)@ == old(dst)@ + src@,
{
    let n = src.len();
    let mut i: usize = 0;
    while i < n
        invariant
            i <= n == src@.len(),
            dst@ == old(dst)@ + src@.subrange(0, i as int),
        decreases n - i,
    {
        dst.push(src[i]);
        proof {
            assert(src@.subrange(0, i + 1) =~= src@.subrange(0, i as int).push(src@[i as int]));
            assert(dst@ =~= old(dst)@ + src@.subrange(0, i + 1));
        }
        i += 1;
    }
    proof {
        assert(src@.subrange(0, n as int) =~= src@);
    }
}

} // verus!
