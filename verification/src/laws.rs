//! Crate-wide laws: statements that tie the public functions together, each
//! proved once and for all inputs.

use vstd::prelude::*;
use vstd::multiset::Multiset;
use vstd::relations::total_ordering;
use vstd::seq_lib::lemma_sorted_unique;
use crate::cards::{
    all_cards, all_same_suit, best_hand_spec, best_of, category_index, classify_sorted, deck_seq,
    frequencies_spec, full_deck, game_wf, hand_le, has_four, has_full_house, has_pair, has_three,
    has_two_pair, is_straight_ranks, lemma_deck_seq_props, lemma_game_shape, missing_count,
    rank_le, sorted_ranks_of, strongest_of, unused_cards_spec, used_cards_spec, Card, Game, Hand,
    Perspective,
};
use crate::combinatorics::{binom, choose_seqs, lemma_choose_seqs_all, lemma_choose_seqs_len};

verus! {

/// The defining predicate of the category at position `idx` of the strength
/// order, over the sorted ranks and the flush flag of a hand.
pub open spec fn meets_category(v: Seq<u8>, flush: bool, idx: int) -> bool {
    if idx == 9 {
        is_straight_ranks(v) && flush && v[4] == 14
    } else if idx == 8 {
        is_straight_ranks(v) && flush
    } else if idx == 7 {
        has_four(v)
    } else if idx == 6 {
        has_full_house(v)
    } else if idx == 5 {
        flush
    } else if idx == 4 {
        is_straight_ranks(v)
    } else if idx == 3 {
        has_three(v)
    } else if idx == 2 {
        has_two_pair(v)
    } else if idx == 1 {
        has_pair(v)
    } else {
        true
    }
}

/// Classification is complete and exclusive: every five-card hand gets the
/// one category whose predicate it meets while meeting no stronger one.
pub proof fn lemma_classification_exclusive(cards: Seq<Card>)
    requires
        cards.len() == 5,
    ensures
        meets_category(
            sorted_ranks_of(cards),
            all_same_suit(cards),
            category_index(best_hand_spec(cards)),
        ),
        forall|j: int|
            category_index(best_hand_spec(cards)) < j <= 9 ==> !meets_category(
                sorted_ranks_of(cards),
                all_same_suit(cards),
                j,
            ),
{
    let v = sorted_ranks_of(cards);
    let f = all_same_suit(cards);
    let idx = category_index(classify_sorted(v, f));
    assert forall|j: int| idx < j <= 9 implies !meets_category(v, f, j) by {
        assert(meets_category(v, f, j) ==> j <= idx);
    }
}

/// A wheel (ranks 2, 3, 4, 5 and an ace) that is not also a flush classifies
/// as a straight, and never as a royal flush.
pub proof fn lemma_wheel_is_straight(cards: Seq<Card>)
    requires
        cards.len() == 5,
        sorted_ranks_of(cards) == seq![2u8, 3u8, 4u8, 5u8, 14u8],
        !all_same_suit(cards),
    ensures
        best_hand_spec(cards) is Straight,
        !(best_hand_spec(cards) is RoyalFlush),
{
    let v = sorted_ranks_of(cards);
    assert(v[0] == 2 && v[1] == 3 && v[2] == 4 && v[3] == 5 && v[4] == 14);
}

/// The used cards of a perspective, as a set.
pub open spec fn used_set(g: Game, perspective: Perspective) -> Set<Card> {
    used_cards_spec(g, perspective).to_set()
}

/// The unused cards of a perspective, as a set.
pub open spec fn unused_set(g: Game, perspective: Perspective) -> Set<Card> {
    unused_cards_spec(used_cards_spec(g, perspective)).to_set()
}

/// Every used card of a well-formed state is a valid card, and no card is
/// used twice.
proof fn lemma_used_cards_valid(g: Game, perspective: Perspective)
    requires
        game_wf(g),
    ensures
        used_cards_spec(g, perspective).no_duplicates(),
        forall|i: int|
            0 <= i < used_cards_spec(g, perspective).len() ==> 2 <= (#[trigger] used_cards_spec(
                g,
                perspective,
            )[i]).rank() <= 14,
{
    lemma_game_shape(g);
    let used = used_cards_spec(g, perspective);
    let all = all_cards(g);
    match perspective {
        Perspective::Own => {
            assert(used == all);
        },
        Perspective::Opponent => {
            assert(all =~= g.hole() + used);
            assert forall|i: int| 0 <= i < used.len() implies 2 <= (#[trigger] used[i]).rank()
                <= 14 by {
                assert(used[i] == all[i + 2]);
            }
            assert forall|i: int, j: int| 0 <= i < j < used.len() implies used[i] != used[j] by {
                assert(used[i] == all[i + 2] && used[j] == all[j + 2]);
            }
        },
    }
}

/// Every element a filter keeps is an element of the original sequence.
proof fn lemma_filter_elem_of<A>(s: Seq<A>, pred: spec_fn(A) -> bool)
    ensures
        forall|i: int| 0 <= i < s.filter(pred).len() ==> s.contains(#[trigger] s.filter(pred)[i]),
    decreases s.len(),
{
    reveal(Seq::filter);
    if s.len() > 0 {
        let out = s.filter(pred);
        let dl = s.drop_last();
        lemma_filter_elem_of(dl, pred);
        assert forall|i: int| 0 <= i < out.len() implies s.contains(out[i]) by {
            if pred(s.last()) && i == out.len() - 1 {
                assert(out[i] == s.last());
                assert(s[s.len() - 1] == s.last());
            } else {
                assert(out[i] == dl.filter(pred)[i]);
                assert(dl.contains(dl.filter(pred)[i]));
                let j = choose|j: int| 0 <= j < dl.len() && dl[j] == out[i];
                assert(s[j] == out[i]);
            }
        }
    }
}

/// A filter keeps a duplicate-free sequence duplicate-free.
proof fn lemma_filter_no_duplicates<A>(s: Seq<A>, pred: spec_fn(A) -> bool)
    requires
        s.no_duplicates(),
    ensures
        s.filter(pred).no_duplicates(),
    decreases s.len(),
{
    reveal(Seq::filter);
    if s.len() > 0 {
        let dl = s.drop_last();
        lemma_filter_no_duplicates(dl, pred);
        lemma_filter_elem_of(dl, pred);
        dl.filter_lemma(pred);
        if pred(s.last()) {
            assert forall|i: int, j: int|
                0 <= i < j < s.filter(pred).len() implies s.filter(pred)[i] != s.filter(
                pred,
            )[j] by {
                if j == s.filter(pred).len() - 1 {
                    assert(s.filter(pred)[i] == dl.filter(pred)[i]);
                    assert(dl.filter(pred).contains(dl.filter(pred)[i]));
                    assert(dl.contains(dl.filter(pred)[i]));
                    let w = choose|w: int| 0 <= w < dl.len() && dl[w] == dl.filter(pred)[i];
                    assert(s[w] != s.last());
                } else {
                    assert(s.filter(pred)[i] == dl.filter(pred)[i]);
                    assert(s.filter(pred)[j] == dl.filter(pred)[j]);
                }
            }
        }
    }
}

/// What the unused cards are: exactly the valid cards not used, each once.
proof fn lemma_unused_cards(g: Game, perspective: Perspective)
    requires
        game_wf(g),
    ensures
        unused_set(g, perspective) == full_deck().difference(used_set(g, perspective)),
        unused_cards_spec(used_cards_spec(g, perspective)).no_duplicates(),
        unused_cards_spec(used_cards_spec(g, perspective)).len() == 52 - used_cards_spec(
            g,
            perspective,
        ).len(),
{
    lemma_deck_seq_props();
    lemma_used_cards_valid(g, perspective);
    let used = used_cards_spec(g, perspective);
    let unused = unused_cards_spec(used);
    let pred = (|c: Card| !used.contains(c));
    deck_seq().filter_lemma(pred);
    lemma_filter_elem_of(deck_seq(), pred);
    lemma_filter_no_duplicates(deck_seq(), pred);
    assert(unused_set(g, perspective) =~= full_deck().difference(used_set(g, perspective))) by {
        assert forall|c: Card| unused.contains(c) implies deck_seq().contains(c) && !used.contains(
            c,
        ) by {
            let i = choose|i: int| 0 <= i < unused.len() && unused[i] == c;
            assert(pred(unused[i]));
            assert(deck_seq().contains(unused[i]));
        }
        assert forall|c: Card|
            deck_seq().contains(c) && !used.contains(c) implies unused.contains(c) by {
            let i = choose|i: int| 0 <= i < deck_seq().len() && deck_seq()[i] == c;
            assert(pred(deck_seq()[i]));
        }
        assert forall|c: Card| used.contains(c) implies used_set(g, perspective).contains(c) by {}
    }
    assert(unused.len() == 52 - used.len()) by {
        unused.unique_seq_to_set();
        used.unique_seq_to_set();
        assert(used.to_set().subset_of(full_deck())) by {
            assert forall|c: Card| used.to_set().contains(c) implies full_deck().contains(c) by {
                let i = choose|i: int| 0 <= i < used.len() && used[i] == c;
                assert(2 <= used[i].rank() <= 14);
            }
        }
        let diff = full_deck().difference(used.to_set());
        assert(diff.disjoint(used.to_set()));
        assert(diff + used.to_set() =~= full_deck());
        vstd::set_lib::lemma_set_disjoint_lens(diff, used.to_set());
        assert(unused.to_set() =~= diff);
    }
}

/// Used and unused cards partition the deck: they never overlap, and
/// together they are exactly the 52 valid cards.
pub proof fn lemma_used_unused_partition(g: Game, perspective: Perspective)
    requires
        game_wf(g),
    ensures
        used_set(g, perspective).intersect(unused_set(g, perspective)) == Set::<Card>::empty(),
        used_set(g, perspective).union(unused_set(g, perspective)) == full_deck(),
        used_set(g, perspective).union(unused_set(g, perspective)).len() == 52,
{
    lemma_deck_seq_props();
    lemma_used_cards_valid(g, perspective);
    lemma_unused_cards(g, perspective);
    let used = used_cards_spec(g, perspective);
    assert(used_set(g, perspective).intersect(unused_set(g, perspective)) =~= Set::<
        Card,
    >::empty());
    assert(used_set(g, perspective).union(unused_set(g, perspective)) =~= full_deck()) by {
        assert forall|c: Card| used_set(g, perspective).contains(c) implies full_deck().contains(
            c,
        ) by {
            let i = choose|i: int| 0 <= i < used.len() && used[i] == c;
            assert(2 <= used[i].rank() <= 14);
        }
    }
}

/// The enumeration is complete: the counts over all completions sum to
/// "unused choose missing", never more, never fewer.
pub proof fn lemma_enumeration_complete(g: Game, perspective: Perspective)
    requires
        game_wf(g),
    ensures
        frequencies_spec(g, perspective).len() == binom(
            unused_cards_spec(used_cards_spec(g, perspective)).len(),
            missing_count(g, perspective),
        ),
        unused_cards_spec(used_cards_spec(g, perspective)).len() == 52 - used_cards_spec(
            g,
            perspective,
        ).len(),
{
    broadcast use vstd::seq_lib::group_to_multiset_ensures;

    lemma_unused_cards(g, perspective);
    let unused = unused_cards_spec(used_cards_spec(g, perspective));
    let k = missing_count(g, perspective);
    lemma_choose_seqs_len(unused, k);
}

/// The two perspectives differ in exactly the hole cards: the holder's own
/// view uses them, so they are missing from its unused set, while an
/// opponent's view leaves them unused.
pub proof fn lemma_perspective_sensitivity(g: Game)
    requires
        game_wf(g),
    ensures
        used_set(g, Perspective::Own) == used_set(g, Perspective::Opponent).insert(
            g.hole()[0],
        ).insert(g.hole()[1]),
        !unused_set(g, Perspective::Own).contains(g.hole()[0]),
        !unused_set(g, Perspective::Own).contains(g.hole()[1]),
        unused_set(g, Perspective::Opponent).contains(g.hole()[0]),
        unused_set(g, Perspective::Opponent).contains(g.hole()[1]),
{
    lemma_deck_seq_props();
    lemma_game_shape(g);
    lemma_used_cards_valid(g, Perspective::Own);
    lemma_unused_cards(g, Perspective::Own);
    lemma_unused_cards(g, Perspective::Opponent);
    let all = all_cards(g);
    let board = used_cards_spec(g, Perspective::Opponent);
    assert(all =~= g.hole() + board);
    assert(used_set(g, Perspective::Own) =~= used_set(g, Perspective::Opponent).insert(
        g.hole()[0],
    ).insert(g.hole()[1])) by {
        assert forall|c: Card| all.contains(c) implies board.contains(c) || c == g.hole()[0] || c
            == g.hole()[1] by {
            let i = choose|i: int| 0 <= i < all.len() && all[i] == c;
            if i >= 2 {
                assert(board[i - 2] == c);
            }
        }
        assert(all[0] == g.hole()[0] && all[1] == g.hole()[1]);
        assert forall|c: Card| board.contains(c) implies all.contains(c) by {
            let i = choose|i: int| 0 <= i < board.len() && board[i] == c;
            assert(all[i + 2] == c);
        }
    }
    assert(used_set(g, Perspective::Own).contains(g.hole()[0])) by {
        assert(all[0] == g.hole()[0]);
    }
    assert(used_set(g, Perspective::Own).contains(g.hole()[1])) by {
        assert(all[1] == g.hole()[1]);
    }
    assert(!used_set(g, Perspective::Opponent).contains(g.hole()[0])) by {
        if board.contains(g.hole()[0]) {
            let i = choose|i: int| 0 <= i < board.len() && board[i] == g.hole()[0];
            assert(all[i + 2] == all[0]);
        }
    }
    assert(!used_set(g, Perspective::Opponent).contains(g.hole()[1])) by {
        if board.contains(g.hole()[1]) {
            let i = choose|i: int| 0 <= i < board.len() && board[i] == g.hole()[1];
            assert(all[i + 2] == all[1]);
        }
    }
    assert(2 <= g.hole()[0].rank() <= 14 && 2 <= g.hole()[1].rank() <= 14) by {
        assert(all[0] == g.hole()[0] && all[1] == g.hole()[1]);
    }
}

/// Mapping a function over two sequences with the same elements yields
/// sequences with the same elements.
proof fn lemma_map_values_multiset<A, B>(s1: Seq<A>, s2: Seq<A>, f: spec_fn(A) -> B)
    requires
        s1.to_multiset() == s2.to_multiset(),
    ensures
        s1.map_values(f).to_multiset() == s2.map_values(f).to_multiset(),
    decreases s1.len(),
{
    broadcast use vstd::seq_lib::group_to_multiset_ensures;

    if s1.len() == 0 {
        assert(s1.to_multiset().len() == s1.len());
        assert(s2.to_multiset().len() == s2.len());
        assert(s1.map_values(f) =~= s2.map_values(f));
    } else {
        let x = s1.last();
        assert(s1.contains(x));
        assert(s2.to_multiset().count(x) > 0);
        assert(s2.contains(x));
        let j = choose|j: int| 0 <= j < s2.len() && s2[j] == x;
        let s1d = s1.drop_last();
        let s2d = s2.remove(j);
        assert(s1d.to_multiset() == s2d.to_multiset()) by {
            assert(s1d =~= s1.remove(s1.len() - 1));
            assert(s1.remove(s1.len() - 1).to_multiset() == s1.to_multiset().remove(x));
            assert(s2d.to_multiset() == s2.to_multiset().remove(x));
        }
        lemma_map_values_multiset(s1d, s2d, f);
        assert(s1.map_values(f).to_multiset() == s1d.map_values(f).to_multiset().insert(f(x))) by {
            assert(s1.map_values(f) =~= s1d.map_values(f).push(f(x)));
        }
        assert(s2.map_values(f).to_multiset() == s2d.map_values(f).to_multiset().insert(f(x))) by {
            assert(s2.map_values(f).remove(j) =~= s2d.map_values(f));
            assert(s2.map_values(f)[j] == f(x));
            assert(s2.map_values(f).remove(j).to_multiset() == s2.map_values(f).to_multiset().remove(
                f(x),
            ));
            assert(s2.map_values(f).to_multiset().count(f(x)) > 0) by {
                assert(s2.map_values(f).contains(s2.map_values(f)[j]));
            }
            assert(s2.map_values(f).to_multiset().remove(f(x)).insert(f(x)) =~= s2.map_values(
                f,
            ).to_multiset());
        }
    }
}

/// Classification does not depend on the order the five cards come in: two
/// arrangements of the same cards classify alike.
pub proof fn lemma_classify_order_independent(s1: Seq<Card>, s2: Seq<Card>)
    requires
        s1.len() == 5,
        s2.len() == 5,
        s1.to_multiset() == s2.to_multiset(),
    ensures
        best_hand_spec(s1) == best_hand_spec(s2),
{
    broadcast use vstd::seq_lib::group_to_multiset_ensures;

    let f = (|c: Card| c.rank());
    let r1 = s1.map_values(f);
    let r2 = s2.map_values(f);
    assert(sorted_ranks_of(s1) == sorted_ranks_of(s2)) by {
        lemma_map_values_multiset(s1, s2, f);
        assert(total_ordering(rank_le()));
        r1.lemma_sort_by_ensures(rank_le());
        r2.lemma_sort_by_ensures(rank_le());
        lemma_sorted_unique(r1.sort_by(rank_le()), r2.sort_by(rank_le()), rank_le());
    }
    assert(all_same_suit(s1) == all_same_suit(s2)) by {
        if all_same_suit(s1) {
            lemma_same_suit_order_independent(s1, s2);
        }
        if all_same_suit(s2) {
            lemma_same_suit_order_independent(s2, s1);
        }
    }
}

/// If all cards of `s1` share a suit and `s2` has the same cards, all cards
/// of `s2` share that suit too.
proof fn lemma_same_suit_order_independent(s1: Seq<Card>, s2: Seq<Card>)
    requires
        s1.len() == 5,
        s2.len() == 5,
        s1.to_multiset() == s2.to_multiset(),
        all_same_suit(s1),
    ensures
        all_same_suit(s2),
{
    broadcast use vstd::seq_lib::group_to_multiset_ensures;

    let suit = s1[0].suit();
    assert forall|i: int| 0 <= i < 5 implies s2[i].suit() == suit by {
        assert(s2.contains(s2[i]));
        assert(s2.to_multiset().count(s2[i]) > 0);
        assert(s1.contains(s2[i]));
        let j = choose|j: int| 0 <= j < s1.len() && s1[j] == s2[i];
        assert(j == 0 || j == 1 || j == 2 || j == 3 || j == 4);
    }
}

/// The strongest hand of a non-empty sequence is one of its hands, and no
/// hand in the sequence is stronger.
pub proof fn lemma_strongest_of_is_max(hands: Seq<Hand>)
    requires
        hands.len() > 0,
    ensures
        hands.contains(strongest_of(hands)),
        forall|i: int| 0 <= i < hands.len() ==> hand_le(#[trigger] hands[i], strongest_of(hands)),
    decreases hands.len(),
{
    if hands.len() > 1 {
        let rest = hands.drop_last();
        lemma_strongest_of_is_max(rest);
        let m = strongest_of(hands);
        assert(hands.contains(m)) by {
            if hand_le(strongest_of(rest), hands.last()) {
                assert(hands[hands.len() - 1] == m);
            } else {
                let j = choose|j: int| 0 <= j < rest.len() && rest[j] == m;
                assert(hands[j] == m);
            }
        }
        assert forall|i: int| 0 <= i < hands.len() implies hand_le(#[trigger] hands[i], m) by {
            if i < hands.len() - 1 {
                assert(hand_le(rest[i], strongest_of(rest)));
            }
        }
    }
}

/// On exactly five cards there is a single five-card subset, so the best
/// achievable hand is the plain classification.
pub proof fn lemma_best_of_five(cards: Seq<Card>)
    requires
        cards.len() == 5,
    ensures
        best_of(cards) == best_hand_spec(cards),
{
    lemma_choose_seqs_all(cards);
    assert(choose_seqs(cards, 5).map_values(|s: Seq<Card>| best_hand_spec(s)) =~= seq![
        best_hand_spec(cards),
    ]);
}

/// Two frequency computations on one state and perspective agree: same
/// categories, same counts. The result of `frequencies` is a function of the
/// state and the perspective alone.
pub proof fn lemma_frequencies_deterministic(
    g: Game,
    perspective: Perspective,
    m1: Multiset<Hand>,
    m2: Multiset<Hand>,
)
    requires
        m1 == frequencies_spec(g, perspective),
        m2 == frequencies_spec(g, perspective),
    ensures
        m1 == m2,
        forall|h: Hand| m1.count(h) == m2.count(h),
{
}

} // verus!
