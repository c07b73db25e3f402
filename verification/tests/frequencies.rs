use poker_hands::cards::{Card, Game, Hand, Perspective, Suit};
use poker_hands::freq::FrequencyTable;

fn c(suit: Suit, value: u8) -> Card {
    Card::build(suit, value).unwrap()
}

fn tables_equal(a: &FrequencyTable, b: &FrequencyTable) -> bool {
    let ea = a.entries();
    let eb = b.entries();
    ea.len() == eb.len() && a.total() == b.total() && ea.iter().all(|(h, n)| b.count_of(*h) == *n)
}

#[test]
fn complete_board_gives_a_single_count() {
    let hole = [c(Suit::Spades, 14), c(Suit::Spades, 13)];
    let flop = [c(Suit::Hearts, 2), c(Suit::Diamonds, 7), c(Suit::Clubs, 9)];
    let turn = c(Suit::Spades, 4);
    let river = c(Suit::Hearts, 11);
    let game = Game::build(hole, flop, Some(turn), Some(river)).unwrap();

    let theirs = game.frequencies(Perspective::Opponent);
    assert_eq!(theirs.total(), 1);
    assert_eq!(theirs.count_of(Hand::HighCard(11)), 1);

    let mine = game.frequencies(Perspective::Own);
    assert_eq!(mine.total(), 1);
    assert_eq!(mine.count_of(Hand::HighCard(14)), 1);
}

#[test]
fn flop_only_counts_sum_to_choose_two() {
    let hole = [c(Suit::Diamonds, 12), c(Suit::Clubs, 11)];
    let flop = [c(Suit::Spades, 10), c(Suit::Hearts, 8), c(Suit::Clubs, 3)];
    let game = Game::build(hole, flop, None, None).unwrap();

    // The holder's five cards are already fixed: one deterministic hand.
    let mine = game.frequencies(Perspective::Own);
    assert_eq!(mine.total(), 1);
    assert_eq!(mine.count_of(Hand::HighCard(12)), 1);

    // An opponent's board is completed by 2 of the 49 cards not on it.
    let theirs = game.frequencies(Perspective::Opponent);
    assert_eq!(theirs.total(), (49 * 48) / 2);
}

#[test]
fn turn_known_counts_sum_to_remaining_cards() {
    let hole = [c(Suit::Diamonds, 12), c(Suit::Clubs, 11)];
    let flop = [c(Suit::Spades, 10), c(Suit::Hearts, 8), c(Suit::Clubs, 3)];
    let turn = c(Suit::Diamonds, 2);
    let game = Game::build(hole, flop, Some(turn), None).unwrap();

    let theirs = game.frequencies(Perspective::Opponent);
    assert_eq!(theirs.total(), 48);

    let mine = game.frequencies(Perspective::Own);
    assert_eq!(mine.total(), 1);
}

#[test]
fn four_aces_are_found_from_either_perspective() {
    let hole = [c(Suit::Spades, 14), c(Suit::Hearts, 14)];
    let flop = [c(Suit::Diamonds, 14), c(Suit::Clubs, 14), c(Suit::Spades, 13)];
    let game = Game::build(hole, flop, None, None).unwrap();

    let mine = game.frequencies(Perspective::Own);
    assert_eq!(mine.total(), 1);
    assert_eq!(mine.count_of(Hand::FourOfAKind(14)), 1);

    // The opponent's view: the two hidden aces are among the 49 candidates,
    // and exactly one completion deals both.
    let theirs = game.frequencies(Perspective::Opponent);
    assert_eq!(theirs.total(), (49 * 48) / 2);
    assert_eq!(theirs.count_of(Hand::FourOfAKind(14)), 1);
}

#[test]
fn perspectives_differ_when_hole_cards_matter() {
    let hole = [c(Suit::Spades, 14), c(Suit::Spades, 13)];
    let flop = [c(Suit::Spades, 12), c(Suit::Spades, 11), c(Suit::Spades, 10)];
    let game = Game::build(hole, flop, None, None).unwrap();

    let mine = game.frequencies(Perspective::Own);
    assert_eq!(mine.total(), 1);
    assert_eq!(mine.count_of(Hand::RoyalFlush), 1);

    let theirs = game.frequencies(Perspective::Opponent);
    assert_ne!(theirs.total(), mine.total());
    // From the opponent's view the two hole cards count as still unknown, so
    // exactly one of the C(49, 2) completions deals them and makes the royal
    // flush; the eight and nine of spades make a lower straight flush.
    assert_eq!(theirs.total(), (49 * 48) / 2);
    assert_eq!(theirs.count_of(Hand::RoyalFlush), 1);
    assert!(theirs.count_of(Hand::StraightFlush(12)) > 0);
}

#[test]
fn frequencies_are_deterministic() {
    let hole = [c(Suit::Diamonds, 12), c(Suit::Clubs, 11)];
    let flop = [c(Suit::Spades, 10), c(Suit::Hearts, 8), c(Suit::Clubs, 3)];
    let game = Game::build(hole, flop, None, None).unwrap();

    let first = game.frequencies(Perspective::Opponent);
    let second = game.frequencies(Perspective::Opponent);
    assert!(tables_equal(&first, &second));

    let first = game.frequencies(Perspective::Own);
    let second = game.frequencies(Perspective::Own);
    assert!(tables_equal(&first, &second));
}

#[test]
fn paired_functions_return_both_perspectives() {
    let hole = [c(Suit::Diamonds, 12), c(Suit::Clubs, 11)];
    let flop = [c(Suit::Spades, 10), c(Suit::Hearts, 8), c(Suit::Clubs, 3)];
    let game = Game::build(hole, flop, None, None).unwrap();

    let (mine, theirs) = game.get_best_hand_frequencies();
    assert!(tables_equal(&mine, &game.frequencies(Perspective::Own)));
    assert!(tables_equal(&theirs, &game.frequencies(Perspective::Opponent)));

    let (mine, theirs) = game.get_best_hand_frequenicies();
    assert!(tables_equal(&mine, &game.frequencies(Perspective::Own)));
    assert!(tables_equal(&theirs, &game.frequencies(Perspective::Opponent)));
}
