use poker_hands::cards::{Card, Game, Hand, InvalidRank, Perspective, Suit};

fn c(suit: Suit, value: u8) -> Card {
    Card::build(suit, value).unwrap()
}

#[test]
fn valid_card() {
    for suit in [Suit::Spades, Suit::Diamonds, Suit::Clubs, Suit::Hearts] {
        for value in 2..=14 {
            match Card::build(suit, value) {
                Ok(_) => (),
                Err(_) => panic!("{suit:?} {value} should be a valid card"),
            }
        }
    }
}

#[test]
fn too_low_value() {
    let value = 0;
    for suit in [Suit::Spades, Suit::Diamonds, Suit::Clubs, Suit::Hearts] {
        match Card::build(suit, value) {
            Ok(_) => panic!("{suit:?} {value} is not a valid card"),
            Err(_) => (),
        }
    }
}

#[test]
fn too_high_value() {
    let value = 100;
    for suit in [Suit::Spades, Suit::Diamonds, Suit::Clubs, Suit::Hearts] {
        match Card::build(suit, value) {
            Ok(_) => panic!("{suit:?} {value} is not a valid card"),
            Err(_) => (),
        }
    }
}

#[test]
fn test_get_best_hand() {
    assert_eq!(
        poker_hands::cards::get_best_hand(&[
            c(Suit::Clubs, 10),
            c(Suit::Clubs, 13),
            c(Suit::Clubs, 14),
            c(Suit::Clubs, 12),
            c(Suit::Clubs, 11),
        ]),
        Hand::RoyalFlush
    );
    assert_eq!(
        poker_hands::cards::get_best_hand(&[
            c(Suit::Diamonds, 3),
            c(Suit::Diamonds, 7),
            c(Suit::Diamonds, 4),
            c(Suit::Diamonds, 5),
            c(Suit::Diamonds, 6),
        ]),
        Hand::StraightFlush(7)
    );
    assert_eq!(
        poker_hands::cards::get_best_hand(&[
            c(Suit::Spades, 4),
            c(Suit::Clubs, 4),
            c(Suit::Hearts, 13),
            c(Suit::Hearts, 4),
            c(Suit::Diamonds, 4),
        ]),
        Hand::FourOfAKind(4)
    );
    assert_eq!(
        poker_hands::cards::get_best_hand(&[
            c(Suit::Hearts, 8),
            c(Suit::Clubs, 3),
            c(Suit::Hearts, 3),
            c(Suit::Diamonds, 8),
            c(Suit::Spades, 8),
        ]),
        Hand::FullHouse(8, 3)
    );
    assert_eq!(
        poker_hands::cards::get_best_hand(&[
            c(Suit::Clubs, 13),
            c(Suit::Clubs, 14),
            c(Suit::Clubs, 8),
            c(Suit::Clubs, 9),
            c(Suit::Clubs, 4),
        ]),
        Hand::Flush(14)
    );
    assert_eq!(
        poker_hands::cards::get_best_hand(&[
            c(Suit::Diamonds, 2),
            c(Suit::Hearts, 14),
            c(Suit::Spades, 3),
            c(Suit::Diamonds, 5),
            c(Suit::Diamonds, 4),
        ]),
        Hand::Straight(14)
    );
    assert_eq!(
        poker_hands::cards::get_best_hand(&[
            c(Suit::Spades, 14),
            c(Suit::Spades, 2),
            c(Suit::Clubs, 14),
            c(Suit::Diamonds, 9),
            c(Suit::Hearts, 14),
        ]),
        Hand::ThreeOfAKind(14)
    );
    assert_eq!(
        poker_hands::cards::get_best_hand(&[
            c(Suit::Diamonds, 11),
            c(Suit::Spades, 11),
            c(Suit::Hearts, 7),
            c(Suit::Diamonds, 4),
            c(Suit::Clubs, 7),
        ]),
        Hand::TwoPair(11, 7)
    );
    assert_eq!(
        poker_hands::cards::get_best_hand(&[
            c(Suit::Hearts, 4),
            c(Suit::Spades, 2),
            c(Suit::Hearts, 13),
            c(Suit::Spades, 9),
            c(Suit::Clubs, 13),
        ]),
        Hand::Pair(13)
    );
    assert_eq!(
        poker_hands::cards::get_best_hand(&[
            c(Suit::Clubs, 8),
            c(Suit::Clubs, 7),
            c(Suit::Hearts, 3),
            c(Suit::Diamonds, 2),
            c(Suit::Spades, 4),
        ]),
        Hand::HighCard(8)
    );
}

#[test]
fn test_get_used_and_unused_cards() {
    let hole = [c(Suit::Diamonds, 12), c(Suit::Clubs, 11)];
    let flop = [c(Suit::Spades, 10), c(Suit::Hearts, 8), c(Suit::Clubs, 3)];
    let game = Game::build(hole, flop, None, None).unwrap();
    let used_cards = game.get_used_cards(Perspective::Own);
    let unused_cards = game.get_unused_cards(&used_cards);
    assert_eq!(used_cards.len(), 5);
    assert_eq!(unused_cards.len(), 52 - 5);
    for card in hole {
        assert!(used_cards.contains(&card));
        assert!(!unused_cards.contains(&card));
    }
    for card in flop {
        assert!(used_cards.contains(&card));
        assert!(!unused_cards.contains(&card));
    }

    let turn = c(Suit::Hearts, 4);
    let game = Game::build(hole, flop, Some(turn), None).unwrap();
    let used_cards = game.get_used_cards(Perspective::Own);
    let unused_cards = game.get_unused_cards(&used_cards);
    assert_eq!(used_cards.len(), 6);
    assert_eq!(unused_cards.len(), 52 - 6);
    for card in hole {
        assert!(used_cards.contains(&card));
        assert!(!unused_cards.contains(&card));
    }
    for card in flop {
        assert!(used_cards.contains(&card));
        assert!(!unused_cards.contains(&card));
    }
    assert!(used_cards.contains(&turn));
    assert!(!unused_cards.contains(&turn));

    let river = c(Suit::Diamonds, 9);
    let game = Game::build(hole, flop, Some(turn), Some(river)).unwrap();
    let used_cards = game.get_used_cards(Perspective::Own);
    let unused_cards = game.get_unused_cards(&used_cards);
    assert_eq!(used_cards.len(), 7);
    assert_eq!(unused_cards.len(), 52 - 7);
    for card in hole {
        assert!(used_cards.contains(&card));
        assert!(!unused_cards.contains(&card));
    }
    for card in flop {
        assert!(used_cards.contains(&card));
        assert!(!unused_cards.contains(&card));
    }
    assert!(used_cards.contains(&turn));
    assert!(!unused_cards.contains(&turn));
    assert!(used_cards.contains(&river));
    assert!(!unused_cards.contains(&river));
}

#[test]
fn invalid_rank_reports_bounds() {
    let err = Card::build(Suit::Spades, 1).unwrap_err();
    assert_eq!(err, InvalidRank { min: 2, max: 14 });
    let err = Card::build(Suit::Hearts, 15).unwrap_err();
    assert_eq!(err, InvalidRank { min: 2, max: 14 });
}

#[test]
fn duplicate_card_is_rejected() {
    let hole = [c(Suit::Spades, 14), c(Suit::Spades, 13)];
    let flop = [c(Suit::Hearts, 2), c(Suit::Spades, 14), c(Suit::Clubs, 7)];
    assert!(Game::build(hole, flop, None, None).is_err());
    let flop = [c(Suit::Hearts, 2), c(Suit::Diamonds, 4), c(Suit::Clubs, 7)];
    assert!(Game::build(hole, flop, None, None).is_ok());
    let turn = c(Suit::Hearts, 2);
    assert!(Game::build(hole, flop, Some(turn), None).is_err());
}

#[test]
fn classification_is_order_independent() {
    let cards = [
        c(Suit::Hearts, 8),
        c(Suit::Clubs, 3),
        c(Suit::Hearts, 3),
        c(Suit::Diamonds, 8),
        c(Suit::Spades, 8),
    ];
    let expected = poker_hands::cards::get_best_hand(&cards);
    let reordered = [cards[4], cards[2], cards[0], cards[3], cards[1]];
    assert_eq!(poker_hands::cards::get_best_hand(&reordered), expected);
    let reversed = [cards[4], cards[3], cards[2], cards[1], cards[0]];
    assert_eq!(poker_hands::cards::get_best_hand(&reversed), expected);
}

#[test]
fn wheel_is_a_straight_high_card_aside() {
    // Ace plays low for the run itself; the carried rank is still the top
    // sorted card.
    let hand = poker_hands::cards::get_best_hand(&[
        c(Suit::Diamonds, 5),
        c(Suit::Hearts, 14),
        c(Suit::Spades, 3),
        c(Suit::Diamonds, 2),
        c(Suit::Clubs, 4),
    ]);
    assert_eq!(hand, Hand::Straight(14));
    assert_ne!(hand, Hand::RoyalFlush);
}
