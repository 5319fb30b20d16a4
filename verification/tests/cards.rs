use bobr::naive_evaluator::card::Card;
use bobr::naive_evaluator::card::Rank;
use bobr::naive_evaluator::card::Suit;
use bobr::naive_evaluator::deck::Deck;
use bobr::naive_evaluator::hand::Hand;
use bobr::naive_evaluator::hand::HAND_SIZE;
use bobr::naive_evaluator::hand_ranking::Flush;
use bobr::naive_evaluator::hand_ranking::FourOf;
use bobr::naive_evaluator::hand_ranking::FullHouse;
use bobr::naive_evaluator::hand_ranking::HandRanking;
use bobr::naive_evaluator::hand_ranking::Pair;
use bobr::naive_evaluator::hand_ranking::ThreeOf;
use bobr::naive_evaluator::hand_ranking::TwoPair;
use bobr::naive_evaluator::pocket::Pocket;

const RANKS: [Rank; 13] = [
    Rank::Two,
    Rank::Three,
    Rank::Four,
    Rank::Five,
    Rank::Six,
    Rank::Seven,
    Rank::Eight,
    Rank::Nine,
    Rank::Ten,
    Rank::Jack,
    Rank::Queen,
    Rank::King,
    Rank::Ace,
];

const SUITS: [Suit; 4] = [Suit::Clubs, Suit::Diamonds, Suit::Hearts, Suit::Spades];

#[test]
fn rank_below() {
    assert_eq!(Rank::Two.lower(), None);
    assert_eq!(Rank::Three.lower(), Some(Rank::Two));
    assert_eq!(Rank::Ace.lower(), Some(Rank::King));
    for i in 1..13 {
        assert_eq!(RANKS[i].lower(), Some(RANKS[i - 1]));
    }
}

#[test]
fn rank_and_suit_numbers() {
    for (i, rank) in RANKS.iter().enumerate() {
        assert_eq!(rank.index() as usize, i);
        assert_eq!(Rank::from_index(i as u8), Some(*rank));
    }
    assert_eq!(Rank::from_index(13), None);
    for (i, suit) in SUITS.iter().enumerate() {
        assert_eq!(suit.index() as usize, i);
        assert_eq!(Suit::from_index(i as u8), Some(*suit));
    }
    assert_eq!(Suit::from_index(4), None);
}

#[test]
fn ranks_are_ordered() {
    for i in 0..12 {
        assert!(RANKS[i] < RANKS[i + 1]);
    }
}

#[test]
fn letters_of_ranks_and_suits() {
    let letters = ['2', '3', '4', '5', '6', '7', '8', '9', 'T', 'J', 'Q', 'K', 'A'];
    for (rank, letter) in RANKS.iter().zip(letters.iter()) {
        assert_eq!(char::from(*rank), *letter);
        assert_eq!(Rank::try_from(*letter), Ok(*rank));
        assert_eq!(rank.name(), letter.to_string());
    }
    assert_eq!(Rank::try_from('1'), Err(()));
    assert_eq!(Rank::try_from('t'), Err(()));
    let letters = ['c', 'd', 'h', 's'];
    for (suit, letter) in SUITS.iter().zip(letters.iter()) {
        assert_eq!(char::from(*suit), *letter);
        assert_eq!(Suit::try_from(*letter), Ok(*suit));
        assert_eq!(suit.name(), letter.to_string());
    }
    assert_eq!(Suit::try_from('C'), Err(()));
}

#[test]
fn card_fields_and_text() {
    let card = Card::new(Rank::Ace, Suit::Hearts);
    assert_eq!(card.rank(), Rank::Ace);
    assert_eq!(card.suit(), Suit::Hearts);
    assert_eq!(card.index(), 2 * 13 + 12);
    assert_eq!(String::from(&card), "Ah");
    assert_eq!(card.to_text(), "Ah");
    assert_eq!(Card::try_from("Ah"), Ok(card));
    assert_eq!(Card::try_from("Td"), Ok(Card::new(Rank::Ten, Suit::Diamonds)));
    assert_eq!(Card::try_from("A"), Err(()));
    assert_eq!(Card::try_from("Ahh"), Err(()));
    assert_eq!(Card::try_from("hA"), Err(()));
    assert_eq!(Card::try_from("1h"), Err(()));
    assert_eq!(Card::try_from("Ax"), Err(()));
    assert_eq!(Card::try_from("\u{e9}"), Err(()));
}

#[test]
fn hand_is_kept_in_descending_order() {
    let hand = Hand::new([
        Card::new(Rank::Two, Suit::Diamonds),
        Card::new(Rank::Three, Suit::Clubs),
        Card::new(Rank::Three, Suit::Spades),
        Card::new(Rank::Eight, Suit::Diamonds),
        Card::new(Rank::Ace, Suit::Hearts),
        Card::new(Rank::Seven, Suit::Clubs),
        Card::new(Rank::King, Suit::Spades),
    ]);
    assert_eq!(
        hand.cards(),
        &[
            Card::new(Rank::Ace, Suit::Hearts),
            Card::new(Rank::King, Suit::Spades),
            Card::new(Rank::Eight, Suit::Diamonds),
            Card::new(Rank::Seven, Suit::Clubs),
            Card::new(Rank::Three, Suit::Clubs),
            Card::new(Rank::Three, Suit::Spades),
            Card::new(Rank::Two, Suit::Diamonds),
        ]
    );
    assert_eq!(HAND_SIZE, 7);
}

#[test]
fn hand_text() {
    let hand = Hand::try_from("2c7h6d5h4c4d3h").unwrap();
    assert_eq!(String::from(&hand), "7h6d5h4c4d3h2c");
    assert_eq!(hand.to_text(), "7h6d5h4c4d3h2c");
    assert!(Hand::try_from("7h6d5h4c4d3h").is_err());
    assert!(Hand::try_from("7h6d5h4c4d3h2c2d").is_err());
    assert!(Hand::try_from("7h6d5h4c4d3h2x").is_err());
    assert!(Hand::try_from("7h6d5h4c4d3hc2").is_err());
    assert!(Hand::try_from("").is_err());
}

#[test]
fn fresh_deck() {
    let deck = Deck::new();
    assert_eq!(Deck::SIZE, 52);
    assert_eq!(deck.cards().len(), 52);
    for (i, card) in deck.cards().iter().enumerate() {
        assert_eq!(card.index(), i);
        assert_eq!(*card, Card::new(RANKS[i % 13], SUITS[i / 13]));
    }
}

#[test]
fn draw_and_put() {
    let mut deck = Deck::new();
    assert_eq!(deck.draw_card(), Some(Card::new(Rank::Ace, Suit::Spades)));
    assert_eq!(deck.draw_card(), Some(Card::new(Rank::King, Suit::Spades)));
    assert_eq!(deck.cards().len(), 50);
    deck.put_card(Card::new(Rank::Two, Suit::Clubs));
    assert_eq!(deck.cards().len(), 51);
    assert_eq!(deck.draw_card(), Some(Card::new(Rank::Two, Suit::Clubs)));
    for _ in 0..50 {
        assert!(deck.draw_card().is_some());
    }
    assert_eq!(deck.draw_card(), None);
    assert_eq!(deck.cards().len(), 0);
}

#[test]
fn swap_cards_exchanges_two_places() {
    let mut deck = Deck::new();
    deck.swap_cards(0, 51);
    assert_eq!(deck.cards()[0], Card::new(Rank::Ace, Suit::Spades));
    assert_eq!(deck.cards()[51], Card::new(Rank::Two, Suit::Clubs));
    assert_eq!(deck.cards()[1], Card::new(Rank::Three, Suit::Clubs));
    deck.swap_cards(7, 7);
    assert_eq!(deck.cards()[7], Card::new(Rank::Nine, Suit::Clubs));
}

#[test]
fn shuffle_keeps_the_cards_and_moves_them() {
    let fresh = Deck::new();
    let mut deck = Deck::new();
    deck.shuffle();
    assert_eq!(deck.cards().len(), 52);
    let mut places: Vec<usize> = deck.cards().iter().map(|card| card.index()).collect();
    assert_ne!(deck.cards(), fresh.cards());
    places.sort();
    assert_eq!(places, (0..52).collect::<Vec<usize>>());
    let again = Deck::new().shuffled();
    let mut places: Vec<usize> = again.cards().iter().map(|card| card.index()).collect();
    assert_ne!(again.cards(), fresh.cards());
    places.sort();
    assert_eq!(places, (0..52).collect::<Vec<usize>>());
}

#[test]
fn pocket_cards() {
    let pocket = Pocket::new(
        Card::new(Rank::Ace, Suit::Hearts),
        Card::new(Rank::King, Suit::Spades),
    );
    assert_eq!(pocket.card1(), Card::new(Rank::Ace, Suit::Hearts));
    assert_eq!(pocket.card2(), Card::new(Rank::King, Suit::Spades));
}

#[test]
fn ranking_text() {
    let text = |ranking: HandRanking| String::from(&ranking);
    assert_eq!(
        text(HandRanking::HighCard([
            Rank::Queen,
            Rank::Ten,
            Rank::Eight,
            Rank::Seven,
            Rank::Five
        ])),
        "High card Q"
    );
    assert_eq!(
        text(HandRanking::Pair(Pair::new(
            Rank::Three,
            [Rank::Ace, Rank::King, Rank::Eight]
        ))),
        "Pair 3"
    );
    assert_eq!(
        text(HandRanking::TwoPair(TwoPair::new(
            [Rank::Eight, Rank::Three],
            Rank::King
        ))),
        "Two pair 83"
    );
    assert_eq!(
        text(HandRanking::ThreeOf(ThreeOf::new(
            Rank::Two,
            [Rank::King, Rank::Eight]
        ))),
        "Three of 2"
    );
    assert_eq!(text(HandRanking::Straight(Rank::Six)), "Straight 6");
    assert_eq!(
        text(HandRanking::Flush(Flush::new([
            Rank::King,
            Rank::Ten,
            Rank::Nine,
            Rank::Eight,
            Rank::Two
        ]))),
        "Flush K"
    );
    assert_eq!(
        text(HandRanking::FullHouse(FullHouse::new(Rank::Six, Rank::Nine))),
        "Full house 96"
    );
    assert_eq!(
        text(HandRanking::FourOf(FourOf::new(Rank::Nine, Rank::Ace))),
        "Four 9"
    );
    assert_eq!(text(HandRanking::StraightFlush(Rank::Ten)), "Straight flush T");
    assert_eq!(text(HandRanking::StraightFlush(Rank::Ace)), "Royal flush");
    assert_eq!(
        HandRanking::StraightFlush(Rank::Ace).to_text(),
        "Royal flush"
    );
    assert_eq!(ThreeOf::new(Rank::Two, [Rank::King, Rank::Eight]).rank(), Rank::Two);
}

#[test]
fn shuffle_leaves_the_cards_behind_a_full_deck() {
    let mut deck = Deck::new();
    deck.put_card(Card::new(Rank::Two, Suit::Clubs));
    deck.put_card(Card::new(Rank::Ace, Suit::Spades));
    deck.shuffle();
    assert_eq!(deck.cards().len(), 54);
    assert_eq!(deck.cards()[52], Card::new(Rank::Two, Suit::Clubs));
    assert_eq!(deck.cards()[53], Card::new(Rank::Ace, Suit::Spades));
    let mut places: Vec<usize> = deck.cards()[..52].iter().map(|card| card.index()).collect();
    places.sort();
    assert_eq!(places, (0..52).collect::<Vec<usize>>());
    let again = deck.shuffled();
    assert_eq!(again.cards()[52], Card::new(Rank::Two, Suit::Clubs));
    assert_eq!(again.cards()[53], Card::new(Rank::Ace, Suit::Spades));
}
