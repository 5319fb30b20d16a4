use bobr::lookup_table_evaluator::lookup_table::build_table;
use bobr::lookup_table_evaluator::lookup_table::BuildError;
use bobr::lookup_table_evaluator::lookup_table::canonical_key;
use bobr::lookup_table_evaluator::lookup_table::card_code;
use bobr::lookup_table_evaluator::lookup_table::LookupError;
use bobr::lookup_table_evaluator::lookup_table::Table;
use bobr::lookup_table_evaluator::lookup_table_generation::HandsGenerator;
use bobr::lookup_table_evaluator::lookup_table_generation::HAND_COMBINATIONS_COUNT;
use bobr::naive_evaluator::card::Card;
use bobr::naive_evaluator::card::Rank;
use bobr::naive_evaluator::card::Suit;
use bobr::naive_evaluator::deck::Deck;
use bobr::naive_evaluator::evaluator::evaluate_five_cards;
use bobr::naive_evaluator::evaluator::InvalidHand;
use bobr::naive_evaluator::hand::Hand;
use bobr::naive_evaluator::hand_ranking::HandRanking;

fn hand(text: &str) -> Hand {
    Hand::try_from(text).unwrap()
}

fn ways(of: u64, size: u64) -> u64 {
    let mut result: u64 = 1;
    for i in 0..size {
        result = result * (of - i) / (i + 1);
    }
    result
}

#[test]
fn count_of_all_hands() {
    assert_eq!(HAND_COMBINATIONS_COUNT, 133_784_560);
    assert_eq!(ways(52, 7), 133_784_560);
}

#[test]
fn fresh_generator_holds_no_hands() {
    let generator = HandsGenerator::new();
    assert_eq!(generator.hands().len(), 0);
}

#[test]
fn hands_of_the_last_cards() {
    let mut generator = HandsGenerator::new();
    generator.generate_i(46);
    assert_eq!(generator.hands().len(), 0);
    generator.generate_i(52);
    assert_eq!(generator.hands().len(), 0);
    generator.generate_i(45);
    assert_eq!(generator.hands().len(), 1);
    assert_eq!(String::from(&generator.hands()[0]), "AsKsQsJsTs9s8s");
    generator.generate_i(44);
    assert_eq!(generator.hands().len(), 1 + 8);
    // The first hand with the card at place 44 holds the next six cards.
    assert_eq!(String::from(&generator.hands()[1]), "KsQsJsTs9s8s7s");
}

#[test]
fn hands_come_in_the_order_of_the_deck() {
    let mut generator = HandsGenerator::new();
    generator.generate_i(44);
    let places: Vec<Vec<usize>> = generator
        .hands()
        .iter()
        .map(|hand| {
            let mut places: Vec<usize> = hand.cards().iter().map(|card| card.index()).collect();
            places.sort();
            places
        })
        .collect();
    assert_eq!(
        places,
        vec![
            vec![44, 45, 46, 47, 48, 49, 50],
            vec![44, 45, 46, 47, 48, 49, 51],
            vec![44, 45, 46, 47, 48, 50, 51],
            vec![44, 45, 46, 47, 49, 50, 51],
            vec![44, 45, 46, 48, 49, 50, 51],
            vec![44, 45, 47, 48, 49, 50, 51],
            vec![44, 46, 47, 48, 49, 50, 51],
            vec![45, 46, 47, 48, 49, 50, 51],
        ]
    );
}

#[test]
fn every_hand_once_and_none_left_out() {
    for from in [40usize, 38, 36] {
        let mut generator = HandsGenerator::new();
        generator.generate_i(from);
        let hands = generator.hands();
        assert_eq!(hands.len() as u64, ways(52 - from as u64, 7));
        let mut seen: Vec<Vec<usize>> = Vec::new();
        for hand in hands.iter() {
            assert!(hand.is_valid());
            let mut places: Vec<usize> = hand.cards().iter().map(|card| card.index()).collect();
            places.sort();
            assert!(places.iter().all(|place| *place >= from && *place < 52));
            seen.push(places);
        }
        let count = seen.len();
        seen.sort();
        seen.dedup();
        assert_eq!(seen.len(), count);
    }
}

#[test]
fn generating_twice_adds_the_hands_again() {
    let mut generator = HandsGenerator::new();
    generator.generate_i(43);
    assert_eq!(generator.hands().len(), 36);
    generator.generate_i(43);
    assert_eq!(generator.hands().len(), 72);
    assert_eq!(
        String::from(&generator.hands()[0]),
        String::from(&generator.hands()[36])
    );
}

#[test]
fn code_of_a_card() {
    assert_eq!(card_code(&Card::new(Rank::Two, Suit::Clubs)), 0);
    assert_eq!(card_code(&Card::new(Rank::Two, Suit::Spades)), 3);
    assert_eq!(card_code(&Card::new(Rank::Seven, Suit::Hearts)), 22);
    assert_eq!(card_code(&Card::new(Rank::Ace, Suit::Spades)), 51);
    assert_eq!(card_code(&Card::new(Rank::Ace, Suit::Spades)), (12 << 2) | 3);
}

#[test]
fn key_is_the_codes_from_the_highest_down() {
    assert_eq!(canonical_key(&hand("7h6d5h4c4d3h2c")), 0x16_11_0E_09_08_06_00);
    assert_eq!(canonical_key(&hand("AsAhAdAcKsKhKd")), 0x33_32_31_30_2F_2E_2D);
}

#[test]
fn key_does_not_depend_on_the_order() {
    let a = hand("7h6d5h4c4d3h2c");
    let b = hand("4d2c7h3h6d4c5h");
    let c = hand("2c3h4d4c5h6d7h");
    assert_eq!(canonical_key(&a), canonical_key(&b));
    assert_eq!(canonical_key(&a), canonical_key(&c));
    assert_ne!(canonical_key(&a), canonical_key(&hand("7h6d5h4c4d3h2d")));
    assert_ne!(canonical_key(&a), canonical_key(&hand("7h6d5h4c4s3h2c")));
}

fn sample_hands(count: usize, seed: u64) -> Vec<Hand> {
    let deck = Deck::new();
    let cards = deck.cards();
    let mut state = seed;
    let mut hands = Vec::new();
    while hands.len() < count {
        let mut places: Vec<usize> = Vec::new();
        while places.len() < 7 {
            state = state
                .wrapping_mul(6364136223846793005)
                .wrapping_add(1442695040888963407);
            let place = ((state >> 33) % 52) as usize;
            if !places.contains(&place) {
                places.push(place);
            }
        }
        hands.push(Hand::new([
            cards[places[0]],
            cards[places[1]],
            cards[places[2]],
            cards[places[3]],
            cards[places[4]],
            cards[places[5]],
            cards[places[6]],
        ]));
    }
    hands
}

#[test]
fn keys_of_different_hands_differ() {
    let hands = sample_hands(2000, 11);
    let mut keyed: Vec<(u64, Vec<usize>)> = hands
        .iter()
        .map(|hand| {
            let mut places: Vec<usize> = hand.cards().iter().map(|card| card.index()).collect();
            places.sort();
            (canonical_key(hand), places)
        })
        .collect();
    keyed.sort();
    for pair in keyed.windows(2) {
        assert_eq!(pair[0].0 == pair[1].0, pair[0].1 == pair[1].1);
    }
}

#[test]
fn lookup_gives_what_evaluation_gives() {
    let hands = sample_hands(1500, 3);
    let table = Table::from_hands(&hands).unwrap();
    assert!(table.len() <= 1500);
    assert!(table.len() > 1400);
    for hand in hands.iter() {
        assert_eq!(table.lookup(hand).ok(), evaluate_five_cards(hand).ok());
        let cards = hand.cards();
        let turned = Hand::new([
            cards[3], cards[6], cards[0], cards[5], cards[1], cards[4], cards[2],
        ]);
        assert_eq!(table.lookup(&turned), table.lookup(hand));
        let back = Hand::new([
            cards[6], cards[5], cards[4], cards[3], cards[2], cards[1], cards[0],
        ]);
        assert_eq!(table.lookup(&back).ok(), evaluate_five_cards(hand).ok());
    }
}

#[test]
fn lookup_on_random_hands_from_a_shuffled_deck() {
    let mut hands = Vec::new();
    for _ in 0..50 {
        let mut deck = Deck::new().shuffled();
        let mut cards = [Card::new(Rank::Two, Suit::Clubs); 7];
        for card in cards.iter_mut() {
            *card = deck.draw_card().unwrap();
        }
        hands.push(Hand::new(cards));
    }
    let table = Table::from_hands(&hands).unwrap();
    for hand in hands.iter() {
        assert!(hand.is_valid());
        assert_eq!(table.lookup(hand).ok(), evaluate_five_cards(hand).ok());
    }
}

#[test]
fn table_of_generated_hands() {
    let mut generator = HandsGenerator::new();
    generator.generate_i(40);
    let table = Table::from_hands(generator.hands()).unwrap();
    assert_eq!(table.len(), 792);
    assert_eq!(
        table.lookup(&hand("AsKsQsJsTs9s8s")),
        Ok(HandRanking::StraightFlush(Rank::Ace))
    );
    assert_eq!(
        table.lookup(&hand("8s9sTsJsQsKsAs")),
        Ok(HandRanking::StraightFlush(Rank::Ace))
    );
    assert_eq!(
        table.lookup(&hand("2c3c4c5c6c7c8c")),
        Err(LookupError::KeyEncodingMismatch)
    );
}

#[test]
fn lookup_errors() {
    let mut table = Table::new();
    assert_eq!(table.len(), 0);
    let good = hand("7h6d5h4c4d3h2c");
    let twice = Hand::new([
        Card::new(Rank::Seven, Suit::Diamonds),
        Card::new(Rank::Nine, Suit::Hearts),
        Card::new(Rank::Nine, Suit::Spades),
        Card::new(Rank::Six, Suit::Spades),
        Card::new(Rank::Six, Suit::Diamonds),
        Card::new(Rank::Ace, Suit::Hearts),
        Card::new(Rank::Nine, Suit::Hearts),
    ]);
    assert_eq!(table.lookup(&good), Err(LookupError::KeyEncodingMismatch));
    assert_eq!(table.lookup(&twice), Err(LookupError::InvalidHand));
    assert_eq!(table.insert(&twice), Err(InvalidHand));
    assert_eq!(table.len(), 0);
    assert_eq!(table.insert(&good), Ok(()));
    assert_eq!(table.len(), 1);
    assert_eq!(table.insert(&hand("2c3h4d4c5h6d7h")), Ok(()));
    assert_eq!(table.len(), 1);
    assert_eq!(table.lookup(&good), Ok(HandRanking::Straight(Rank::Seven)));
    assert_eq!(table.lookup(&twice), Err(LookupError::InvalidHand));
    assert!(Table::from_hands(&vec![good, twice]).is_err());
    assert_eq!(Table::with_capacity(16).len(), 0);
}

#[test]
fn build_table_is_a_function() {
    // Building the whole table takes minutes and gigabytes; here it is only named.
    let build: fn() -> Table = build_table;
    let _ = build;
}

#[test]
fn table_wants_all_hands_of_the_generator() {
    let mut generator = HandsGenerator::new();
    assert_eq!(
        Table::from_generator(&generator).err(),
        Some(BuildError::IncompleteEnumeration)
    );
    generator.generate_i(40);
    assert_eq!(
        Table::from_generator(&generator).err(),
        Some(BuildError::IncompleteEnumeration)
    );
}
