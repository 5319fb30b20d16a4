use bobr::naive_evaluator::card::Card;
use bobr::naive_evaluator::card::Rank;
use bobr::naive_evaluator::card::Suit;
use bobr::naive_evaluator::deck::Deck;
use bobr::naive_evaluator::evaluator::evaluate_five_cards;
use bobr::naive_evaluator::evaluator::InvalidHand;
use bobr::naive_evaluator::hand::Hand;
use bobr::naive_evaluator::hand_ranking::Flush;
use bobr::naive_evaluator::hand_ranking::FourOf;
use bobr::naive_evaluator::hand_ranking::FullHouse;
use bobr::naive_evaluator::hand_ranking::HandRanking;
use bobr::naive_evaluator::hand_ranking::Pair;
use bobr::naive_evaluator::hand_ranking::ThreeOf;
use bobr::naive_evaluator::hand_ranking::TwoPair;

fn hand(text: &str) -> Hand {
    Hand::try_from(text).unwrap()
}

/// Five cards by the common rules, the ace low in a straight flush too.
fn score_five(cards: &[Card]) -> HandRanking {
    let mut sorted: Vec<Card> = cards.to_vec();
    sorted.sort_by(|a, b| b.rank().cmp(&a.rank()));
    let r: Vec<Rank> = sorted.iter().map(|c| c.rank()).collect();
    let v: Vec<u8> = r.iter().map(|x| x.index()).collect();
    let one_suit = sorted.iter().all(|c| c.suit() == sorted[0].suit());
    let run = (0..4).all(|i| v[i] == v[i + 1] + 1);
    let low_ace = v == vec![12, 3, 2, 1, 0];
    if one_suit && run {
        return HandRanking::StraightFlush(r[0]);
    }
    if one_suit && low_ace {
        return HandRanking::StraightFlush(r[1]);
    }
    if v[0] == v[3] {
        return HandRanking::FourOf(FourOf::new(r[0], r[4]));
    }
    if v[1] == v[4] {
        return HandRanking::FourOf(FourOf::new(r[1], r[0]));
    }
    if v[0] == v[2] && v[3] == v[4] {
        return HandRanking::FullHouse(FullHouse::new(r[3], r[0]));
    }
    if v[0] == v[1] && v[2] == v[4] {
        return HandRanking::FullHouse(FullHouse::new(r[0], r[2]));
    }
    if one_suit {
        return HandRanking::Flush(Flush::new([r[0], r[1], r[2], r[3], r[4]]));
    }
    if run {
        return HandRanking::Straight(r[0]);
    }
    if low_ace {
        return HandRanking::Straight(r[1]);
    }
    if v[0] == v[2] {
        return HandRanking::ThreeOf(ThreeOf::new(r[0], [r[3], r[4]]));
    }
    if v[1] == v[3] {
        return HandRanking::ThreeOf(ThreeOf::new(r[1], [r[0], r[4]]));
    }
    if v[2] == v[4] {
        return HandRanking::ThreeOf(ThreeOf::new(r[2], [r[0], r[1]]));
    }
    if v[0] == v[1] && v[2] == v[3] {
        return HandRanking::TwoPair(TwoPair::new([r[0], r[2]], r[4]));
    }
    if v[0] == v[1] && v[3] == v[4] {
        return HandRanking::TwoPair(TwoPair::new([r[0], r[3]], r[2]));
    }
    if v[1] == v[2] && v[3] == v[4] {
        return HandRanking::TwoPair(TwoPair::new([r[1], r[3]], r[0]));
    }
    if v[0] == v[1] {
        return HandRanking::Pair(Pair::new(r[0], [r[2], r[3], r[4]]));
    }
    if v[1] == v[2] {
        return HandRanking::Pair(Pair::new(r[1], [r[0], r[3], r[4]]));
    }
    if v[2] == v[3] {
        return HandRanking::Pair(Pair::new(r[2], [r[0], r[1], r[4]]));
    }
    if v[3] == v[4] {
        return HandRanking::Pair(Pair::new(r[3], [r[0], r[1], r[2]]));
    }
    HandRanking::HighCard([r[0], r[1], r[2], r[3], r[4]])
}

/// The best of the 21 fives of seven cards.
fn best_of_seven(cards: &[Card; 7]) -> HandRanking {
    let mut best: Option<HandRanking> = None;
    for skip_a in 0..7 {
        for skip_b in (skip_a + 1)..7 {
            let five: Vec<Card> = (0..7)
                .filter(|i| *i != skip_a && *i != skip_b)
                .map(|i| cards[i])
                .collect();
            let ranking = score_five(&five);
            best = match best {
                Some(so_far) if so_far >= ranking => Some(so_far),
                _ => Some(ranking),
            };
        }
    }
    best.unwrap()
}

fn sample_hands(count: usize, seed: u64) -> Vec<[Card; 7]> {
    let deck = Deck::new();
    let mut state = seed;
    let mut hands = Vec::new();
    while hands.len() < count {
        let mut places: Vec<usize> = Vec::new();
        while places.len() < 7 {
            state = state
                .wrapping_mul(6364136223846793005)
                .wrapping_add(1442695040888963407);
            let place = ((state >> 33) % 52) as usize;
            if !places.contains(&place) {
                places.push(place);
            }
        }
        let cards = deck.cards();
        hands.push([
            cards[places[0]],
            cards[places[1]],
            cards[places[2]],
            cards[places[3]],
            cards[places[4]],
            cards[places[5]],
            cards[places[6]],
        ]);
    }
    hands
}

#[test]
fn ranking_is_the_best_of_the_21_fives() {
    let mut checked = 0;
    for cards in sample_hands(4000, 7) {
        let expected = best_of_seven(&cards);
        if expected == HandRanking::StraightFlush(Rank::Five) {
            continue;
        }
        assert_eq!(evaluate_five_cards(&Hand::new(cards)), Ok(expected));
        checked += 1;
    }
    assert!(checked > 3900);
}

#[test]
fn ranking_is_the_best_of_the_21_fives_in_one_suit_and_a_half() {
    // Cards of two suits only: flushes, straight flushes and full houses are common.
    let deck = Deck::new();
    let cards = deck.cards();
    let mut state: u64 = 99;
    let mut checked = 0;
    for _ in 0..3000 {
        let mut places: Vec<usize> = Vec::new();
        while places.len() < 7 {
            state = state
                .wrapping_mul(6364136223846793005)
                .wrapping_add(1442695040888963407);
            let place = ((state >> 33) % 20) as usize;
            let place = if place < 13 { place } else { 13 + (place - 13) };
            if !places.contains(&place) {
                places.push(place);
            }
        }
        let seven = [
            cards[places[0]],
            cards[places[1]],
            cards[places[2]],
            cards[places[3]],
            cards[places[4]],
            cards[places[5]],
            cards[places[6]],
        ];
        let expected = best_of_seven(&seven);
        if expected == HandRanking::StraightFlush(Rank::Five) {
            continue;
        }
        assert_eq!(evaluate_five_cards(&Hand::new(seven)), Ok(expected));
        checked += 1;
    }
    assert!(checked > 2000);
}

#[test]
fn every_category_is_found() {
    assert_eq!(
        evaluate_five_cards(&hand("AcKcQcJcTc3s2s")),
        Ok(HandRanking::StraightFlush(Rank::Ace))
    );
    assert_eq!(
        evaluate_five_cards(&hand("9d9c9s9hAcKsTc")),
        Ok(HandRanking::FourOf(FourOf::new(Rank::Nine, Rank::Ace)))
    );
    assert_eq!(
        evaluate_five_cards(&hand("9d9c9s6h6cKsTc")),
        Ok(HandRanking::FullHouse(FullHouse::new(Rank::Six, Rank::Nine)))
    );
    assert_eq!(
        evaluate_five_cards(&hand("KcTc9c8c2c9dKs")),
        Ok(HandRanking::Flush(Flush::new([
            Rank::King,
            Rank::Ten,
            Rank::Nine,
            Rank::Eight,
            Rank::Two
        ])))
    );
    assert_eq!(
        evaluate_five_cards(&hand("6h5d4s3c2dAcKs")),
        Ok(HandRanking::Straight(Rank::Six))
    );
    assert_eq!(
        evaluate_five_cards(&hand("2d2c2s8d3h7cKs")),
        Ok(HandRanking::ThreeOf(ThreeOf::new(
            Rank::Two,
            [Rank::King, Rank::Eight]
        )))
    );
    assert_eq!(
        evaluate_five_cards(&hand("8d8h3c3s2d7cKs")),
        Ok(HandRanking::TwoPair(TwoPair::new(
            [Rank::Eight, Rank::Three],
            Rank::King
        )))
    );
    assert_eq!(
        evaluate_five_cards(&hand("3c3s2d8dAh7cKs")),
        Ok(HandRanking::Pair(Pair::new(
            Rank::Three,
            [Rank::Ace, Rank::King, Rank::Eight]
        )))
    );
    assert_eq!(
        evaluate_five_cards(&hand("QhTs8d7c5s3c2d")),
        Ok(HandRanking::HighCard([
            Rank::Queen,
            Rank::Ten,
            Rank::Eight,
            Rank::Seven,
            Rank::Five
        ]))
    );
}

#[test]
fn straight_flush_is_found_among_other_cards_of_its_ranks() {
    // The nine of spades stands between the ten and the nine of hearts.
    assert_eq!(
        evaluate_five_cards(&hand("Th9s9h8h7h6h2c")),
        Ok(HandRanking::StraightFlush(Rank::Ten))
    );
    // The run ends before the lowest cards.
    assert_eq!(
        evaluate_five_cards(&hand("Th9h8h7h6h3c2d")),
        Ok(HandRanking::StraightFlush(Rank::Ten))
    );
    // Of two runs in a suit the higher counts.
    assert_eq!(
        evaluate_five_cards(&hand("9h8h7h6h5h4h2c")),
        Ok(HandRanking::StraightFlush(Rank::Nine))
    );
    // The lowest run in a suit.
    assert_eq!(
        evaluate_five_cards(&hand("6h5h4h3h2h2c2d")),
        Ok(HandRanking::StraightFlush(Rank::Six))
    );
}

#[test]
fn wheel_is_a_straight_with_high_card_five() {
    let wheel = evaluate_five_cards(&hand("Ac2d3s4d5h9cKs")).unwrap();
    assert_eq!(wheel, HandRanking::Straight(Rank::Five));
    let six_high = evaluate_five_cards(&hand("6c2d3s4d5h9cKs")).unwrap();
    assert_eq!(six_high, HandRanking::Straight(Rank::Six));
    assert!(wheel < six_high);
    let three_aces = evaluate_five_cards(&hand("AcAdAs4d5h9cKs")).unwrap();
    assert!(wheel > three_aces);
    let two_pair = evaluate_five_cards(&hand("AcAdKs4d5h9cKh")).unwrap();
    assert!(wheel > two_pair);
}

#[test]
fn ace_is_low_in_a_plain_straight_only() {
    // Ace to five of one suit: by this library's rules a flush.
    assert_eq!(
        evaluate_five_cards(&hand("Ah2h3h4h5h9cKd")),
        Ok(HandRanking::Flush(Flush::new([
            Rank::Ace,
            Rank::Five,
            Rank::Four,
            Rank::Three,
            Rank::Two
        ])))
    );
    // With the six of the suit there is a run from the six down.
    assert_eq!(
        evaluate_five_cards(&hand("Ah2h3h4h5h6hKd")),
        Ok(HandRanking::StraightFlush(Rank::Six))
    );
}

#[test]
fn straight_with_a_rank_twice() {
    assert_eq!(
        evaluate_five_cards(&hand("7h6d5h4c4d3h2c")),
        Ok(HandRanking::Straight(Rank::Seven))
    );
    assert_eq!(
        evaluate_five_cards(&hand("7h7d6d5h4c3h3c")),
        Ok(HandRanking::Straight(Rank::Seven))
    );
}

#[test]
fn royal_flush_outranks_everything() {
    let royal = evaluate_five_cards(&hand("AcKcQcJcTc3s2s")).unwrap();
    let king_high = evaluate_five_cards(&hand("KcQcJcTc9c3s2s")).unwrap();
    let four = evaluate_five_cards(&hand("AcAdAhAsKc3s2s")).unwrap();
    let full = evaluate_five_cards(&hand("AcAdAhKsKc3s2s")).unwrap();
    assert_eq!(royal, HandRanking::StraightFlush(Rank::Ace));
    assert_eq!(king_high, HandRanking::StraightFlush(Rank::King));
    assert!(royal > king_high);
    assert!(royal > four);
    assert!(royal > full);
    assert!(king_high > four);
}

#[test]
fn full_house_takes_the_higher_three_and_the_best_pair() {
    // Two threes: the higher is the three, the lower gives the pair.
    assert_eq!(
        evaluate_five_cards(&hand("AcAdAhKsKcKd2s")),
        Ok(HandRanking::FullHouse(FullHouse::new(Rank::King, Rank::Ace)))
    );
    // A three and two pairs: the higher pair counts.
    assert_eq!(
        evaluate_five_cards(&hand("5c5d5hKsKcQdQs")),
        Ok(HandRanking::FullHouse(FullHouse::new(Rank::King, Rank::Five)))
    );
}

#[test]
fn three_pairs_give_two_pair_with_the_best_kicker() {
    assert_eq!(
        evaluate_five_cards(&hand("AcAdKhKsQcQdJs")),
        Ok(HandRanking::TwoPair(TwoPair::new(
            [Rank::Ace, Rank::King],
            Rank::Queen
        )))
    );
    assert_eq!(
        evaluate_five_cards(&hand("AcAdKhKs3c3dJs")),
        Ok(HandRanking::TwoPair(TwoPair::new(
            [Rank::Ace, Rank::King],
            Rank::Jack
        )))
    );
}

#[test]
fn four_of_a_kind_takes_the_best_kicker() {
    assert_eq!(
        evaluate_five_cards(&hand("2c2d2h2sKcKdKs")),
        Ok(HandRanking::FourOf(FourOf::new(Rank::Two, Rank::King)))
    );
}

#[test]
fn order_of_the_cards_does_not_matter() {
    let a = Hand::new([
        Card::new(Rank::Seven, Suit::Diamonds),
        Card::new(Rank::Nine, Suit::Hearts),
        Card::new(Rank::Nine, Suit::Spades),
        Card::new(Rank::Six, Suit::Spades),
        Card::new(Rank::Six, Suit::Diamonds),
        Card::new(Rank::Ace, Suit::Hearts),
        Card::new(Rank::Nine, Suit::Diamonds),
    ]);
    let b = Hand::new([
        Card::new(Rank::Nine, Suit::Diamonds),
        Card::new(Rank::Ace, Suit::Hearts),
        Card::new(Rank::Six, Suit::Diamonds),
        Card::new(Rank::Six, Suit::Spades),
        Card::new(Rank::Nine, Suit::Spades),
        Card::new(Rank::Nine, Suit::Hearts),
        Card::new(Rank::Seven, Suit::Diamonds),
    ]);
    assert_eq!(evaluate_five_cards(&a), evaluate_five_cards(&b));
}

#[test]
fn hand_with_a_card_twice_is_refused() {
    let twice = Hand::new([
        Card::new(Rank::Seven, Suit::Diamonds),
        Card::new(Rank::Nine, Suit::Hearts),
        Card::new(Rank::Nine, Suit::Spades),
        Card::new(Rank::Six, Suit::Spades),
        Card::new(Rank::Six, Suit::Diamonds),
        Card::new(Rank::Ace, Suit::Hearts),
        Card::new(Rank::Nine, Suit::Hearts),
    ]);
    assert!(!twice.is_valid());
    assert_eq!(evaluate_five_cards(&twice), Err(InvalidHand));
    assert!(hand("7d9h9s6s6dAh9d").is_valid());
}
