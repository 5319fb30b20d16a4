use bobr::naive_evaluator::card::Card;
use bobr::naive_evaluator::card::Rank;
use bobr::naive_evaluator::card::Suit;
use bobr::naive_evaluator::evaluator::evaluate_five_cards;
use bobr::naive_evaluator::hand::Hand;
use bobr::naive_evaluator::hand_ranking::Flush;
use bobr::naive_evaluator::hand_ranking::FourOf;
use bobr::naive_evaluator::hand_ranking::FullHouse;
use bobr::naive_evaluator::hand_ranking::HandRanking;
use bobr::naive_evaluator::hand_ranking::Pair;
use bobr::naive_evaluator::hand_ranking::ThreeOf;
use bobr::naive_evaluator::hand_ranking::TwoPair;

#[test]
fn test_flush_royal() {
    let hand = Hand::new([
        Card::new(Rank::Ace, Suit::Clubs),
        Card::new(Rank::King, Suit::Clubs),
        Card::new(Rank::Queen, Suit::Clubs),
        Card::new(Rank::Jack, Suit::Clubs),
        Card::new(Rank::Ten, Suit::Clubs),
        Card::new(Rank::Three, Suit::Spades),
        Card::new(Rank::Two, Suit::Spades)
    ]);
    let ranking = evaluate_five_cards(&hand);
    assert_eq!(ranking, Ok(HandRanking::StraightFlush(Rank::Ace)));
}

#[test]
fn test_straight_flush() {
    let hand = Hand::new([
        Card::new(Rank::Ten, Suit::Clubs),
        Card::new(Rank::Nine, Suit::Clubs),
        Card::new(Rank::Eight, Suit::Clubs),
        Card::new(Rank::Seven, Suit::Clubs),
        Card::new(Rank::Six, Suit::Clubs),
        Card::new(Rank::Ace, Suit::Spades),
        Card::new(Rank::King, Suit::Spades)
    ]);
    let ranking = evaluate_five_cards(&hand);
    assert_eq!(ranking, Ok(HandRanking::StraightFlush(Rank::Ten)));
}

#[test]
fn test_four_of() {
    let hand = Hand::new([
        Card::new(Rank::Nine, Suit::Diamonds),
        Card::new(Rank::Ten, Suit::Clubs),
        Card::new(Rank::Nine, Suit::Clubs),
        Card::new(Rank::Ace, Suit::Clubs),
        Card::new(Rank::Nine, Suit::Spades),
        Card::new(Rank::Nine, Suit::Hearts),
        Card::new(Rank::King, Suit::Spades)
    ]);
    let ranking = evaluate_five_cards(&hand);
    assert_eq!(ranking, Ok(HandRanking::FourOf(FourOf::new(Rank::Nine, Rank::Ace))));
}

#[test]
fn test_flush() {
    let hand = Hand::new([
        Card::new(Rank::Nine, Suit::Diamonds),
        Card::new(Rank::Ten, Suit::Clubs),
        Card::new(Rank::King, Suit::Clubs),
        Card::new(Rank::Two, Suit::Clubs),
        Card::new(Rank::Nine, Suit::Clubs),
        Card::new(Rank::Eight, Suit::Clubs),
        Card::new(Rank::King, Suit::Spades)
    ]);
    let ranking = evaluate_five_cards(&hand);
    assert_eq!(ranking, Ok(HandRanking::Flush(
        Flush::new([Rank::King, Rank::Ten, Rank::Nine, Rank::Eight, Rank::Two])
    )));
}

#[test]
fn test_straight() {
    let hand = Hand::new([
        Card::new(Rank::Two, Suit::Diamonds),
        Card::new(Rank::Three, Suit::Clubs),
        Card::new(Rank::Four, Suit::Spades),
        Card::new(Rank::Five, Suit::Diamonds),
        Card::new(Rank::Six, Suit::Hearts),
        Card::new(Rank::Ace, Suit::Clubs),
        Card::new(Rank::King, Suit::Spades)
    ]);
    let ranking = evaluate_five_cards(&hand);
    assert_eq!(ranking, Ok(HandRanking::Straight(Rank::Six)));
    
    let hand = Hand::new([
        Card::new(Rank::Two, Suit::Diamonds),
        Card::new(Rank::Three, Suit::Clubs),
        Card::new(Rank::Four, Suit::Spades),
        Card::new(Rank::Five, Suit::Diamonds),
        Card::new(Rank::Nine, Suit::Hearts),
        Card::new(Rank::Ace, Suit::Clubs),
        Card::new(Rank::King, Suit::Spades)
    ]);
    let ranking = evaluate_five_cards(&hand);
    assert_eq!(ranking, Ok(HandRanking::Straight(Rank::Five)));
    
    let hand = Hand::new([
        Card::new(Rank::Two, Suit::Diamonds),
        Card::new(Rank::Three, Suit::Clubs),
        Card::new(Rank::Ten, Suit::Spades),
        Card::new(Rank::Jack, Suit::Diamonds),
        Card::new(Rank::Queen, Suit::Hearts),
        Card::new(Rank::Ace, Suit::Clubs),
        Card::new(Rank::King, Suit::Spades)
    ]);
    let ranking = evaluate_five_cards(&hand);
    assert_eq!(ranking, Ok(HandRanking::Straight(Rank::Ace)));
}

#[test]
fn test_three_of() {
    let hand = Hand::new([
        Card::new(Rank::Two, Suit::Diamonds),
        Card::new(Rank::Two, Suit::Clubs),
        Card::new(Rank::Two, Suit::Spades),
        Card::new(Rank::Eight, Suit::Diamonds),
        Card::new(Rank::Three, Suit::Hearts),
        Card::new(Rank::Seven, Suit::Clubs),
        Card::new(Rank::King, Suit::Spades)
    ]);
    let ranking = evaluate_five_cards(&hand);
    assert_eq!(ranking, Ok(HandRanking::ThreeOf(
        ThreeOf::new(Rank::Two, [Rank::King, Rank::Eight])
    )));
}

#[test]
fn test_two_pair() {
    let hand = Hand::new([
        Card::new(Rank::Two, Suit::Diamonds),
        Card::new(Rank::Three, Suit::Clubs),
        Card::new(Rank::Three, Suit::Spades),
        Card::new(Rank::Eight, Suit::Diamonds),
        Card::new(Rank::Eight, Suit::Hearts),
        Card::new(Rank::Seven, Suit::Clubs),
        Card::new(Rank::King, Suit::Spades)
    ]);
    let ranking = evaluate_five_cards(&hand);
    assert_eq!(ranking, Ok(HandRanking::TwoPair(
        TwoPair::new([Rank::Eight, Rank::Three], Rank::King)
    )));
}

#[test]
fn test_pair() {
    let hand = Hand::new([
        Card::new(Rank::Two, Suit::Diamonds),
        Card::new(Rank::Three, Suit::Clubs),
        Card::new(Rank::Three, Suit::Spades),
        Card::new(Rank::Eight, Suit::Diamonds),
        Card::new(Rank::Ace, Suit::Hearts),
        Card::new(Rank::Seven, Suit::Clubs),
        Card::new(Rank::King, Suit::Spades)
    ]);
    let ranking = evaluate_five_cards(&hand);
    assert_eq!(ranking, Ok(HandRanking::Pair(
        Pair::new(Rank::Three, [Rank::Ace, Rank::King, Rank::Eight])
    )));
}

#[test]
fn evaluator_test_high_card() {
    let hand = Hand::new([
        Card::new(Rank::Two, Suit::Diamonds),
        Card::new(Rank::Three, Suit::Clubs),
        Card::new(Rank::Ten, Suit::Spades),
        Card::new(Rank::Eight, Suit::Diamonds),
        Card::new(Rank::Queen, Suit::Hearts),
        Card::new(Rank::Seven, Suit::Clubs),
        Card::new(Rank::Five, Suit::Spades)
    ]);
    let ranking = evaluate_five_cards(&hand);
    assert_eq!(ranking, Ok(HandRanking::HighCard(
        [Rank::Queen, Rank::Ten, Rank::Eight, Rank::Seven, Rank::Five]
    )));
}

#[test]
fn test_real_world_cases() {
    let hand = Hand::new([
        Card::new(Rank::Seven, Suit::Diamonds),
        Card::new(Rank::Nine, Suit::Hearts),
        Card::new(Rank::Nine, Suit::Spades),
        Card::new(Rank::Six, Suit::Spades),
        Card::new(Rank::Six, Suit::Diamonds),
        Card::new(Rank::Ace, Suit::Hearts),
        Card::new(Rank::Nine, Suit::Diamonds)
    ]);
    let ranking = evaluate_five_cards(&hand);
    assert_eq!(ranking, Ok(HandRanking::FullHouse(
        FullHouse::new(Rank::Six, Rank::Nine)
    )));

    let hand = Hand::new([
        Card::new(Rank::Ten, Suit::Hearts),
        Card::new(Rank::Eight, Suit::Hearts),
        Card::new(Rank::Nine, Suit::Spades),
        Card::new(Rank::Six, Suit::Spades),
        Card::new(Rank::Six, Suit::Diamonds),
        Card::new(Rank::Ace, Suit::Hearts),
        Card::new(Rank::Nine, Suit::Diamonds)
    ]);
    let ranking = evaluate_five_cards(&hand);
    assert_eq!(ranking, Ok(HandRanking::TwoPair(
        TwoPair::new([Rank::Nine, Rank::Six], Rank::Ace)
    )));

    let hand = Hand::new([
        Card::new(Rank::King, Suit::Spades),
        Card::new(Rank::Five, Suit::Clubs),
        Card::new(Rank::Nine, Suit::Hearts),
        Card::new(Rank::Nine, Suit::Spades),
        Card::new(Rank::Six, Suit::Spades),
        Card::new(Rank::Queen, Suit::Clubs),
        Card::new(Rank::Four, Suit::Clubs)
    ]);
    let ranking = evaluate_five_cards(&hand);
    assert_eq!(ranking, Ok(HandRanking::Pair(
        Pair::new(Rank::Nine, [Rank::King, Rank::Queen, Rank::Six])
    )));
    
    let hand = Hand::new([
        Card::new(Rank::Jack, Suit::Hearts),
        Card::new(Rank::Three, Suit::Diamonds),
        Card::new(Rank::Nine, Suit::Hearts),
        Card::new(Rank::Nine, Suit::Spades),
        Card::new(Rank::Six, Suit::Spades),
        Card::new(Rank::Queen, Suit::Clubs),
        Card::new(Rank::Four, Suit::Clubs)
    ]);
    let ranking = evaluate_five_cards(&hand);
    assert_eq!(ranking, Ok(HandRanking::Pair(
        Pair::new(Rank::Nine, [Rank::Queen, Rank::Jack, Rank::Six])
    )));
}

#[test]
fn test_straight_with_duplicated_card() {
    let hand = Hand::try_from("7h6d5h4c4d3h2c").unwrap();
    let ranking = evaluate_five_cards(&hand);
    assert_eq!(ranking, Ok(HandRanking::Straight(Rank::Seven)));
}
