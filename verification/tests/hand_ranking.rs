use bobr::naive_evaluator::card::Rank;
use bobr::naive_evaluator::hand_ranking::Flush;
use bobr::naive_evaluator::hand_ranking::FourOf;
use bobr::naive_evaluator::hand_ranking::FullHouse;
use bobr::naive_evaluator::hand_ranking::HandRanking;
use bobr::naive_evaluator::hand_ranking::Pair;
use bobr::naive_evaluator::hand_ranking::ThreeOf;
use bobr::naive_evaluator::hand_ranking::TwoPair;

#[test]
fn test_breaking_four_of_tie() {
    assert_eq!(
        HandRanking::FourOf(FourOf::new(Rank::Jack, Rank::Seven)),
        HandRanking::FourOf(FourOf::new(Rank::Jack, Rank::Seven))
    );

    assert!(
        HandRanking::FourOf(FourOf::new(Rank::Jack, Rank::Two)) <
        HandRanking::FourOf(FourOf::new(Rank::Jack, Rank::Three))
    )
}

#[test]
fn test_breaking_straight_flush_tie() {
    assert!(
        HandRanking::StraightFlush(Rank::Jack) >
        HandRanking::StraightFlush(Rank::Ten)
    );
}

#[test]
fn test_breaking_full_house_tie() {
    assert!(
        HandRanking::FullHouse(FullHouse::new(Rank::Jack, Rank::Two)) <
        HandRanking::FullHouse(FullHouse::new(Rank::Jack, Rank::Three))
    );

    assert!(
        HandRanking::FullHouse(FullHouse::new(Rank::Jack, Rank::Three)) >
        HandRanking::FullHouse(FullHouse::new(Rank::Ten, Rank::Three))
    );
}

#[test]
fn test_breaking_flush_tie() {
    assert_eq!(
        HandRanking::Flush(Flush::new([Rank::Jack, Rank::Six, Rank::Five, Rank::Four, Rank::Three])),
        HandRanking::Flush(Flush::new([Rank::Jack, Rank::Six, Rank::Five, Rank::Four, Rank::Three]))
    );

    assert!(
        HandRanking::Flush(Flush::new([Rank::Jack, Rank::Nine, Rank::Six, Rank::Five, Rank::Four])) >
        HandRanking::Flush(Flush::new([Rank::Jack, Rank::Eight, Rank::Six, Rank::Five, Rank::Four]))
    );
}

#[test]
fn test_breaking_three_of_tie() {
    assert_eq!(
        HandRanking::ThreeOf(ThreeOf::new(Rank::Ace, [Rank::King, Rank::Queen])),
        HandRanking::ThreeOf(ThreeOf::new(Rank::Ace, [Rank::King, Rank::Queen]))
    );

    assert!(
        HandRanking::ThreeOf(ThreeOf::new(Rank::Ace, [Rank::King, Rank::Jack])) <
        HandRanking::ThreeOf(ThreeOf::new(Rank::Ace, [Rank::King, Rank::Queen]))
    );

    assert!(
        HandRanking::ThreeOf(ThreeOf::new(Rank::Ace, [Rank::King, Rank::Jack])) >
        HandRanking::ThreeOf(ThreeOf::new(Rank::Two, [Rank::King, Rank::Queen]))
    );
}

#[test]
fn test_breaking_tow_pair_tie() {
    assert_eq!(
        HandRanking::TwoPair(TwoPair::new([Rank::King, Rank::Queen], Rank::Jack)),
        HandRanking::TwoPair(TwoPair::new([Rank::King, Rank::Queen], Rank::Jack))
    );
    
    assert!(
        HandRanking::TwoPair(TwoPair::new([Rank::Ten, Rank::Nine], Rank::Jack)) >
        HandRanking::TwoPair(TwoPair::new([Rank::Ten, Rank::Two], Rank::Jack))
    );
    
    assert!(
        HandRanking::TwoPair(TwoPair::new([Rank::Ten, Rank::Two], Rank::Jack)) >
        HandRanking::TwoPair(TwoPair::new([Rank::Ten, Rank::Two], Rank::Eight))
    );
    
    assert!(
        HandRanking::TwoPair(TwoPair::new([Rank::Queen, Rank::Two], Rank::Jack)) >
        HandRanking::TwoPair(TwoPair::new([Rank::Ten, Rank::Two], Rank::Eight))
    );
}

#[test]
fn test_breaking_pair_tie() {
    assert!(
        HandRanking::Pair(Pair::new(Rank::Ace, [Rank::King, Rank::Jack, Rank::Two])) >
        HandRanking::Pair(Pair::new(Rank::Eight, [Rank::King, Rank::Queen, Rank::Two]))
    );

    assert!(
        HandRanking::Pair(Pair::new(Rank::Ace, [Rank::King, Rank::Jack, Rank::Two])) <
        HandRanking::Pair(Pair::new(Rank::Ace, [Rank::King, Rank::Queen, Rank::Two]))
    );
}

#[test]
fn hand_ranking_test_high_card() {
    assert!(
        HandRanking::HighCard([Rank::King, Rank::Queen, Rank::Four, Rank::Three, Rank::Two]) >
        HandRanking::HighCard([Rank::King, Rank::Jack, Rank::Four, Rank::Three, Rank::Two])
    );
}
