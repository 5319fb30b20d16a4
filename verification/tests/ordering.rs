use bobr::naive_evaluator::card::Rank;
use bobr::naive_evaluator::hand_ranking::Flush;
use bobr::naive_evaluator::hand_ranking::FourOf;
use bobr::naive_evaluator::hand_ranking::FullHouse;
use bobr::naive_evaluator::hand_ranking::HandRanking;
use bobr::naive_evaluator::hand_ranking::Pair;
use bobr::naive_evaluator::hand_ranking::ThreeOf;
use bobr::naive_evaluator::hand_ranking::TwoPair;

fn ladder() -> Vec<HandRanking> {
    vec![
        HandRanking::HighCard([Rank::Seven, Rank::Five, Rank::Four, Rank::Three, Rank::Two]),
        HandRanking::HighCard([Rank::Ace, Rank::King, Rank::Queen, Rank::Jack, Rank::Eight]),
        HandRanking::HighCard([Rank::Ace, Rank::King, Rank::Queen, Rank::Jack, Rank::Nine]),
        HandRanking::Pair(Pair::new(Rank::Two, [Rank::Five, Rank::Four, Rank::Three])),
        HandRanking::Pair(Pair::new(Rank::Two, [Rank::Six, Rank::Four, Rank::Three])),
        HandRanking::Pair(Pair::new(Rank::Ace, [Rank::King, Rank::Queen, Rank::Jack])),
        HandRanking::TwoPair(TwoPair::new([Rank::Three, Rank::Two], Rank::Four)),
        HandRanking::TwoPair(TwoPair::new([Rank::Three, Rank::Two], Rank::Ace)),
        HandRanking::TwoPair(TwoPair::new([Rank::Four, Rank::Two], Rank::Three)),
        HandRanking::TwoPair(TwoPair::new([Rank::Ace, Rank::King], Rank::Queen)),
        HandRanking::ThreeOf(ThreeOf::new(Rank::Two, [Rank::Four, Rank::Three])),
        HandRanking::ThreeOf(ThreeOf::new(Rank::Two, [Rank::Five, Rank::Three])),
        HandRanking::ThreeOf(ThreeOf::new(Rank::Ace, [Rank::King, Rank::Queen])),
        HandRanking::Straight(Rank::Five),
        HandRanking::Straight(Rank::Six),
        HandRanking::Straight(Rank::Ace),
        HandRanking::Flush(Flush::new([Rank::Seven, Rank::Five, Rank::Four, Rank::Three, Rank::Two])),
        HandRanking::Flush(Flush::new([Rank::Ace, Rank::King, Rank::Queen, Rank::Jack, Rank::Nine])),
        HandRanking::FullHouse(FullHouse::new(Rank::Three, Rank::Two)),
        HandRanking::FullHouse(FullHouse::new(Rank::Ace, Rank::Two)),
        HandRanking::FullHouse(FullHouse::new(Rank::Two, Rank::Three)),
        HandRanking::FullHouse(FullHouse::new(Rank::King, Rank::Ace)),
        HandRanking::FourOf(FourOf::new(Rank::Two, Rank::Three)),
        HandRanking::FourOf(FourOf::new(Rank::Two, Rank::Ace)),
        HandRanking::FourOf(FourOf::new(Rank::Ace, Rank::King)),
        HandRanking::StraightFlush(Rank::Six),
        HandRanking::StraightFlush(Rank::King),
        HandRanking::StraightFlush(Rank::Ace),
    ]
}

#[test]
fn ladder_is_strictly_rising() {
    let ladder = ladder();
    for i in 0..ladder.len() {
        for j in 0..ladder.len() {
            assert_eq!(ladder[i] < ladder[j], i < j);
            assert_eq!(ladder[i] > ladder[j], i > j);
            assert_eq!(ladder[i] == ladder[j], i == j);
            assert_eq!(ladder[i] <= ladder[j], i <= j);
            assert_eq!(ladder[i].cmp(&ladder[j]), i.cmp(&j));
            assert_eq!(ladder[i].partial_cmp(&ladder[j]), Some(i.cmp(&j)));
        }
    }
}

#[test]
fn order_is_transitive_on_the_ladder() {
    let ladder = ladder();
    for a in &ladder {
        for b in &ladder {
            for c in &ladder {
                if a < b && b < c {
                    assert!(a < c);
                }
            }
        }
    }
}

#[test]
fn every_ranking_equals_itself() {
    for ranking in ladder() {
        let copy = ranking;
        assert_eq!(ranking, copy);
        assert!(!(ranking < copy));
        assert!(!(ranking > copy));
    }
}

#[test]
fn full_house_is_compared_by_the_three_first() {
    // new takes the rank of the pair first, then the rank of the three.
    let low_three = HandRanking::FullHouse(FullHouse::new(Rank::Ace, Rank::Two));
    let high_three = HandRanking::FullHouse(FullHouse::new(Rank::Two, Rank::Three));
    assert!(low_three < high_three);
}

#[test]
fn category_decides_before_any_rank() {
    assert!(
        HandRanking::HighCard([Rank::Ace, Rank::King, Rank::Queen, Rank::Jack, Rank::Nine])
            < HandRanking::Pair(Pair::new(Rank::Two, [Rank::Five, Rank::Four, Rank::Three]))
    );
    assert!(
        HandRanking::Flush(Flush::new([Rank::Ace, Rank::King, Rank::Queen, Rank::Jack, Rank::Nine]))
            < HandRanking::FullHouse(FullHouse::new(Rank::Three, Rank::Two))
    );
    assert!(HandRanking::FourOf(FourOf::new(Rank::Ace, Rank::King)) < HandRanking::StraightFlush(Rank::Six));
}
