use super::card::Card;
use super::card::Rank;
use super::evaluator::flush_in;
use super::evaluator::flush_of;
use super::evaluator::four_of;
use super::evaluator::full_house_of;
use super::evaluator::high_card_of;
use super::evaluator::holds;
use super::evaluator::lemma_card_at;
use super::evaluator::lemma_card_is_at;
use super::evaluator::lemma_highest_marked;
use super::evaluator::pairs_of;
use super::evaluator::pick;
use super::evaluator::rank_count;
use super::evaluator::ranking_of;
use super::evaluator::ranks_held;
use super::evaluator::ranks_in_suit;
use super::evaluator::run_from;
use super::evaluator::straight_flush_highs;
use super::evaluator::straight_flush_of;
use super::evaluator::straight_highs;
use super::evaluator::straight_of;
use super::evaluator::stronger_of;
use super::evaluator::three_of;
use super::evaluator::highest_marked;
use super::evaluator::wheel;
use super::evaluator::without;
use super::hand::is_descending;
use super::hand::Hand;
use super::hand_ranking::Flush;
use super::hand_ranking::FourOf;
use super::hand_ranking::FullHouse;
use super::hand_ranking::HandRanking;
use super::hand_ranking::Pair;
use super::hand_ranking::ThreeOf;
use super::hand_ranking::TwoPair;
use vstd::prelude::*;

verus! {

/// Five cards in descending order of rank, none of them twice.
pub open spec fn is_five(five: Seq<Card>) -> bool {
    five.len() == 5 && is_descending(five) && five.no_duplicates()
}

/// Five of the cards that are held.
pub open spec fn is_five_of(five: Seq<Card>, held: Set<Card>) -> bool {
    is_five(five) && forall|i: int| 0 <= i < 5 ==> held.contains(#[trigger] five[i])
}

/// The strength of five cards by the common rules of poker. The cards are
/// taken in descending order of rank, so equal ranks stand side by side. An
/// ace may end a straight at the top or begin it at the bottom, in a
/// straight flush too.
pub open spec fn five_card_ranking(five: Seq<Card>) -> HandRanking {
    let a = five[0].rank();
    let b = five[1].rank();
    let c = five[2].rank();
    let d = five[3].rank();
    let e = five[4].rank();
    let one_suit = five[0].suit() == five[1].suit() && five[1].suit() == five[2].suit()
        && five[2].suit() == five[3].suit() && five[3].suit() == five[4].suit();
    let run = a.value() == b.value() + 1 && b.value() == c.value() + 1 && c.value() == d.value() + 1
        && d.value() == e.value() + 1;
    let low_ace = a.value() == 12 && b.value() == 3 && c.value() == 2 && d.value() == 1
        && e.value() == 0;
    if one_suit && run {
        HandRanking::StraightFlush(a)
    } else if one_suit && low_ace {
        HandRanking::StraightFlush(b)
    } else if a == d {
        HandRanking::FourOf(FourOf { rank: a, kicker: e })
    } else if b == e {
        HandRanking::FourOf(FourOf { rank: b, kicker: a })
    } else if a == c && d == e {
        HandRanking::FullHouse(FullHouse { three_of_rank: a, pair_of_rank: d })
    } else if a == b && c == e {
        HandRanking::FullHouse(FullHouse { three_of_rank: c, pair_of_rank: a })
    } else if one_suit {
        HandRanking::Flush(Flush { ranks: [a, b, c, d, e] })
    } else if run {
        HandRanking::Straight(a)
    } else if low_ace {
        HandRanking::Straight(b)
    } else if a == c {
        HandRanking::ThreeOf(ThreeOf { three_of: a, kickers: [d, e] })
    } else if b == d {
        HandRanking::ThreeOf(ThreeOf { three_of: b, kickers: [a, e] })
    } else if c == e {
        HandRanking::ThreeOf(ThreeOf { three_of: c, kickers: [a, b] })
    } else if a == b && c == d {
        HandRanking::TwoPair(TwoPair { pairs: [a, c], kicker: e })
    } else if a == b && d == e {
        HandRanking::TwoPair(TwoPair { pairs: [a, d], kicker: c })
    } else if b == c && d == e {
        HandRanking::TwoPair(TwoPair { pairs: [b, d], kicker: a })
    } else if a == b {
        HandRanking::Pair(Pair { pair_rank: a, kickers: [c, d, e] })
    } else if b == c {
        HandRanking::Pair(Pair { pair_rank: b, kickers: [a, d, e] })
    } else if c == d {
        HandRanking::Pair(Pair { pair_rank: c, kickers: [a, b, e] })
    } else if d == e {
        HandRanking::Pair(Pair { pair_rank: d, kickers: [a, b, c] })
    } else {
        HandRanking::HighCard([a, b, c, d, e])
    }
}

/// Ranks that a mask marks, each lower than the one before, are no higher
/// place by place than the highest ranks that the mask marks.
pub proof fn lemma_highest_dominate(mask: Seq<bool>, ranks: Seq<int>)
    requires
        forall|i: int| 0 <= i < ranks.len() ==> 0 <= #[trigger] ranks[i] < mask.len() && mask[ranks[i]],
        forall|i: int, j: int| 0 <= i < j < ranks.len() ==> ranks[i] > ranks[j],
    ensures
        highest_marked(mask).len() >= ranks.len(),
        forall|i: int| 0 <= i < ranks.len() ==> #[trigger] highest_marked(mask)[i] >= ranks[i],
    decreases mask.len(),
{
    if ranks.len() == 0 {
    } else if mask.len() == 0 {
        assert(0 <= ranks[0] < mask.len());
    } else {
        let shorter = mask.drop_last();
        let rest = highest_marked(shorter);
        let top = highest_marked(mask);
        lemma_highest_marked(shorter);
        if ranks[0] == mask.len() - 1 {
            let lower = ranks.skip(1);
            assert forall|i: int| 0 <= i < lower.len() implies 0 <= #[trigger] lower[i]
                < shorter.len() && shorter[lower[i]] by {
                assert(lower[i] == ranks[i + 1]);
                assert(ranks[0] > ranks[i + 1]);
            }
            assert forall|i: int, j: int| 0 <= i < j < lower.len() implies lower[i] > lower[j] by {
                assert(ranks[i + 1] > ranks[j + 1]);
            }
            lemma_highest_dominate(shorter, lower);
            assert forall|i: int| 0 <= i < ranks.len() implies #[trigger] top[i] >= ranks[i] by {
                if i > 0 {
                    assert(top[i] == rest[i - 1]);
                    assert(lower[i - 1] == ranks[i]);
                }
            }
        } else {
            assert forall|i: int| 0 <= i < ranks.len() implies 0 <= #[trigger] ranks[i]
                < shorter.len() && shorter[ranks[i]] by {
                if i > 0 {
                    assert(ranks[0] > ranks[i]);
                }
            }
            lemma_highest_dominate(shorter, ranks);
            if mask.last() {
                assert forall|i: int| 0 <= i < ranks.len() implies #[trigger] top[i] >= ranks[i] by {
                    if i > 0 {
                        assert(top[i] == rest[i - 1]);
                        assert(rest[i - 1] > rest[i]);
                    }
                }
            }
        }
    }
}

/// Whether the cards hold `Ace`, `Five`, `Four`, `Three` and `Two` of one
/// suit.
pub open spec fn holds_suited_wheel(held: Set<Card>) -> bool {
    wheel(ranks_in_suit(held, 0)) || wheel(ranks_in_suit(held, 1)) || wheel(ranks_in_suit(held, 2))
        || wheel(ranks_in_suit(held, 3))
}

/// What a mask says of its highest marked rank, given one marked rank.
proof fn lemma_marked(mask: Seq<bool>, x: int)
    requires
        mask.len() == 13,
        0 <= x < 13,
        mask[x],
    ensures
        highest_marked(mask).len() >= 1,
        x <= highest_marked(mask)[0] < 13,
        mask[highest_marked(mask)[0]],
        pick(highest_marked(mask), 0).value() == highest_marked(mask)[0],
{
    lemma_highest_marked(mask);
    lemma_highest_dominate(mask, seq![x]);
    assert(highest_marked(mask)[0] >= seq![x][0]);
}

/// What a mask says of its highest marked ranks, given some marked ranks.
proof fn lemma_marked_all(mask: Seq<bool>, ranks: Seq<int>)
    requires
        mask.len() == 13,
        forall|i: int| 0 <= i < ranks.len() ==> 0 <= #[trigger] ranks[i] < 13 && mask[ranks[i]],
        forall|i: int, j: int| 0 <= i < j < ranks.len() ==> ranks[i] > ranks[j],
    ensures
        highest_marked(mask).len() >= ranks.len(),
        forall|i: int|
            0 <= i < ranks.len() ==> ranks[i] <= #[trigger] highest_marked(mask)[i] < 13 && mask[highest_marked(
                mask,
            )[i]] && pick(highest_marked(mask), i).value() == highest_marked(mask)[i],
        forall|i: int, j: int|
            0 <= i < j < highest_marked(mask).len() ==> highest_marked(mask)[i] > highest_marked(mask)[j],
{
    lemma_highest_marked(mask);
    lemma_highest_dominate(mask, ranks);
}

/// What the first marked ranks of a mask are, where it marks any.
proof fn lemma_first_marked(mask: Seq<bool>, count: int)
    requires
        mask.len() == 13,
        0 <= count <= highest_marked(mask).len(),
    ensures
        forall|i: int|
            0 <= i < count ==> 0 <= #[trigger] highest_marked(mask)[i] < 13 && mask[highest_marked(mask)[i]]
                && pick(highest_marked(mask), i).value() == highest_marked(mask)[i],
        forall|i: int, j: int|
            0 <= i < j < highest_marked(mask).len() ==> highest_marked(mask)[i] > highest_marked(mask)[j],
{
    lemma_highest_marked(mask);
}

/// The cards of a five are held, each by its rank and suit, and no two of
/// them agree in both.
proof fn lemma_five_held(five: Seq<Card>, held: Set<Card>)
    requires
        is_five_of(five, held),
    ensures
        forall|i: int|
            0 <= i < 5 ==> 0 <= (#[trigger] five[i]).rank().value() < 13 && 0 <= five[i].suit().value()
                < 4 && holds(held, five[i].rank().value(), five[i].suit().value()),
        forall|i: int, j: int|
            0 <= i < j < 5 ==> five[i].rank().value() >= five[j].rank().value() && (five[i].rank()
                != five[j].rank() || five[i].suit().value() != five[j].suit().value()),
        forall|i: int, j: int|
            0 <= i < 5 && 0 <= j < 5 ==> (five[i].rank() == five[j].rank() <==> five[i].rank().value()
                == five[j].rank().value()),
{
    assert forall|i: int| 0 <= i < 5 implies 0 <= (#[trigger] five[i]).rank().value() < 13 && 0
        <= five[i].suit().value() < 4 && holds(
        held,
        five[i].rank().value(),
        five[i].suit().value(),
    ) by {
        lemma_card_is_at(five[i]);
        assert(held.contains(five[i]));
    }
    assert forall|i: int, j: int| 0 <= i < j < 5 implies five[i].rank().value() >= five[j].rank().value()
        && (five[i].rank() != five[j].rank() || five[i].suit().value() != five[j].suit().value()) by {
        lemma_card_is_at(five[i]);
        lemma_card_is_at(five[j]);
        assert(five[i] != five[j]);
    }
}

/// A rank held in given suits is held at least that often.
proof fn lemma_count_two(held: Set<Card>, rank: int, s: int, t: int)
    requires
        0 <= s < 4,
        0 <= t < 4,
        s != t,
        holds(held, rank, s),
        holds(held, rank, t),
    ensures
        rank_count(held, rank) >= 2,
{
}

proof fn lemma_count_three(held: Set<Card>, rank: int, s: int, t: int, u: int)
    requires
        0 <= s < 4,
        0 <= t < 4,
        0 <= u < 4,
        s != t,
        s != u,
        t != u,
        holds(held, rank, s),
        holds(held, rank, t),
        holds(held, rank, u),
    ensures
        rank_count(held, rank) >= 3,
{
}

proof fn lemma_count_four(held: Set<Card>, rank: int, s: int, t: int, u: int, v: int)
    requires
        0 <= s < 4,
        0 <= t < 4,
        0 <= u < 4,
        0 <= v < 4,
        s != t,
        s != u,
        s != v,
        t != u,
        t != v,
        u != v,
        holds(held, rank, s),
        holds(held, rank, t),
        holds(held, rank, u),
        holds(held, rank, v),
    ensures
        rank_count(held, rank) >= 4,
{
}

proof fn lemma_five_straight_flush(five: Seq<Card>, held: Set<Card>)
    requires
        is_five_of(five, held),
        five_card_ranking(five) is StraightFlush,
        holds_suited_wheel(held) ==> ranking_of(held) is StraightFlush,
    ensures
        five_card_ranking(five).is_at_most(ranking_of(held)),
{
    lemma_five_held(five, held);
    let highs = straight_flush_highs(held);
    let suit = five[0].suit().value();
    let a = five[0].rank().value();
    assert(five[1].suit().value() == suit && five[2].suit().value() == suit && five[3].suit().value()
        == suit && five[4].suit().value() == suit);
    if a == five[1].rank().value() + 1 {
        assert(run_from(ranks_in_suit(held, suit), a));
        assert(highs[a]);
        lemma_marked(highs, a);
    } else {
        assert(wheel(ranks_in_suit(held, suit)));
        assert(holds_suited_wheel(held));
        lemma_first_marked(highs, 1);
        assert(highs[highest_marked(highs)[0]]);
    }
    HandRanking::lemma_order_is_total(five_card_ranking(five), ranking_of(held));
}

proof fn lemma_five_four_of(five: Seq<Card>, held: Set<Card>)
    requires
        is_five_of(five, held),
        five_card_ranking(five) is FourOf,
    ensures
        five_card_ranking(five).is_at_most(ranking_of(held)),
{
    lemma_five_held(five, held);
    let quad = five_card_ranking(five)->FourOf_0.rank.value();
    let kicker = five_card_ranking(five)->FourOf_0.kicker.value();
    let quads = ranks_held(held, 4);
    if five[0].rank() == five[3].rank() {
        lemma_count_four(
            held,
            quad,
            five[0].suit().value(),
            five[1].suit().value(),
            five[2].suit().value(),
            five[3].suit().value(),
        );
    } else {
        lemma_count_four(
            held,
            quad,
            five[1].suit().value(),
            five[2].suit().value(),
            five[3].suit().value(),
            five[4].suit().value(),
        );
    }
    assert(quads[quad]);
    lemma_marked(quads, quad);
    let best = highest_marked(quads)[0];
    if best == quad {
        let others = without(ranks_held(held, 1), best, best);
        assert(others[kicker]);
        lemma_marked(others, kicker);
    }
    if straight_flush_of(held) is None {
        assert(ranking_of(held) == four_of(held)->0);
    }
    HandRanking::lemma_order_is_total(five_card_ranking(five), ranking_of(held));
}

/// Where two of the five share a rank, the rank is held twice; where three
/// do, three times.
proof fn lemma_five_counts(five: Seq<Card>, held: Set<Card>)
    requires
        is_five_of(five, held),
    ensures
        rank_count(held, five[0].rank().value()) >= 1,
        rank_count(held, five[1].rank().value()) >= 1,
        rank_count(held, five[2].rank().value()) >= 1,
        rank_count(held, five[3].rank().value()) >= 1,
        rank_count(held, five[4].rank().value()) >= 1,
        five[0].rank() == five[1].rank() ==> rank_count(held, five[0].rank().value()) >= 2,
        five[1].rank() == five[2].rank() ==> rank_count(held, five[1].rank().value()) >= 2,
        five[2].rank() == five[3].rank() ==> rank_count(held, five[2].rank().value()) >= 2,
        five[3].rank() == five[4].rank() ==> rank_count(held, five[3].rank().value()) >= 2,
        five[0].rank() == five[2].rank() ==> rank_count(held, five[0].rank().value()) >= 3,
        five[1].rank() == five[3].rank() ==> rank_count(held, five[1].rank().value()) >= 3,
        five[2].rank() == five[4].rank() ==> rank_count(held, five[2].rank().value()) >= 3,
{
    lemma_five_held(five, held);
    lemma_five_pair_count(five, held, 0);
    lemma_five_pair_count(five, held, 1);
    lemma_five_pair_count(five, held, 2);
    lemma_five_pair_count(five, held, 3);
    lemma_five_triple_count(five, held, 0);
    lemma_five_triple_count(five, held, 1);
    lemma_five_triple_count(five, held, 2);
}

proof fn lemma_five_pair_count(five: Seq<Card>, held: Set<Card>, i: int)
    requires
        is_five_of(five, held),
        0 <= i < 4,
    ensures
        five[i].rank() == five[i + 1].rank() ==> rank_count(held, five[i].rank().value()) >= 2,
{
    lemma_five_held(five, held);
    if five[i].rank() == five[i + 1].rank() {
        lemma_count_two(
            held,
            five[i].rank().value(),
            five[i].suit().value(),
            five[i + 1].suit().value(),
        );
    }
}

proof fn lemma_five_triple_count(five: Seq<Card>, held: Set<Card>, i: int)
    requires
        is_five_of(five, held),
        0 <= i < 3,
    ensures
        five[i].rank() == five[i + 2].rank() ==> rank_count(held, five[i].rank().value()) >= 3,
{
    lemma_five_held(five, held);
    if five[i].rank() == five[i + 2].rank() {
        assert(five[i].rank().value() >= five[i + 1].rank().value());
        assert(five[i + 1].rank().value() >= five[i + 2].rank().value());
        lemma_count_three(
            held,
            five[i].rank().value(),
            five[i].suit().value(),
            five[i + 1].suit().value(),
            five[i + 2].suit().value(),
        );
    }
}

proof fn lemma_five_full_house(five: Seq<Card>, held: Set<Card>)
    requires
        is_five_of(five, held),
        five_card_ranking(five) is FullHouse,
    ensures
        five_card_ranking(five).is_at_most(ranking_of(held)),
{
    lemma_five_held(five, held);
    lemma_five_counts(five, held);
    let three = five_card_ranking(five)->FullHouse_0.three_of_rank.value();
    let two = five_card_ranking(five)->FullHouse_0.pair_of_rank.value();
    let trips = ranks_held(held, 3);
    assert(rank_count(held, three) >= 3);
    assert(rank_count(held, two) >= 2);
    assert(trips[three]);
    lemma_marked(trips, three);
    let best = highest_marked(trips)[0];
    let pairs = without(ranks_held(held, 2), best, best);
    if best == three {
        assert(pairs[two]);
        lemma_marked(pairs, two);
    } else {
        assert(pairs[three]);
        lemma_marked(pairs, three);
    }
    assert(full_house_of(held) is Some);
    HandRanking::lemma_order_is_total(five_card_ranking(five), ranking_of(held));
}

/// The stronger of two findings is at least as strong as each of them.
proof fn lemma_stronger_of(a: Option<HandRanking>, b: Option<HandRanking>)
    ensures
        a is Some || b is Some ==> stronger_of(a, b) is Some,
        a is Some ==> a->0.is_at_most(stronger_of(a, b)->0),
        b is Some ==> b->0.is_at_most(stronger_of(a, b)->0),
        stronger_of(a, b) == a || stronger_of(a, b) == b,
{
    if a is Some && b is Some {
        HandRanking::lemma_order_is_total(a->0, b->0);
    }
}

/// To be at most as strong is transitive.
proof fn lemma_at_most_is_transitive(a: HandRanking, b: HandRanking, c: HandRanking)
    requires
        a.is_at_most(b),
        b.is_at_most(c),
    ensures
        a.is_at_most(c),
{
    if a.is_below(b) && b.is_below(c) {
        HandRanking::lemma_order_is_transitive(a, b, c);
    }
}

/// The flush that the cards make is at least as strong as the one they
/// make in any one suit, and is the one they make in some suit.
proof fn lemma_flush_of_is_strongest(held: Set<Card>, suit: int)
    requires
        0 <= suit < 4,
        flush_in(held, suit) is Some,
    ensures
        flush_of(held) is Some,
        flush_in(held, suit)->0.is_at_most(flush_of(held)->0),
{
    let d = flush_in(held, 1);
    let c = flush_in(held, 0);
    let h = flush_in(held, 2);
    let s = flush_in(held, 3);
    let dc = stronger_of(d, c);
    let dch = stronger_of(dc, h);
    let all = stronger_of(dch, s);
    assert(flush_of(held) == all);
    lemma_stronger_of(d, c);
    lemma_stronger_of(dc, h);
    lemma_stronger_of(dch, s);
    if suit == 0 || suit == 1 {
        lemma_at_most_is_transitive(flush_in(held, suit)->0, dc->0, dch->0);
        lemma_at_most_is_transitive(flush_in(held, suit)->0, dch->0, all->0);
    } else if suit == 2 {
        lemma_at_most_is_transitive(flush_in(held, suit)->0, dch->0, all->0);
    }
}

proof fn lemma_five_flush(five: Seq<Card>, held: Set<Card>)
    requires
        is_five_of(five, held),
        five_card_ranking(five) is Flush,
    ensures
        five_card_ranking(five).is_at_most(ranking_of(held)),
{
    lemma_five_held(five, held);
    let suit = five[0].suit().value();
    let mask = ranks_in_suit(held, suit);
    let ranks = seq![
        five[0].rank().value(),
        five[1].rank().value(),
        five[2].rank().value(),
        five[3].rank().value(),
        five[4].rank().value(),
    ];
    assert(five[1].suit().value() == suit && five[2].suit().value() == suit && five[3].suit().value()
        == suit && five[4].suit().value() == suit);
    assert forall|i: int| 0 <= i < ranks.len() implies 0 <= #[trigger] ranks[i] < 13 && mask[ranks[i]] by {
        assert(ranks[i] == five[i].rank().value());
    }
    assert forall|i: int, j: int| 0 <= i < j < ranks.len() implies ranks[i] > ranks[j] by {
        assert(ranks[i] == five[i].rank().value());
        assert(ranks[j] == five[j].rank().value());
    }
    lemma_marked_all(mask, ranks);
    let top = highest_marked(mask);
    assert(top[0] >= ranks[0] && top[1] >= ranks[1] && top[2] >= ranks[2] && top[3] >= ranks[3]
        && top[4] >= ranks[4]);
    assert(pick(top, 0).value() == top[0] && pick(top, 1).value() == top[1] && pick(top, 2).value()
        == top[2] && pick(top, 3).value() == top[3] && pick(top, 4).value() == top[4]);
    let found = flush_in(held, suit)->0;
    assert(flush_in(held, suit) is Some);
    HandRanking::lemma_order_is_total(five_card_ranking(five), found);
    assert(five_card_ranking(five).is_at_most(found));
    lemma_flush_of_is_strongest(held, suit);
    let best = flush_of(held)->0;
    lemma_at_most_is_transitive(five_card_ranking(five), found, best);
    HandRanking::lemma_order_is_total(five_card_ranking(five), ranking_of(held));
}

proof fn lemma_five_straight(five: Seq<Card>, held: Set<Card>)
    requires
        is_five_of(five, held),
        five_card_ranking(five) is Straight,
    ensures
        five_card_ranking(five).is_at_most(ranking_of(held)),
{
    lemma_five_held(five, held);
    lemma_five_counts(five, held);
    let high = five_card_ranking(five)->Straight_0.value();
    let ranks = ranks_held(held, 1);
    let highs = straight_highs(ranks);
    assert(ranks[five[0].rank().value()] && ranks[five[1].rank().value()] && ranks[five[2].rank().value()]
        && ranks[five[3].rank().value()] && ranks[five[4].rank().value()]);
    assert(highs[high]);
    lemma_marked(highs, high);
    assert(straight_of(held) is Some);
    HandRanking::lemma_order_is_total(five_card_ranking(five), ranking_of(held));
}

proof fn lemma_five_three_of(five: Seq<Card>, held: Set<Card>)
    requires
        is_five_of(five, held),
        five_card_ranking(five) is ThreeOf,
    ensures
        five_card_ranking(five).is_at_most(ranking_of(held)),
{
    lemma_five_held(five, held);
    lemma_five_counts(five, held);
    let found = five_card_ranking(five)->ThreeOf_0;
    let three = found.three_of.value();
    let kickers = seq![found.kickers[0].value(), found.kickers[1].value()];
    let trips = ranks_held(held, 3);
    assert(rank_count(held, three) >= 3);
    assert(trips[three]);
    lemma_marked(trips, three);
    let best = highest_marked(trips)[0];
    if best == three {
        let others = without(ranks_held(held, 1), best, best);
        assert(others[kickers[0]] && others[kickers[1]]);
        assert(kickers[0] > kickers[1]);
        lemma_marked_all(others, kickers);
        let top = highest_marked(others);
        assert(top[0] >= kickers[0] && top[1] >= kickers[1]);
        assert(pick(top, 0).value() == top[0] && pick(top, 1).value() == top[1]);
    }
    assert(three_of(held) is Some);
    HandRanking::lemma_order_is_total(five_card_ranking(five), ranking_of(held));
}

proof fn lemma_five_two_pair(five: Seq<Card>, held: Set<Card>)
    requires
        is_five_of(five, held),
        five_card_ranking(five) is TwoPair,
    ensures
        five_card_ranking(five).is_at_most(ranking_of(held)),
{
    lemma_five_held(five, held);
    lemma_five_counts(five, held);
    let found = five_card_ranking(five)->TwoPair_0;
    let both = seq![found.pairs[0].value(), found.pairs[1].value()];
    let kicker = found.kicker.value();
    let pairs = ranks_held(held, 2);
    assert(rank_count(held, both[0]) >= 2);
    assert(rank_count(held, both[1]) >= 2);
    assert(pairs[both[0]] && pairs[both[1]]);
    assert(both[0] > both[1]);
    lemma_marked_all(pairs, both);
    let top = highest_marked(pairs);
    assert(top[0] >= both[0] && top[1] >= both[1]);
    assert(pick(top, 0).value() == top[0] && pick(top, 1).value() == top[1]);
    if top[0] == both[0] && top[1] == both[1] {
        let others = without(ranks_held(held, 1), top[0], top[1]);
        assert(others[kicker]);
        lemma_marked(others, kicker);
    }
    assert(pairs_of(held) is Some);
    assert(pairs_of(held)->0 is TwoPair);
    HandRanking::lemma_order_is_total(five_card_ranking(five), ranking_of(held));
}

proof fn lemma_five_pair(five: Seq<Card>, held: Set<Card>)
    requires
        is_five_of(five, held),
        five_card_ranking(five) is Pair,
    ensures
        five_card_ranking(five).is_at_most(ranking_of(held)),
{
    lemma_five_held(five, held);
    lemma_five_counts(five, held);
    let found = five_card_ranking(five)->Pair_0;
    let pair = found.pair_rank.value();
    let kickers = seq![found.kickers[0].value(), found.kickers[1].value(), found.kickers[2].value()];
    let pairs = ranks_held(held, 2);
    assert(rank_count(held, pair) >= 2);
    assert(pairs[pair]);
    lemma_marked(pairs, pair);
    let best = highest_marked(pairs)[0];
    if best == pair {
        let others = without(ranks_held(held, 1), best, best);
        assert(others[kickers[0]] && others[kickers[1]] && others[kickers[2]]);
        assert(kickers[0] > kickers[1] && kickers[1] > kickers[2]);
        lemma_marked_all(others, kickers);
        let top = highest_marked(others);
        assert(top[0] >= kickers[0] && top[1] >= kickers[1] && top[2] >= kickers[2]);
        assert(pick(top, 0).value() == top[0] && pick(top, 1).value() == top[1] && pick(
            top,
            2,
        ).value() == top[2]);
    }
    assert(pairs_of(held) is Some);
    HandRanking::lemma_order_is_total(five_card_ranking(five), ranking_of(held));
}

proof fn lemma_five_high_card(five: Seq<Card>, held: Set<Card>)
    requires
        is_five_of(five, held),
        five_card_ranking(five) is HighCard,
    ensures
        five_card_ranking(five).is_at_most(ranking_of(held)),
{
    lemma_five_held(five, held);
    lemma_five_counts(five, held);
    let mask = ranks_held(held, 1);
    let ranks = seq![
        five[0].rank().value(),
        five[1].rank().value(),
        five[2].rank().value(),
        five[3].rank().value(),
        five[4].rank().value(),
    ];
    assert forall|i: int| 0 <= i < ranks.len() implies 0 <= #[trigger] ranks[i] < 13 && mask[ranks[i]] by {
        assert(ranks[i] == five[i].rank().value());
    }
    assert forall|i: int, j: int| 0 <= i < j < ranks.len() implies ranks[i] > ranks[j] by {
        assert(ranks[i] == five[i].rank().value());
        assert(ranks[j] == five[j].rank().value());
    }
    lemma_marked_all(mask, ranks);
    let top = highest_marked(mask);
    assert(top[0] >= ranks[0] && top[1] >= ranks[1] && top[2] >= ranks[2] && top[3] >= ranks[3]
        && top[4] >= ranks[4]);
    assert(pick(top, 0).value() == top[0] && pick(top, 1).value() == top[1] && pick(top, 2).value()
        == top[2] && pick(top, 3).value() == top[3] && pick(top, 4).value() == top[4]);
    HandRanking::lemma_order_is_total(five_card_ranking(five), ranking_of(held));
}

/// No five of the cards are stronger than the cards' ranking, unless the
/// cards hold the five lowest cards of a suit with the ace and the ranking
/// is no straight flush.
pub proof fn lemma_no_five_is_stronger(held: Set<Card>, five: Seq<Card>)
    requires
        is_five_of(five, held),
        holds_suited_wheel(held) ==> ranking_of(held) is StraightFlush,
    ensures
        five_card_ranking(five).is_at_most(ranking_of(held)),
{
    match five_card_ranking(five) {
        HandRanking::HighCard(_) => lemma_five_high_card(five, held),
        HandRanking::Pair(_) => lemma_five_pair(five, held),
        HandRanking::TwoPair(_) => lemma_five_two_pair(five, held),
        HandRanking::ThreeOf(_) => lemma_five_three_of(five, held),
        HandRanking::Straight(_) => lemma_five_straight(five, held),
        HandRanking::Flush(_) => lemma_five_flush(five, held),
        HandRanking::FullHouse(_) => lemma_five_full_house(five, held),
        HandRanking::FourOf(_) => lemma_five_four_of(five, held),
        HandRanking::StraightFlush(_) => lemma_five_straight_flush(five, held),
    }
}

/// In how many suits the ranks under `below` are held, taken together.
pub open spec fn count_sum(held: Set<Card>, below: int) -> int
    decreases below,
{
    if below <= 0 {
        0
    } else {
        count_sum(held, below - 1) + rank_count(held, below - 1)
    }
}

/// One card more is one more in the count of its rank, and in no other.
proof fn lemma_count_sum_insert(held: Set<Card>, card: Card, below: int)
    requires
        !held.contains(card),
        0 <= below <= 13,
    ensures
        count_sum(held.insert(card), below) == count_sum(held, below) + if card.rank().value()
            < below {
            1int
        } else {
            0
        },
    decreases below,
{
    if below > 0 {
        lemma_count_sum_insert(held, card, below - 1);
        let rank = below - 1;
        lemma_card_is_at(card);
        lemma_card_at(rank, 0);
        lemma_card_at(rank, 1);
        lemma_card_at(rank, 2);
        lemma_card_at(rank, 3);
        let more = held.insert(card);
        assert(holds(more, rank, 0) == (holds(held, rank, 0) || card == Card::at(rank, 0)));
        assert(holds(more, rank, 1) == (holds(held, rank, 1) || card == Card::at(rank, 1)));
        assert(holds(more, rank, 2) == (holds(held, rank, 2) || card == Card::at(rank, 2)));
        assert(holds(more, rank, 3) == (holds(held, rank, 3) || card == Card::at(rank, 3)));
    }
}

proof fn lemma_count_sum_empty(below: int)
    ensures
        count_sum(Set::<Card>::empty(), below) == 0,
    decreases below,
{
    if below > 0 {
        lemma_count_sum_empty(below - 1);
    }
}

/// Cards of which none occurs twice are held as often, all ranks taken
/// together, as there are cards.
pub proof fn lemma_count_sum(cards: Seq<Card>)
    requires
        cards.no_duplicates(),
    ensures
        count_sum(cards.to_set(), 13) == cards.len(),
    decreases cards.len(),
{
    if cards.len() == 0 {
        assert(cards.to_set() =~= Set::<Card>::empty());
        lemma_count_sum_empty(13);
    } else {
        let init = cards.drop_last();
        lemma_count_sum(init);
        assert(cards.to_set() =~= init.to_set().insert(cards.last())) by {
            assert forall|card: Card| cards.to_set().contains(card) <==> init.to_set().insert(
                cards.last(),
            ).contains(card) by {
                if cards.contains(card) {
                    let i = choose|i: int| 0 <= i < cards.len() && cards[i] == card;
                    if i < cards.len() - 1 {
                        assert(init[i] == card);
                    }
                }
                if init.contains(card) {
                    let i = choose|i: int| 0 <= i < init.len() && init[i] == card;
                    assert(cards[i] == card);
                }
                if card == cards.last() {
                    assert(cards[cards.len() - 1] == card);
                }
            }
        }
        if init.to_set().contains(cards.last()) {
            let i = choose|i: int| 0 <= i < init.len() && init[i] == cards.last();
            assert(cards[i] == cards[cards.len() - 1]);
        }
        lemma_count_sum_insert(init.to_set(), cards.last(), 13);
        lemma_card_is_at(cards.last());
    }
}

/// 1 for a marked rank, else 0.
pub open spec fn bit(marked: bool) -> int {
    if marked {
        1
    } else {
        0
    }
}

/// How many ranks a mask marks.
pub open spec fn marked_below(mask: Seq<bool>, below: int) -> int
    decreases below,
{
    if below <= 0 {
        0
    } else {
        marked_below(mask, below - 1) + bit(mask[below - 1])
    }
}

/// A mask has as many highest marked places as it marks places.
pub proof fn lemma_marked_below(mask: Seq<bool>, below: int)
    requires
        0 <= below <= mask.len(),
    ensures
        highest_marked(mask.take(below)).len() == marked_below(mask, below),
    decreases below,
{
    if below > 0 {
        lemma_marked_below(mask, below - 1);
        assert(mask.take(below).drop_last() == mask.take(below - 1));
    }
}

/// Where a mask has no highest rank, it marks none.
proof fn lemma_none_marked(mask: Seq<bool>)
    requires
        mask.len() == 13,
        highest_marked(mask).len() == 0,
    ensures
        forall|rank: int| 0 <= rank < 13 ==> !#[trigger] mask[rank],
{
    lemma_highest_marked(mask);
    assert forall|rank: int| 0 <= rank < 13 implies !#[trigger] mask[rank] by {
        if mask[rank] {
            assert(highest_marked(mask).contains(rank));
        }
    }
}

/// A suit in which the rank is held: the first of them for `n` 0, the second
/// for 1, the third for 2.
pub open spec fn nth_suit(held: Set<Card>, rank: int, n: int) -> int {
    let clubs = holds(held, rank, 0);
    let diamonds = holds(held, rank, 1);
    let hearts = holds(held, rank, 2);
    if n == 0 {
        if clubs {
            0
        } else if diamonds {
            1
        } else if hearts {
            2
        } else {
            3
        }
    } else if n == 1 {
        if clubs && diamonds {
            1
        } else if (clubs || diamonds) && hearts {
            2
        } else {
            3
        }
    } else {
        if clubs && diamonds && hearts {
            2
        } else {
            3
        }
    }
}

/// A rank held often enough is held in each of the suits picked for it,
/// and these are different suits.
proof fn lemma_nth_suit(held: Set<Card>, rank: int)
    ensures
        rank_count(held, rank) >= 1 ==> 0 <= nth_suit(held, rank, 0) < 4 && holds(
            held,
            rank,
            nth_suit(held, rank, 0),
        ),
        rank_count(held, rank) >= 2 ==> nth_suit(held, rank, 0) < nth_suit(held, rank, 1) < 4
            && holds(held, rank, nth_suit(held, rank, 1)),
        rank_count(held, rank) >= 3 ==> nth_suit(held, rank, 1) < nth_suit(held, rank, 2) < 4
            && holds(held, rank, nth_suit(held, rank, 2)),
        rank_count(held, rank) >= 4 ==> holds(held, rank, 0) && holds(held, rank, 1) && holds(
            held,
            rank,
            2,
        ) && holds(held, rank, 3),
{
}

/// What makes five cards a five of the cards held: their ranks never rise,
/// no two agree in rank and suit, and each is held.
proof fn lemma_is_five_of(held: Set<Card>, ranks: Seq<int>, suits: Seq<int>)
    requires
        ranks.len() == 5,
        suits.len() == 5,
        forall|i: int|
            0 <= i < 5 ==> 0 <= #[trigger] ranks[i] < 13 && 0 <= suits[i] < 4 && holds(
                held,
                ranks[i],
                suits[i],
            ),
        ranks[0] >= ranks[1] >= ranks[2] >= ranks[3] >= ranks[4],
        forall|i: int, j: int|
            0 <= i < j < 5 ==> #[trigger] ranks[i] != #[trigger] ranks[j] || suits[i] != suits[j],
    ensures
        is_five_of(cards_at(ranks, suits), held),
        forall|i: int|
            0 <= i < 5 ==> (#[trigger] cards_at(ranks, suits)[i]).rank().value() == ranks[i]
                && cards_at(ranks, suits)[i].suit().value() == suits[i] && cards_at(
                ranks,
                suits,
            )[i].rank() == Rank::of_value(ranks[i]),
{
    let five = cards_at(ranks, suits);
    assert forall|i: int| 0 <= i < 5 implies (#[trigger] five[i]).rank().value() == ranks[i]
        && five[i].suit().value() == suits[i] && five[i].rank() == Rank::of_value(ranks[i])
        && held.contains(five[i]) by {
        lemma_card_at(ranks[i], suits[i]);
        broadcast use Card::lemma_fields;

    }
    assert forall|i: int, j: int| 0 <= i <= j < 5 implies five[i].rank().value() >= five[j].rank().value() by {
        assert(five[i].rank().value() == ranks[i]);
        assert(five[j].rank().value() == ranks[j]);
    }
    assert forall|i: int, j: int| 0 <= i < 5 && 0 <= j < 5 && i != j implies five[i] != five[j] by {
        assert(five[i].rank().value() == ranks[i] && five[i].suit().value() == suits[i]);
        assert(five[j].rank().value() == ranks[j] && five[j].suit().value() == suits[j]);
        if i < j {
            assert(ranks[i] != ranks[j] || suits[i] != suits[j]);
        } else {
            assert(ranks[j] != ranks[i] || suits[j] != suits[i]);
        }
    }
}

/// The five cards of the given ranks and suits.
pub open spec fn cards_at(ranks: Seq<int>, suits: Seq<int>) -> Seq<Card> {
    Seq::new(5, |i: int| Card::at(ranks[i], suits[i]))
}

/// Whether the five cards are of one suit.
pub open spec fn one_suit(five: Seq<Card>) -> bool {
    five[0].suit() == five[1].suit() && five[1].suit() == five[2].suit() && five[2].suit()
        == five[3].suit() && five[3].suit() == five[4].suit()
}

/// Whether the five cards have the given ranks, in this order.
pub open spec fn has_ranks(five: Seq<Card>, r0: int, r1: int, r2: int, r3: int, r4: int) -> bool {
    &&& five.len() == 5
    &&& 12 >= r0 >= r1 >= r2 >= r3 >= r4 >= 0
    &&& five[0].rank() == Rank::of_value(r0)
    &&& five[1].rank() == Rank::of_value(r1)
    &&& five[2].rank() == Rank::of_value(r2)
    &&& five[3].rank() == Rank::of_value(r3)
    &&& five[4].rank() == Rank::of_value(r4)
}

/// Whether the five cards have the given suits, in this order.
pub open spec fn has_suits(five: Seq<Card>, s0: int, s1: int, s2: int, s3: int, s4: int) -> bool {
    &&& five[0].suit().value() == s0
    &&& five[1].suit().value() == s1
    &&& five[2].suit().value() == s2
    &&& five[3].suit().value() == s3
    &&& five[4].suit().value() == s4
}

/// Whether the card of this rank and suit is one that can be held.
pub open spec fn is_held(held: Set<Card>, rank: int, suit: int) -> bool {
    0 <= rank < 13 && 0 <= suit < 4 && holds(held, rank, suit)
}

/// Five held cards, given by rank and suit from the highest rank down, no
/// two agreeing in both, are a five of the cards held.
proof fn lemma_five_cards(
    held: Set<Card>,
    r0: int,
    s0: int,
    r1: int,
    s1: int,
    r2: int,
    s2: int,
    r3: int,
    s3: int,
    r4: int,
    s4: int,
) -> (five: Seq<Card>)
    requires
        is_held(held, r0, s0),
        is_held(held, r1, s1),
        is_held(held, r2, s2),
        is_held(held, r3, s3),
        is_held(held, r4, s4),
        r0 >= r1 >= r2 >= r3 >= r4,
        r0 != r1 || s0 != s1,
        r0 != r2 || s0 != s2,
        r0 != r3 || s0 != s3,
        r0 != r4 || s0 != s4,
        r1 != r2 || s1 != s2,
        r1 != r3 || s1 != s3,
        r1 != r4 || s1 != s4,
        r2 != r3 || s2 != s3,
        r2 != r4 || s2 != s4,
        r3 != r4 || s3 != s4,
    ensures
        is_five_of(five, held),
        has_ranks(five, r0, r1, r2, r3, r4),
        has_suits(five, s0, s1, s2, s3, s4),
{
    let ranks = seq![r0, r1, r2, r3, r4];
    let suits = seq![s0, s1, s2, s3, s4];
    lemma_is_five_of(held, ranks, suits);
    let five = cards_at(ranks, suits);
    assert(five[0].rank().value() == ranks[0]);
    assert(five[1].rank().value() == ranks[1]);
    assert(five[2].rank().value() == ranks[2]);
    assert(five[3].rank().value() == ranks[3]);
    assert(five[4].rank().value() == ranks[4]);
    five
}

/// Whether some five of the cards have the ranking of them all.
pub open spec fn some_five_is_best(held: Set<Card>) -> bool {
    some_five_ranks(held, ranking_of(held))
}

/// Whether some five of the cards have the given ranking.
pub open spec fn some_five_ranks(held: Set<Card>, ranking: HandRanking) -> bool {
    exists|five: Seq<Card>| is_five_of(five, held) && five_card_ranking(five) == ranking
}

/// A five of the cards with the key of a ranking shows that some five have
/// that ranking.
proof fn lemma_witness(held: Set<Card>, five: Seq<Card>, best: HandRanking)
    requires
        is_five_of(five, held),
        five_card_ranking(five).key() == best.key(),
    ensures
        some_five_ranks(held, best),
{
    HandRanking::lemma_key_determines(five_card_ranking(five), best);
}

/// The ranking of five cards of one suit in a row.
proof fn lemma_run_five(five: Seq<Card>, high: int)
    requires
        one_suit(five),
        has_ranks(five, high, high - 1, high - 2, high - 3, high - 4),
    ensures
        five_card_ranking(five).key() == (8int, high, 0int, 0int, 0int, 0int),
{
}

/// The ranking of four cards of one rank with a fifth card.
proof fn lemma_four_five(five: Seq<Card>, quad: int, kicker: int)
    requires
        !one_suit(five),
        quad != kicker,
        has_ranks(five, kicker, quad, quad, quad, quad) || has_ranks(
            five,
            quad,
            quad,
            quad,
            quad,
            kicker,
        ),
    ensures
        five_card_ranking(five).key() == (7int, quad, kicker, 0int, 0int, 0int),
{
}

/// The ranking of three cards of one rank with two of another.
proof fn lemma_full_five(five: Seq<Card>, three: int, two: int)
    requires
        !one_suit(five),
        three != two,
        has_ranks(five, three, three, three, two, two) || has_ranks(
            five,
            two,
            two,
            three,
            three,
            three,
        ),
    ensures
        five_card_ranking(five).key() == (6int, three, two, 0int, 0int, 0int),
{
}

/// The ranking of five cards of falling ranks that make no straight: a
/// flush where they are of one suit, else a high card.
proof fn lemma_plain_five(five: Seq<Card>, r0: int, r1: int, r2: int, r3: int, r4: int)
    requires
        has_ranks(five, r0, r1, r2, r3, r4),
        r0 > r1 > r2 > r3 > r4,
        r0 != r4 + 4,
        !(r0 == 12 && r1 == 3),
    ensures
        five_card_ranking(five).key() == (
            if one_suit(five) {
                5int
            } else {
                0int
            },
            r0,
            r1,
            r2,
            r3,
            r4,
        ),
{
}

/// The ranking of five cards that make a straight and are not of one suit.
proof fn lemma_straight_five(five: Seq<Card>, high: int)
    requires
        !one_suit(five),
        has_ranks(five, high, high - 1, high - 2, high - 3, high - 4) || (high == 3 && has_ranks(
            five,
            12,
            3,
            2,
            1,
            0,
        )),
    ensures
        five_card_ranking(five).key() == (4int, high, 0int, 0int, 0int, 0int),
{
}

/// The ranking of three cards of one rank with two cards of other ranks.
proof fn lemma_three_five(five: Seq<Card>, three: int, k0: int, k1: int)
    requires
        !one_suit(five),
        k0 > k1,
        three != k0,
        three != k1,
        has_ranks(five, three, three, three, k0, k1) || has_ranks(five, k0, three, three, three, k1)
            || has_ranks(five, k0, k1, three, three, three),
    ensures
        five_card_ranking(five).key() == (3int, three, k0, k1, 0int, 0int),
{
}

/// The ranking of two pairs with a fifth card of another rank.
proof fn lemma_two_pair_five(five: Seq<Card>, high: int, low: int, kicker: int)
    requires
        !one_suit(five),
        high > low,
        kicker != high,
        kicker != low,
        has_ranks(five, kicker, high, high, low, low) || has_ranks(five, high, high, kicker, low, low)
            || has_ranks(five, high, high, low, low, kicker),
    ensures
        five_card_ranking(five).key() == (2int, high, low, kicker, 0int, 0int),
{
}

/// The ranking of one pair with three cards of other ranks.
proof fn lemma_pair_five(five: Seq<Card>, pair: int, k0: int, k1: int, k2: int)
    requires
        !one_suit(five),
        k0 > k1 > k2,
        pair != k0,
        pair != k1,
        pair != k2,
        has_ranks(five, pair, pair, k0, k1, k2) || has_ranks(five, k0, pair, pair, k1, k2)
            || has_ranks(five, k0, k1, pair, pair, k2) || has_ranks(five, k0, k1, k2, pair, pair),
    ensures
        five_card_ranking(five).key() == (1int, pair, k0, k1, k2, 0int),
{
}

proof fn lemma_make_straight_flush(held: Set<Card>, high: int, suit: int, best: HandRanking)
    requires
        4 <= high < 13,
        0 <= suit < 4,
        run_from(ranks_in_suit(held, suit), high),
        best.key() == (8int, high, 0int, 0int, 0int, 0int),
    ensures
        some_five_ranks(held, best),
{
    let five = lemma_five_cards(
        held,
        high,
        suit,
        high - 1,
        suit,
        high - 2,
        suit,
        high - 3,
        suit,
        high - 4,
        suit,
    );
    lemma_run_five(five, high);
    lemma_witness(held, five, best);
}

proof fn lemma_make_four_of(held: Set<Card>, quad: int, kicker: int, best: HandRanking)
    requires
        0 <= quad < 13,
        0 <= kicker < 13,
        quad != kicker,
        rank_count(held, quad) >= 4,
        rank_count(held, kicker) >= 1,
        best.key() == (7int, quad, kicker, 0int, 0int, 0int),
    ensures
        some_five_ranks(held, best),
{
    lemma_nth_suit(held, quad);
    lemma_nth_suit(held, kicker);
    let suit = nth_suit(held, kicker, 0);
    if kicker > quad {
        let five = lemma_five_cards(held, kicker, suit, quad, 0, quad, 1, quad, 2, quad, 3);
        lemma_four_five(five, quad, kicker);
        lemma_witness(held, five, best);
    } else {
        let five = lemma_five_cards(held, quad, 0, quad, 1, quad, 2, quad, 3, kicker, suit);
        lemma_four_five(five, quad, kicker);
        lemma_witness(held, five, best);
    }
}

proof fn lemma_make_full_house(held: Set<Card>, three: int, two: int, best: HandRanking)
    requires
        0 <= three < 13,
        0 <= two < 13,
        three != two,
        rank_count(held, three) >= 3,
        rank_count(held, two) >= 2,
        best.key() == (6int, three, two, 0int, 0int, 0int),
    ensures
        some_five_ranks(held, best),
{
    lemma_nth_suit(held, three);
    lemma_nth_suit(held, two);
    let t0 = nth_suit(held, three, 0);
    let t1 = nth_suit(held, three, 1);
    let t2 = nth_suit(held, three, 2);
    let q0 = nth_suit(held, two, 0);
    let q1 = nth_suit(held, two, 1);
    if three > two {
        let five = lemma_five_cards(held, three, t0, three, t1, three, t2, two, q0, two, q1);
        lemma_full_five(five, three, two);
        lemma_witness(held, five, best);
    } else {
        let five = lemma_five_cards(held, two, q0, two, q1, three, t0, three, t1, three, t2);
        lemma_full_five(five, three, two);
        lemma_witness(held, five, best);
    }
}

/// Five held cards of falling ranks that make no straight: of one suit they
/// are a flush, else a high card.
proof fn lemma_make_plain(
    held: Set<Card>,
    r0: int,
    s0: int,
    r1: int,
    s1: int,
    r2: int,
    s2: int,
    r3: int,
    s3: int,
    r4: int,
    s4: int,
    best: HandRanking,
)
    requires
        is_held(held, r0, s0),
        is_held(held, r1, s1),
        is_held(held, r2, s2),
        is_held(held, r3, s3),
        is_held(held, r4, s4),
        r0 > r1 > r2 > r3 > r4,
        r0 != r4 + 4,
        !(r0 == 12 && r1 == 3),
        best.key() == (
            if s0 == s1 && s1 == s2 && s2 == s3 && s3 == s4 {
                5int
            } else {
                0int
            },
            r0,
            r1,
            r2,
            r3,
            r4,
        ),
    ensures
        some_five_ranks(held, best),
{
    let five = lemma_five_cards(held, r0, s0, r1, s1, r2, s2, r3, s3, r4, s4);
    lemma_plain_five(five, r0, r1, r2, r3, r4);
    lemma_suits_agree(five, s0, s1, s2, s3, s4);
    lemma_witness(held, five, best);
}

/// Cards are of one suit where the numbers of their suits are the same.
proof fn lemma_suits_agree(five: Seq<Card>, s0: int, s1: int, s2: int, s3: int, s4: int)
    requires
        five.len() == 5,
        has_suits(five, s0, s1, s2, s3, s4),
    ensures
        one_suit(five) <==> (s0 == s1 && s1 == s2 && s2 == s3 && s3 == s4),
{
    lemma_card_is_at(five[0]);
    lemma_card_is_at(five[1]);
    lemma_card_is_at(five[2]);
    lemma_card_is_at(five[3]);
    lemma_card_is_at(five[4]);
}

/// Five held cards that make a straight and are not of one suit.
proof fn lemma_make_straight(
    held: Set<Card>,
    high: int,
    r0: int,
    s0: int,
    r1: int,
    s1: int,
    r2: int,
    s2: int,
    r3: int,
    s3: int,
    r4: int,
    s4: int,
    best: HandRanking,
)
    requires
        is_held(held, r0, s0),
        is_held(held, r1, s1),
        is_held(held, r2, s2),
        is_held(held, r3, s3),
        is_held(held, r4, s4),
        (r0 == high && r1 == high - 1 && r2 == high - 2 && r3 == high - 3 && r4 == high - 4) || (
        high == 3 && r0 == 12 && r1 == 3 && r2 == 2 && r3 == 1 && r4 == 0),
        !(s0 == s1 && s1 == s2 && s2 == s3 && s3 == s4),
        best.key() == (4int, high, 0int, 0int, 0int, 0int),
    ensures
        some_five_ranks(held, best),
{
    let five = lemma_five_cards(held, r0, s0, r1, s1, r2, s2, r3, s3, r4, s4);
    lemma_suits_agree(five, s0, s1, s2, s3, s4);
    lemma_straight_five(five, high);
    lemma_witness(held, five, best);
}

proof fn lemma_make_three_of(held: Set<Card>, three: int, k0: int, k1: int, best: HandRanking)
    requires
        0 <= three < 13,
        0 <= k1 < k0 < 13,
        three != k0,
        three != k1,
        rank_count(held, three) >= 3,
        rank_count(held, k0) >= 1,
        rank_count(held, k1) >= 1,
        best.key() == (3int, three, k0, k1, 0int, 0int),
    ensures
        some_five_ranks(held, best),
{
    lemma_nth_suit(held, three);
    lemma_nth_suit(held, k0);
    lemma_nth_suit(held, k1);
    let t0 = nth_suit(held, three, 0);
    let t1 = nth_suit(held, three, 1);
    let t2 = nth_suit(held, three, 2);
    let s0 = nth_suit(held, k0, 0);
    let s1 = nth_suit(held, k1, 0);
    if three > k0 {
        let five = lemma_five_cards(held, three, t0, three, t1, three, t2, k0, s0, k1, s1);
        lemma_three_five(five, three, k0, k1);
        lemma_witness(held, five, best);
    } else if three > k1 {
        let five = lemma_five_cards(held, k0, s0, three, t0, three, t1, three, t2, k1, s1);
        lemma_three_five(five, three, k0, k1);
        lemma_witness(held, five, best);
    } else {
        let five = lemma_five_cards(held, k0, s0, k1, s1, three, t0, three, t1, three, t2);
        lemma_three_five(five, three, k0, k1);
        lemma_witness(held, five, best);
    }
}

proof fn lemma_make_two_pair(held: Set<Card>, high: int, low: int, kicker: int, best: HandRanking)
    requires
        0 <= low < high < 13,
        0 <= kicker < 13,
        kicker != high,
        kicker != low,
        rank_count(held, high) >= 2,
        rank_count(held, low) >= 2,
        rank_count(held, kicker) >= 1,
        best.key() == (2int, high, low, kicker, 0int, 0int),
    ensures
        some_five_ranks(held, best),
{
    lemma_nth_suit(held, high);
    lemma_nth_suit(held, low);
    lemma_nth_suit(held, kicker);
    let h0 = nth_suit(held, high, 0);
    let h1 = nth_suit(held, high, 1);
    let l0 = nth_suit(held, low, 0);
    let l1 = nth_suit(held, low, 1);
    let s = nth_suit(held, kicker, 0);
    if kicker > high {
        let five = lemma_five_cards(held, kicker, s, high, h0, high, h1, low, l0, low, l1);
        lemma_two_pair_five(five, high, low, kicker);
        lemma_witness(held, five, best);
    } else if kicker > low {
        let five = lemma_five_cards(held, high, h0, high, h1, kicker, s, low, l0, low, l1);
        lemma_two_pair_five(five, high, low, kicker);
        lemma_witness(held, five, best);
    } else {
        let five = lemma_five_cards(held, high, h0, high, h1, low, l0, low, l1, kicker, s);
        lemma_two_pair_five(five, high, low, kicker);
        lemma_witness(held, five, best);
    }
}

proof fn lemma_make_pair(held: Set<Card>, pair: int, k0: int, k1: int, k2: int, best: HandRanking)
    requires
        0 <= pair < 13,
        0 <= k2 < k1 < k0 < 13,
        pair != k0,
        pair != k1,
        pair != k2,
        rank_count(held, pair) >= 2,
        rank_count(held, k0) >= 1,
        rank_count(held, k1) >= 1,
        rank_count(held, k2) >= 1,
        best.key() == (1int, pair, k0, k1, k2, 0int),
    ensures
        some_five_ranks(held, best),
{
    lemma_nth_suit(held, pair);
    lemma_nth_suit(held, k0);
    lemma_nth_suit(held, k1);
    lemma_nth_suit(held, k2);
    let q0 = nth_suit(held, pair, 0);
    let q1 = nth_suit(held, pair, 1);
    let s0 = nth_suit(held, k0, 0);
    let s1 = nth_suit(held, k1, 0);
    let s2 = nth_suit(held, k2, 0);
    if pair > k0 {
        let five = lemma_five_cards(held, pair, q0, pair, q1, k0, s0, k1, s1, k2, s2);
        lemma_pair_five(five, pair, k0, k1, k2);
        lemma_witness(held, five, best);
    } else if pair > k1 {
        let five = lemma_five_cards(held, k0, s0, pair, q0, pair, q1, k1, s1, k2, s2);
        lemma_pair_five(five, pair, k0, k1, k2);
        lemma_witness(held, five, best);
    } else if pair > k2 {
        let five = lemma_five_cards(held, k0, s0, k1, s1, pair, q0, pair, q1, k2, s2);
        lemma_pair_five(five, pair, k0, k1, k2);
        lemma_witness(held, five, best);
    } else {
        let five = lemma_five_cards(held, k0, s0, k1, s1, k2, s2, pair, q0, pair, q1);
        lemma_pair_five(five, pair, k0, k1, k2);
        lemma_witness(held, five, best);
    }
}

/// What the ranks `a` and `b` add to the count of the ranks under `below`.
pub open spec fn count_of_two(held: Set<Card>, a: int, b: int, below: int) -> int {
    (if a < below {
        rank_count(held, a)
    } else {
        0
    }) + (if b < below && b != a {
        rank_count(held, b)
    } else {
        0
    })
}

/// Where only the ranks `a` and `b` may be held more than once, the other
/// ranks that are held are as many as the other cards.
proof fn lemma_marked_others(held: Set<Card>, a: int, b: int, below: int)
    requires
        0 <= a <= 13,
        0 <= b <= 13,
        0 <= below <= 13,
        forall|rank: int|
            0 <= rank < 13 && rank != a && rank != b ==> #[trigger] rank_count(held, rank) <= 1,
    ensures
        marked_below(without(ranks_held(held, 1), a, b), below) == count_sum(held, below)
            - count_of_two(held, a, b, below),
    decreases below,
{
    if below > 0 {
        lemma_marked_others(held, a, b, below - 1);
        let rank = below - 1;
        let mask = without(ranks_held(held, 1), a, b);
        assert(mask[rank] == (rank_count(held, rank) >= 1 && rank != a && rank != b));
        assert(rank_count(held, rank) >= 0);
        if rank != a && rank != b {
            assert(rank_count(held, rank) <= 1);
        }
    }
}

/// Where no rank but `a` and `b` is held, all cards are of those two.
proof fn lemma_no_others(held: Set<Card>, a: int, b: int, below: int)
    requires
        0 <= a < 13,
        0 <= b < 13,
        0 <= below <= 13,
        marked_below(without(ranks_held(held, 1), a, b), below) == 0,
    ensures
        count_sum(held, below) == count_of_two(held, a, b, below),
    decreases below,
{
    if below > 0 {
        let rank = below - 1;
        let mask = without(ranks_held(held, 1), a, b);
        assert(marked_below(mask, rank) >= 0) by {
            lemma_marked_is_natural(mask, rank);
        }
        assert(mask[rank] == (rank_count(held, rank) >= 1 && rank != a && rank != b));
        assert(rank_count(held, rank) >= 0);
        lemma_no_others(held, a, b, below - 1);
    }
}

proof fn lemma_marked_is_natural(mask: Seq<bool>, below: int)
    ensures
        marked_below(mask, below) >= 0,
    decreases below,
{
    if below > 0 {
        lemma_marked_is_natural(mask, below - 1);
    }
}

/// Seven cards of which only the ranks `a` and `b` may be held more than
/// once hold as many other ranks as they hold other cards. A rank 13 stands
/// for no rank.
proof fn lemma_other_ranks(held: Set<Card>, a: int, b: int)
    requires
        count_sum(held, 13) == 7,
        0 <= a <= 13,
        0 <= b <= 13,
        forall|rank: int|
            0 <= rank < 13 && rank != a && rank != b ==> #[trigger] rank_count(held, rank) <= 1,
    ensures
        highest_marked(without(ranks_held(held, 1), a, b)).len() == 7 - count_of_two(held, a, b, 13),
{
    let mask = without(ranks_held(held, 1), a, b);
    lemma_marked_others(held, a, b, 13);
    lemma_marked_below(mask, 13);
    assert(mask.take(13) == mask);
}

/// Seven cards hold a rank besides `a` and `b` unless all seven are of
/// those ranks.
proof fn lemma_some_other_rank(held: Set<Card>, a: int, b: int)
    requires
        count_sum(held, 13) == 7,
        0 <= a < 13,
        0 <= b < 13,
        count_of_two(held, a, b, 13) < 7,
    ensures
        highest_marked(without(ranks_held(held, 1), a, b)).len() >= 1,
{
    let mask = without(ranks_held(held, 1), a, b);
    lemma_marked_below(mask, 13);
    assert(mask.take(13) == mask);
    if highest_marked(mask).len() == 0 {
        lemma_no_others(held, a, b, 13);
    }
}

/// Seven cards of seven ranks.
proof fn lemma_all_ranks(held: Set<Card>)
    requires
        count_sum(held, 13) == 7,
        forall|rank: int| 0 <= rank < 13 ==> #[trigger] rank_count(held, rank) <= 1,
    ensures
        highest_marked(ranks_held(held, 1)).len() == 7,
{
    lemma_other_ranks(held, 13, 13);
    assert(without(ranks_held(held, 1), 13, 13) =~= ranks_held(held, 1));
}

/// Where no rank is held `n` times, each is held less often.
proof fn lemma_counts_under(held: Set<Card>, n: int)
    requires
        highest_marked(ranks_held(held, n)).len() == 0,
    ensures
        forall|rank: int| 0 <= rank < 13 ==> #[trigger] rank_count(held, rank) < n,
{
    let mask = ranks_held(held, n);
    lemma_none_marked(mask);
    assert forall|rank: int| 0 <= rank < 13 implies #[trigger] rank_count(held, rank) < n by {
        assert(!mask[rank]);
    }
}

proof fn lemma_best_straight_flush(held: Set<Card>)
    requires
        straight_flush_of(held) is Some,
    ensures
        some_five_is_best(held),
{
    let highs = straight_flush_highs(held);
    lemma_first_marked(highs, 1);
    let high = highest_marked(highs)[0];
    assert(highs[high]);
    let suit: int = if run_from(ranks_in_suit(held, 0), high) {
        0
    } else if run_from(ranks_in_suit(held, 1), high) {
        1
    } else if run_from(ranks_in_suit(held, 2), high) {
        2
    } else {
        3
    };
    lemma_make_straight_flush(held, high, suit, ranking_of(held));
}

proof fn lemma_best_four_of(held: Set<Card>)
    requires
        count_sum(held, 13) == 7,
        straight_flush_of(held) is None,
        four_of(held) is Some,
    ensures
        some_five_is_best(held),
{
    let quads = ranks_held(held, 4);
    lemma_first_marked(quads, 1);
    let quad = highest_marked(quads)[0];
    assert(quads[quad]);
    let mask = without(ranks_held(held, 1), quad, quad);
    assert(rank_count(held, quad) <= 4);
    lemma_some_other_rank(held, quad, quad);
    lemma_first_marked(mask, 1);
    let kicker = highest_marked(mask)[0];
    assert(mask[kicker]);
    lemma_make_four_of(held, quad, kicker, ranking_of(held));
}

proof fn lemma_best_full_house(held: Set<Card>)
    requires
        straight_flush_of(held) is None,
        four_of(held) is None,
        full_house_of(held) is Some,
    ensures
        some_five_is_best(held),
{
    let trips = ranks_held(held, 3);
    lemma_first_marked(trips, 1);
    let three = highest_marked(trips)[0];
    assert(trips[three]);
    let pairs = without(ranks_held(held, 2), three, three);
    lemma_first_marked(pairs, 1);
    let two = highest_marked(pairs)[0];
    assert(pairs[two]);
    lemma_make_full_house(held, three, two, ranking_of(held));
}

/// The flush that the cards make is the one they make in some suit.
proof fn lemma_flush_of_is_in_suit(held: Set<Card>) -> (suit: int)
    requires
        flush_of(held) is Some,
    ensures
        0 <= suit < 4,
        flush_of(held) == flush_in(held, suit),
{
    let d = flush_in(held, 1);
    let c = flush_in(held, 0);
    let h = flush_in(held, 2);
    let s = flush_in(held, 3);
    let dc = stronger_of(d, c);
    let dch = stronger_of(dc, h);
    let all = stronger_of(dch, s);
    assert(flush_of(held) == all);
    lemma_stronger_of(d, c);
    lemma_stronger_of(dc, h);
    lemma_stronger_of(dch, s);
    if all == s {
        3
    } else if dch == h {
        2
    } else if dc == c {
        0
    } else {
        1
    }
}

proof fn lemma_best_flush(held: Set<Card>)
    requires
        holds_suited_wheel(held) ==> ranking_of(held) is StraightFlush,
        straight_flush_of(held) is None,
        four_of(held) is None,
        full_house_of(held) is None,
        flush_of(held) is Some,
    ensures
        some_five_is_best(held),
{
    let suit = lemma_flush_of_is_in_suit(held);
    let mask = ranks_in_suit(held, suit);
    let top = highest_marked(mask);
    lemma_first_marked(mask, 5);
    assert(mask[top[0]] && mask[top[1]] && mask[top[2]] && mask[top[3]] && mask[top[4]]);
    assert(top[0] > top[1] && top[1] > top[2] && top[2] > top[3] && top[3] > top[4]);
    assert(ranking_of(held) == flush_in(held, suit)->0);
    assert(top[0] != top[4] + 4) by {
        if top[0] == top[4] + 4 {
            assert(run_from(mask, top[0]));
            assert(straight_flush_highs(held)[top[0]]);
            lemma_marked(straight_flush_highs(held), top[0]);
        }
    }
    assert(!(top[0] == 12 && top[1] == 3)) by {
        if top[0] == 12 && top[1] == 3 {
            assert(wheel(mask));
            assert(holds_suited_wheel(held));
        }
    }
    assert(flush_in(held, suit)->0.key() == (5int, top[0], top[1], top[2], top[3], top[4]));
    lemma_make_plain(
        held,
        top[0],
        suit,
        top[1],
        suit,
        top[2],
        suit,
        top[3],
        suit,
        top[4],
        suit,
        ranking_of(held),
    );
}

proof fn lemma_best_straight(held: Set<Card>)
    requires
        holds_suited_wheel(held) ==> ranking_of(held) is StraightFlush,
        straight_flush_of(held) is None,
        four_of(held) is None,
        full_house_of(held) is None,
        flush_of(held) is None,
        straight_of(held) is Some,
    ensures
        some_five_is_best(held),
{
    let mask = ranks_held(held, 1);
    let highs = straight_highs(mask);
    lemma_first_marked(highs, 1);
    let high = highest_marked(highs)[0];
    assert(highs[high]);
    let ranks = if run_from(mask, high) {
        seq![high, high - 1, high - 2, high - 3, high - 4]
    } else {
        seq![12, 3, 2, 1, 0]
    };
    assert(mask[ranks[0]] && mask[ranks[1]] && mask[ranks[2]] && mask[ranks[3]] && mask[ranks[4]]);
    lemma_nth_suit(held, ranks[0]);
    lemma_nth_suit(held, ranks[1]);
    lemma_nth_suit(held, ranks[2]);
    lemma_nth_suit(held, ranks[3]);
    lemma_nth_suit(held, ranks[4]);
    let s0 = nth_suit(held, ranks[0], 0);
    let s1 = nth_suit(held, ranks[1], 0);
    let s2 = nth_suit(held, ranks[2], 0);
    let s3 = nth_suit(held, ranks[3], 0);
    let s4 = nth_suit(held, ranks[4], 0);
    assert(!(s0 == s1 && s1 == s2 && s2 == s3 && s3 == s4)) by {
        if s0 == s1 && s1 == s2 && s2 == s3 && s3 == s4 {
            let suited = ranks_in_suit(held, s0);
            assert(suited[ranks[0]] && suited[ranks[1]] && suited[ranks[2]] && suited[ranks[3]]
                && suited[ranks[4]]);
            if run_from(mask, high) {
                assert(run_from(suited, high));
                assert(straight_flush_highs(held)[high]);
                lemma_marked(straight_flush_highs(held), high);
            } else {
                assert(wheel(suited));
                assert(holds_suited_wheel(held));
            }
        }
    }
    assert(ranking_of(held) == straight_of(held)->0);
    lemma_make_straight(
        held,
        high,
        ranks[0],
        s0,
        ranks[1],
        s1,
        ranks[2],
        s2,
        ranks[3],
        s3,
        ranks[4],
        s4,
        ranking_of(held),
    );
}

proof fn lemma_best_three_of(held: Set<Card>)
    requires
        count_sum(held, 13) == 7,
        straight_flush_of(held) is None,
        four_of(held) is None,
        full_house_of(held) is None,
        flush_of(held) is None,
        straight_of(held) is None,
        three_of(held) is Some,
    ensures
        some_five_is_best(held),
{
    let trips = ranks_held(held, 3);
    lemma_first_marked(trips, 1);
    let three = highest_marked(trips)[0];
    assert(trips[three]);
    let others = without(ranks_held(held, 1), three, three);
    assert(highest_marked(others).len() == 4) by {
        lemma_counts_under(held, 4);
        assert(rank_count(held, three) == 3);
        let pairs = without(ranks_held(held, 2), three, three);
        lemma_none_marked(pairs);
        assert forall|rank: int| 0 <= rank < 13 && rank != three implies #[trigger] rank_count(
            held,
            rank,
        ) <= 1 by {
            assert(!pairs[rank]);
        }
        lemma_other_ranks(held, three, three);
    }
    lemma_first_marked(others, 2);
    let k0 = highest_marked(others)[0];
    let k1 = highest_marked(others)[1];
    assert(others[k0] && others[k1] && k0 > k1);
    assert(ranking_of(held) == three_of(held)->0);
    assert(three_of(held)->0.key() == (3int, three, k0, k1, 0int, 0int));
    lemma_make_three_of(held, three, k0, k1, ranking_of(held));
}

proof fn lemma_best_pair(held: Set<Card>)
    requires
        count_sum(held, 13) == 7,
        straight_flush_of(held) is None,
        four_of(held) is None,
        full_house_of(held) is None,
        flush_of(held) is None,
        straight_of(held) is None,
        three_of(held) is None,
        highest_marked(ranks_held(held, 2)).len() == 1,
    ensures
        some_five_is_best(held),
{
    let pairs = ranks_held(held, 2);
    lemma_first_marked(pairs, 1);
    let pair = highest_marked(pairs)[0];
    assert(pairs[pair]);
    let others = without(ranks_held(held, 1), pair, pair);
    assert(highest_marked(others).len() == 5) by {
        lemma_counts_under(held, 3);
        assert(rank_count(held, pair) == 2);
        lemma_highest_marked(pairs);
        assert forall|rank: int| 0 <= rank < 13 && rank != pair implies #[trigger] rank_count(
            held,
            rank,
        ) <= 1 by {
            if pairs[rank] {
                assert(highest_marked(pairs).contains(rank));
            }
        }
        lemma_other_ranks(held, pair, pair);
    }
    lemma_first_marked(others, 3);
    let k0 = highest_marked(others)[0];
    let k1 = highest_marked(others)[1];
    let k2 = highest_marked(others)[2];
    assert(others[k0] && others[k1] && others[k2] && k0 > k1 && k1 > k2);
    assert(ranking_of(held) == pairs_of(held)->0);
    assert(pairs_of(held)->0.key() == (1int, pair, k0, k1, k2, 0int));
    lemma_make_pair(held, pair, k0, k1, k2, ranking_of(held));
}

proof fn lemma_best_two_pair(held: Set<Card>)
    requires
        count_sum(held, 13) == 7,
        straight_flush_of(held) is None,
        four_of(held) is None,
        full_house_of(held) is None,
        flush_of(held) is None,
        straight_of(held) is None,
        three_of(held) is None,
        highest_marked(ranks_held(held, 2)).len() >= 2,
    ensures
        some_five_is_best(held),
{
    let pairs = ranks_held(held, 2);
    lemma_first_marked(pairs, 2);
    let high = highest_marked(pairs)[0];
    let low = highest_marked(pairs)[1];
    assert(pairs[high] && pairs[low] && high > low);
    let others = without(ranks_held(held, 1), high, low);
    assert(highest_marked(others).len() >= 1) by {
        lemma_counts_under(held, 3);
        assert(rank_count(held, high) == 2 && rank_count(held, low) == 2);
        lemma_some_other_rank(held, high, low);
    }
    lemma_first_marked(others, 1);
    let kicker = highest_marked(others)[0];
    assert(others[kicker]);
    assert(ranking_of(held) == pairs_of(held)->0);
    assert(pairs_of(held)->0.key() == (2int, high, low, kicker, 0int, 0int));
    lemma_make_two_pair(held, high, low, kicker, ranking_of(held));
}

/// Five held cards of falling ranks are not of one suit where the cards
/// make no flush.
proof fn lemma_no_flush(held: Set<Card>, ranks: Seq<int>, suit: int)
    requires
        flush_of(held) is None,
        ranks.len() == 5,
        0 <= suit < 4,
        forall|i: int| 0 <= i < 5 ==> 0 <= #[trigger] ranks[i] < 13,
        forall|i: int, j: int| 0 <= i < j < 5 ==> ranks[i] > ranks[j],
    ensures
        !(holds(held, ranks[0], suit) && holds(held, ranks[1], suit) && holds(held, ranks[2], suit)
            && holds(held, ranks[3], suit) && holds(held, ranks[4], suit)),
{
    if holds(held, ranks[0], suit) && holds(held, ranks[1], suit) && holds(held, ranks[2], suit)
        && holds(held, ranks[3], suit) && holds(held, ranks[4], suit) {
        let suited = ranks_in_suit(held, suit);
        assert forall|i: int| 0 <= i < ranks.len() implies 0 <= #[trigger] ranks[i] < 13
            && suited[ranks[i]] by {
            if i == 0 {
            } else if i == 1 {
            } else if i == 2 {
            } else if i == 3 {
            } else {
            }
        }
        lemma_marked_all(suited, ranks);
        assert(flush_in(held, suit) is Some);
        lemma_flush_of_is_strongest(held, suit);
    }
}

proof fn lemma_best_high_card(held: Set<Card>)
    requires
        count_sum(held, 13) == 7,
        straight_flush_of(held) is None,
        four_of(held) is None,
        full_house_of(held) is None,
        flush_of(held) is None,
        straight_of(held) is None,
        three_of(held) is None,
        pairs_of(held) is None,
    ensures
        some_five_is_best(held),
{
    let mask = ranks_held(held, 1);
    assert(highest_marked(mask).len() == 7) by {
        lemma_counts_under(held, 2);
        lemma_all_ranks(held);
    }
    let top = highest_marked(mask);
    lemma_first_marked(mask, 5);
    assert(mask[top[0]] && mask[top[1]] && mask[top[2]] && mask[top[3]] && mask[top[4]]);
    assert(top[0] > top[1] && top[1] > top[2] && top[2] > top[3] && top[3] > top[4]);
    lemma_nth_suit(held, top[0]);
    lemma_nth_suit(held, top[1]);
    lemma_nth_suit(held, top[2]);
    lemma_nth_suit(held, top[3]);
    lemma_nth_suit(held, top[4]);
    let s0 = nth_suit(held, top[0], 0);
    let s1 = nth_suit(held, top[1], 0);
    let s2 = nth_suit(held, top[2], 0);
    let s3 = nth_suit(held, top[3], 0);
    let s4 = nth_suit(held, top[4], 0);
    assert(top[0] != top[4] + 4 && !(top[0] == 12 && top[1] == 3)) by {
        let highs = straight_highs(mask);
        lemma_none_marked(highs);
        if top[0] == top[4] + 4 {
            assert(run_from(mask, top[0]));
            assert(highs[top[0]]);
        }
        if top[0] == 12 && top[1] == 3 {
            assert(wheel(mask));
            assert(highs[3]);
        }
    }
    assert(!(s0 == s1 && s1 == s2 && s2 == s3 && s3 == s4)) by {
        lemma_no_flush(held, seq![top[0], top[1], top[2], top[3], top[4]], s0);
    }
    assert(ranking_of(held) == high_card_of(held));
    assert(high_card_of(held).key() == (0int, top[0], top[1], top[2], top[3], top[4]));
    lemma_make_plain(
        held,
        top[0],
        s0,
        top[1],
        s1,
        top[2],
        s2,
        top[3],
        s3,
        top[4],
        s4,
        ranking_of(held),
    );
}

/// Some five of seven cards have the ranking of the seven, unless the
/// seven hold the five lowest cards of a suit with the ace and their
/// ranking is no straight flush.
pub proof fn lemma_some_five_is_best(held: Set<Card>)
    requires
        count_sum(held, 13) == 7,
        holds_suited_wheel(held) ==> ranking_of(held) is StraightFlush,
    ensures
        some_five_is_best(held),
{
    if straight_flush_of(held) is Some {
        lemma_best_straight_flush(held);
    } else if four_of(held) is Some {
        lemma_best_four_of(held);
    } else if full_house_of(held) is Some {
        lemma_best_full_house(held);
    } else if flush_of(held) is Some {
        lemma_best_flush(held);
    } else if straight_of(held) is Some {
        lemma_best_straight(held);
    } else if three_of(held) is Some {
        lemma_best_three_of(held);
    } else if highest_marked(ranks_held(held, 2)).len() == 1 {
        lemma_best_pair(held);
    } else if highest_marked(ranks_held(held, 2)).len() >= 2 {
        lemma_best_two_pair(held);
    } else {
        lemma_best_high_card(held);
    }
}

/// The ranking of a hand of seven distinct cards is that of its best five:
/// no five of its cards rank higher by the common rules, in category or
/// within it, and some five of them rank the same. The one exception, left
/// out here: a hand that holds `Ace`, `Two`, `Three`, `Four` and `Five` of
/// one suit without a higher run in a suit. Its ranking is not a straight
/// flush, since the ace is low only in a plain straight.
pub proof fn lemma_ranking_is_best_five(hand: Hand)
    requires
        hand.has_distinct_cards(),
        holds_suited_wheel(hand.card_set()) ==> hand.ranking() is StraightFlush,
    ensures
        forall|five: Seq<Card>|
            is_five_of(five, hand.card_set()) ==> (#[trigger] five_card_ranking(five)).is_at_most(
                hand.ranking(),
            ) && five_card_ranking(five).category() <= hand.ranking().category(),
        exists|five: Seq<Card>|
            is_five_of(five, hand.card_set()) && five_card_ranking(five) == hand.ranking(),
{
    let held = hand.card_set();
    hand.lemma_seven_cards();
    lemma_count_sum(hand@);
    assert forall|five: Seq<Card>| is_five_of(five, held) implies (#[trigger] five_card_ranking(
        five,
    )).is_at_most(hand.ranking()) && five_card_ranking(five).category()
        <= hand.ranking().category() by {
        lemma_no_five_is_stronger(held, five);
    }
    lemma_some_five_is_best(held);
}

/// The exception is a real one: where a hand holds `Ace`, `Two`, `Three`,
/// `Four` and `Five` of one suit and its ranking is no straight flush, those
/// five cards rank higher by the common rules than the hand does here.
pub proof fn lemma_suited_wheel_ranks_higher(hand: Hand)
    requires
        holds_suited_wheel(hand.card_set()),
        !(hand.ranking() is StraightFlush),
    ensures
        exists|five: Seq<Card>|
            is_five_of(five, hand.card_set()) && five_card_ranking(five)
                == HandRanking::StraightFlush(Rank::Five) && hand.ranking().is_below(
                five_card_ranking(five),
            ),
{
    let held = hand.card_set();
    let suit: int = if wheel(ranks_in_suit(held, 0)) {
        0
    } else if wheel(ranks_in_suit(held, 1)) {
        1
    } else if wheel(ranks_in_suit(held, 2)) {
        2
    } else {
        3
    };
    assert(wheel(ranks_in_suit(held, suit)));
    let five = lemma_five_cards(held, 12, suit, 3, suit, 2, suit, 1, suit, 0, suit);
    lemma_suits_agree(five, suit, suit, suit, suit, suit);
    HandRanking::lemma_key_determines(
        five_card_ranking(five),
        HandRanking::StraightFlush(Rank::Five),
    );
    assert(is_five_of(five, held) && five_card_ranking(five) == HandRanking::StraightFlush(
        Rank::Five,
    ) && hand.ranking().is_below(five_card_ranking(five)));
}

} // verus!
