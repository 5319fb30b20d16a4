use super::card::Card;
use super::card::Rank;
use super::hand::Hand;
use super::hand::HAND_SIZE;
use super::hand_ranking::Flush;
use super::hand_ranking::FourOf;
use super::hand_ranking::FullHouse;
use super::hand_ranking::HandRanking;
use super::hand_ranking::Pair;
use super::hand_ranking::ThreeOf;
use super::hand_ranking::TwoPair;
use vstd::prelude::*;

verus! {

/// How many cards make a ranking.
pub const CARDS_IN_COMBO: usize = 5;

/// Cards that cannot be evaluated: they are not seven, or one of them
/// occurs twice.
#[derive(Debug, Clone, Copy, PartialEq, Eq, Structural)]
pub struct InvalidHand;

/// Whether the cards include the one of the given rank and suit.
pub open spec fn holds(held: Set<Card>, rank: int, suit: int) -> bool {
    held.contains(Card::at(rank, suit))
}

/// In how many suits the given rank is held.
pub open spec fn rank_count(held: Set<Card>, rank: int) -> int {
    (if holds(held, rank, 0) { 1int } else { 0 })
        + (if holds(held, rank, 1) { 1int } else { 0 })
        + (if holds(held, rank, 2) { 1int } else { 0 })
        + (if holds(held, rank, 3) { 1int } else { 0 })
}

/// For each rank, whether it is held in at least `at_least` suits.
pub open spec fn ranks_held(held: Set<Card>, at_least: int) -> Seq<bool> {
    Seq::new(13, |rank: int| rank_count(held, rank) >= at_least)
}

/// For each rank, whether it is held in the given suit.
pub open spec fn ranks_in_suit(held: Set<Card>, suit: int) -> Seq<bool> {
    Seq::new(13, |rank: int| holds(held, rank, suit))
}

/// The ranks of `mask` but for `a` and `b`.
pub open spec fn without(mask: Seq<bool>, a: int, b: int) -> Seq<bool> {
    Seq::new(13, |rank: int| mask[rank] && rank != a && rank != b)
}

/// Five ranks in a row, each one step below the last, from `high` down.
/// There is no step below `Two`, so no run has a high rank under `Six`.
pub open spec fn run_from(mask: Seq<bool>, high: int) -> bool {
    4 <= high < 13 && mask[high] && mask[high - 1] && mask[high - 2] && mask[high - 3] && mask[high
        - 4]
}

/// The wheel: `Ace`, `Five`, `Four`, `Three`, `Two`.
pub open spec fn wheel(mask: Seq<bool>) -> bool {
    mask[12] && mask[3] && mask[2] && mask[1] && mask[0]
}

/// For each rank, whether a straight with that high rank can be made of the
/// ranks in `mask`. The wheel counts as a straight with high rank `Five`.
pub open spec fn straight_highs(mask: Seq<bool>) -> Seq<bool> {
    Seq::new(13, |high: int| run_from(mask, high) || (high == 3 && wheel(mask)))
}

/// For each rank, whether the cards hold a run of one suit with that high
/// rank. The ace is never low here.
pub open spec fn straight_flush_highs(held: Set<Card>) -> Seq<bool> {
    Seq::new(
        13,
        |high: int|
            run_from(ranks_in_suit(held, 0), high) || run_from(ranks_in_suit(held, 1), high)
                || run_from(ranks_in_suit(held, 2), high) || run_from(
                ranks_in_suit(held, 3),
                high,
            ),
    )
}

/// The places that `mask` marks, from the highest down. A mask of ranks
/// gives ranks.
pub open spec fn highest_marked(mask: Seq<bool>) -> Seq<int>
    decreases mask.len(),
{
    if mask.len() == 0 {
        Seq::empty()
    } else if mask.last() {
        seq![mask.len() - 1] + highest_marked(mask.drop_last())
    } else {
        highest_marked(mask.drop_last())
    }
}

/// The rank at place `i` of `ranks`, or `Two` where there are not so many.
pub open spec fn pick(ranks: Seq<int>, i: int) -> Rank {
    if 0 <= i < ranks.len() {
        Rank::of_value(ranks[i])
    } else {
        Rank::Two
    }
}

/// The straight flush that the cards make: five cards of one suit in a
/// row, by the highest rank that such a run can have. With high rank `Ace`
/// it is the royal flush.
pub open spec fn straight_flush_of(held: Set<Card>) -> Option<HandRanking> {
    let highs = highest_marked(straight_flush_highs(held));
    if highs.len() > 0 {
        Some(HandRanking::StraightFlush(pick(highs, 0)))
    } else {
        None
    }
}

/// The four of a kind that the cards make: the highest rank held in all
/// four suits, with the highest other rank held.
pub open spec fn four_of(held: Set<Card>) -> Option<HandRanking> {
    let quads = highest_marked(ranks_held(held, 4));
    if quads.len() > 0 {
        let others = highest_marked(without(ranks_held(held, 1), quads[0], quads[0]));
        Some(HandRanking::FourOf(FourOf { rank: pick(quads, 0), kicker: pick(others, 0) }))
    } else {
        None
    }
}

/// The full house that the cards make: the highest rank held three times,
/// with the highest other rank held twice.
pub open spec fn full_house_of(held: Set<Card>) -> Option<HandRanking> {
    let trips = highest_marked(ranks_held(held, 3));
    if trips.len() > 0 {
        let pairs = highest_marked(without(ranks_held(held, 2), trips[0], trips[0]));
        if pairs.len() > 0 {
            Some(
                HandRanking::FullHouse(
                    FullHouse { three_of_rank: pick(trips, 0), pair_of_rank: pick(pairs, 0) },
                ),
            )
        } else {
            None
        }
    } else {
        None
    }
}

/// The flush that the cards make in one suit: where the suit is held five
/// times, its five highest ranks.
pub open spec fn flush_in(held: Set<Card>, suit: int) -> Option<HandRanking> {
    let ranks = highest_marked(ranks_in_suit(held, suit));
    if ranks.len() >= 5 {
        Some(
            HandRanking::Flush(
                Flush {
                    ranks: [
                        pick(ranks, 0),
                        pick(ranks, 1),
                        pick(ranks, 2),
                        pick(ranks, 3),
                        pick(ranks, 4),
                    ],
                },
            ),
        )
    } else {
        None
    }
}

/// The stronger of two findings, where there are two.
pub open spec fn stronger_of(a: Option<HandRanking>, b: Option<HandRanking>) -> Option<
    HandRanking,
> {
    if a is None {
        b
    } else if b is None {
        a
    } else if a->0.is_below(b->0) {
        b
    } else {
        a
    }
}

/// The flush that the cards make. Seven cards make a flush in one suit at
/// most; of several the strongest counts.
pub open spec fn flush_of(held: Set<Card>) -> Option<HandRanking> {
    stronger_of(
        stronger_of(stronger_of(flush_in(held, 1), flush_in(held, 0)), flush_in(held, 2)),
        flush_in(held, 3),
    )
}

/// The straight that the cards make: five ranks in a row, whatever the
/// suits, by the highest rank that such a row can have. In the wheel the
/// ace is low and the high rank is `Five`.
pub open spec fn straight_of(held: Set<Card>) -> Option<HandRanking> {
    let highs = highest_marked(straight_highs(ranks_held(held, 1)));
    if highs.len() > 0 {
        Some(HandRanking::Straight(pick(highs, 0)))
    } else {
        None
    }
}

/// The three of a kind that the cards make: the highest rank held three
/// times, with the two highest other ranks held.
pub open spec fn three_of(held: Set<Card>) -> Option<HandRanking> {
    let trips = highest_marked(ranks_held(held, 3));
    if trips.len() > 0 {
        let others = highest_marked(without(ranks_held(held, 1), trips[0], trips[0]));
        Some(
            HandRanking::ThreeOf(
                ThreeOf { three_of: pick(trips, 0), kickers: [pick(others, 0), pick(others, 1)] },
            ),
        )
    } else {
        None
    }
}

/// The pair or the two pairs that the cards make. One rank held twice is a
/// pair, with the three highest other ranks held. Of two or more ranks held
/// twice the two highest are two pairs, with the highest other rank held.
pub open spec fn pairs_of(held: Set<Card>) -> Option<HandRanking> {
    let pairs = highest_marked(ranks_held(held, 2));
    if pairs.len() == 0 {
        None
    } else if pairs.len() == 1 {
        let others = highest_marked(without(ranks_held(held, 1), pairs[0], pairs[0]));
        Some(
            HandRanking::Pair(
                Pair {
                    pair_rank: pick(pairs, 0),
                    kickers: [pick(others, 0), pick(others, 1), pick(others, 2)],
                },
            ),
        )
    } else {
        let others = highest_marked(without(ranks_held(held, 1), pairs[0], pairs[1]));
        Some(
            HandRanking::TwoPair(
                TwoPair { pairs: [pick(pairs, 0), pick(pairs, 1)], kicker: pick(others, 0) },
            ),
        )
    }
}

/// The five highest ranks held.
pub open spec fn high_card_of(held: Set<Card>) -> HandRanking {
    let ranks = highest_marked(ranks_held(held, 1));
    HandRanking::HighCard(
        [pick(ranks, 0), pick(ranks, 1), pick(ranks, 2), pick(ranks, 3), pick(ranks, 4)],
    )
}

/// The strength of a set of cards: the first of the categories, from the
/// strongest down, that the cards can make, with the ranks that break ties.
pub open spec fn ranking_of(held: Set<Card>) -> HandRanking {
    if straight_flush_of(held) is Some {
        straight_flush_of(held)->0
    } else if four_of(held) is Some {
        four_of(held)->0
    } else if full_house_of(held) is Some {
        full_house_of(held)->0
    } else if flush_of(held) is Some {
        flush_of(held)->0
    } else if straight_of(held) is Some {
        straight_of(held)->0
    } else if three_of(held) is Some {
        three_of(held)->0
    } else if pairs_of(held) is Some {
        pairs_of(held)->0
    } else {
        high_card_of(held)
    }
}

impl Hand {
    /// The strength of the hand. It depends on the cards alone, not on the
    /// order they were given in.
    pub open spec fn ranking(&self) -> HandRanking {
        ranking_of(self.card_set())
    }
}

/// Rank and suit determine a card, and a card its place in the deck.
pub proof fn lemma_card_at(rank: int, suit: int)
    requires
        0 <= rank < 13,
        0 <= suit < 4,
    ensures
        Card::at(rank, suit).rank().value() == rank,
        Card::at(rank, suit).suit().value() == suit,
        Card::at(rank, suit).spec_index() == suit * 13 + rank,
{
    broadcast use Card::lemma_fields;

}

/// A card is the card of its rank and suit, and has a place in the deck.
pub proof fn lemma_card_is_at(card: Card)
    ensures
        0 <= card.rank().value() < 13,
        0 <= card.suit().value() < 4,
        0 <= card.spec_index() < 52,
        Card::at(card.rank().value(), card.suit().value()) == card,
{
    broadcast use Card::lemma_rebuild;

}

/// The highest marked places are places that the mask marks, each lower
/// than the one before it, and none that the mask marks is missing.
pub proof fn lemma_highest_marked(mask: Seq<bool>)
    ensures
        highest_marked(mask).len() <= mask.len(),
        forall|i: int|
            0 <= i < highest_marked(mask).len() ==> 0 <= #[trigger] highest_marked(mask)[i] < mask.len()
                && mask[highest_marked(mask)[i]],
        forall|i: int, j: int|
            0 <= i < j < highest_marked(mask).len() ==> highest_marked(mask)[i] > highest_marked(mask)[j],
        forall|rank: int|
            0 <= rank < mask.len() && #[trigger] mask[rank] ==> highest_marked(mask).contains(rank),
    decreases mask.len(),
{
    if mask.len() > 0 {
        let shorter = mask.drop_last();
        let rest = highest_marked(shorter);
        lemma_highest_marked(shorter);
        let top = highest_marked(mask);
        assert forall|rank: int| 0 <= rank < mask.len() && #[trigger] mask[rank] implies top.contains(
            rank,
        ) by {
            if rank == mask.len() - 1 {
                assert(top[0] == rank);
            } else {
                assert(shorter[rank]);
                let k = choose|k: int| 0 <= k < rest.len() && rest[k] == rank;
                if mask.last() {
                    assert(top[k + 1] == rank);
                } else {
                    assert(top[k] == rank);
                }
            }
        }
        assert forall|i: int| 0 <= i < top.len() implies 0 <= #[trigger] top[i] < mask.len()
            && mask[top[i]] by {
            if mask.last() {
                if i > 0 {
                    assert(top[i] == rest[i - 1]);
                    assert(shorter[rest[i - 1]]);
                }
            } else {
                assert(shorter[rest[i]]);
            }
        }
        assert forall|i: int, j: int| 0 <= i < j < top.len() implies top[i] > top[j] by {
            if mask.last() {
                assert(top[j] == rest[j - 1]);
                if i > 0 {
                    assert(top[i] == rest[i - 1]);
                }
            }
        }
    }
}

/// Where the last place is marked, it is the first of the marked places.
proof fn lemma_highest_is_first(mask: Seq<bool>)
    requires
        mask.len() > 0,
        mask.last(),
    ensures
        highest_marked(mask).len() > 0,
        highest_marked(mask)[0] == mask.len() - 1,
{
}

/// The marked places among the `n` lowest, by whether the highest of them
/// is marked.
proof fn lemma_highest_step(mask: Seq<bool>, n: int)
    requires
        0 < n <= mask.len(),
    ensures
        highest_marked(mask.take(n)) == if mask[n - 1] {
            seq![n - 1] + highest_marked(mask.take(n - 1))
        } else {
            highest_marked(mask.take(n - 1))
        },
{
    assert(mask.take(n).drop_last() == mask.take(n - 1));
}

/// The `limit` highest ranks that `mask` marks, or all of them where there
/// are fewer.
fn highest(mask: &[bool; 13], limit: usize) -> (out: Vec<Rank>)
    ensures
        out@.len() <= limit,
        out@.len() <= highest_marked(mask@).len(),
        out@.len() == limit || out@.len() == highest_marked(mask@).len(),
        forall|i: int| 0 <= i < out@.len() ==> out@[i] == pick(highest_marked(mask@), i),
        forall|i: int| 0 <= i < out@.len() ==> 0 <= #[trigger] highest_marked(mask@)[i] < 13,
{
    let mut out: Vec<Rank> = Vec::new();
    let mut n: usize = 13;
    let ghost mut found: Seq<int> = Seq::empty();
    proof {
        assert(mask@.take(13) == mask@);
        assert(found + highest_marked(mask@) == highest_marked(mask@));
    }
    while n > 0 && out.len() < limit
        invariant
            n <= 13,
            out@.len() <= limit,
            found.len() == out@.len(),
            highest_marked(mask@) == found + highest_marked(mask@.take(n as int)),
            forall|i: int| 0 <= i < found.len() ==> 0 <= #[trigger] found[i] < 13,
            forall|i: int| 0 <= i < found.len() ==> out@[i] == Rank::of_value(found[i]),
        decreases n,
    {
        proof {
            lemma_highest_step(mask@, n as int);
        }
        n -= 1;
        if mask[n] {
            let rank = match Rank::from_index(n as u8) {
                Some(rank) => rank,
                None => Rank::Two,
            };
            out.push(rank);
            proof {
                let rest = highest_marked(mask@.take(n as int));
                assert(found + (seq![n as int] + rest) == found.push(n as int) + rest);
                found = found.push(n as int);
            }
        }
    }
    proof {
        if n == 0 {
            assert(highest_marked(mask@.take(0)) == Seq::<int>::empty());
            assert(found + Seq::<int>::empty() == found);
        }
    }
    out
}

/// The rank at place `i`, or `Two` where there are not so many.
fn nth(ranks: &Vec<Rank>, i: usize) -> (rank: Rank)
    ensures
        rank == if i < ranks@.len() {
            ranks@[i as int]
        } else {
            Rank::Two
        },
{
    if i < ranks.len() {
        ranks[i]
    } else {
        Rank::Two
    }
}

/// The ranks of `mask` but for `a` and `b`.
fn exclude(mask: &[bool; 13], a: u8, b: u8) -> (out: [bool; 13])
    ensures
        out@ == without(mask@, a as int, b as int),
{
    let mut out = [false;13];
    let mut rank: usize = 0;
    while rank < 13
        invariant
            rank <= 13,
            forall|k: int|
                0 <= k < rank ==> out@[k] == (mask@[k] && k != a as int && k != b as int),
        decreases 13 - rank,
    {
        out[rank] = mask[rank] && rank != a as usize && rank != b as usize;
        rank += 1;
    }
    assert(out@ =~= without(mask@, a as int, b as int));
    out
}

/// Whether `mask` marks the five ranks from `high` down.
fn has_run_from(mask: &[bool; 13], high: usize) -> (found: bool)
    requires
        high < 13,
    ensures
        found == run_from(mask@, high as int),
{
    high >= 4 && mask[high] && mask[high - 1] && mask[high - 2] && mask[high - 3] && mask[high - 4]
}

/// For each rank, whether a straight with that high rank can be made.
fn straights_in(mask: &[bool; 13]) -> (out: [bool; 13])
    ensures
        out@ == straight_highs(mask@),
{
    let is_wheel = mask[12] && mask[3] && mask[2] && mask[1] && mask[0];
    let mut out = [false;13];
    let mut high: usize = 0;
    while high < 13
        invariant
            high <= 13,
            is_wheel == wheel(mask@),
            forall|k: int|
                0 <= k < high ==> out@[k] == (run_from(mask@, k) || (k == 3 && wheel(mask@))),
        decreases 13 - high,
    {
        out[high] = has_run_from(mask, high) || (high == 3 && is_wheel);
        high += 1;
    }
    assert(out@ =~= straight_highs(mask@));
    out
}

/// Which cards a hand holds, by their place in the deck, and in how many
/// suits each rank is held.
struct Tally {
    held: [bool; 52],
    counts: [u8; 13],
    cards: Ghost<Set<Card>>,
}

impl Tally {
    spec fn wf(&self) -> bool {
        &&& forall|rank: int, suit: int|
            0 <= rank < 13 && 0 <= suit < 4 ==> self.held@[suit * 13 + rank] == #[trigger] holds(
                self.cards@,
                rank,
                suit,
            )
        &&& forall|rank: int|
            0 <= rank < 13 ==> self.counts@[rank] == #[trigger] rank_count(self.cards@, rank)
    }

    /// The tally of a hand, or nothing where a card occurs twice.
    fn of(hand: &Hand) -> (tally: Option<Tally>)
        ensures
            tally is Some <==> hand.has_distinct_cards(),
            tally is Some ==> tally->0.wf() && tally->0.cards@ == hand.card_set(),
    {
        let cards = hand.cards();
        let mut held = [false;52];
        let mut n: usize = 0;
        while n < HAND_SIZE
            invariant
                n <= HAND_SIZE,
                cards@ == hand@,
                cards@.len() == HAND_SIZE,
                forall|i: int, j: int| 0 <= i < j < n ==> cards@[i] != cards@[j],
                forall|k: int|
                    0 <= k < 52 ==> (held@[k] <==> exists|i: int|
                        0 <= i < n && (#[trigger] cards@[i]).spec_index() == k),
            decreases HAND_SIZE - n,
        {
            let at = cards[n].index();
            if held[at] {
                proof {
                    let i = choose|i: int| 0 <= i < n && (#[trigger] cards@[i]).spec_index() == at;
                    lemma_card_is_at(cards@[i]);
                    lemma_card_is_at(cards@[n as int]);
                    assert(cards@[i] == cards@[n as int]);
                }
                return None;
            }
            proof {
                assert forall|i: int| 0 <= i < n implies cards@[i] != cards@[n as int] by {
                    if cards@[i] == cards@[n as int] {
                        assert(cards@[i].spec_index() == at);
                    }
                }
            }
            let ghost before = held@;
            held[at] = true;
            n += 1;
            proof {
                assert forall|k: int| 0 <= k < 52 implies (held@[k] <==> exists|i: int|
                    0 <= i < n && (#[trigger] cards@[i]).spec_index() == k) by {
                    if k == at {
                        assert(cards@[n - 1].spec_index() == k);
                    } else if before[k] {
                        let i = choose|i: int|
                            0 <= i < n - 1 && (#[trigger] cards@[i]).spec_index() == k;
                        assert(cards@[i].spec_index() == k);
                    } else if exists|i: int|
                        0 <= i < n && (#[trigger] cards@[i]).spec_index() == k {
                        let i = choose|i: int|
                            0 <= i < n && (#[trigger] cards@[i]).spec_index() == k;
                        assert(i < n - 1);
                    }
                }
            }
        }
        let ghost set = hand.card_set();
        proof {
            assert forall|rank: int, suit: int| 0 <= rank < 13 && 0 <= suit < 4 implies held@[suit
                * 13 + rank] == #[trigger] holds(set, rank, suit) by {
                lemma_card_at(rank, suit);
                let card = Card::at(rank, suit);
                if held@[suit * 13 + rank] {
                    let i = choose|i: int|
                        0 <= i < n && (#[trigger] cards@[i]).spec_index() == suit * 13 + rank;
                    lemma_card_is_at(cards@[i]);
                    assert(cards@[i] == card);
                    assert(hand@.contains(card));
                }
                if holds(set, rank, suit) {
                    assert(hand@.contains(card));
                    let i = choose|i: int| 0 <= i < hand@.len() && hand@[i] == card;
                    assert(cards@[i].spec_index() == suit * 13 + rank);
                }
            }
        }
        let mut counts = [0u8;13];
        let mut rank: usize = 0;
        while rank < 13
            invariant
                rank <= 13,
                forall|r: int, s: int|
                    0 <= r < 13 && 0 <= s < 4 ==> held@[s * 13 + r] == #[trigger] holds(set, r, s),
                forall|r: int| 0 <= r < rank ==> counts@[r] == #[trigger] rank_count(set, r),
            decreases 13 - rank,
        {
            let mut count: u8 = 0;
            proof {
                assert(held@[0 * 13 + rank as int] == holds(set, rank as int, 0));
                assert(held@[1 * 13 + rank as int] == holds(set, rank as int, 1));
                assert(held@[2 * 13 + rank as int] == holds(set, rank as int, 2));
                assert(held@[3 * 13 + rank as int] == holds(set, rank as int, 3));
            }
            if held[rank] {
                count += 1;
            }
            if held[13 + rank] {
                count += 1;
            }
            if held[26 + rank] {
                count += 1;
            }
            if held[39 + rank] {
                count += 1;
            }
            counts[rank] = count;
            rank += 1;
        }
        proof {
            assert forall|i: int, j: int| 0 <= i < hand@.len() && 0 <= j < hand@.len() && i
                != j implies hand@[i] != hand@[j] by {
                if i < j {
                    assert(cards@[i] != cards@[j]);
                } else {
                    assert(cards@[j] != cards@[i]);
                }
            }
        }
        Some(Tally { held, counts, cards: Ghost(set) })
    }

    /// For each rank, whether it is held in at least `at_least` suits.
    fn ranks_held(&self, at_least: u8) -> (out: [bool; 13])
        requires
            self.wf(),
        ensures
            out@ == ranks_held(self.cards@, at_least as int),
    {
        let mut out = [false;13];
        let mut rank: usize = 0;
        while rank < 13
            invariant
                rank <= 13,
                self.wf(),
                forall|k: int|
                    0 <= k < rank ==> out@[k] == (rank_count(self.cards@, k) >= at_least as int),
            decreases 13 - rank,
        {
            assert(self.counts@[rank as int] == rank_count(self.cards@, rank as int));
            out[rank] = self.counts[rank] >= at_least;
            rank += 1;
        }
        assert(out@ =~= ranks_held(self.cards@, at_least as int));
        out
    }

    /// For each rank, whether it is held in the given suit.
    fn ranks_in_suit(&self, suit: usize) -> (out: [bool; 13])
        requires
            self.wf(),
            suit < 4,
        ensures
            out@ == ranks_in_suit(self.cards@, suit as int),
    {
        let mut out = [false;13];
        let mut rank: usize = 0;
        while rank < 13
            invariant
                rank <= 13,
                suit < 4,
                self.wf(),
                forall|k: int| 0 <= k < rank ==> out@[k] == holds(self.cards@, k, suit as int),
            decreases 13 - rank,
        {
            assert(self.held@[suit * 13 + rank] == holds(self.cards@, rank as int, suit as int));
            out[rank] = self.held[suit * 13 + rank];
            rank += 1;
        }
        assert(out@ =~= ranks_in_suit(self.cards@, suit as int));
        out
    }

    /// For each rank, whether a run of one suit with that high rank is held.
    fn straight_flush_highs(&self) -> (out: [bool; 13])
        requires
            self.wf(),
        ensures
            out@ == straight_flush_highs(self.cards@),
    {
        let clubs = self.ranks_in_suit(0);
        let diamonds = self.ranks_in_suit(1);
        let hearts = self.ranks_in_suit(2);
        let spades = self.ranks_in_suit(3);
        let mut out = [false;13];
        let mut high: usize = 0;
        while high < 13
            invariant
                high <= 13,
                clubs@ == ranks_in_suit(self.cards@, 0),
                diamonds@ == ranks_in_suit(self.cards@, 1),
                hearts@ == ranks_in_suit(self.cards@, 2),
                spades@ == ranks_in_suit(self.cards@, 3),
                forall|k: int| 0 <= k < high ==> out@[k] == straight_flush_highs(self.cards@)[k],
            decreases 13 - high,
        {
            out[high] = has_run_from(&clubs, high) || has_run_from(&diamonds, high)
                || has_run_from(&hearts, high) || has_run_from(&spades, high);
            high += 1;
        }
        assert(out@ =~= straight_flush_highs(self.cards@));
        out
    }
}

/// The royal flush, where the cards hold `Ace` to `Ten` of one suit.
fn has_royal_flush(tally: &Tally) -> (found: Option<HandRanking>)
    requires
        tally.wf(),
    ensures
        found == if straight_flush_highs(tally.cards@)[12] {
            Some(HandRanking::StraightFlush(Rank::Ace))
        } else {
            None
        },
        found is Some ==> found == straight_flush_of(tally.cards@),
{
    let highs = tally.straight_flush_highs();
    if highs[12] {
        proof {
            lemma_highest_is_first(highs@);
        }
        Some(HandRanking::StraightFlush(Rank::Ace))
    } else {
        None
    }
}

/// The highest straight flush that the cards hold, if any.
fn has_straight_flush(tally: &Tally) -> (found: Option<HandRanking>)
    requires
        tally.wf(),
    ensures
        found == straight_flush_of(tally.cards@),
{
    let highs = highest(&tally.straight_flush_highs(), 1);
    if highs.len() > 0 {
        Some(HandRanking::StraightFlush(highs[0]))
    } else {
        None
    }
}

/// The four of a kind that the cards hold, if any.
fn has_four_of(tally: &Tally) -> (found: Option<HandRanking>)
    requires
        tally.wf(),
    ensures
        found == four_of(tally.cards@),
{
    let quads = highest(&tally.ranks_held(4), 1);
    if quads.len() > 0 {
        let rank = quads[0];
        assert(rank.value() == highest_marked(ranks_held(tally.cards@, 4))[0]);
        let others = highest(&exclude(&tally.ranks_held(1), rank.index(), rank.index()), 1);
        Some(HandRanking::FourOf(FourOf::new(rank, nth(&others, 0))))
    } else {
        None
    }
}

/// The best full house that the cards hold, if any.
fn has_full_house(tally: &Tally) -> (found: Option<HandRanking>)
    requires
        tally.wf(),
    ensures
        found == full_house_of(tally.cards@),
{
    let trips = highest(&tally.ranks_held(3), 1);
    if trips.len() > 0 {
        let rank = trips[0];
        assert(rank.value() == highest_marked(ranks_held(tally.cards@, 3))[0]);
        let pairs = highest(&exclude(&tally.ranks_held(2), rank.index(), rank.index()), 1);
        if pairs.len() > 0 {
            Some(HandRanking::FullHouse(FullHouse::new(pairs[0], rank)))
        } else {
            None
        }
    } else {
        None
    }
}

/// The flush that the cards hold in the given suit, if any.
fn has_flush_of(suit: usize, tally: &Tally) -> (found: Option<HandRanking>)
    requires
        tally.wf(),
        suit < 4,
    ensures
        found == flush_in(tally.cards@, suit as int),
{
    let ranks = highest(&tally.ranks_in_suit(suit), CARDS_IN_COMBO);
    if ranks.len() >= CARDS_IN_COMBO {
        let flush = Flush::new([ranks[0], ranks[1], ranks[2], ranks[3], ranks[4]]);
        proof {
            let top = highest_marked(ranks_in_suit(tally.cards@, suit as int));
            assert(flush.ranks =~= [
                pick(top, 0),
                pick(top, 1),
                pick(top, 2),
                pick(top, 3),
                pick(top, 4),
            ]);
        }
        Some(HandRanking::Flush(flush))
    } else {
        None
    }
}

/// The stronger of two findings, where there are two.
fn stronger(a: Option<HandRanking>, b: Option<HandRanking>) -> (best: Option<HandRanking>)
    ensures
        best == stronger_of(a, b),
{
    match (a, b) {
        (None, _) => b,
        (_, None) => a,
        (Some(x), Some(y)) => if x < y {
            b
        } else {
            a
        },
    }
}

/// The flush that the cards hold, if any.
fn has_flush(tally: &Tally) -> (found: Option<HandRanking>)
    requires
        tally.wf(),
    ensures
        found == flush_of(tally.cards@),
{
    let diamonds = has_flush_of(1, tally);
    let clubs = has_flush_of(0, tally);
    let hearts = has_flush_of(2, tally);
    let spades = has_flush_of(3, tally);
    stronger(stronger(stronger(diamonds, clubs), hearts), spades)
}

/// The highest straight that the cards hold, if any.
fn has_straight(tally: &Tally) -> (found: Option<HandRanking>)
    requires
        tally.wf(),
    ensures
        found == straight_of(tally.cards@),
{
    let highs = highest(&straights_in(&tally.ranks_held(1)), 1);
    if highs.len() > 0 {
        Some(HandRanking::Straight(highs[0]))
    } else {
        None
    }
}

/// The three of a kind that the cards hold, if any.
fn has_three_of(tally: &Tally) -> (found: Option<HandRanking>)
    requires
        tally.wf(),
    ensures
        found == three_of(tally.cards@),
{
    let trips = highest(&tally.ranks_held(3), 1);
    if trips.len() > 0 {
        let rank = trips[0];
        assert(rank.value() == highest_marked(ranks_held(tally.cards@, 3))[0]);
        let others = highest(&exclude(&tally.ranks_held(1), rank.index(), rank.index()), 2);
        let three = ThreeOf::new(rank, [nth(&others, 0), nth(&others, 1)]);
        proof {
            let top = highest_marked(without(ranks_held(tally.cards@, 1), rank.value(), rank.value()));
            assert(three.kickers =~= [pick(top, 0), pick(top, 1)]);
        }
        Some(HandRanking::ThreeOf(three))
    } else {
        None
    }
}

/// The ranks held as a pair or more, from the highest down.
fn find_all_pairs(tally: &Tally) -> (pairs: Vec<Rank>)
    requires
        tally.wf(),
    ensures
        pairs@.len() == highest_marked(ranks_held(tally.cards@, 2)).len(),
        forall|i: int|
            0 <= i < pairs@.len() ==> pairs@[i] == pick(
                highest_marked(ranks_held(tally.cards@, 2)),
                i,
            ),
        forall|i: int|
            0 <= i < pairs@.len() ==> 0 <= #[trigger] highest_marked(ranks_held(tally.cards@, 2))[i]
                < 13,
{
    proof {
        lemma_highest_marked(ranks_held(tally.cards@, 2));
    }
    highest(&tally.ranks_held(2), 13)
}

/// The pair or the two best pairs that the cards hold, if any.
fn has_pairs(tally: &Tally) -> (found: Option<HandRanking>)
    requires
        tally.wf(),
    ensures
        found == pairs_of(tally.cards@),
{
    let pairs = find_all_pairs(tally);
    if pairs.len() == 0 {
        return None;
    }
    let ghost top = highest_marked(ranks_held(tally.cards@, 2));
    assert(pairs@[0].value() == top[0]);
    if pairs.len() == 1 {
        let rank = pairs[0];
        let others = highest(&exclude(&tally.ranks_held(1), rank.index(), rank.index()), 3);
        let pair = Pair::new(rank, [nth(&others, 0), nth(&others, 1), nth(&others, 2)]);
        proof {
            let kickers = highest_marked(without(ranks_held(tally.cards@, 1), top[0], top[0]));
            assert(pair.kickers =~= [pick(kickers, 0), pick(kickers, 1), pick(kickers, 2)]);
        }
        return Some(HandRanking::Pair(pair));
    }
    assert(pairs@[1].value() == top[1]);
    let others = highest(&exclude(&tally.ranks_held(1), pairs[0].index(), pairs[1].index()), 1);
    let two = TwoPair::new([pairs[0], pairs[1]], nth(&others, 0));
    proof {
        assert(two.pairs =~= [pick(top, 0), pick(top, 1)]);
    }
    Some(HandRanking::TwoPair(two))
}

/// The five highest ranks that the cards hold.
fn highest_card(tally: &Tally) -> (ranking: HandRanking)
    requires
        tally.wf(),
    ensures
        ranking == high_card_of(tally.cards@),
{
    let ranks = highest(&tally.ranks_held(1), CARDS_IN_COMBO);
    let high = [nth(&ranks, 0), nth(&ranks, 1), nth(&ranks, 2), nth(&ranks, 3), nth(&ranks, 4)];
    proof {
        let top = highest_marked(ranks_held(tally.cards@, 1));
        assert(high =~= [pick(top, 0), pick(top, 1), pick(top, 2), pick(top, 3), pick(top, 4)]);
    }
    HandRanking::HighCard(high)
}

/// The strength of the best five cards of a hand of seven. A hand in which
/// a card occurs twice is refused.
pub fn evaluate_five_cards(hand: &Hand) -> (ranking: Result<HandRanking, InvalidHand>)
    ensures
        hand.has_distinct_cards() ==> ranking == Ok::<HandRanking, InvalidHand>(hand.ranking()),
        !hand.has_distinct_cards() ==> ranking == Err::<HandRanking, InvalidHand>(InvalidHand),
{
    let tally = match Tally::of(hand) {
        Some(tally) => tally,
        None => {
            return Err(InvalidHand);
        },
    };
    if let Some(ranking) = has_royal_flush(&tally) {
        return Ok(ranking);
    }
    if let Some(ranking) = has_straight_flush(&tally) {
        return Ok(ranking);
    }
    if let Some(ranking) = has_four_of(&tally) {
        return Ok(ranking);
    }
    if let Some(ranking) = has_full_house(&tally) {
        return Ok(ranking);
    }
    if let Some(ranking) = has_flush(&tally) {
        return Ok(ranking);
    }
    if let Some(ranking) = has_straight(&tally) {
        return Ok(ranking);
    }
    if let Some(ranking) = has_three_of(&tally) {
        return Ok(ranking);
    }
    if let Some(ranking) = has_pairs(&tally) {
        return Ok(ranking);
    }
    Ok(highest_card(&tally))
}

/// The strength of the best five of seven cards. Cards that are not seven,
/// or of which one occurs twice, are refused.
pub fn evaluate(cards: &[Card]) -> (ranking: Result<HandRanking, InvalidHand>)
    ensures
        cards@.len() == 7 && cards@.no_duplicates() ==> ranking == Ok::<HandRanking, InvalidHand>(
            ranking_of(cards@.to_set()),
        ),
        !(cards@.len() == 7 && cards@.no_duplicates()) ==> ranking == Err::<
            HandRanking,
            InvalidHand,
        >(InvalidHand),
{
    if cards.len() != HAND_SIZE {
        return Err(InvalidHand);
    }
    let seven = [cards[0], cards[1], cards[2], cards[3], cards[4], cards[5], cards[6]];
    let hand = Hand::new(seven);
    proof {
        assert(seven@ =~= cards@);
        super::hand::lemma_sort_by_rank(cards@);
        super::hand::lemma_same_cards(hand@, cards@);
    }
    evaluate_five_cards(&hand)
}

} // verus!
