use super::card::Rank;
use core::cmp::Ordering;
use vstd::prelude::*;
use vstd::std_specs::cmp::PartialEqSpecImpl;
use vstd::std_specs::cmp::PartialOrdSpecImpl;
use vstd::std_specs::convert::FromSpecImpl;

verus! {

/// Four cards of one rank, and the best remaining card.
#[derive(Debug, PartialEq, Eq, PartialOrd, Ord, Clone, Copy)]
pub struct FourOf {
    pub rank: Rank,
    pub kicker: Rank,
}

impl FourOf {
    pub fn new(rank: Rank, kicker: Rank) -> (r: Self)
        ensures
            r == (FourOf { rank, kicker }),
    {
        Self { rank, kicker }
    }
}

/// Three cards of one rank and two of another.
#[derive(Debug, PartialEq, Eq, PartialOrd, Ord, Clone, Copy)]
pub struct FullHouse {
    pub three_of_rank: Rank,
    pub pair_of_rank: Rank,
}

impl FullHouse {
    /// Takes the rank of the pair first, then the rank of the three. In the
    /// order of strength the rank of the three comes first.
    pub fn new(pair_of_rank: Rank, three_of_rank: Rank) -> (r: Self)
        ensures
            r == (FullHouse { three_of_rank, pair_of_rank }),
    {
        Self { three_of_rank, pair_of_rank }
    }
}

/// Five cards of one suit, by their ranks from the highest down.
#[derive(Debug, PartialEq, Eq, PartialOrd, Ord, Clone, Copy)]
pub struct Flush {
    pub ranks: [Rank; 5],
}

impl Flush {
    /// `ranks`: the ranks of the cards from the highest down.
    pub fn new(ranks: [Rank; 5]) -> (r: Self)
        ensures
            r == (Flush { ranks }),
    {
        Self { ranks }
    }
}

/// Three cards of one rank, and the two best remaining cards from the
/// highest down.
#[derive(Debug, PartialEq, Eq, PartialOrd, Ord, Clone, Copy)]
pub struct ThreeOf {
    pub three_of: Rank,
    pub kickers: [Rank; 2],
}

impl ThreeOf {
    /// `kickers`: the ranks of the side cards from the highest down.
    pub fn new(three_of: Rank, kickers: [Rank; 2]) -> (r: Self)
        ensures
            r == (ThreeOf { three_of, kickers }),
    {
        Self { three_of, kickers }
    }

    pub fn rank(&self) -> (r: Rank)
        ensures
            r == self.three_of,
    {
        self.three_of
    }
}

/// Two pairs, the higher first, and the best remaining card.
#[derive(Debug, PartialEq, Eq, PartialOrd, Ord, Clone, Copy)]
pub struct TwoPair {
    pub pairs: [Rank; 2],
    pub kicker: Rank,
}

impl TwoPair {
    /// `pairs`: the ranks of the two pairs, the higher first.
    pub fn new(pairs: [Rank; 2], kicker: Rank) -> (r: Self)
        ensures
            r == (TwoPair { pairs, kicker }),
    {
        Self { pairs, kicker }
    }
}

/// One pair, and the three best remaining cards from the highest down.
#[derive(Debug, PartialEq, Eq, PartialOrd, Ord, Clone, Copy)]
pub struct Pair {
    pub pair_rank: Rank,
    pub kickers: [Rank; 3],
}

impl Pair {
    /// `kickers`: the ranks of the side cards from the highest down.
    pub fn new(pair_rank: Rank, kickers: [Rank; 3]) -> (r: Self)
        ensures
            r == (Pair { pair_rank, kickers }),
    {
        Self { pair_rank, kickers }
    }
}

/// The strength of a hand: its category, from `HighCard` (weakest) to
/// `StraightFlush` (strongest), with the ranks that break ties inside the
/// category. A straight flush whose high rank is `Ace` is the royal flush.
#[derive(Debug, Eq, Ord, Clone, Copy)]
pub enum HandRanking {
    HighCard([Rank; 5]),
    Pair(Pair),
    TwoPair(TwoPair),
    ThreeOf(ThreeOf),
    Straight(Rank),
    Flush(Flush),
    FullHouse(FullHouse),
    FourOf(FourOf),
    StraightFlush(Rank),
}

impl HandRanking {
    /// Number of the category, from 0 (`HighCard`) to 8 (`StraightFlush`).
    pub open spec fn category(self) -> int {
        match self {
            HandRanking::HighCard(_) => 0,
            HandRanking::Pair(_) => 1,
            HandRanking::TwoPair(_) => 2,
            HandRanking::ThreeOf(_) => 3,
            HandRanking::Straight(_) => 4,
            HandRanking::Flush(_) => 5,
            HandRanking::FullHouse(_) => 6,
            HandRanking::FourOf(_) => 7,
            HandRanking::StraightFlush(_) => 8,
        }
    }

    /// What two rankings are compared by: the category first, then the
    /// tie-breaking ranks in their order of priority. Places that a category
    /// does not use hold 0.
    pub open spec fn key(self) -> (int, int, int, int, int, int) {
        match self {
            HandRanking::HighCard(r) => (
                0,
                r[0].value(),
                r[1].value(),
                r[2].value(),
                r[3].value(),
                r[4].value(),
            ),
            HandRanking::Pair(p) => (
                1,
                p.pair_rank.value(),
                p.kickers[0].value(),
                p.kickers[1].value(),
                p.kickers[2].value(),
                0,
            ),
            HandRanking::TwoPair(t) => (
                2,
                t.pairs[0].value(),
                t.pairs[1].value(),
                t.kicker.value(),
                0,
                0,
            ),
            HandRanking::ThreeOf(t) => (
                3,
                t.three_of.value(),
                t.kickers[0].value(),
                t.kickers[1].value(),
                0,
                0,
            ),
            HandRanking::Straight(high) => (4, high.value(), 0, 0, 0, 0),
            HandRanking::Flush(f) => (
                5,
                f.ranks[0].value(),
                f.ranks[1].value(),
                f.ranks[2].value(),
                f.ranks[3].value(),
                f.ranks[4].value(),
            ),
            HandRanking::FullHouse(f) => (
                6,
                f.three_of_rank.value(),
                f.pair_of_rank.value(),
                0,
                0,
                0,
            ),
            HandRanking::FourOf(f) => (7, f.rank.value(), f.kicker.value(), 0, 0, 0),
            HandRanking::StraightFlush(high) => (8, high.value(), 0, 0, 0, 0),
        }
    }

    /// `self` is strictly weaker than `other`: its key comes first in
    /// lexicographic order.
    pub open spec fn is_below(self, other: HandRanking) -> bool {
        let a = self.key();
        let b = other.key();
        a.0 < b.0 || (a.0 == b.0 && (a.1 < b.1 || (a.1 == b.1 && (a.2 < b.2 || (a.2 == b.2 && (a.3
            < b.3 || (a.3 == b.3 && (a.4 < b.4 || (a.4 == b.4 && a.5 < b.5)))))))))
    }

    /// `self` is weaker than `other` or ties with it.
    pub open spec fn is_at_most(self, other: HandRanking) -> bool {
        self.is_below(other) || self == other
    }

    /// Two rankings with the same key are the same ranking.
    pub proof fn lemma_key_determines(a: HandRanking, b: HandRanking)
        requires
            a.key() == b.key(),
        ensures
            a == b,
    {
        match (a, b) {
            (HandRanking::HighCard(x), HandRanking::HighCard(y)) => {
                assert(x =~= y);
            },
            (HandRanking::Pair(x), HandRanking::Pair(y)) => {
                assert(x.kickers =~= y.kickers);
            },
            (HandRanking::TwoPair(x), HandRanking::TwoPair(y)) => {
                assert(x.pairs =~= y.pairs);
            },
            (HandRanking::ThreeOf(x), HandRanking::ThreeOf(y)) => {
                assert(x.kickers =~= y.kickers);
            },
            (HandRanking::Flush(x), HandRanking::Flush(y)) => {
                assert(x.ranks =~= y.ranks);
            },
            _ => {},
        }
    }

    /// The key, place by place.
    fn key_bytes(&self) -> (k: [u8; 6])
        ensures
            k[0] == self.key().0,
            k[1] == self.key().1,
            k[2] == self.key().2,
            k[3] == self.key().3,
            k[4] == self.key().4,
            k[5] == self.key().5,
    {
        match self {
            HandRanking::HighCard(r) => [
                0,
                r[0].index(),
                r[1].index(),
                r[2].index(),
                r[3].index(),
                r[4].index(),
            ],
            HandRanking::Pair(p) => [
                1,
                p.pair_rank.index(),
                p.kickers[0].index(),
                p.kickers[1].index(),
                p.kickers[2].index(),
                0,
            ],
            HandRanking::TwoPair(t) => [
                2,
                t.pairs[0].index(),
                t.pairs[1].index(),
                t.kicker.index(),
                0,
                0,
            ],
            HandRanking::ThreeOf(t) => [
                3,
                t.three_of.index(),
                t.kickers[0].index(),
                t.kickers[1].index(),
                0,
                0,
            ],
            HandRanking::Straight(high) => [4, high.index(), 0, 0, 0, 0],
            HandRanking::Flush(f) => [
                5,
                f.ranks[0].index(),
                f.ranks[1].index(),
                f.ranks[2].index(),
                f.ranks[3].index(),
                f.ranks[4].index(),
            ],
            HandRanking::FullHouse(f) => [
                6,
                f.three_of_rank.index(),
                f.pair_of_rank.index(),
                0,
                0,
                0,
            ],
            HandRanking::FourOf(f) => [7, f.rank.index(), f.kicker.index(), 0, 0, 0],
            HandRanking::StraightFlush(high) => [8, high.index(), 0, 0, 0, 0],
        }
    }
}

impl PartialEq for HandRanking {
    fn eq(&self, other: &Self) -> (r: bool) {
        let a = self.key_bytes();
        let b = other.key_bytes();
        proof {
            if self.key() == other.key() {
                HandRanking::lemma_key_determines(*self, *other);
            }
        }
        a[0] == b[0] && a[1] == b[1] && a[2] == b[2] && a[3] == b[3] && a[4] == b[4] && a[5]
            == b[5]
    }
}

impl PartialEqSpecImpl for HandRanking {
    open spec fn obeys_eq_spec() -> bool {
        true
    }

    open spec fn eq_spec(&self, other: &Self) -> bool {
        *self == *other
    }
}

impl PartialOrd for HandRanking {
    fn partial_cmp(&self, other: &Self) -> (r: Option<Ordering>) {
        let a = self.key_bytes();
        let b = other.key_bytes();
        proof {
            if self.key() == other.key() {
                HandRanking::lemma_key_determines(*self, *other);
            }
        }
        if a[0] != b[0] {
            return if a[0] < b[0] {
                Some(Ordering::Less)
            } else {
                Some(Ordering::Greater)
            };
        }
        if a[1] != b[1] {
            return if a[1] < b[1] {
                Some(Ordering::Less)
            } else {
                Some(Ordering::Greater)
            };
        }
        if a[2] != b[2] {
            return if a[2] < b[2] {
                Some(Ordering::Less)
            } else {
                Some(Ordering::Greater)
            };
        }
        if a[3] != b[3] {
            return if a[3] < b[3] {
                Some(Ordering::Less)
            } else {
                Some(Ordering::Greater)
            };
        }
        if a[4] != b[4] {
            return if a[4] < b[4] {
                Some(Ordering::Less)
            } else {
                Some(Ordering::Greater)
            };
        }
        if a[5] != b[5] {
            return if a[5] < b[5] {
                Some(Ordering::Less)
            } else {
                Some(Ordering::Greater)
            };
        }
        Some(Ordering::Equal)
    }
}

impl PartialOrdSpecImpl for HandRanking {
    open spec fn obeys_partial_cmp_spec() -> bool {
        true
    }

    open spec fn partial_cmp_spec(&self, other: &Self) -> Option<Ordering> {
        if self.is_below(*other) {
            Some(Ordering::Less)
        } else if other.is_below(*self) {
            Some(Ordering::Greater)
        } else {
            Some(Ordering::Equal)
        }
    }
}

impl HandRanking {
    /// The ranking in words, with the letters of the ranks that name it.
    pub open spec fn text(&self) -> Seq<char> {
        match *self {
            HandRanking::HighCard(high) => "High card "@ + seq![high[0].letter()],
            HandRanking::Pair(pair) => "Pair "@ + seq![pair.pair_rank.letter()],
            HandRanking::TwoPair(two) => "Two pair "@ + seq![
                two.pairs[0].letter(),
                two.pairs[1].letter(),
            ],
            HandRanking::ThreeOf(three) => "Three of "@ + seq![three.three_of.letter()],
            HandRanking::Straight(high) => "Straight "@ + seq![high.letter()],
            HandRanking::Flush(flush) => "Flush "@ + seq![flush.ranks[0].letter()],
            HandRanking::FullHouse(full) => "Full house "@ + seq![
                full.three_of_rank.letter(),
                full.pair_of_rank.letter(),
            ],
            HandRanking::FourOf(four) => "Four "@ + seq![four.rank.letter()],
            HandRanking::StraightFlush(high) => if high == Rank::Ace {
                "Royal flush"@
            } else {
                "Straight flush "@ + seq![high.letter()]
            },
        }
    }

    /// The ranking in words.
    pub fn to_text(&self) -> (text: String)
        ensures
            text@ == self.text(),
    {
        match self {
            HandRanking::HighCard(high) => {
                let mut text = String::from_str("High card ");
                text.append(high[0].name());
                text
            },
            HandRanking::Pair(pair) => {
                let mut text = String::from_str("Pair ");
                text.append(pair.pair_rank.name());
                text
            },
            HandRanking::TwoPair(two) => {
                let mut text = String::from_str("Two pair ");
                text.append(two.pairs[0].name());
                text.append(two.pairs[1].name());
                assert(text@ =~= self.text());
                text
            },
            HandRanking::ThreeOf(three) => {
                let mut text = String::from_str("Three of ");
                text.append(three.three_of.name());
                text
            },
            HandRanking::Straight(high) => {
                let mut text = String::from_str("Straight ");
                text.append(high.name());
                text
            },
            HandRanking::Flush(flush) => {
                let mut text = String::from_str("Flush ");
                text.append(flush.ranks[0].name());
                text
            },
            HandRanking::FullHouse(full) => {
                let mut text = String::from_str("Full house ");
                text.append(full.three_of_rank.name());
                text.append(full.pair_of_rank.name());
                assert(text@ =~= self.text());
                text
            },
            HandRanking::FourOf(four) => {
                let mut text = String::from_str("Four ");
                text.append(four.rank.name());
                text
            },
            HandRanking::StraightFlush(high) => {
                if high.index() == 12 {
                    String::from_str("Royal flush")
                } else {
                    let mut text = String::from_str("Straight flush ");
                    text.append(high.name());
                    text
                }
            },
        }
    }
}

impl HandRanking {
    /// The order is transitive: what is weaker than a weaker ranking is
    /// weaker.
    pub proof fn lemma_order_is_transitive(a: HandRanking, b: HandRanking, c: HandRanking)
        requires
            a.is_below(b),
            b.is_below(c),
        ensures
            a.is_below(c),
    {
    }

    /// No ranking is weaker than itself, and every ranking equals itself.
    pub proof fn lemma_order_is_irreflexive(a: HandRanking)
        ensures
            !a.is_below(a),
            a == a,
            a.is_at_most(a),
    {
    }

    /// The order is total: of two rankings exactly one is weaker, or they
    /// are the same ranking.
    pub proof fn lemma_order_is_total(a: HandRanking, b: HandRanking)
        ensures
            a.is_below(b) || b.is_below(a) || a == b,
            !(a.is_below(b) && b.is_below(a)),
            !(a.is_below(b) && a == b),
    {
        if !a.is_below(b) && !b.is_below(a) {
            HandRanking::lemma_key_determines(a, b);
        }
    }

    /// A ranking of a lower category is weaker, whatever the ranks that
    /// break ties.
    pub proof fn lemma_category_decides(a: HandRanking, b: HandRanking)
        requires
            a.category() < b.category(),
        ensures
            a.is_below(b),
    {
    }

    /// The royal flush, a straight flush with high rank `Ace`, is at least as
    /// strong as any ranking, and stronger than any other.
    pub proof fn lemma_royal_flush_is_highest(a: HandRanking)
        ensures
            a.is_at_most(HandRanking::StraightFlush(Rank::Ace)),
            a != HandRanking::StraightFlush(Rank::Ace) ==> a.is_below(
                HandRanking::StraightFlush(Rank::Ace),
            ),
    {
        HandRanking::lemma_order_is_total(a, HandRanking::StraightFlush(Rank::Ace));
    }

    /// The wheel, a straight with high rank `Five`, is weaker than every
    /// straight with a high rank from `Six` up, and stronger than every
    /// ranking of a category below the straight.
    pub proof fn lemma_wheel_is_lowest_straight(a: HandRanking)
        ensures
            a.category() < 4 ==> a.is_below(HandRanking::Straight(Rank::Five)),
            a is Straight && a->Straight_0.value() >= Rank::Six.value()
                ==> HandRanking::Straight(Rank::Five).is_below(a),
            a.category() > 4 ==> HandRanking::Straight(Rank::Five).is_below(a),
    {
        HandRanking::lemma_order_is_total(a, HandRanking::Straight(Rank::Five));
    }
}

/// The ranking as text, as `HandRanking::to_text` gives it. A `String` cannot
/// be written down in a contract, so the conversion itself states nothing.
impl From<&HandRanking> for String {
    fn from(value: &HandRanking) -> (text: String) {
        value.to_text()
    }
}

impl FromSpecImpl<&HandRanking> for String {
    open spec fn obeys_from_spec() -> bool {
        false
    }

    open spec fn from_spec(value: &HandRanking) -> String {
        arbitrary()
    }
}

} // verus!
