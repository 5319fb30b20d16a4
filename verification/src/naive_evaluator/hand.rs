use super::card::parse_card;
use super::card::Card;
use super::card::Rank;
use super::card::Suit;
use vstd::prelude::*;
use vstd::std_specs::convert::FromSpecImpl;
use vstd::std_specs::convert::TryFromSpecImpl;

verus! {

/// How many cards a hand holds.
pub const HAND_SIZE: usize = 7;

/// Whether the ranks never rise from one card to the next.
pub open spec fn is_descending(cards: Seq<Card>) -> bool {
    forall|i: int, j: int|
        0 <= i <= j < cards.len() ==> cards[i].rank().value() >= cards[j].rank().value()
}

/// A rank-descending sequence with one more card: the new card goes behind
/// every card that is at least as high, so cards of one rank keep their order.
pub open spec fn insert_by_rank(cards: Seq<Card>, card: Card) -> Seq<Card>
    decreases cards.len(),
{
    if cards.len() == 0 {
        seq![card]
    } else if cards.last().rank().value() >= card.rank().value() {
        cards.push(card)
    } else {
        insert_by_rank(cards.drop_last(), card).push(cards.last())
    }
}

/// The cards ordered by descending rank; cards of one rank keep their order.
pub open spec fn sort_by_rank(cards: Seq<Card>) -> Seq<Card>
    decreases cards.len(),
{
    if cards.len() == 0 {
        Seq::empty()
    } else {
        insert_by_rank(sort_by_rank(cards.drop_last()), cards.last())
    }
}

/// Inserting behind a tail of lower cards is inserting into the rest and
/// putting the tail back.
pub proof fn lemma_insert_skips_lower(cards: Seq<Card>, card: Card, from: int)
    requires
        0 <= from <= cards.len(),
        forall|k: int| from <= k < cards.len() ==> cards[k].rank().value() < card.rank().value(),
    ensures
        insert_by_rank(cards, card) == insert_by_rank(cards.take(from), card) + cards.skip(from),
    decreases cards.len() - from,
{
    if from == cards.len() {
        assert(cards.take(from) == cards);
        assert(cards.skip(from) == Seq::<Card>::empty());
        assert(insert_by_rank(cards, card) + Seq::<Card>::empty() == insert_by_rank(cards, card));
    } else {
        let shorter = cards.drop_last();
        lemma_insert_skips_lower(shorter, card, from);
        assert(shorter.take(from) == cards.take(from));
        assert(shorter.skip(from).push(cards.last()) == cards.skip(from));
        assert((insert_by_rank(cards.take(from), card) + shorter.skip(from)).push(cards.last())
            == insert_by_rank(cards.take(from), card) + cards.skip(from));
    }
}

/// Inserting keeps the cards and adds the new one.
pub proof fn lemma_insert_contents(cards: Seq<Card>, card: Card)
    ensures
        insert_by_rank(cards, card).len() == cards.len() + 1,
        insert_by_rank(cards, card).to_multiset() == cards.to_multiset().insert(card),
    decreases cards.len(),
{
    broadcast use vstd::seq_lib::group_to_multiset_ensures;

    if cards.len() == 0 {
        assert(seq![card] == Seq::<Card>::empty().push(card));
        assert(cards == Seq::<Card>::empty());
    } else if cards.last().rank().value() >= card.rank().value() {
    } else {
        lemma_insert_contents(cards.drop_last(), card);
        assert(cards.drop_last().push(cards.last()) == cards);
        assert(insert_by_rank(cards, card).to_multiset() == cards.drop_last().to_multiset().insert(
            card,
        ).insert(cards.last()));
        assert(cards.to_multiset() == cards.drop_last().to_multiset().insert(cards.last()));
        assert(cards.drop_last().to_multiset().insert(card).insert(cards.last())
            =~= cards.drop_last().to_multiset().insert(cards.last()).insert(card));
    }
}

/// Inserting into a descending sequence leaves it descending.
pub proof fn lemma_insert_descending(cards: Seq<Card>, card: Card)
    requires
        is_descending(cards),
    ensures
        is_descending(insert_by_rank(cards, card)),
    decreases cards.len(),
{
    if cards.len() == 0 {
    } else if cards.last().rank().value() >= card.rank().value() {
    } else {
        let shorter = cards.drop_last();
        lemma_insert_descending(shorter, card);
        lemma_insert_contents(shorter, card);
        let placed = insert_by_rank(shorter, card);
        assert forall|i: int| 0 <= i < placed.len() implies placed[i].rank().value()
            >= cards.last().rank().value() by {
            broadcast use vstd::seq_lib::group_to_multiset_ensures;

            assert(placed.to_multiset().count(placed[i]) > 0);
            if placed[i] != card {
                assert(shorter.to_multiset().count(placed[i]) > 0);
                let k = choose|k: int| 0 <= k < shorter.len() && shorter[k] == placed[i];
                assert(cards[k] == placed[i]);
            }
        }
    }
}

/// Sorting keeps the cards and leaves them in descending order of rank.
pub proof fn lemma_sort_by_rank(cards: Seq<Card>)
    ensures
        sort_by_rank(cards).len() == cards.len(),
        sort_by_rank(cards).to_multiset() == cards.to_multiset(),
        is_descending(sort_by_rank(cards)),
    decreases cards.len(),
{
    broadcast use vstd::seq_lib::group_to_multiset_ensures;

    if cards.len() == 0 {
    } else {
        lemma_sort_by_rank(cards.drop_last());
        lemma_insert_contents(sort_by_rank(cards.drop_last()), cards.last());
        lemma_insert_descending(sort_by_rank(cards.drop_last()), cards.last());
        assert(cards.drop_last().push(cards.last()) == cards);
    }
}

/// Sequences with the same cards, each as often, hold the same set of cards.
pub proof fn lemma_same_cards(a: Seq<Card>, b: Seq<Card>)
    requires
        a.to_multiset() == b.to_multiset(),
    ensures
        a.to_set() == b.to_set(),
        a.no_duplicates() <==> b.no_duplicates(),
{
    broadcast use vstd::seq_lib::group_to_multiset_ensures;

    assert forall|card: Card| a.to_set().contains(card) == b.to_set().contains(card) by {
        assert(a.contains(card) <==> a.to_multiset().count(card) > 0);
        assert(b.contains(card) <==> b.to_multiset().count(card) > 0);
    }
    assert(a.to_set() =~= b.to_set());
    if a.no_duplicates() {
        a.lemma_multiset_has_no_duplicates();
        b.lemma_multiset_has_no_duplicates_conv();
    }
    if b.no_duplicates() {
        b.lemma_multiset_has_no_duplicates();
        a.lemma_multiset_has_no_duplicates_conv();
    }
}

/// Seven cards, kept in descending order of rank.
#[derive(Debug, Clone, Copy)]
pub struct Hand {
    cards: [Card; HAND_SIZE],
}

impl View for Hand {
    type V = Seq<Card>;

    closed spec fn view(&self) -> Seq<Card> {
        self.cards@
    }
}

impl Hand {
    #[verifier::type_invariant]
    spec fn ordered(self) -> bool {
        is_descending(self.cards@)
    }

    /// The cards as a set: what the hand is, whatever order it was given in.
    pub open spec fn card_set(&self) -> Set<Card> {
        self@.to_set()
    }

    /// No card occurs twice.
    pub open spec fn has_distinct_cards(&self) -> bool {
        self@.no_duplicates()
    }

    /// The hand made of the given seven cards.
    pub closed spec fn of(cards: Seq<Card>) -> Hand {
        let sorted = sort_by_rank(cards);
        Hand {
            cards: [sorted[0], sorted[1], sorted[2], sorted[3], sorted[4], sorted[5], sorted[6]],
        }
    }

    /// A hand holds seven cards.
    pub proof fn lemma_seven_cards(self)
        ensures
            self@.len() == 7,
    {
    }

    /// A hand holds the cards it was made of, in descending order of rank.
    pub proof fn lemma_of(cards: Seq<Card>)
        requires
            cards.len() == 7,
        ensures
            Hand::of(cards)@ == sort_by_rank(cards),
            Hand::of(cards).card_set() == cards.to_set(),
    {
        lemma_sort_by_rank(cards);
        assert(Hand::of(cards)@ =~= sort_by_rank(cards));
        lemma_same_cards(sort_by_rank(cards), cards);
    }

    /// The hand of the given cards, put in descending order of rank. That
    /// no card occurs twice is not asked here: see `is_valid`.
    pub fn new(cards: [Card; HAND_SIZE]) -> (hand: Self)
        ensures
            hand == Hand::of(cards@),
            hand@ == sort_by_rank(cards@),
            hand.card_set() == cards@.to_set(),
            hand.has_distinct_cards() <==> cards@.no_duplicates(),
    {
        let ghost given = cards@;
        let mut cards = cards;
        let mut i: usize = 1;
        proof {
            reveal_with_fuel(sort_by_rank, 2);
            reveal_with_fuel(insert_by_rank, 2);
            assert(given.take(1).drop_last() == Seq::<Card>::empty());
            assert(sort_by_rank(given.take(1)) == seq![given[0]]);
            assert(cards@.take(1) == seq![given[0]]);
        }
        while i < HAND_SIZE
            invariant
                1 <= i <= HAND_SIZE,
                given.len() == HAND_SIZE,
                cards@.take(i as int) == sort_by_rank(given.take(i as int)),
                cards@.skip(i as int) == given.skip(i as int),
            decreases HAND_SIZE - i,
        {
            let card = cards[i];
            let ghost before = cards@;
            let ghost prefix = cards@.take(i as int);
            assert(card == given[i as int]) by {
                assert(cards@.skip(i as int)[0] == given.skip(i as int)[0]);
            }
            let mut j: usize = i;
            while j > 0 && cards[j - 1].rank().index() < card.rank().index()
                invariant
                    0 <= j <= i < HAND_SIZE,
                    prefix.len() == i,
                    before.len() == HAND_SIZE,
                    cards@.take(j as int) == prefix.take(j as int),
                    cards@.subrange(j as int + 1, i as int + 1) == prefix.skip(j as int),
                    cards@.skip(i as int + 1) == before.skip(i as int + 1),
                    forall|k: int|
                        j <= k < i ==> prefix[k].rank().value() < card.rank().value(),
                decreases j,
            {
                let ghost previous = cards@;
                assert(cards@[j as int - 1] == prefix[j as int - 1]) by {
                    assert(cards@.take(j as int)[j as int - 1] == prefix.take(j as int)[j as int
                        - 1]);
                }
                cards[j] = cards[j - 1];
                j -= 1;
                assert(cards@.take(j as int) =~= prefix.take(j as int)) by {
                    assert forall|k: int| 0 <= k < j implies cards@[k] == prefix[k] by {
                        assert(previous.take(j as int + 1)[k] == prefix.take(j as int + 1)[k]);
                    }
                }
                assert(cards@.subrange(j as int + 1, i as int + 1) =~= prefix.skip(j as int)) by {
                    assert forall|k: int| j + 1 < k <= i implies cards@[k] == prefix[k - 1] by {
                        assert(previous.subrange(j as int + 2, i as int + 1)[k - j - 2]
                            == prefix.skip(j as int + 1)[k - j - 2]);
                    }
                }
                assert(cards@.skip(i as int + 1) =~= before.skip(i as int + 1)) by {
                    assert forall|k: int| i < k < HAND_SIZE implies cards@[k] == before[k] by {
                        assert(previous.skip(i as int + 1)[k - i - 1] == before.skip(i as int + 1)[k
                            - i - 1]);
                    }
                }
            }
            let ghost shifted = cards@;
            cards[j] = card;
            proof {
                lemma_insert_skips_lower(prefix, card, j as int);
                let head = prefix.take(j as int);
                if j > 0 {
                    assert(shifted[j as int - 1] == prefix[j as int - 1]) by {
                        assert(shifted.take(j as int)[j as int - 1] == prefix.take(j as int)[j as int
                            - 1]);
                    }
                    assert(head.last() == prefix[j as int - 1]);
                }
                assert(insert_by_rank(head, card) == head.push(card));
                assert(cards@.take(i as int + 1) =~= head.push(card) + prefix.skip(j as int)) by {
                    assert forall|k: int| 0 <= k <= i implies cards@.take(i as int + 1)[k] == (
                    head.push(card) + prefix.skip(j as int))[k] by {
                        if k < j {
                            assert(shifted.take(j as int)[k] == prefix.take(j as int)[k]);
                        } else if k > j {
                            assert(shifted.subrange(j as int + 1, i as int + 1)[k - j - 1]
                                == prefix.skip(j as int)[k - j - 1]);
                        }
                    }
                }
                assert(given.take(i as int + 1).drop_last() == given.take(i as int));
                assert(given.take(i as int + 1).last() == card);
                assert(cards@.skip(i as int + 1) =~= given.skip(i as int + 1)) by {
                    assert forall|k: int| i < k < HAND_SIZE implies cards@[k] == given[k] by {
                        assert(shifted.skip(i as int + 1)[k - i - 1] == before.skip(i as int + 1)[k
                            - i - 1]);
                        assert(before.skip(i as int)[k - i] == given.skip(i as int)[k - i]);
                    }
                }
            }
            i += 1;
        }
        proof {
            assert(cards@.take(HAND_SIZE as int) == cards@);
            assert(given.take(HAND_SIZE as int) == given);
            lemma_sort_by_rank(given);
            lemma_same_cards(sort_by_rank(given), given);
            assert(cards =~= Hand::of(given).cards);
        }
        Self { cards }
    }

    /// Whether no card occurs twice.
    pub fn is_valid(&self) -> (valid: bool)
        ensures
            valid == self.has_distinct_cards(),
    {
        let mut i: usize = 0;
        while i < HAND_SIZE
            invariant
                i <= HAND_SIZE,
                forall|a: int, b: int| 0 <= a < i && a < b < HAND_SIZE ==> self@[a] != self@[b],
            decreases HAND_SIZE - i,
        {
            let mut j: usize = i + 1;
            while j < HAND_SIZE
                invariant
                    i < j <= HAND_SIZE,
                    forall|a: int, b: int| 0 <= a < i && a < b < HAND_SIZE ==> self@[a] != self@[b],
                    forall|b: int| i < b < j ==> self@[i as int] != self@[b],
                decreases HAND_SIZE - j,
            {
                if self.cards[i] == self.cards[j] {
                    return false;
                }
                j += 1;
            }
            i += 1;
        }
        assert forall|a: int, b: int| 0 <= a < self@.len() && 0 <= b < self@.len() && a
            != b implies self@[a] != self@[b] by {
            if a < b {
                assert(self@[a] != self@[b]);
            } else {
                assert(self@[b] != self@[a]);
            }
        }
        true
    }

    /// The cards, in descending order of rank.
    pub fn cards(&self) -> (cards: &[Card; HAND_SIZE])
        ensures
            cards@ == self@,
            is_descending(cards@),
    {
        proof {
            use_type_invariant(self);
        }
        &self.cards
    }
}

/// The seven cards that a text of fourteen letters names, two letters a card.
pub open spec fn parse_cards(text: Seq<char>) -> Option<Seq<Card>> {
    if text.len() == 14 && forall|i: int|
        0 <= i < 7 ==> (#[trigger] parse_card(text.subrange(2 * i, 2 * i + 2))) is Ok {
        Some(Seq::new(7, |i: int| parse_card(text.subrange(2 * i, 2 * i + 2))->Ok_0))
    } else {
        None
    }
}

/// The texts of the cards, one behind the other.
pub open spec fn cards_text(cards: Seq<Card>) -> Seq<char>
    decreases cards.len(),
{
    if cards.len() == 0 {
        Seq::empty()
    } else {
        cards_text(cards.drop_last()) + cards.last().text()
    }
}

impl Hand {
    /// The hand as text: its cards from the highest rank down.
    pub open spec fn text(&self) -> Seq<char> {
        cards_text(self@)
    }

    /// The hand as text.
    pub fn to_text(&self) -> (text: String)
        ensures
            text@ == self.text(),
    {
        let mut text = String::new();
        let mut i: usize = 0;
        assert(self@.take(0) == Seq::<Card>::empty());
        while i < HAND_SIZE
            invariant
                i <= HAND_SIZE,
                text@ == cards_text(self@.take(i as int)),
            decreases HAND_SIZE - i,
        {
            let card = self.cards[i].to_text();
            text.append(card.as_str());
            proof {
                assert(self@.take(i + 1).drop_last() == self@.take(i as int));
            }
            i += 1;
        }
        assert(self@.take(HAND_SIZE as int) == self@);
        text
    }
}

/// The hand as text, as `Hand::to_text` gives it. A `String` cannot be
/// written down in a contract, so the conversion itself states nothing.
impl From<&Hand> for String {
    fn from(value: &Hand) -> (text: String) {
        value.to_text()
    }
}

impl FromSpecImpl<&Hand> for String {
    open spec fn obeys_from_spec() -> bool {
        false
    }

    open spec fn from_spec(value: &Hand) -> String {
        arbitrary()
    }
}

impl TryFrom<&str> for Hand {
    type Error = ();

    fn try_from(value: &str) -> (r: Result<Self, Self::Error>) {
        if value.unicode_len() != 14 {
            return Err(());
        }
        let mut cards = [Card::new(Rank::Two, Suit::Clubs);HAND_SIZE];
        let mut i: usize = 0;
        while i < HAND_SIZE
            invariant
                i <= HAND_SIZE,
                value@.len() == 14,
                forall|k: int|
                    0 <= k < i ==> (#[trigger] parse_card(value@.subrange(2 * k, 2 * k + 2)))
                        == Ok::<Card, ()>(cards@[k]),
            decreases HAND_SIZE - i,
        {
            let ghost pair = value@.subrange(2 * i, 2 * i + 2);
            assert(pair.len() == 2 && pair[0] == value@[2 * i] && pair[1] == value@[2 * i + 1]);
            let rank = match Rank::try_from(value.get_char(2 * i)) {
                Ok(rank) => rank,
                Err(_) => {
                    assert(parse_card(pair) is Err);
                    return Err(());
                },
            };
            let suit = match Suit::try_from(value.get_char(2 * i + 1)) {
                Ok(suit) => suit,
                Err(_) => {
                    assert(parse_card(pair) is Err);
                    return Err(());
                },
            };
            cards[i] = Card::new(rank, suit);
            i += 1;
        }
        assert(cards@ =~= parse_cards(value@)->0);
        Ok(Hand::new(cards))
    }
}

impl TryFromSpecImpl<&str> for Hand {
    open spec fn obeys_try_from_spec() -> bool {
        true
    }

    open spec fn try_from_spec(value: &str) -> Result<Self, Self::Error> {
        match parse_cards(value@) {
            Some(cards) => Ok(Hand::of(cards)),
            None => Err(()),
        }
    }
}

} // verus!
