use super::card::Card;
use super::card::Rank;
use super::card::Suit;
use rand::rngs::ThreadRng;
use rand::Rng;
use vstd::prelude::*;

verus! {

/// `rand::rngs::ThreadRng`, the random number generator of a thread. It is
/// carried from `rand::thread_rng` to `Rng::gen_range`; nothing is known of
/// what it holds.
#[verifier::external_type_specification]
#[verifier::external_body]
pub struct ExThreadRng(rand::rngs::ThreadRng);

/// `rand::thread_rng`: the calling thread's random number generator. Nothing
/// is claimed of it. It takes nothing and panics only where the system
/// gives it no seed.
pub assume_specification[ rand::thread_rng ]() -> (rng: ThreadRng);

/// `rand::Rng::gen_range` on a half-open range of `usize`: some number of
/// the range. On an empty range it panics, so the range must not be empty.
/// Which number comes is not said, and two calls may give different ones.
#[verifier::external_body]
fn gen_range(rng: &mut ThreadRng, low: usize, high: usize) -> (n: usize)
    requires
        low < high,
    ensures
        low <= n < high,
{
    rng.gen_range(low..high)
}

/// The cards of a fresh deck: suit by suit, and within a suit from `Two` up
/// to `Ace`.
pub open spec fn fresh_cards() -> Seq<Card> {
    Seq::new(52, |i: int| Card::at(i % 13, i / 13))
}

/// A pile of cards; a fresh one holds each of the 52 cards once.
#[derive(Debug, Clone)]
pub struct Deck {
    cards: Vec<Card>,
}

impl View for Deck {
    type V = Seq<Card>;

    closed spec fn view(&self) -> Seq<Card> {
        self.cards@
    }
}

impl Deck {
    /// How many cards a full deck holds.
    pub const SIZE: usize = 52;

    /// A fresh deck.
    pub fn new() -> (deck: Self)
        ensures
            deck@ == fresh_cards(),
    {
        let mut cards: Vec<Card> = Vec::new();
        cards.reserve(Self::SIZE);
        let mut suit: u8 = 0;
        while suit < 4
            invariant
                suit <= 4,
                cards@.len() == suit * 13,
                forall|i: int| 0 <= i < cards@.len() ==> cards@[i] == Card::at(i % 13, i / 13),
            decreases 4 - suit,
        {
            let mut rank: u8 = 0;
            while rank < 13
                invariant
                    suit < 4,
                    rank <= 13,
                    cards@.len() == suit * 13 + rank,
                    forall|i: int| 0 <= i < cards@.len() ==> cards@[i] == Card::at(i % 13, i / 13),
                decreases 13 - rank,
            {
                let r = match Rank::from_index(rank) {
                    Some(r) => r,
                    None => Rank::Two,
                };
                let s = match Suit::from_index(suit) {
                    Some(s) => s,
                    None => Suit::Clubs,
                };
                cards.push(Card::new(r, s));
                rank += 1;
            }
            suit += 1;
        }
        assert(cards@ =~= fresh_cards());
        Self { cards }
    }

    /// The deck with its cards in a random order, as `shuffle` puts them.
    pub fn shuffled(self) -> (deck: Self)
        requires
            self@.len() >= Self::SIZE,
        ensures
            exists|choices: Seq<int>|
                is_shuffle_choice(choices) && deck@ == exchanged(self@, choices),
            deck@.to_multiset() == self@.to_multiset(),
            deck@.len() == self@.len(),
            forall|k: int| Self::SIZE <= k < self@.len() ==> deck@[k] == self@[k],
    {
        let mut deck = self;
        deck.shuffle();
        deck
    }

    /// The cards, the bottom one first.
    pub fn cards(&self) -> (cards: &Vec<Card>)
        ensures
            cards@ == self@,
    {
        &self.cards
    }

    /// Takes the top card, the last of the deck, if there is one.
    pub fn draw_card(&mut self) -> (card: Option<Card>)
        ensures
            old(self)@.len() == 0 ==> card is None && final(self)@ == old(self)@,
            old(self)@.len() > 0 ==> card == Some(old(self)@.last()) && final(self)@ == old(
                self,
            )@.drop_last(),
    {
        self.cards.pop()
    }

    /// Puts a card on top.
    pub fn put_card(&mut self, card: Card)
        ensures
            final(self)@ == old(self)@.push(card),
    {
        self.cards.push(card);
    }

    /// Exchanges the cards at two places.
    pub fn swap_cards(&mut self, i: usize, j: usize)
        requires
            i < old(self)@.len(),
            j < old(self)@.len(),
        ensures
            final(self)@ == old(self)@.update(i as int, old(self)@[j as int]).update(
                j as int,
                old(self)@[i as int],
            ),
            final(self)@.to_multiset() == old(self)@.to_multiset(),
    {
        let a = self.cards[i];
        let b = self.cards[j];
        self.cards[i] = b;
        self.cards[j] = a;
        proof {
            broadcast use vstd::seq_lib::group_to_multiset_ensures;

            let before = old(self)@;
            let middle = before.update(i as int, before[j as int]);
            assert(middle.to_multiset() =~= before.to_multiset().insert(before[j as int]).remove(
                before[i as int],
            ));
            assert(self@.to_multiset() =~= middle.to_multiset().insert(before[i as int]).remove(
                middle[j as int],
            ));
            assert(self@.to_multiset() =~= before.to_multiset());
        }
    }

    /// Puts the cards in a random order: each of the first fifty places in
    /// turn exchanges its card with a place drawn at random from that place
    /// and those behind it, up to the last place of a full deck. Which places
    /// are drawn is not said; whatever they are, the deck is the old one with
    /// those exchanges made. So the same cards come back, and those behind a
    /// full deck stay where they are.
    pub fn shuffle(&mut self) -> (deck: &mut Self)
        requires
            old(self)@.len() >= Self::SIZE,
        ensures
            exists|choices: Seq<int>|
                is_shuffle_choice(choices) && deck@ == exchanged(old(self)@, choices),
            deck@.to_multiset() == old(self)@.to_multiset(),
            deck@.len() == old(self)@.len(),
            forall|k: int| Self::SIZE <= k < old(self)@.len() ==> deck@[k] == old(self)@[k],
            *final(self) == *final(deck),
    {
        let mut rng = rand::thread_rng();
        let mut i: usize = 0;
        let ghost mut choices: Seq<int> = Seq::empty();
        while i < Self::SIZE - 2
            invariant
                i <= Self::SIZE - 2,
                self@.len() == old(self)@.len(),
                self@.len() >= Self::SIZE,
                choices.len() == i,
                forall|place: int|
                    0 <= place < choices.len() ==> place <= #[trigger] choices[place] < Self::SIZE,
                self@ == exchanged(old(self)@, choices),
            decreases Self::SIZE - 2 - i,
        {
            let j = gen_range(&mut rng, i, Self::SIZE);
            self.swap_cards(i, j);
            proof {
                assert(choices.push(j as int).drop_last() == choices);
                choices = choices.push(j as int);
            }
            i += 1;
        }
        proof {
            assert(is_shuffle_choice(choices));
            lemma_exchanged_keeps_cards(old(self)@, choices);
            lemma_exchanged_leaves_rest(old(self)@, choices, Self::SIZE as int);
        }
        self
    }
}

/// The cards after each of the first places in turn, as many as there are
/// choices, has exchanged its card with the place chosen for it.
pub open spec fn exchanged(cards: Seq<Card>, choices: Seq<int>) -> Seq<Card>
    decreases choices.len(),
{
    if choices.len() == 0 {
        cards
    } else {
        let before = exchanged(cards, choices.drop_last());
        let place = choices.len() - 1;
        let chosen = choices.last();
        before.update(place, before[chosen]).update(chosen, before[place])
    }
}

/// What a shuffle may choose: for each of the first fifty places that place
/// or one behind it, up to the last place of a full deck.
pub open spec fn is_shuffle_choice(choices: Seq<int>) -> bool {
    &&& choices.len() == Deck::SIZE - 2
    &&& forall|place: int|
        0 <= place < choices.len() ==> place <= #[trigger] choices[place] < Deck::SIZE
}

/// Exchanging keeps the cards, each as often, and their number.
pub proof fn lemma_exchanged_keeps_cards(cards: Seq<Card>, choices: Seq<int>)
    requires
        choices.len() <= cards.len(),
        forall|place: int| 0 <= place < choices.len() ==> 0 <= #[trigger] choices[place] < cards.len(),
    ensures
        exchanged(cards, choices).len() == cards.len(),
        exchanged(cards, choices).to_multiset() == cards.to_multiset(),
    decreases choices.len(),
{
    broadcast use vstd::seq_lib::group_to_multiset_ensures;

    if choices.len() > 0 {
        let init = choices.drop_last();
        assert forall|place: int| 0 <= place < init.len() implies 0 <= #[trigger] init[place]
            < cards.len() by {
            assert(init[place] == choices[place]);
        }
        lemma_exchanged_keeps_cards(cards, init);
        let before = exchanged(cards, init);
        let place = choices.len() - 1;
        let chosen = choices.last();
        let middle = before.update(place, before[chosen]);
        assert(middle.to_multiset() =~= before.to_multiset().insert(before[chosen]).remove(
            before[place],
        ));
        assert(middle.update(chosen, before[place]).to_multiset() =~= middle.to_multiset().insert(
            before[place],
        ).remove(middle[chosen]));
        assert(middle.update(chosen, before[place]).to_multiset() =~= before.to_multiset());
    }
}

/// Exchanging leaves alone every place that is neither one of the first
/// places nor chosen for one of them.
pub proof fn lemma_exchanged_leaves_rest(cards: Seq<Card>, choices: Seq<int>, bound: int)
    requires
        choices.len() <= bound <= cards.len(),
        forall|place: int| 0 <= place < choices.len() ==> 0 <= #[trigger] choices[place] < bound,
    ensures
        exchanged(cards, choices).len() == cards.len(),
        forall|k: int| bound <= k < cards.len() ==> #[trigger] exchanged(cards, choices)[k] == cards[k],
    decreases choices.len(),
{
    if choices.len() > 0 {
        let init = choices.drop_last();
        assert forall|place: int| 0 <= place < init.len() implies 0 <= #[trigger] init[place]
            < bound by {
            assert(init[place] == choices[place]);
        }
        lemma_exchanged_leaves_rest(cards, init, bound);
    }
}

} // verus!
