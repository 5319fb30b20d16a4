use super::card::Card;
use vstd::prelude::*;

verus! {

/// The two cards a player is dealt.
pub struct Pocket {
    cards: [Card; 2],
}

impl View for Pocket {
    type V = Seq<Card>;

    closed spec fn view(&self) -> Seq<Card> {
        self.cards@
    }
}

impl Pocket {
    pub fn new(card1: Card, card2: Card) -> (pocket: Self)
        ensures
            pocket@ == seq![card1, card2],
    {
        let pocket = Self { cards: [card1, card2] };
        assert(pocket.cards@ =~= seq![card1, card2]);
        pocket
    }

    pub fn card1(&self) -> (card: Card)
        ensures
            card == self@[0],
    {
        self.cards[0]
    }

    pub fn card2(&self) -> (card: Card)
        ensures
            card == self@[1],
    {
        self.cards[1]
    }
}

} // verus!
