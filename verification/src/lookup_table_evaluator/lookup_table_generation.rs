use crate::naive_evaluator::card::Card;
use crate::naive_evaluator::deck::fresh_cards;
use crate::naive_evaluator::deck::Deck;
use crate::naive_evaluator::evaluator::lemma_card_at;
use crate::naive_evaluator::evaluator::lemma_card_is_at;
use crate::naive_evaluator::hand::Hand;
use crate::naive_evaluator::hand::HAND_SIZE;
use vstd::prelude::*;

verus! {

/// How many hands of seven cards a deck of 52 holds.
pub const HAND_COMBINATIONS_COUNT: usize = 133_784_560;

/// Each of the selections with `first` put in front.
pub open spec fn with_first(first: Card, tails: Seq<Seq<Card>>) -> Seq<Seq<Card>> {
    Seq::new(tails.len(), |k: int| seq![first] + tails[k])
}

/// The selections of `size` cards from the cards of a fresh deck that stand
/// at place `from` or behind it: each selection in the order of the deck,
/// and the selections in the order of their first cards, then their second
/// cards, and so on.
pub open spec fn combinations(from: int, size: int) -> Seq<Seq<Card>>
    decreases 52 - from,
{
    if size <= 0 {
        seq![Seq::empty()]
    } else if from < 0 || from >= 52 {
        Seq::empty()
    } else {
        with_first(fresh_cards()[from], combinations(from + 1, size - 1)) + combinations(
            from + 1,
            size,
        )
    }
}

/// The hands made of the chosen cards and each of the selections in turn.
pub open spec fn hands_of(chosen: Seq<Card>, rest: Seq<Seq<Card>>) -> Seq<Hand> {
    Seq::new(rest.len(), |k: int| Hand::of(chosen + rest[k]))
}

/// The hands from place `from` on are those that take the card there, then
/// those that leave it.
proof fn lemma_hands_of_step(chosen: Seq<Card>, from: int, size: int)
    requires
        0 <= from < 52,
        size > 0,
    ensures
        hands_of(chosen, combinations(from, size)) == hands_of(
            chosen.push(fresh_cards()[from]),
            combinations(from + 1, size - 1),
        ) + hands_of(chosen, combinations(from + 1, size)),
{
    let first = fresh_cards()[from];
    let taken = combinations(from + 1, size - 1);
    let skipped = combinations(from + 1, size);
    let all = combinations(from, size);
    assert(all == with_first(first, taken) + skipped);
    let left = hands_of(chosen, all);
    let right = hands_of(chosen.push(first), taken) + hands_of(chosen, skipped);
    assert(left.len() == right.len());
    assert forall|k: int| 0 <= k < left.len() implies left[k] == right[k] by {
        if k < taken.len() {
            assert(all[k] == seq![first] + taken[k]);
            assert(chosen + (seq![first] + taken[k]) =~= chosen.push(first) + taken[k]);
        } else {
            assert(all[k] == skipped[k - taken.len()]);
        }
    }
    assert(left =~= right);
}

/// Walks through all hands of seven cards from a deck of 52, each once.
pub struct HandsGenerator {
    hands: Vec<Hand>,
    hand: Vec<Card>,
    deck: Deck,
    used_cards: [bool; 52],
}

impl View for HandsGenerator {
    type V = Seq<Hand>;

    /// The hands generated so far.
    closed spec fn view(&self) -> Seq<Hand> {
        self.hands@
    }
}

/// Adds to `hands` each hand made of the chosen cards and a selection from
/// the deck at place `index` or behind it.
fn extend(
    deck: &Deck,
    used_cards: &mut [bool; 52],
    hand: &mut Vec<Card>,
    hands: &mut Vec<Hand>,
    index: usize,
)
    requires
        deck@ == fresh_cards(),
        old(hand)@.len() <= HAND_SIZE,
        forall|k: int| index <= k < 52 ==> !old(used_cards)@[k],
    ensures
        final(hands)@ == old(hands)@ + hands_of(
            old(hand)@,
            combinations(index as int, HAND_SIZE - old(hand)@.len()),
        ),
        final(hand)@ == old(hand)@,
        final(used_cards)@ == old(used_cards)@,
    decreases HAND_SIZE - old(hand)@.len(),
{
    let ghost chosen = hand@;
    let ghost before = hands@;
    let ghost size = HAND_SIZE - chosen.len();
    if hand.len() == HAND_SIZE {
        let cards = [hand[0], hand[1], hand[2], hand[3], hand[4], hand[5], hand[6]];
        hands.push(Hand::new(cards));
        proof {
            assert(cards@ =~= chosen);
            assert(chosen + Seq::<Card>::empty() =~= chosen);
            assert(hands@ =~= before + hands_of(chosen, combinations(index as int, 0)));
        }
        return ;
    }
    let mut i: usize = index;
    proof {
        assert(before + hands_of(chosen, combinations(index as int, size)) =~= (before
            + Seq::<Hand>::empty()) + hands_of(chosen, combinations(index as int, size)));
        assert(before + Seq::<Hand>::empty() =~= before);
    }
    while i < Deck::SIZE
        invariant
            index <= i,
            size == HAND_SIZE - chosen.len(),
            size > 0,
            deck@ == fresh_cards(),
            hand@ == chosen,
            chosen == old(hand)@,
            used_cards@ == old(used_cards)@,
            forall|k: int| index <= k < 52 ==> !used_cards@[k],
            before + hands_of(chosen, combinations(index as int, size)) == hands@ + hands_of(
                chosen,
                combinations(i as int, size),
            ),
        decreases Deck::SIZE - i,
    {
        if !used_cards[i] {
            let ghost marks = used_cards@;
            let ghost so_far = hands@;
            used_cards[i] = true;
            hand.push(deck.cards()[i]);
            extend(deck, used_cards, hand, hands, i + 1);
            used_cards[i] = false;
            hand.pop();
            proof {
                assert(used_cards@ =~= marks);
                assert(hand@ =~= chosen);
                lemma_hands_of_step(chosen, i as int, size);
                let taken = hands_of(
                    chosen.push(fresh_cards()[i as int]),
                    combinations(i + 1, size - 1),
                );
                let skipped = hands_of(chosen, combinations(i + 1, size));
                assert(so_far + (taken + skipped) =~= (so_far + taken) + skipped);
            }
        }
        i += 1;
    }
    proof {
        assert(hands_of(chosen, combinations(i as int, size)) =~= Seq::<Hand>::empty());
        assert(hands@ + Seq::<Hand>::empty() =~= hands@);
    }
}

impl HandsGenerator {
    #[verifier::type_invariant]
    spec fn ready(self) -> bool {
        &&& self.deck@ == fresh_cards()
        &&& self.hand@.len() == 0
        &&& forall|k: int| 0 <= k < 52 ==> !self.used_cards@[k]
    }

    /// A generator that has generated nothing yet.
    pub fn new() -> (generator: Self)
        ensures
            generator@ == Seq::<Hand>::empty(),
    {
        Self {
            deck: Deck::new(),
            hands: Vec::with_capacity(HAND_COMBINATIONS_COUNT),
            used_cards: [false;52],
            hand: Vec::with_capacity(HAND_SIZE),
        }
    }

    /// The hands generated so far.
    pub fn hands(&self) -> (hands: &Vec<Hand>)
        ensures
            hands@ == self@,
    {
        &self.hands
    }

    /// Adds every hand of seven cards, each once: 133,784,560 hands.
    pub fn generate(&mut self)
        ensures
            final(self)@ == old(self)@ + hands_of(Seq::empty(), combinations(0, 7)),
            final(self)@.len() == old(self)@.len() + HAND_COMBINATIONS_COUNT,
    {
        proof {
            lemma_combinations_count();
        }
        self.generate_i(0);
    }

    /// Adds every hand of seven cards taken from the deck at place `index`
    /// or behind it, each once.
    pub fn generate_i(&mut self, index: usize)
        ensures
            final(self)@ == old(self)@ + hands_of(Seq::empty(), combinations(index as int, 7)),
    {
        proof {
            use_type_invariant(&*self);
        }
        let mut used_cards = self.used_cards;
        let mut hand: Vec<Card> = Vec::new();
        let mut hands: Vec<Hand> = Vec::new();
        core::mem::swap(&mut self.hand, &mut hand);
        core::mem::swap(&mut self.hands, &mut hands);
        extend(&self.deck, &mut used_cards, &mut hand, &mut hands, index);
        core::mem::swap(&mut self.hand, &mut hand);
        core::mem::swap(&mut self.hands, &mut hands);
    }
}

/// In how many ways `size` things can be chosen out of `of`.
pub open spec fn binomial(of: nat, size: nat) -> nat
    decreases of,
{
    if size == 0 {
        1
    } else if of == 0 {
        0
    } else {
        binomial((of - 1) as nat, (size - 1) as nat) + binomial((of - 1) as nat, size)
    }
}

/// `size` times the choices of `size` out of `of` is `of` times the choices
/// of one less out of one less.
pub proof fn lemma_binomial_product(of: nat, size: nat)
    requires
        of >= 1,
        size >= 1,
    ensures
        size * binomial(of, size) == of * binomial((of - 1) as nat, (size - 1) as nat),
    decreases of,
{
    let a = binomial((of - 1) as nat, (size - 1) as nat);
    let b = binomial((of - 1) as nat, size);
    assert(binomial(of, size) == a + b);
    if of == 1 {
        assert(b == 0);
        if size == 1 {
            assert(a == 1);
        } else {
            assert(a == 0);
            assert(size * (a + b) == of * a) by (nonlinear_arith)
                requires
                    a == 0,
                    b == 0,
            ;
        }
    } else if size == 1 {
        lemma_binomial_product((of - 1) as nat, 1);
        let e = binomial((of - 2) as nat, 0);
        assert(e == 1);
        assert(a == 1);
        assert(1 * b == (of - 1) * e);
        assert(b == of - 1) by (nonlinear_arith)
            requires
                1 * b == (of - 1) * e,
                e == 1,
        ;
    } else {
        let c = binomial((of - 2) as nat, (size - 1) as nat);
        let d = binomial((of - 2) as nat, (size - 2) as nat);
        lemma_binomial_product((of - 1) as nat, size);
        lemma_binomial_product((of - 1) as nat, (size - 1) as nat);
        assert(a == d + c);
        assert(size * b == (of - 1) * c);
        assert((size - 1) * a == (of - 1) * d);
        assert(size * (a + b) == of * a) by (nonlinear_arith)
            requires
                a == d + c,
                size * b == (of - 1) * c,
                (size - 1) * a == (of - 1) * d,
        ;
    }
}

/// The selections of `size` cards from the deck at place `from` or behind
/// it are as many as the choices of `size` out of the cards that are there.
pub proof fn lemma_combinations_len(from: int, size: int)
    requires
        0 <= from <= 52,
        0 <= size,
    ensures
        combinations(from, size).len() == binomial((52 - from) as nat, size as nat),
    decreases 52 - from,
{
    if size > 0 && from < 52 {
        lemma_combinations_len(from + 1, size - 1);
        lemma_combinations_len(from + 1, size);
    }
}

/// A deck of 52 cards holds 133,784,560 hands of seven.
pub proof fn lemma_combinations_count()
    ensures
        combinations(0, 7).len() == HAND_COMBINATIONS_COUNT,
        hands_of(Seq::empty(), combinations(0, 7)).len() == HAND_COMBINATIONS_COUNT,
{
    lemma_combinations_len(0, 7);
    assert(binomial(45, 0) == 1);
    lemma_binomial_product(46, 1);
    assert(binomial(46, 1) == 46);
    lemma_binomial_product(47, 2);
    assert(binomial(47, 2) == 1081);
    lemma_binomial_product(48, 3);
    assert(binomial(48, 3) == 17296);
    lemma_binomial_product(49, 4);
    assert(binomial(49, 4) == 211876);
    lemma_binomial_product(50, 5);
    assert(binomial(50, 5) == 2118760);
    lemma_binomial_product(51, 6);
    assert(binomial(51, 6) == 18009460);
    lemma_binomial_product(52, 7);
    assert(binomial(52, 7) == 133784560);
}

/// Cards in the order of the deck, each behind the one before it, from
/// place `from` on.
pub open spec fn is_selection(cards: Seq<Card>, from: int) -> bool {
    &&& forall|i: int| 0 <= i < cards.len() ==> from <= (#[trigger] cards[i]).spec_index()
    &&& forall|i: int, j: int|
        0 <= i < j < cards.len() ==> (#[trigger] cards[i]).spec_index() < (
        #[trigger] cards[j]).spec_index()
}

/// Each card stands in the fresh deck at its own place.
pub proof fn lemma_fresh_cards(card: Card)
    ensures
        0 <= card.spec_index() < 52,
        fresh_cards()[card.spec_index()] == card,
{
    lemma_card_is_at(card);
}

/// The card at a place of the fresh deck has that place.
pub proof fn lemma_fresh_card_at(place: int)
    requires
        0 <= place < 52,
    ensures
        fresh_cards()[place].spec_index() == place,
{
    lemma_card_at(place % 13, place / 13);
}

/// Every selection holds `size` cards in the order of the deck, from place
/// `from` on.
pub proof fn lemma_combination_is_selection(from: int, size: int, k: int)
    requires
        0 <= from <= 52,
        0 <= size,
        0 <= k < combinations(from, size).len(),
    ensures
        combinations(from, size)[k].len() == size,
        is_selection(combinations(from, size)[k], from),
    decreases 52 - from,
{
    if size > 0 && from < 52 {
        let taken = combinations(from + 1, size - 1);
        let first = fresh_cards()[from];
        lemma_fresh_card_at(from);
        if k < taken.len() {
            lemma_combination_is_selection(from + 1, size - 1, k);
            let cards = seq![first] + taken[k];
            assert(combinations(from, size)[k] == cards);
            assert forall|i: int| 0 <= i < cards.len() implies from <= (
            #[trigger] cards[i]).spec_index() by {
                if i > 0 {
                    assert(cards[i] == taken[k][i - 1]);
                }
            }
            assert forall|i: int, j: int| 0 <= i < j < cards.len() implies (
            #[trigger] cards[i]).spec_index() < (#[trigger] cards[j]).spec_index() by {
                assert(cards[j] == taken[k][j - 1]);
                if i > 0 {
                    assert(cards[i] == taken[k][i - 1]);
                }
            }
        } else {
            lemma_combination_is_selection(from + 1, size, k - taken.len());
            assert(combinations(from, size)[k] == combinations(from + 1, size)[k - taken.len()]);
        }
    }
}

/// Every selection of cards in the order of the deck is among the
/// selections: none is left out.
pub proof fn lemma_combinations_are_complete(from: int, cards: Seq<Card>) -> (k: int)
    requires
        0 <= from,
        is_selection(cards, from),
    ensures
        0 <= k < combinations(from, cards.len() as int).len(),
        combinations(from, cards.len() as int)[k] == cards,
    decreases 52 - from,
{
    let size = cards.len() as int;
    if size == 0 {
        assert(cards =~= Seq::<Card>::empty());
        0
    } else {
        lemma_fresh_cards(cards[0]);
        assert(from <= cards[0].spec_index());
        let taken = combinations(from + 1, size - 1);
        if cards[0].spec_index() == from {
            let tail = cards.skip(1);
            assert forall|i: int| 0 <= i < tail.len() implies from + 1 <= (
            #[trigger] tail[i]).spec_index() by {
                assert(tail[i] == cards[i + 1]);
                assert(cards[0].spec_index() < cards[i + 1].spec_index());
            }
            assert forall|i: int, j: int| 0 <= i < j < tail.len() implies (
            #[trigger] tail[i]).spec_index() < (#[trigger] tail[j]).spec_index() by {
                assert(tail[i] == cards[i + 1]);
                assert(tail[j] == cards[j + 1]);
            }
            let k = lemma_combinations_are_complete(from + 1, tail);
            assert(seq![fresh_cards()[from]] + tail =~= cards);
            assert(combinations(from, size)[k] == seq![fresh_cards()[from]] + taken[k]);
            k
        } else {
            assert forall|i: int| 0 <= i < cards.len() implies from + 1 <= (
            #[trigger] cards[i]).spec_index() by {
                if i > 0 {
                    assert(cards[0].spec_index() < cards[i].spec_index());
                }
            }
            let k = lemma_combinations_are_complete(from + 1, cards);
            assert(combinations(from, size)[taken.len() + k] == combinations(from + 1, size)[k]);
            taken.len() + k
        }
    }
}

/// No selection is the same as another.
pub proof fn lemma_combinations_differ(from: int, size: int, i: int, j: int)
    requires
        0 <= from <= 52,
        0 <= size,
        0 <= i < j < combinations(from, size).len(),
    ensures
        combinations(from, size)[i] != combinations(from, size)[j],
    decreases 52 - from,
{
    if size > 0 && from < 52 {
        let taken = combinations(from + 1, size - 1);
        let skipped = combinations(from + 1, size);
        let first = fresh_cards()[from];
        let all = combinations(from, size);
        if j < taken.len() {
            lemma_combinations_differ(from + 1, size - 1, i, j);
            assert(all[i] == seq![first] + taken[i]);
            assert(all[j] == seq![first] + taken[j]);
            if all[i] == all[j] {
                assert(taken[i] =~= all[i].skip(1));
                assert(taken[j] =~= all[j].skip(1));
            }
        } else if i >= taken.len() {
            lemma_combinations_differ(from + 1, size, i - taken.len(), j - taken.len());
            assert(all[i] == skipped[i - taken.len()]);
            assert(all[j] == skipped[j - taken.len()]);
        } else {
            lemma_combination_is_selection(from + 1, size, j - taken.len());
            lemma_fresh_card_at(from);
            assert(all[i] == seq![first] + taken[i]);
            assert(all[j] == skipped[j - taken.len()]);
            assert(all[i][0] == first);
            assert(from + 1 <= all[j][0].spec_index());
        }
    }
}

/// Selections that hold the same cards are the same selection.
pub proof fn lemma_selection_by_its_cards(a: Seq<Card>, b: Seq<Card>)
    requires
        is_selection(a, 0),
        is_selection(b, 0),
        a.to_set() == b.to_set(),
    ensures
        a == b,
    decreases a.len(),
{
    if a.len() == 0 {
        if b.len() > 0 {
            assert(b.to_set().contains(b[0]));
            assert(a.contains(b[0]));
        }
        assert(a =~= b);
    } else {
        assert(a.to_set().contains(a[0]));
        assert(b.contains(a[0]));
        let j = choose|j: int| 0 <= j < b.len() && b[j] == a[0];
        assert(b.to_set().contains(b[0]));
        assert(a.contains(b[0]));
        let i = choose|i: int| 0 <= i < a.len() && a[i] == b[0];
        lemma_fresh_cards(a[0]);
        lemma_fresh_cards(b[0]);
        assert(a[0].spec_index() <= a[i].spec_index());
        assert(b[0].spec_index() <= b[j].spec_index());
        assert(a[0] == b[0]);
        let x = a.skip(1);
        let y = b.skip(1);
        assert forall|card: Card| x.to_set().contains(card) == y.to_set().contains(card) by {
            if x.contains(card) {
                let m = choose|m: int| 0 <= m < x.len() && x[m] == card;
                assert(a[m + 1] == card);
                assert(a.to_set().contains(card));
                assert(b.contains(card));
                let n = choose|n: int| 0 <= n < b.len() && b[n] == card;
                assert(a[0].spec_index() < a[m + 1].spec_index());
                assert(y[n - 1] == card);
            }
            if y.contains(card) {
                let m = choose|m: int| 0 <= m < y.len() && y[m] == card;
                assert(b[m + 1] == card);
                assert(b.to_set().contains(card));
                assert(a.contains(card));
                let n = choose|n: int| 0 <= n < a.len() && a[n] == card;
                assert(b[0].spec_index() < b[m + 1].spec_index());
                assert(x[n - 1] == card);
            }
        }
        assert(x.to_set() =~= y.to_set());
        assert forall|m: int, n: int| 0 <= m < n < x.len() implies (#[trigger] x[m]).spec_index()
            < (#[trigger] x[n]).spec_index() by {
            assert(x[m] == a[m + 1] && x[n] == a[n + 1]);
        }
        assert forall|m: int, n: int| 0 <= m < n < y.len() implies (#[trigger] y[m]).spec_index()
            < (#[trigger] y[n]).spec_index() by {
            assert(y[m] == b[m + 1] && y[n] == b[n + 1]);
        }
        assert forall|m: int| 0 <= m < x.len() implies 0 <= (#[trigger] x[m]).spec_index() by {
            lemma_fresh_cards(x[m]);
        }
        assert forall|m: int| 0 <= m < y.len() implies 0 <= (#[trigger] y[m]).spec_index() by {
            lemma_fresh_cards(y[m]);
        }
        lemma_selection_by_its_cards(x, y);
        assert(a =~= seq![a[0]] + x);
        assert(b =~= seq![b[0]] + y);
    }
}

/// In a selection no card occurs twice.
pub proof fn lemma_selection_is_distinct(cards: Seq<Card>, from: int)
    requires
        is_selection(cards, from),
    ensures
        cards.no_duplicates(),
{
    assert forall|i: int, j: int| 0 <= i < cards.len() && 0 <= j < cards.len() && i
        != j implies cards[i] != cards[j] by {
        if i < j {
            assert(cards[i].spec_index() < cards[j].spec_index());
        } else {
            assert(cards[j].spec_index() < cards[i].spec_index());
        }
    }
}

/// No two of the generated hands hold the same cards, and none holds a card
/// twice.
pub proof fn lemma_generated_hands_differ(i: int, j: int)
    requires
        0 <= i < j < HAND_COMBINATIONS_COUNT,
    ensures
        hands_of(Seq::empty(), combinations(0, 7))[i].card_set() != hands_of(
            Seq::empty(),
            combinations(0, 7),
        )[j].card_set(),
        hands_of(Seq::empty(), combinations(0, 7))[i].has_distinct_cards(),
{
    lemma_combinations_count();
    let all = combinations(0, 7);
    lemma_combination_is_selection(0, 7, i);
    lemma_combination_is_selection(0, 7, j);
    lemma_combinations_differ(0, 7, i, j);
    assert(Seq::<Card>::empty() + all[i] =~= all[i]);
    assert(Seq::<Card>::empty() + all[j] =~= all[j]);
    Hand::lemma_of(all[i]);
    Hand::lemma_of(all[j]);
    if all[i].to_set() == all[j].to_set() {
        lemma_selection_by_its_cards(all[i], all[j]);
    }
    lemma_selection_is_distinct(all[i], 0);
    crate::naive_evaluator::hand::lemma_sort_by_rank(all[i]);
    crate::naive_evaluator::hand::lemma_same_cards(
        crate::naive_evaluator::hand::sort_by_rank(all[i]),
        all[i],
    );
}

} // verus!
