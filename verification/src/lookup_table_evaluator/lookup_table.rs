use super::lookup_table_generation::combinations;
use super::lookup_table_generation::hands_of;
use super::lookup_table_generation::is_selection;
use super::lookup_table_generation::lemma_combination_is_selection;
use super::lookup_table_generation::lemma_combinations_are_complete;
use super::lookup_table_generation::lemma_combinations_count;
use super::lookup_table_generation::lemma_generated_hands_differ;
use super::lookup_table_generation::lemma_selection_is_distinct;
use super::lookup_table_generation::HandsGenerator;
use super::lookup_table_generation::HAND_COMBINATIONS_COUNT;
use crate::naive_evaluator::card::Card;
use crate::naive_evaluator::evaluator::evaluate_five_cards;
use crate::naive_evaluator::evaluator::lemma_card_at;
use crate::naive_evaluator::evaluator::lemma_card_is_at;
use crate::naive_evaluator::evaluator::lemma_highest_marked;
use crate::naive_evaluator::evaluator::highest_marked;
use crate::naive_evaluator::evaluator::InvalidHand;
use crate::naive_evaluator::hand::Hand;
use crate::naive_evaluator::hand::HAND_SIZE;
use crate::naive_evaluator::hand_ranking::HandRanking;
use std::collections::HashMap;
use vstd::prelude::*;

verus! {

/// Why a hand could not be looked up.
#[derive(Debug, Clone, Copy, PartialEq, Eq, Structural)]
pub enum LookupError {
    /// A card of the hand occurs twice.
    InvalidHand,
    /// The table holds nothing under the key of the hand.
    KeyEncodingMismatch,
}

/// Why no table could be built.
#[derive(Debug, Clone, Copy, PartialEq, Eq, Structural)]
pub enum BuildError {
    /// A card occurs twice in one of the hands.
    InvalidHand,
    /// The hands are not as many as a deck holds hands of seven.
    IncompleteEnumeration,
}

/// The place of a card among the 52: by its code, the rank in the four high
/// bits of six and the suit in the two low ones, or else by its place in a
/// fresh deck.
pub open spec fn place_of(card: Card, by_code: bool) -> int {
    if by_code {
        card.rank().value() * 4 + card.suit().value()
    } else {
        card.spec_index()
    }
}

/// The card at a place among the 52.
pub open spec fn card_at_place(place: int, by_code: bool) -> Card {
    if by_code {
        Card::at(place / 4, place % 4)
    } else {
        Card::at(place % 13, place / 13)
    }
}

/// For each place, whether the card there is held.
pub open spec fn places_held(held: Set<Card>, by_code: bool) -> Seq<bool> {
    Seq::new(52, |place: int| held.contains(card_at_place(place, by_code)))
}

/// The cards held, from the highest place down.
pub open spec fn listing(held: Set<Card>, by_code: bool) -> Seq<Card> {
    let places = highest_marked(places_held(held, by_code));
    Seq::new(places.len(), |i: int| card_at_place(places[i], by_code))
}

/// The code of a card: a byte with the rank in bits 2 to 5 and the suit in
/// bits 0 and 1.
pub open spec fn code_of(card: Card) -> int {
    place_of(card, true)
}

/// The bytes put one behind the other, the first in the highest place.
pub open spec fn pack(codes: Seq<int>) -> int
    decreases codes.len(),
{
    if codes.len() == 0 {
        0
    } else {
        pack(codes.drop_last()) * 256 + codes.last()
    }
}

/// The key of a set of cards: the codes of the cards, from the highest code
/// down, put one behind the other. It depends on the cards alone, not on
/// any order of them.
pub open spec fn key_of(held: Set<Card>) -> int {
    pack(highest_marked(places_held(held, true)))
}

impl Hand {
    /// The key under which the table holds the hand.
    pub open spec fn key(&self) -> u64 {
        key_of(self.card_set()) as u64
    }
}

/// Each card has one place, and each place one card.
pub proof fn lemma_places(card: Card, place: int, by_code: bool)
    ensures
        0 <= place_of(card, by_code) < 52,
        card_at_place(place_of(card, by_code), by_code) == card,
        0 <= place < 52 ==> place_of(card_at_place(place, by_code), by_code) == place,
{
    lemma_card_is_at(card);
    if 0 <= place < 52 {
        if by_code {
            lemma_card_at(place / 4, place % 4);
        } else {
            lemma_card_at(place % 13, place / 13);
        }
    }
}

/// The listing of a set of cards holds each of its cards once, and no other.
pub proof fn lemma_listing(held: Set<Card>, by_code: bool)
    ensures
        listing(held, by_code).no_duplicates(),
        listing(held, by_code).to_set() == held,
        listing(held, by_code).len() == highest_marked(places_held(held, by_code)).len(),
        forall|i: int, j: int|
            0 <= i < j < listing(held, by_code).len() ==> place_of(
                #[trigger] listing(held, by_code)[i],
                by_code,
            ) > place_of(#[trigger] listing(held, by_code)[j], by_code),
{
    let mask = places_held(held, by_code);
    let places = highest_marked(mask);
    let list = listing(held, by_code);
    lemma_highest_marked(mask);
    assert forall|i: int| 0 <= i < list.len() implies place_of(#[trigger] list[i], by_code)
        == places[i] && held.contains(list[i]) by {
        lemma_places(list[i], places[i], by_code);
        assert(mask[places[i]]);
    }
    assert forall|i: int, j: int| 0 <= i < j < list.len() implies place_of(
        #[trigger] list[i],
        by_code,
    ) > place_of(#[trigger] list[j], by_code) by {
        assert(places[i] > places[j]);
    }
    assert forall|i: int, j: int| 0 <= i < list.len() && 0 <= j < list.len() && i
        != j implies list[i] != list[j] by {
        if i < j {
            assert(place_of(list[i], by_code) > place_of(list[j], by_code));
        } else {
            assert(place_of(list[j], by_code) > place_of(list[i], by_code));
        }
    }
    assert forall|card: Card| list.to_set().contains(card) == held.contains(card) by {
        if list.contains(card) {
            let i = choose|i: int| 0 <= i < list.len() && list[i] == card;
            assert(held.contains(list[i]));
        }
        if held.contains(card) {
            let place = place_of(card, by_code);
            lemma_places(card, place, by_code);
            assert(mask[place]);
            assert(places.contains(place));
            let i = choose|i: int| 0 <= i < places.len() && places[i] == place;
            assert(list[i] == card);
        }
    }
    assert(list.to_set() =~= held);
}

/// A hand holds seven cards at most, and seven where none occurs twice.
pub proof fn lemma_hand_listing(hand: Hand, by_code: bool)
    ensures
        highest_marked(places_held(hand.card_set(), by_code)).len() <= 7,
        hand.has_distinct_cards() ==> highest_marked(places_held(hand.card_set(), by_code)).len() == 7,
{
    let held = hand.card_set();
    lemma_listing(held, by_code);
    hand.lemma_seven_cards();
    listing(held, by_code).unique_seq_to_set();
    hand@.lemma_cardinality_of_set();
    if hand.has_distinct_cards() {
        hand@.unique_seq_to_set();
    }
}

/// 256 to the power of `n`.
pub open spec fn pow256(n: nat) -> int
    decreases n,
{
    if n == 0 {
        1
    } else {
        256 * pow256((n - 1) as nat)
    }
}

/// Bytes put one behind the other fill as many bytes.
pub proof fn lemma_pack_bound(codes: Seq<int>)
    requires
        forall|i: int| 0 <= i < codes.len() ==> 0 <= #[trigger] codes[i] < 256,
    ensures
        0 <= pack(codes) < pow256(codes.len()),
    decreases codes.len(),
{
    if codes.len() > 0 {
        lemma_pack_bound(codes.drop_last());
    }
}

/// As many bytes put one behind the other give the same number only where
/// they are the same bytes.
pub proof fn lemma_pack_is_injective(a: Seq<int>, b: Seq<int>)
    requires
        a.len() == b.len(),
        forall|i: int| 0 <= i < a.len() ==> 0 <= #[trigger] a[i] < 256,
        forall|i: int| 0 <= i < b.len() ==> 0 <= #[trigger] b[i] < 256,
        pack(a) == pack(b),
    ensures
        a == b,
    decreases a.len(),
{
    if a.len() > 0 {
        lemma_pack_is_injective(a.drop_last(), b.drop_last());
        assert(a =~= a.drop_last().push(a.last()));
        assert(b =~= b.drop_last().push(b.last()));
    } else {
        assert(a =~= b);
    }
}

/// The key of a hand fits in seven bytes.
pub proof fn lemma_key_fits(hand: Hand)
    ensures
        0 <= key_of(hand.card_set()) < 0x100_0000_0000_0000,
        hand.key() == key_of(hand.card_set()),
{
    let mask = places_held(hand.card_set(), true);
    let codes = highest_marked(mask);
    lemma_highest_marked(mask);
    lemma_hand_listing(hand, true);
    lemma_pack_bound(codes);
    lemma_pow256_grows(codes.len(), 7);
    reveal_with_fuel(pow256, 8);
}

/// The powers of 256 rise.
proof fn lemma_pow256_grows(n: nat, m: nat)
    requires
        n <= m,
    ensures
        0 < pow256(n) <= pow256(m),
    decreases m,
{
    if m > 0 {
        if n < m {
            lemma_pow256_grows(n, (m - 1) as nat);
        } else {
            lemma_pow256_grows((n - 1) as nat, (m - 1) as nat);
        }
    }
}

/// The key of a hand does not depend on the order of its cards, and neither
/// does its ranking.
pub proof fn lemma_key_ignores_order(a: Hand, b: Hand)
    requires
        a.card_set() == b.card_set(),
    ensures
        a.key() == b.key(),
        a.ranking() == b.ranking(),
{
}

/// Hands of seven distinct cards with the same key hold the same cards, and
/// so have the same ranking.
pub proof fn lemma_key_determines_cards(a: Hand, b: Hand)
    requires
        a.has_distinct_cards(),
        b.has_distinct_cards(),
        a.key() == b.key(),
    ensures
        a.card_set() == b.card_set(),
        a.ranking() == b.ranking(),
{
    let mask_a = places_held(a.card_set(), true);
    let mask_b = places_held(b.card_set(), true);
    lemma_key_fits(a);
    lemma_key_fits(b);
    lemma_hand_listing(a, true);
    lemma_hand_listing(b, true);
    lemma_highest_marked(mask_a);
    lemma_highest_marked(mask_b);
    lemma_pack_is_injective(highest_marked(mask_a), highest_marked(mask_b));
    lemma_listing(a.card_set(), true);
    lemma_listing(b.card_set(), true);
    assert(listing(a.card_set(), true) =~= listing(b.card_set(), true));
}

/// The code of a card: a byte with the rank in bits 2 to 5 and the suit in
/// bits 0 and 1.
pub fn card_code(card: &Card) -> (code: u8)
    ensures
        code == code_of(*card),
        code < 52,
{
    card.rank().index() * 4 + card.suit().index()
}

/// The key under which the table holds a hand: seven bytes at most, one for
/// each card, in a word of eight.
pub fn canonical_key(hand: &Hand) -> (key: u64)
    ensures
        key == hand.key(),
        key == key_of(hand.card_set()),
        key < 0x100_0000_0000_0000,
{
    let cards = hand.cards();
    let ghost held = hand.card_set();
    let mut marks = [false;52];
    let mut n: usize = 0;
    while n < HAND_SIZE
        invariant
            n <= HAND_SIZE,
            cards@ == hand@,
            cards@.len() == HAND_SIZE,
            forall|place: int|
                0 <= place < 52 ==> (marks@[place] <==> exists|i: int|
                    0 <= i < n && code_of(#[trigger] cards@[i]) == place),
        decreases HAND_SIZE - n,
    {
        let code = card_code(&cards[n]) as usize;
        let ghost before = marks@;
        marks[code] = true;
        n += 1;
        proof {
            assert forall|place: int| 0 <= place < 52 implies (marks@[place] <==> exists|i: int|
                0 <= i < n && code_of(#[trigger] cards@[i]) == place) by {
                if place == code {
                    assert(code_of(cards@[n - 1]) == place);
                } else if before[place] {
                    let i = choose|i: int| 0 <= i < n - 1 && code_of(#[trigger] cards@[i]) == place;
                    assert(code_of(cards@[i]) == place);
                } else if exists|i: int| 0 <= i < n && code_of(#[trigger] cards@[i]) == place {
                    let i = choose|i: int| 0 <= i < n && code_of(#[trigger] cards@[i]) == place;
                    assert(i < n - 1);
                }
            }
        }
    }
    let ghost mask = places_held(held, true);
    proof {
        assert forall|place: int| 0 <= place < 52 implies marks@[place] == mask[place] by {
            let card = card_at_place(place, true);
            lemma_places(card, place, true);
            if marks@[place] {
                let i = choose|i: int| 0 <= i < n && code_of(#[trigger] cards@[i]) == place;
                lemma_places(cards@[i], place, true);
                assert(hand@.contains(cards@[i]));
            }
            if mask[place] {
                assert(hand@.contains(card));
                let i = choose|i: int| 0 <= i < hand@.len() && hand@[i] == card;
                assert(code_of(cards@[i]) == place);
            }
        }
        assert(marks@ =~= mask);
        lemma_highest_marked(mask);
        lemma_hand_listing(*hand, true);
        lemma_key_fits(*hand);
        assert(mask.take(52) == mask);
    }
    let mut key: u64 = 0;
    let mut place: usize = 52;
    let ghost mut found: Seq<int> = Seq::empty();
    proof {
        assert(found + highest_marked(mask) == highest_marked(mask));
    }
    while place > 0
        invariant
            place <= 52,
            marks@ == mask,
            mask.len() == 52,
            highest_marked(mask).len() <= 7,
            highest_marked(mask) == found + highest_marked(mask.take(place as int)),
            forall|i: int| 0 <= i < found.len() ==> 0 <= #[trigger] found[i] < 256,
            key == pack(found),
        decreases place,
    {
        proof {
            assert(mask.take(place as int).drop_last() == mask.take(place - 1));
        }
        place -= 1;
        if marks[place] {
            proof {
                let rest = highest_marked(mask.take(place as int));
                assert(found + (seq![place as int] + rest) == found.push(place as int) + rest);
                lemma_pack_bound(found);
                lemma_pow256_grows(found.len(), 6);
                reveal_with_fuel(pow256, 8);
                assert(found.push(place as int).drop_last() == found);
                found = found.push(place as int);
            }
            key = key * 256 + place as u64;
        }
    }
    proof {
        assert(highest_marked(mask.take(0)) == Seq::<int>::empty());
        assert(found + Seq::<int>::empty() == found);
    }
    key
}

/// Whether the map holds, under the key of each hand of seven distinct
/// cards that it has a key for, the ranking of that hand.
pub open spec fn is_sound(rankings: Map<u64, HandRanking>) -> bool {
    forall|hand: Hand|
        hand.has_distinct_cards() && rankings.contains_key(#[trigger] hand.key()) ==> rankings[hand.key()]
            == hand.ranking()
}

/// The rankings of hands, each under the key of its hand.
pub struct Table {
    rankings: HashMap<u64, HandRanking>,
}

impl View for Table {
    type V = Map<u64, HandRanking>;

    closed spec fn view(&self) -> Map<u64, HandRanking> {
        self.rankings@
    }
}

impl Table {
    #[verifier::type_invariant]
    spec fn sound(self) -> bool {
        is_sound(self.rankings@)
    }

    /// Whether the table holds the ranking of the hand.
    pub open spec fn covers(&self, hand: Hand) -> bool {
        self@.contains_key(hand.key())
    }

    /// An empty table with room for `capacity` hands.
    pub fn with_capacity(capacity: usize) -> (table: Self)
        ensures
            table@ == Map::<u64, HandRanking>::empty(),
    {
        Self { rankings: HashMap::with_capacity(capacity) }
    }

    /// An empty table.
    pub fn new() -> (table: Self)
        ensures
            table@ == Map::<u64, HandRanking>::empty(),
    {
        Self { rankings: HashMap::new() }
    }

    /// How many hands the table holds.
    pub fn len(&self) -> (len: usize)
        ensures
            len == self@.len(),
    {
        broadcast use vstd::std_specs::hash::group_hash_axioms;

        self.rankings.len()
    }

    /// Evaluates the hand and puts its ranking into the table. A hand in
    /// which a card occurs twice is refused, and the table stays as it is.
    pub fn insert(&mut self, hand: &Hand) -> (done: Result<(), InvalidHand>)
        ensures
            hand.has_distinct_cards() ==> done is Ok,
            hand.has_distinct_cards() ==> final(self)@ == old(self)@.insert(
                hand.key(),
                hand.ranking(),
            ),
            !hand.has_distinct_cards() ==> done == Err::<(), InvalidHand>(InvalidHand),
            !hand.has_distinct_cards() ==> final(self)@ == old(self)@,
    {
        broadcast use vstd::std_specs::hash::group_hash_axioms;

        proof {
            use_type_invariant(&*self);
        }
        let ranking = match evaluate_five_cards(hand) {
            Ok(ranking) => ranking,
            Err(error) => {
                return Err(error);
            },
        };
        let key = canonical_key(hand);
        let mut rankings: HashMap<u64, HandRanking> = HashMap::new();
        core::mem::swap(&mut self.rankings, &mut rankings);
        rankings.insert(key, ranking);
        proof {
            assert forall|other: Hand|
                other.has_distinct_cards() && rankings@.contains_key(
                    #[trigger] other.key(),
                ) implies rankings@[other.key()] == other.ranking() by {
                if other.key() == key {
                    lemma_key_determines_cards(other, *hand);
                }
            }
        }
        core::mem::swap(&mut self.rankings, &mut rankings);
        Ok(())
    }

    /// The ranking of a hand, as the table holds it. A hand in which a card
    /// occurs twice is refused; so is one for whose key the table holds
    /// nothing.
    pub fn lookup(&self, hand: &Hand) -> (found: Result<HandRanking, LookupError>)
        ensures
            !hand.has_distinct_cards() ==> found == Err::<HandRanking, LookupError>(
                LookupError::InvalidHand,
            ),
            hand.has_distinct_cards() && self.covers(*hand) ==> found == Ok::<
                HandRanking,
                LookupError,
            >(hand.ranking()),
            hand.has_distinct_cards() && !self.covers(*hand) ==> found == Err::<
                HandRanking,
                LookupError,
            >(LookupError::KeyEncodingMismatch),
    {
        broadcast use vstd::std_specs::hash::group_hash_axioms;

        proof {
            use_type_invariant(self);
        }
        if !hand.is_valid() {
            return Err(LookupError::InvalidHand);
        }
        let key = canonical_key(hand);
        match self.rankings.get(&key) {
            Some(ranking) => Ok(*ranking),
            None => Err(LookupError::KeyEncodingMismatch),
        }
    }

    /// The table of the given hands. Where a card occurs twice in one of
    /// them, there is no table.
    pub fn from_hands(hands: &Vec<Hand>) -> (made: Result<Table, InvalidHand>)
        ensures
            made is Ok <==> forall|i: int|
                0 <= i < hands@.len() ==> (#[trigger] hands@[i]).has_distinct_cards(),
            made is Ok ==> forall|key: u64|
                made->Ok_0@.contains_key(key) <==> exists|i: int|
                    0 <= i < hands@.len() && (#[trigger] hands@[i]).key() == key,
            made is Ok ==> forall|i: int|
                0 <= i < hands@.len() ==> made->Ok_0@[(#[trigger] hands@[i]).key()]
                    == hands@[i].ranking(),
    {
        let mut table = Table::with_capacity(hands.len());
        let mut n: usize = 0;
        while n < hands.len()
            invariant
                n <= hands@.len(),
                forall|i: int| 0 <= i < n ==> (#[trigger] hands@[i]).has_distinct_cards(),
                forall|key: u64|
                    table@.contains_key(key) <==> exists|i: int|
                        0 <= i < n && (#[trigger] hands@[i]).key() == key,
                forall|i: int|
                    0 <= i < n ==> table@[(#[trigger] hands@[i]).key()] == hands@[i].ranking(),
            decreases hands@.len() - n,
        {
            let ghost before = table@;
            match table.insert(&hands[n]) {
                Ok(_) => {},
                Err(error) => {
                    return Err(error);
                },
            }
            n += 1;
            proof {
                assert forall|i: int| 0 <= i < n implies table@[(#[trigger] hands@[i]).key()]
                    == hands@[i].ranking() by {
                    if i < n - 1 && hands@[i].key() == hands@[n - 1].key() {
                        lemma_key_determines_cards(hands@[i], hands@[n - 1]);
                    }
                }
                assert forall|key: u64| table@.contains_key(key) <==> exists|i: int|
                    0 <= i < n && (#[trigger] hands@[i]).key() == key by {
                    if key == hands@[n - 1].key() {
                    } else if before.contains_key(key) {
                        let i = choose|i: int| 0 <= i < n - 1 && (#[trigger] hands@[i]).key() == key;
                        assert(hands@[i].key() == key);
                    } else if exists|i: int| 0 <= i < n && (#[trigger] hands@[i]).key() == key {
                        let i = choose|i: int| 0 <= i < n && (#[trigger] hands@[i]).key() == key;
                        assert(i < n - 1);
                    }
                }
            }
        }
        Ok(table)
    }
}

impl Table {
    /// The table of the hands that the generator holds. There is none where
    /// these are not as many as a deck holds hands of seven, or where a card
    /// occurs twice in one of them.
    pub fn from_generator(generator: &HandsGenerator) -> (made: Result<Table, BuildError>)
        ensures
            generator@.len() != HAND_COMBINATIONS_COUNT ==> made == Err::<Table, BuildError>(
                BuildError::IncompleteEnumeration,
            ),
            generator@.len() == HAND_COMBINATIONS_COUNT && !(forall|i: int|
                0 <= i < generator@.len() ==> (#[trigger] generator@[i]).has_distinct_cards())
                ==> made == Err::<Table, BuildError>(BuildError::InvalidHand),
            generator@.len() == HAND_COMBINATIONS_COUNT && (forall|i: int|
                0 <= i < generator@.len() ==> (#[trigger] generator@[i]).has_distinct_cards())
                ==> made is Ok,
            made is Ok ==> forall|key: u64|
                made->Ok_0@.contains_key(key) <==> exists|i: int|
                    0 <= i < generator@.len() && (#[trigger] generator@[i]).key() == key,
            made is Ok ==> forall|i: int|
                0 <= i < generator@.len() ==> made->Ok_0@[(#[trigger] generator@[i]).key()]
                    == generator@[i].ranking(),
    {
        let hands = generator.hands();
        if hands.len() != HAND_COMBINATIONS_COUNT {
            return Err(BuildError::IncompleteEnumeration);
        }
        match Table::from_hands(hands) {
            Ok(table) => Ok(table),
            Err(_) => Err(BuildError::InvalidHand),
        }
    }
}

/// Every hand of seven distinct cards holds the cards of one of the
/// generated hands.
pub proof fn lemma_generated_hands_are_complete(hand: Hand) -> (k: int)
    requires
        hand.has_distinct_cards(),
    ensures
        0 <= k < HAND_COMBINATIONS_COUNT,
        hands_of(Seq::empty(), combinations(0, 7))[k].card_set() == hand.card_set(),
        hands_of(Seq::empty(), combinations(0, 7))[k].has_distinct_cards(),
{
    let held = hand.card_set();
    let falling = listing(held, false);
    lemma_listing(held, false);
    lemma_hand_listing(hand, false);
    let rising = falling.reverse();
    assert forall|i: int| 0 <= i < rising.len() implies 0 <= (#[trigger] rising[i]).spec_index() by {
        lemma_places(rising[i], 0, false);
    }
    assert forall|i: int, j: int| 0 <= i < j < rising.len() implies (
    #[trigger] rising[i]).spec_index() < (#[trigger] rising[j]).spec_index() by {
        assert(rising[i] == falling[falling.len() - 1 - i]);
        assert(rising[j] == falling[falling.len() - 1 - j]);
        assert(place_of(falling[falling.len() - 1 - j], false) > place_of(
            falling[falling.len() - 1 - i],
            false,
        ));
    }
    assert(is_selection(rising, 0));
    let k = lemma_combinations_are_complete(0, rising);
    lemma_combinations_count();
    assert(Seq::<Card>::empty() + rising =~= rising);
    Hand::lemma_of(rising);
    assert(rising.to_set() =~= falling.to_set()) by {
        assert forall|card: Card| rising.contains(card) <==> falling.contains(card) by {
            if rising.contains(card) {
                let i = choose|i: int| 0 <= i < rising.len() && rising[i] == card;
                assert(falling[falling.len() - 1 - i] == card);
            }
            if falling.contains(card) {
                let i = choose|i: int| 0 <= i < falling.len() && falling[i] == card;
                assert(rising[rising.len() - 1 - i] == card);
            }
        }
    }
    lemma_selection_is_distinct(rising, 0);
    crate::naive_evaluator::hand::lemma_sort_by_rank(rising);
    crate::naive_evaluator::hand::lemma_same_cards(
        crate::naive_evaluator::hand::sort_by_rank(rising),
        rising,
    );
    k
}

/// The table of all hands of seven cards: it holds the ranking of every
/// hand of seven distinct cards, whatever the order of the cards, in
/// 133,784,560 entries.
pub fn build_table() -> (table: Table)
    ensures
        forall|hand: Hand| hand.has_distinct_cards() ==> #[trigger] table.covers(hand),
        table@.len() == HAND_COMBINATIONS_COUNT,
{
    let mut generator = HandsGenerator::new();
    generator.generate();
    let ghost all = hands_of(Seq::empty(), combinations(0, 7));
    proof {
        assert(generator@ =~= all);
        assert forall|i: int| 0 <= i < all.len() implies (#[trigger] all[i]).has_distinct_cards() by {
            lemma_combinations_count();
            lemma_combination_is_selection(0, 7, i);
            let cards = combinations(0, 7)[i];
            assert(Seq::<Card>::empty() + cards =~= cards);
            Hand::lemma_of(cards);
            lemma_selection_is_distinct(cards, 0);
            crate::naive_evaluator::hand::lemma_sort_by_rank(cards);
            crate::naive_evaluator::hand::lemma_same_cards(
                crate::naive_evaluator::hand::sort_by_rank(cards),
                cards,
            );
        }
    }
    proof {
        lemma_combinations_count();
    }
    match Table::from_generator(&generator) {
        Ok(table) => {
            proof {
                assert forall|hand: Hand| hand.has_distinct_cards() implies #[trigger] table.covers(
                    hand,
                ) by {
                    let k = lemma_generated_hands_are_complete(hand);
                    lemma_key_ignores_order(all[k], hand);
                    assert(all[k].key() == hand.key());
                }
                lemma_combinations_count();
                let keys = Seq::new(all.len(), |i: int| all[i].key());
                assert forall|i: int, j: int| 0 <= i < keys.len() && 0 <= j < keys.len() && i
                    != j implies keys[i] != keys[j] by {
                    if i < j {
                        lemma_generated_hands_differ(i, j);
                    } else {
                        lemma_generated_hands_differ(j, i);
                    }
                    if all[i].key() == all[j].key() {
                        lemma_key_determines_cards(all[i], all[j]);
                    }
                }
                keys.unique_seq_to_set();
                assert(table@.dom() =~= keys.to_set()) by {
                    assert forall|key: u64| table@.dom().contains(key) <==> keys.to_set().contains(
                        key,
                    ) by {
                        if table@.contains_key(key) {
                            let i = choose|i: int|
                                0 <= i < all.len() && (#[trigger] all[i]).key() == key;
                            assert(keys[i] == key);
                        }
                        if keys.contains(key) {
                            let i = choose|i: int| 0 <= i < keys.len() && keys[i] == key;
                            assert(all[i].key() == key);
                        }
                    }
                }
            }
            table
        },
        Err(_) => Table::new(),
    }
}

} // verus!
