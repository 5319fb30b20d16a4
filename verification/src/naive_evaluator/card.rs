use core::cmp::Ordering;
use vstd::prelude::*;
use vstd::std_specs::cmp::PartialOrdSpecImpl;
use vstd::std_specs::convert::FromSpecImpl;
use vstd::std_specs::convert::TryFromSpecImpl;

verus! {

/// One of the four suits. Suits carry no strength: they only matter for
/// telling whether cards share a suit.
#[derive(Debug, Clone, Copy, PartialEq, Eq, Structural, PartialOrd, Ord, Hash)]
pub enum Suit {
    Clubs,
    Diamonds,
    Hearts,
    Spades,
}

impl Suit {
    /// Position of the suit in declaration order, from 0 to 3.
    pub open spec fn value(self) -> int {
        match self {
            Suit::Clubs => 0,
            Suit::Diamonds => 1,
            Suit::Hearts => 2,
            Suit::Spades => 3,
        }
    }

    /// The suit at a given position; positions outside 0..4 map to spades.
    pub open spec fn of_value(v: int) -> Suit {
        if v == 0 {
            Suit::Clubs
        } else if v == 1 {
            Suit::Diamonds
        } else if v == 2 {
            Suit::Hearts
        } else {
            Suit::Spades
        }
    }

    pub fn index(&self) -> (i: u8)
        ensures
            i == self.value(),
            i < 4,
    {
        match self {
            Suit::Clubs => 0,
            Suit::Diamonds => 1,
            Suit::Hearts => 2,
            Suit::Spades => 3,
        }
    }

    pub fn from_index(i: u8) -> (s: Option<Suit>)
        ensures
            i < 4 ==> s == Some(Suit::of_value(i as int)),
            i >= 4 ==> s is None,
    {
        match i {
            0 => Some(Suit::Clubs),
            1 => Some(Suit::Diamonds),
            2 => Some(Suit::Hearts),
            3 => Some(Suit::Spades),
            _ => None,
        }
    }

    /// The letter a suit is written with.
    pub open spec fn letter(self) -> char {
        match self {
            Suit::Clubs => 'c',
            Suit::Diamonds => 'd',
            Suit::Hearts => 'h',
            Suit::Spades => 's',
        }
    }

    /// The suit that a letter stands for, if any.
    pub open spec fn of_letter(value: char) -> Option<Suit> {
        if value == 'c' {
            Some(Suit::Clubs)
        } else if value == 'd' {
            Some(Suit::Diamonds)
        } else if value == 'h' {
            Some(Suit::Hearts)
        } else if value == 's' {
            Some(Suit::Spades)
        } else {
            None
        }
    }

    /// The suit's letter as text.
    pub fn name(&self) -> (text: &'static str)
        ensures
            text@ == seq![self.letter()],
    {
        proof {
            reveal_strlit("c");
            reveal_strlit("d");
            reveal_strlit("h");
            reveal_strlit("s");
        }
        let text = match self {
            Suit::Clubs => "c",
            Suit::Diamonds => "d",
            Suit::Hearts => "h",
            Suit::Spades => "s",
        };
        assert(text@ =~= seq![self.letter()]);
        text
    }
}

impl TryFrom<char> for Suit {
    type Error = ();

    fn try_from(value: char) -> (r: Result<Self, Self::Error>) {
        match value {
            'c' => Ok(Suit::Clubs),
            'd' => Ok(Suit::Diamonds),
            'h' => Ok(Suit::Hearts),
            's' => Ok(Suit::Spades),
            _ => Err(()),
        }
    }
}

impl TryFromSpecImpl<char> for Suit {
    open spec fn obeys_try_from_spec() -> bool {
        true
    }

    open spec fn try_from_spec(value: char) -> Result<Self, Self::Error> {
        match Suit::of_letter(value) {
            Some(found) => Ok(found),
            None => Err(()),
        }
    }
}

impl From<Suit> for char {
    fn from(value: Suit) -> (c: char) {
        match value {
            Suit::Clubs => 'c',
            Suit::Diamonds => 'd',
            Suit::Hearts => 'h',
            Suit::Spades => 's',
        }
    }
}

impl FromSpecImpl<Suit> for char {
    open spec fn obeys_from_spec() -> bool {
        true
    }

    open spec fn from_spec(value: Suit) -> char {
        value.letter()
    }
}

/// One of the thirteen ranks, ordered from `Two` (lowest) to `Ace` (highest).
#[derive(Debug, Clone, Copy, PartialEq, Eq, Structural, Ord, Hash)]
pub enum Rank {
    Two,
    Three,
    Four,
    Five,
    Six,
    Seven,
    Eight,
    Nine,
    Ten,
    Jack,
    Queen,
    King,
    Ace,
}

impl Rank {
    /// Position of the rank in the order of strength: 0 for `Two`, 12 for `Ace`.
    pub open spec fn value(self) -> int {
        match self {
            Rank::Two => 0,
            Rank::Three => 1,
            Rank::Four => 2,
            Rank::Five => 3,
            Rank::Six => 4,
            Rank::Seven => 5,
            Rank::Eight => 6,
            Rank::Nine => 7,
            Rank::Ten => 8,
            Rank::Jack => 9,
            Rank::Queen => 10,
            Rank::King => 11,
            Rank::Ace => 12,
        }
    }

    /// The rank at a given position; positions outside 0..13 map to `Ace`.
    pub open spec fn of_value(v: int) -> Rank {
        if v == 0 {
            Rank::Two
        } else if v == 1 {
            Rank::Three
        } else if v == 2 {
            Rank::Four
        } else if v == 3 {
            Rank::Five
        } else if v == 4 {
            Rank::Six
        } else if v == 5 {
            Rank::Seven
        } else if v == 6 {
            Rank::Eight
        } else if v == 7 {
            Rank::Nine
        } else if v == 8 {
            Rank::Ten
        } else if v == 9 {
            Rank::Jack
        } else if v == 10 {
            Rank::Queen
        } else if v == 11 {
            Rank::King
        } else {
            Rank::Ace
        }
    }

    pub fn index(&self) -> (i: u8)
        ensures
            i == self.value(),
            i < 13,
    {
        match self {
            Rank::Two => 0,
            Rank::Three => 1,
            Rank::Four => 2,
            Rank::Five => 3,
            Rank::Six => 4,
            Rank::Seven => 5,
            Rank::Eight => 6,
            Rank::Nine => 7,
            Rank::Ten => 8,
            Rank::Jack => 9,
            Rank::Queen => 10,
            Rank::King => 11,
            Rank::Ace => 12,
        }
    }

    pub fn from_index(i: u8) -> (r: Option<Rank>)
        ensures
            i < 13 ==> r == Some(Rank::of_value(i as int)),
            i >= 13 ==> r is None,
    {
        match i {
            0 => Some(Rank::Two),
            1 => Some(Rank::Three),
            2 => Some(Rank::Four),
            3 => Some(Rank::Five),
            4 => Some(Rank::Six),
            5 => Some(Rank::Seven),
            6 => Some(Rank::Eight),
            7 => Some(Rank::Nine),
            8 => Some(Rank::Ten),
            9 => Some(Rank::Jack),
            10 => Some(Rank::Queen),
            11 => Some(Rank::King),
            12 => Some(Rank::Ace),
            _ => None,
        }
    }

    /// The rank immediately below this one; there is none below `Two`.
    pub open spec fn spec_lower(&self) -> Option<Rank> {
        if *self == Rank::Two {
            None
        } else {
            Some(Rank::of_value(self.value() - 1))
        }
    }

    #[verifier::when_used_as_spec(spec_lower)]
    /// The rank immediately below this one; there is none below `Two`.
    pub fn lower(&self) -> (r: Option<Self>)
        ensures
            r == self.spec_lower(),
    {
        match self {
            Rank::Two => None,
            Rank::Three => Some(Rank::Two),
            Rank::Four => Some(Rank::Three),
            Rank::Five => Some(Rank::Four),
            Rank::Six => Some(Rank::Five),
            Rank::Seven => Some(Rank::Six),
            Rank::Eight => Some(Rank::Seven),
            Rank::Nine => Some(Rank::Eight),
            Rank::Ten => Some(Rank::Nine),
            Rank::Jack => Some(Rank::Ten),
            Rank::Queen => Some(Rank::Jack),
            Rank::King => Some(Rank::Queen),
            Rank::Ace => Some(Rank::King),
        }
    }

    /// The letter a rank is written with.
    pub open spec fn letter(self) -> char {
        match self {
            Rank::Two => '2',
            Rank::Three => '3',
            Rank::Four => '4',
            Rank::Five => '5',
            Rank::Six => '6',
            Rank::Seven => '7',
            Rank::Eight => '8',
            Rank::Nine => '9',
            Rank::Ten => 'T',
            Rank::Jack => 'J',
            Rank::Queen => 'Q',
            Rank::King => 'K',
            Rank::Ace => 'A',
        }
    }

    /// The rank that a letter stands for, if any.
    pub open spec fn of_letter(value: char) -> Option<Rank> {
        if value == '2' {
            Some(Rank::Two)
        } else if value == '3' {
            Some(Rank::Three)
        } else if value == '4' {
            Some(Rank::Four)
        } else if value == '5' {
            Some(Rank::Five)
        } else if value == '6' {
            Some(Rank::Six)
        } else if value == '7' {
            Some(Rank::Seven)
        } else if value == '8' {
            Some(Rank::Eight)
        } else if value == '9' {
            Some(Rank::Nine)
        } else if value == 'T' {
            Some(Rank::Ten)
        } else if value == 'J' {
            Some(Rank::Jack)
        } else if value == 'Q' {
            Some(Rank::Queen)
        } else if value == 'K' {
            Some(Rank::King)
        } else if value == 'A' {
            Some(Rank::Ace)
        } else {
            None
        }
    }

    /// The rank's letter as text.
    pub fn name(&self) -> (text: &'static str)
        ensures
            text@ == seq![self.letter()],
    {
        proof {
            reveal_strlit("2");
            reveal_strlit("3");
            reveal_strlit("4");
            reveal_strlit("5");
            reveal_strlit("6");
            reveal_strlit("7");
            reveal_strlit("8");
            reveal_strlit("9");
            reveal_strlit("T");
            reveal_strlit("J");
            reveal_strlit("Q");
            reveal_strlit("K");
            reveal_strlit("A");
        }
        let text = match self {
            Rank::Two => "2",
            Rank::Three => "3",
            Rank::Four => "4",
            Rank::Five => "5",
            Rank::Six => "6",
            Rank::Seven => "7",
            Rank::Eight => "8",
            Rank::Nine => "9",
            Rank::Ten => "T",
            Rank::Jack => "J",
            Rank::Queen => "Q",
            Rank::King => "K",
            Rank::Ace => "A",
        };
        assert(text@ =~= seq![self.letter()]);
        text
    }
}

impl PartialOrd for Rank {
    fn partial_cmp(&self, other: &Self) -> (r: Option<Ordering>) {
        let a = self.index();
        let b = other.index();
        if a < b {
            Some(Ordering::Less)
        } else if a > b {
            Some(Ordering::Greater)
        } else {
            Some(Ordering::Equal)
        }
    }
}

impl PartialOrdSpecImpl for Rank {
    open spec fn obeys_partial_cmp_spec() -> bool {
        true
    }

    /// Ranks are ordered by their strength.
    open spec fn partial_cmp_spec(&self, other: &Self) -> Option<Ordering> {
        if self.value() < other.value() {
            Some(Ordering::Less)
        } else if self.value() > other.value() {
            Some(Ordering::Greater)
        } else {
            Some(Ordering::Equal)
        }
    }
}

impl TryFrom<char> for Rank {
    type Error = ();

    fn try_from(value: char) -> (r: Result<Self, Self::Error>) {
        match value {
            '2' => Ok(Rank::Two),
            '3' => Ok(Rank::Three),
            '4' => Ok(Rank::Four),
            '5' => Ok(Rank::Five),
            '6' => Ok(Rank::Six),
            '7' => Ok(Rank::Seven),
            '8' => Ok(Rank::Eight),
            '9' => Ok(Rank::Nine),
            'T' => Ok(Rank::Ten),
            'J' => Ok(Rank::Jack),
            'Q' => Ok(Rank::Queen),
            'K' => Ok(Rank::King),
            'A' => Ok(Rank::Ace),
            _ => Err(()),
        }
    }
}

impl TryFromSpecImpl<char> for Rank {
    open spec fn obeys_try_from_spec() -> bool {
        true
    }

    open spec fn try_from_spec(value: char) -> Result<Self, Self::Error> {
        match Rank::of_letter(value) {
            Some(found) => Ok(found),
            None => Err(()),
        }
    }
}

impl From<Rank> for char {
    fn from(value: Rank) -> (c: char) {
        match value {
            Rank::Two => '2',
            Rank::Three => '3',
            Rank::Four => '4',
            Rank::Five => '5',
            Rank::Six => '6',
            Rank::Seven => '7',
            Rank::Eight => '8',
            Rank::Nine => '9',
            Rank::Ten => 'T',
            Rank::Jack => 'J',
            Rank::Queen => 'Q',
            Rank::King => 'K',
            Rank::Ace => 'A',
        }
    }
}

impl FromSpecImpl<Rank> for char {
    open spec fn obeys_from_spec() -> bool {
        true
    }

    open spec fn from_spec(value: Rank) -> char {
        value.letter()
    }
}

/// A playing card: a rank and a suit.
#[derive(Debug, Clone, Copy, PartialEq, Eq, Structural, PartialOrd, Ord, Hash)]
pub struct Card {
    rank: Rank,
    suit: Suit,
}

impl Card {
    pub closed spec fn spec_rank(&self) -> Rank {
        self.rank
    }

    pub closed spec fn spec_suit(&self) -> Suit {
        self.suit
    }

    /// The card of a given rank and suit.
    pub closed spec fn spec_new(rank: Rank, suit: Suit) -> Card {
        Card { rank, suit }
    }

    /// The card whose rank and suit stand at the given positions.
    pub open spec fn at(rank: int, suit: int) -> Card {
        Card::spec_new(Rank::of_value(rank), Suit::of_value(suit))
    }

    /// Position of the card in a fresh deck: suits in order, and within a
    /// suit the ranks from `Two` up to `Ace`.
    pub open spec fn spec_index(self) -> int {
        self.spec_suit().value() * 13 + self.spec_rank().value()
    }

    /// A card is determined by its rank and suit.
    pub broadcast proof fn lemma_fields(rank: Rank, suit: Suit)
        ensures
            (#[trigger] Card::spec_new(rank, suit)).spec_rank() == rank,
            Card::spec_new(rank, suit).spec_suit() == suit,
    {
    }

    /// A card is the card of its rank and suit.
    pub broadcast proof fn lemma_rebuild(card: Card)
        ensures
            #![trigger card.spec_rank()]
            #![trigger card.spec_suit()]
            Card::spec_new(card.spec_rank(), card.spec_suit()) == card,
    {
    }

    #[verifier::when_used_as_spec(spec_new)]
    pub fn new(rank: Rank, suit: Suit) -> (card: Self)
        ensures
            card == Card::spec_new(rank, suit),
            card.spec_rank() == rank,
            card.spec_suit() == suit,
    {
        Self { rank, suit }
    }

    #[verifier::when_used_as_spec(spec_rank)]
    pub fn rank(&self) -> (r: Rank)
        ensures
            r == self.spec_rank(),
    {
        self.rank
    }

    #[verifier::when_used_as_spec(spec_suit)]
    pub fn suit(&self) -> (s: Suit)
        ensures
            s == self.spec_suit(),
    {
        self.suit
    }

    /// The place of the card in a fresh deck.
    pub fn index(&self) -> (i: usize)
        ensures
            i == self.spec_index(),
            i < 52,
    {
        let s: usize = self.suit.index() as usize;
        let r: usize = self.rank.index() as usize;
        s * 13 + r
    }
}

/// The card that a text of two letters names: the rank's letter, then the
/// suit's.
pub open spec fn parse_card(text: Seq<char>) -> Result<Card, ()> {
    if text.len() == 2 && Rank::of_letter(text[0]) is Some && Suit::of_letter(text[1]) is Some {
        Ok(Card::spec_new(Rank::of_letter(text[0])->0, Suit::of_letter(text[1])->0))
    } else {
        Err(())
    }
}

impl Card {
    /// The card as text: the rank's letter, then the suit's.
    pub open spec fn text(&self) -> Seq<char> {
        seq![self.spec_rank().letter(), self.spec_suit().letter()]
    }
}

impl Card {
    /// The card as text.
    pub fn to_text(&self) -> (text: String)
        ensures
            text@ == self.text(),
    {
        let mut text = String::from_str(self.rank.name());
        text.append(self.suit.name());
        assert(text@ =~= self.text());
        text
    }
}

/// The card as text, as `Card::to_text` gives it. A `String` cannot be
/// written down in a contract, so the conversion itself states nothing.
impl From<&Card> for String {
    fn from(value: &Card) -> (text: String) {
        value.to_text()
    }
}

impl FromSpecImpl<&Card> for String {
    open spec fn obeys_from_spec() -> bool {
        false
    }

    open spec fn from_spec(value: &Card) -> String {
        arbitrary()
    }
}

impl TryFrom<&str> for Card {
    type Error = ();

    fn try_from(value: &str) -> (r: Result<Self, Self::Error>) {
        if value.unicode_len() != 2 {
            return Err(());
        }
        let rank = match Rank::try_from(value.get_char(0)) {
            Ok(rank) => rank,
            Err(_) => {
                return Err(());
            },
        };
        let suit = match Suit::try_from(value.get_char(1)) {
            Ok(suit) => suit,
            Err(_) => {
                return Err(());
            },
        };
        Ok(Card::new(rank, suit))
    }
}

impl TryFromSpecImpl<&str> for Card {
    open spec fn obeys_try_from_spec() -> bool {
        true
    }

    open spec fn try_from_spec(value: &str) -> Result<Self, Self::Error> {
        parse_card(value@)
    }
}

} // verus!
