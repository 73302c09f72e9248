use vstd::prelude::*;
use vstd::string::StringExecFns;

verus! {

/// The face value of a card, from the lowest (two) to the highest (ace).
#[derive(Clone, Copy, PartialEq, Eq, Structural, PartialOrd, Ord, Debug)]
pub enum CardValue {
    Two,
    Three,
    Four,
    Five,
    Six,
    Seven,
    Eight,
    Nine,
    Ten,
    Jack,
    Queen,
    King,
    Ace,
}

/// The four suits of a French-suited deck.
#[derive(Clone, Copy, PartialEq, Eq, Structural, PartialOrd, Ord, Debug)]
pub enum Suit {
    Clubs,
    Diamonds,
    Hearts,
    Spades,
}

/// A playing card: a suit and a face value.
#[derive(Clone, Copy, PartialEq, Eq, Structural, PartialOrd, Ord, Debug)]
pub struct Card {
    pub suit: Suit,
    pub value: CardValue,
}

/// The strength of a face value: two is 0, ace is 12.
pub open spec fn value_rank(v: CardValue) -> nat {
    match v {
        CardValue::Two => 0,
        CardValue::Three => 1,
        CardValue::Four => 2,
        CardValue::Five => 3,
        CardValue::Six => 4,
        CardValue::Seven => 5,
        CardValue::Eight => 6,
        CardValue::Nine => 7,
        CardValue::Ten => 8,
        CardValue::Jack => 9,
        CardValue::Queen => 10,
        CardValue::King => 11,
        CardValue::Ace => 12,
    }
}

/// The face values in the order in which a fresh deck holds them: ace first, two last.
pub open spec fn value_order() -> Seq<CardValue> {
    seq![
        CardValue::Ace,
        CardValue::King,
        CardValue::Queen,
        CardValue::Jack,
        CardValue::Ten,
        CardValue::Nine,
        CardValue::Eight,
        CardValue::Seven,
        CardValue::Six,
        CardValue::Five,
        CardValue::Four,
        CardValue::Three,
        CardValue::Two,
    ]
}

/// The suits in the order in which a fresh deck holds them: spades first, clubs last.
pub open spec fn suit_order() -> Seq<Suit> {
    seq![Suit::Spades, Suit::Hearts, Suit::Diamonds, Suit::Clubs]
}

/// The position of a face value in `value_order()`.
pub open spec fn value_position(v: CardValue) -> int {
    12 - value_rank(v)
}

/// The position of a suit in `suit_order()`.
pub open spec fn suit_position(s: Suit) -> int {
    match s {
        Suit::Spades => 0,
        Suit::Hearts => 1,
        Suit::Diamonds => 2,
        Suit::Clubs => 3,
    }
}

/// The text by which a face value is shown.
pub open spec fn value_text(v: CardValue) -> Seq<char> {
    match v {
        CardValue::King => "K"@,
        CardValue::Queen => "Q"@,
        CardValue::Jack => "J"@,
        CardValue::Ten => "10"@,
        CardValue::Nine => "9"@,
        CardValue::Eight => "8"@,
        CardValue::Seven => "7"@,
        CardValue::Six => "6"@,
        CardValue::Five => "5"@,
        CardValue::Four => "4"@,
        CardValue::Three => "3"@,
        CardValue::Two => "2"@,
        CardValue::Ace => "A"@,
    }
}

/// The text by which a suit is shown: its symbol, in emoji presentation.
pub open spec fn suit_text(s: Suit) -> Seq<char> {
    match s {
        Suit::Spades => "\u{2660}\u{fe0f}"@,
        Suit::Hearts => "\u{2665}\u{fe0f}"@,
        Suit::Diamonds => "\u{2666}\u{fe0f}"@,
        Suit::Clubs => "\u{2663}\u{fe0f}"@,
    }
}

/// The text by which a card is shown: its suit, then its face value.
pub open spec fn card_text(c: Card) -> Seq<char> {
    suit_text(c.suit) + value_text(c.value)
}

/// Each face value is shown by its own text: the two to the nine by their
/// single digit, the ten by "10", the jack, queen, king and ace by "J",
/// "Q", "K" and "A"; so no two face values share a text.
pub proof fn lemma_value_texts_are_numerals(v: CardValue, u: CardValue)
    ensures
        value_rank(v) <= 7 ==> value_text(v).len() == 1 && value_text(v)[0] as int == '0' as int
            + value_rank(v) + 2,
        v == CardValue::Ten ==> value_text(v) == seq!['1', '0'],
        v == CardValue::Jack ==> value_text(v) == seq!['J'],
        v == CardValue::Queen ==> value_text(v) == seq!['Q'],
        v == CardValue::King ==> value_text(v) == seq!['K'],
        v == CardValue::Ace ==> value_text(v) == seq!['A'],
        v != u ==> value_text(v) != value_text(u),
{
    reveal_strlit("K");
    reveal_strlit("Q");
    reveal_strlit("J");
    reveal_strlit("10");
    reveal_strlit("9");
    reveal_strlit("8");
    reveal_strlit("7");
    reveal_strlit("6");
    reveal_strlit("5");
    reveal_strlit("4");
    reveal_strlit("3");
    reveal_strlit("2");
    reveal_strlit("A");
    assert(value_text(CardValue::Ten) =~= seq!['1', '0']);
    assert(value_text(CardValue::Jack) =~= seq!['J']);
    assert(value_text(CardValue::Queen) =~= seq!['Q']);
    assert(value_text(CardValue::King) =~= seq!['K']);
    assert(value_text(CardValue::Ace) =~= seq!['A']);
    if v != u {
        if value_text(v) == value_text(u) {
            assert(value_text(v).len() == value_text(u).len());
            assert(value_text(v)[0] == value_text(u)[0]);
        }
    }
}

impl CardValue {
    /// Every face value, from the ace down to the two.
    pub fn all() -> (values: [CardValue; 13])
        ensures
            values@ == value_order(),
    {
        [
            CardValue::Ace,
            CardValue::King,
            CardValue::Queen,
            CardValue::Jack,
            CardValue::Ten,
            CardValue::Nine,
            CardValue::Eight,
            CardValue::Seven,
            CardValue::Six,
            CardValue::Five,
            CardValue::Four,
            CardValue::Three,
            CardValue::Two,
        ]
    }

    /// The strength of this face value, two lowest and ace highest.
    pub fn rank(&self) -> (r: u8)
        ensures
            r == value_rank(*self),
    {
        match self {
            CardValue::Two => 0,
            CardValue::Three => 1,
            CardValue::Four => 2,
            CardValue::Five => 3,
            CardValue::Six => 4,
            CardValue::Seven => 5,
            CardValue::Eight => 6,
            CardValue::Nine => 7,
            CardValue::Ten => 8,
            CardValue::Jack => 9,
            CardValue::Queen => 10,
            CardValue::King => 11,
            CardValue::Ace => 12,
        }
    }

    /// The text by which this face value is shown ("A", "K", ..., "2").
    pub fn symbol(&self) -> (s: &'static str)
        ensures
            s@ == value_text(*self),
    {
        match self {
            CardValue::King => "K",
            CardValue::Queen => "Q",
            CardValue::Jack => "J",
            CardValue::Ten => "10",
            CardValue::Nine => "9",
            CardValue::Eight => "8",
            CardValue::Seven => "7",
            CardValue::Six => "6",
            CardValue::Five => "5",
            CardValue::Four => "4",
            CardValue::Three => "3",
            CardValue::Two => "2",
            CardValue::Ace => "A",
        }
    }
}

impl Suit {
    /// Every suit, from spades down to clubs.
    pub fn all() -> (suits: [Suit; 4])
        ensures
            suits@ == suit_order(),
    {
        [Suit::Spades, Suit::Hearts, Suit::Diamonds, Suit::Clubs]
    }

    /// The symbol by which this suit is shown.
    pub fn symbol(&self) -> (s: &'static str)
        ensures
            s@ == suit_text(*self),
    {
        match self {
            Suit::Spades => "\u{2660}\u{fe0f}",
            Suit::Hearts => "\u{2665}\u{fe0f}",
            Suit::Diamonds => "\u{2666}\u{fe0f}",
            Suit::Clubs => "\u{2663}\u{fe0f}",
        }
    }
}

impl Card {
    /// The text by which this card is shown: the suit's symbol, then the face value.
    pub fn to_string(&self) -> (s: String)
        ensures
            s@ == card_text(*self),
    {
        let mut s = String::new();
        s.append(self.suit.symbol());
        s.append(self.value.symbol());
        s
    }
}

} // verus!
