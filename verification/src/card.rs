//! Card ranks, rank gaps, and the Chen point value of a rank.
//!
//! Chen points are half-integers, so they are held doubled: a card worth
//! `3.5` points reports `7`.

use vstd::prelude::*;

verus! {

/// A card rank, deuce through ace.
#[derive(Clone, Copy, Debug, PartialEq, Eq, Hash, Structural)]
pub enum Card {
    Two,
    Three,
    Four,
    Five,
    Six,
    Seven,
    Eight,
    Nine,
    Ten,
    Jack,
    Queen,
    King,
    Ace,
}

/// The distance between two ranks, bucketed as poker players speak of it.
#[derive(Clone, Copy, Debug, PartialEq, Eq, Structural)]
pub enum Gap {
    Same,
    Connected,
    One,
    Two,
    Three,
    Large,
}

/// A concrete suit used only when a hand is drawn on screen.
#[derive(Clone, Copy, Debug, PartialEq, Eq, Structural)]
pub enum DisplaySuit {
    Clubs,
    Diamonds,
    Spades,
    Hearts,
}

/// The numeric rank of a card: deuce is 2, ace is 14.
pub open spec fn spec_card_value(c: Card) -> u8 {
    match c {
        Card::Two => 2,
        Card::Three => 3,
        Card::Four => 4,
        Card::Five => 5,
        Card::Six => 6,
        Card::Seven => 7,
        Card::Eight => 8,
        Card::Nine => 9,
        Card::Ten => 10,
        Card::Jack => 11,
        Card::Queen => 12,
        Card::King => 13,
        Card::Ace => 14,
    }
}

/// The one-character text form of a rank.
pub open spec fn spec_card_char(c: Card) -> char {
    match c {
        Card::Two => '2',
        Card::Three => '3',
        Card::Four => '4',
        Card::Five => '5',
        Card::Six => '6',
        Card::Seven => '7',
        Card::Eight => '8',
        Card::Nine => '9',
        Card::Ten => 'T',
        Card::Jack => 'J',
        Card::Queen => 'Q',
        Card::King => 'K',
        Card::Ace => 'A',
    }
}

/// Twice the Chen points of a rank.
pub open spec fn spec_chen_points_x2(c: Card) -> int {
    match c {
        Card::Ace => 20,
        Card::King => 16,
        Card::Queen => 14,
        Card::Jack => 12,
        _ => spec_card_value(c) as int,
    }
}

/// The gap bucket for an absolute rank distance.
pub open spec fn spec_gap_of(d: int) -> Gap {
    if d == 0 {
        Gap::Same
    } else if d == 1 {
        Gap::Connected
    } else if d == 2 {
        Gap::One
    } else if d == 3 {
        Gap::Two
    } else if d == 4 {
        Gap::Three
    } else {
        Gap::Large
    }
}

/// Distinct ranks have distinct text forms.
pub proof fn lemma_card_char_injective(a: Card, b: Card)
    requires
        spec_card_char(a) == spec_card_char(b),
    ensures
        a == b,
{
}

/// Distinct ranks have distinct numeric values.
pub proof fn lemma_card_value_injective(a: Card, b: Card)
    requires
        spec_card_value(a) == spec_card_value(b),
    ensures
        a == b,
{
}

impl Card {
    /// All thirteen ranks, ascending.
    pub fn iterator() -> (r: Vec<Card>)
        ensures
            r@ == seq![
                Card::Two,
                Card::Three,
                Card::Four,
                Card::Five,
                Card::Six,
                Card::Seven,
                Card::Eight,
                Card::Nine,
                Card::Ten,
                Card::Jack,
                Card::Queen,
                Card::King,
                Card::Ace,
            ],
            r@.len() == 13,
            forall|i: int| 0 <= i < 13 ==> spec_card_value(#[trigger] r@[i]) == i + 2,
    {
        let mut v: Vec<Card> = Vec::new();
        v.push(Card::Two);
        v.push(Card::Three);
        v.push(Card::Four);
        v.push(Card::Five);
        v.push(Card::Six);
        v.push(Card::Seven);
        v.push(Card::Eight);
        v.push(Card::Nine);
        v.push(Card::Ten);
        v.push(Card::Jack);
        v.push(Card::Queen);
        v.push(Card::King);
        v.push(Card::Ace);
        proof {
            assert(v@ =~= seq![
                Card::Two,
                Card::Three,
                Card::Four,
                Card::Five,
                Card::Six,
                Card::Seven,
                Card::Eight,
                Card::Nine,
                Card::Ten,
                Card::Jack,
                Card::Queen,
                Card::King,
                Card::Ace,
            ]);
        }
        v
    }

    /// The numeric rank, deuce 2 through ace 14.
    pub fn value(self) -> (r: u8)
        ensures
            r == spec_card_value(self),
    {
        match self {
            Card::Two => 2,
            Card::Three => 3,
            Card::Four => 4,
            Card::Five => 5,
            Card::Six => 6,
            Card::Seven => 7,
            Card::Eight => 8,
            Card::Nine => 9,
            Card::Ten => 10,
            Card::Jack => 11,
            Card::Queen => 12,
            Card::King => 13,
            Card::Ace => 14,
        }
    }

    /// The rank with the given numeric value, for values 2 through 14.
    /// This is where a randomly drawn number becomes a card.
    pub fn from_value(v: u8) -> (r: Option<Card>)
        ensures
            match r {
                Some(c) => spec_card_value(c) == v,
                None => v < 2 || v > 14,
            },
    {
        if v == 2 {
            Some(Card::Two)
        } else if v == 3 {
            Some(Card::Three)
        } else if v == 4 {
            Some(Card::Four)
        } else if v == 5 {
            Some(Card::Five)
        } else if v == 6 {
            Some(Card::Six)
        } else if v == 7 {
            Some(Card::Seven)
        } else if v == 8 {
            Some(Card::Eight)
        } else if v == 9 {
            Some(Card::Nine)
        } else if v == 10 {
            Some(Card::Ten)
        } else if v == 11 {
            Some(Card::Jack)
        } else if v == 12 {
            Some(Card::Queen)
        } else if v == 13 {
            Some(Card::King)
        } else if v == 14 {
            Some(Card::Ace)
        } else {
            None
        }
    }

    /// The one-character text form of this rank.
    pub fn to_char(self) -> (c: char)
        ensures
            c == spec_card_char(self),
    {
        match self {
            Card::Two => '2',
            Card::Three => '3',
            Card::Four => '4',
            Card::Five => '5',
            Card::Six => '6',
            Card::Seven => '7',
            Card::Eight => '8',
            Card::Nine => '9',
            Card::Ten => 'T',
            Card::Jack => 'J',
            Card::Queen => 'Q',
            Card::King => 'K',
            Card::Ace => 'A',
        }
    }

    /// The rank named by a character, if any.
    pub fn from_char(c: char) -> (r: Option<Card>)
        ensures
            match r {
                Some(card) => spec_card_char(card) == c,
                None => forall|card: Card| spec_card_char(card) != c,
            },
    {
        if c == '2' {
            Some(Card::Two)
        } else if c == '3' {
            Some(Card::Three)
        } else if c == '4' {
            Some(Card::Four)
        } else if c == '5' {
            Some(Card::Five)
        } else if c == '6' {
            Some(Card::Six)
        } else if c == '7' {
            Some(Card::Seven)
        } else if c == '8' {
            Some(Card::Eight)
        } else if c == '9' {
            Some(Card::Nine)
        } else if c == 'T' {
            Some(Card::Ten)
        } else if c == 'J' {
            Some(Card::Jack)
        } else if c == 'Q' {
            Some(Card::Queen)
        } else if c == 'K' {
            Some(Card::King)
        } else if c == 'A' {
            Some(Card::Ace)
        } else {
            None
        }
    }

    /// Twice the Chen points of this rank alone.
    pub fn chen_points_x2(self) -> (r: i64)
        ensures
            r == spec_chen_points_x2(self),
    {
        match self {
            Card::Ace => 20,
            Card::King => 16,
            Card::Queen => 14,
            Card::Jack => 12,
            _ => self.value() as i64,
        }
    }

    /// The gap bucket between this rank and another.
    pub fn gap(self, other: Card) -> (r: Gap)
        ensures
            r == spec_gap_of(
                if spec_card_value(self) >= spec_card_value(other) {
                    spec_card_value(self) - spec_card_value(other)
                } else {
                    spec_card_value(other) - spec_card_value(self)
                },
            ),
    {
        let a = self.value();
        let b = other.value();
        let d = if a >= b {
            a - b
        } else {
            b - a
        };
        if d == 0 {
            Gap::Same
        } else if d == 1 {
            Gap::Connected
        } else if d == 2 {
            Gap::One
        } else if d == 3 {
            Gap::Two
        } else if d == 4 {
            Gap::Three
        } else {
            Gap::Large
        }
    }
}

} // verus!
