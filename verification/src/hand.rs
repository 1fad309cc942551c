//! Starting hands: two card ranks plus suitedness, their injective text
//! form, and their Chen value.

use vstd::prelude::*;
use crate::card::{Card, Gap, spec_card_char, spec_card_value, spec_chen_points_x2, spec_gap_of};

verus! {

/// Whether the two cards of a hand share a suit.
#[derive(Clone, Copy, Debug, PartialEq, Eq, Hash, Structural)]
pub enum Suit {
    Suited,
    Off,
}

/// A two-card starting hand. A pair is always recorded as offsuit, since a
/// suited pair cannot exist.
#[derive(Clone, Copy, Debug, PartialEq, Eq, Hash, Structural)]
pub struct Hand {
    pub first: Card,
    pub second: Card,
    pub suited: Suit,
}

/// The text of a hand could not be parsed.
#[derive(Clone, Copy, Debug, PartialEq, Eq, Structural)]
pub struct ParseHandError;

/// The text of a suit marker could not be parsed.
#[derive(Clone, Copy, Debug, PartialEq, Eq, Structural)]
pub struct ParseSuitError;

/// The one-character marker of a suitedness.
pub open spec fn spec_suit_char(s: Suit) -> char {
    match s {
        Suit::Suited => 's',
        Suit::Off => 'o',
    }
}

impl Suit {
    /// The one-character marker of this suitedness.
    pub fn to_char(self) -> (c: char)
        ensures
            c == spec_suit_char(self),
    {
        match self {
            Suit::Suited => 's',
            Suit::Off => 'o',
        }
    }

    /// The suitedness a marker character names, if any.
    pub fn from_char(c: char) -> (r: Result<Suit, ParseSuitError>)
        ensures
            match r {
                Ok(s) => spec_suit_char(s) == c,
                Err(_) => c != 's' && c != 'o',
            },
    {
        if c == 's' {
            Ok(Suit::Suited)
        } else if c == 'o' {
            Ok(Suit::Off)
        } else {
            Err(ParseSuitError)
        }
    }
}

impl Hand {
    /// The invariant: a pair is recorded as offsuit.
    pub open spec fn wf(&self) -> bool {
        self.first == self.second ==> self.suited == Suit::Off
    }
}

/// The injective text form of a hand: two rank characters, and a suit
/// marker unless the hand is a pair.
pub open spec fn spec_encode_hand(h: Hand) -> Seq<char> {
    if h.first == h.second {
        seq![spec_card_char(h.first), spec_card_char(h.second)]
    } else {
        seq![spec_card_char(h.first), spec_card_char(h.second), spec_suit_char(h.suited)]
    }
}

/// Encodes a hand as text characters.
pub fn encode_hand(h: &Hand) -> (r: Vec<char>)
    ensures
        r@ == spec_encode_hand(*h),
{
    let mut v: Vec<char> = Vec::new();
    v.push(h.first.to_char());
    v.push(h.second.to_char());
    if !card_eq(h.first, h.second) {
        v.push(h.suited.to_char());
    }
    proof {
        assert(v@ =~= spec_encode_hand(*h));
    }
    v
}

/// Whether two cards are the same rank.
pub fn card_eq(a: Card, b: Card) -> (r: bool)
    ensures
        r == (a == b),
{
    a.value() == b.value()
}

/// Parses the characters of `v` between `from` and `to` as a hand.
///
/// Decoding the encoding of any hand gives that hand back: a clause below
/// states this for every well-formed hand at once.
pub fn parse_hand(v: &Vec<char>, from: usize, to: usize) -> (r: Result<Hand, ParseHandError>)
    requires
        from <= to <= v@.len(),
    ensures
        r is Ok ==> r->Ok_0.wf(),
        r is Ok ==> v@.subrange(from as int, to as int) == spec_encode_hand(r->Ok_0),
        forall|h: Hand|
            h.wf() && v@.subrange(from as int, to as int) == spec_encode_hand(h) ==> r == Ok::<
                Hand,
                ParseHandError,
            >(h),
{
    let ghost s = v@.subrange(from as int, to as int);
    proof {
        assert forall|h: Hand| h.wf() && s == spec_encode_hand(h) implies s.len() == 2 || s.len()
            == 3 by {
            if h.first == h.second {
                assert(spec_encode_hand(h).len() == 2);
            } else {
                assert(spec_encode_hand(h).len() == 3);
            }
        }
    }
    let n = to - from;
    if n != 2 && n != 3 {
        return Err(ParseHandError);
    }
    let first = match Card::from_char(v[from]) {
        Some(c) => c,
        None => {
            proof {
                assert forall|h: Hand| h.wf() && s == spec_encode_hand(h) implies false by {
                    assert(s[0] == spec_card_char(h.first));
                }
            }
            return Err(ParseHandError);
        },
    };
    let second = match Card::from_char(v[from + 1]) {
        Some(c) => c,
        None => {
            proof {
                assert forall|h: Hand| h.wf() && s == spec_encode_hand(h) implies false by {
                    assert(s[1] == spec_card_char(h.second));
                }
            }
            return Err(ParseHandError);
        },
    };
    proof {
        assert forall|h: Hand| h.wf() && s == spec_encode_hand(h) implies h.first == first
            && h.second == second by {
            assert(s[0] == spec_card_char(h.first));
            assert(s[1] == spec_card_char(h.second));
            crate::card::lemma_card_char_injective(h.first, first);
            crate::card::lemma_card_char_injective(h.second, second);
        }
    }
    if n == 2 {
        if card_eq(first, second) {
            proof {
                assert forall|h: Hand| h.wf() && s == spec_encode_hand(h) implies h == (Hand {
                    first,
                    second,
                    suited: Suit::Off,
                }) by {
                    if h.first != h.second {
                        assert(spec_encode_hand(h).len() == 3);
                    }
                }
                assert(s =~= spec_encode_hand(Hand { first, second, suited: Suit::Off }));
            }
            Ok(Hand { first, second, suited: Suit::Off })
        } else {
            proof {
                assert forall|h: Hand| h.wf() && s == spec_encode_hand(h) implies false by {
                    if h.first != h.second {
                        assert(spec_encode_hand(h).len() == 3);
                    }
                }
            }
            Err(ParseHandError)
        }
    } else {
        let suited = match Suit::from_char(v[from + 2]) {
            Ok(x) => x,
            Err(_) => {
                proof {
                    assert forall|h: Hand| h.wf() && s == spec_encode_hand(h) implies false by {
                        if h.first == h.second {
                            assert(spec_encode_hand(h).len() == 2);
                        } else {
                            assert(s[2] == spec_suit_char(h.suited));
                        }
                    }
                }
                return Err(ParseHandError);
            },
        };
        if card_eq(first, second) {
            proof {
                assert forall|h: Hand| h.wf() && s == spec_encode_hand(h) implies false by {
                    if h.first == h.second {
                        assert(spec_encode_hand(h).len() == 2);
                    }
                }
            }
            Err(ParseHandError)
        } else {
            proof {
                assert forall|h: Hand| h.wf() && s == spec_encode_hand(h) implies h == (Hand {
                    first,
                    second,
                    suited,
                }) by {
                    if h.first == h.second {
                        assert(spec_encode_hand(h).len() == 2);
                    } else {
                        assert(s[2] == spec_suit_char(h.suited));
                    }
                }
                assert(s =~= spec_encode_hand(Hand { first, second, suited }));
            }
            Ok(Hand { first, second, suited })
        }
    }
}

/// Twice the Chen value of a hand. Chen values are half-integers, so the
/// doubled value is exact in integers.
pub open spec fn spec_chen_x2(h: Hand) -> int {
    let hi = if spec_card_value(h.first) >= spec_card_value(h.second) {
        h.first
    } else {
        h.second
    };
    let base = spec_chen_points_x2(hi);
    let paired = if h.first == h.second {
        if h.first == Card::Five {
            12
        } else if base * 2 >= 10 {
            base * 2
        } else {
            10
        }
    } else {
        base
    };
    let with_suit = if h.suited == Suit::Suited {
        paired + 4
    } else {
        paired
    };
    let d = if spec_card_value(h.first) >= spec_card_value(h.second) {
        spec_card_value(h.first) - spec_card_value(h.second)
    } else {
        spec_card_value(h.second) - spec_card_value(h.first)
    };
    let penalty: int = match spec_gap_of(d) {
        Gap::Same => 0,
        Gap::Connected => 0,
        Gap::One => 2,
        Gap::Two => 4,
        Gap::Three => 8,
        Gap::Large => 10,
    };
    let after_gap = with_suit - penalty;
    if 1 <= d <= 2 && spec_card_value(hi) < spec_card_value(Card::Queen) {
        after_gap + 2
    } else {
        after_gap
    }
}

impl Hand {
    /// Twice the Chen value of this hand.
    pub fn chen_value_x2(&self) -> (r: i64)
        ensures
            r == spec_chen_x2(*self),
    {
        let hi = if self.first.value() >= self.second.value() {
            self.first
        } else {
            self.second
        };
        let base = hi.chen_points_x2();
        let paired = if card_eq(self.first, self.second) {
            if card_eq(self.first, Card::Five) {
                12
            } else if base * 2 >= 10 {
                base * 2
            } else {
                10
            }
        } else {
            base
        };
        let with_suit = if matches!(self.suited, Suit::Suited) {
            paired + 4
        } else {
            paired
        };
        let a = self.first.value();
        let b = self.second.value();
        let d = if a >= b {
            a - b
        } else {
            b - a
        };
        let penalty: i64 = match self.first.gap(self.second) {
            Gap::Same => 0,
            Gap::Connected => 0,
            Gap::One => 2,
            Gap::Two => 4,
            Gap::Three => 8,
            Gap::Large => 10,
        };
        let after_gap = with_suit - penalty;
        if 1 <= d && d <= 2 && hi.value() < Card::Queen.value() {
            after_gap + 2
        } else {
            after_gap
        }
    }
}

} // verus!
