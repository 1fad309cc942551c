//! A named set of starting hands, and the construction of a range from the
//! top share of all hands ranked by Chen value.

use vstd::prelude::*;
use vstd::string::StringExecFns;
use crate::card::Card;
use crate::hand::{Hand, Suit, spec_chen_x2};
use crate::num::{fmt_u64, spec_digits};
use crate::text::{string_from_chars, push_str_chars, push_all};

verus! {

/// A named set of starting hands a player would act on in some way.
#[derive(Debug, Clone)]
pub struct Range {
    /// The range's display name; free text.
    pub name: String,
    /// The member hands; treat as read only and mutate through
    /// [`Range::toggle`], which keeps the members distinct.
    pub hands: Vec<Hand>,
}

/// The abstract value of a [`Range`].
pub struct RangeV {
    pub name: Seq<char>,
    pub hands: Seq<Hand>,
}

impl View for Range {
    type V = RangeV;

    open spec fn view(&self) -> RangeV {
        RangeV { name: self.name@, hands: self.hands@ }
    }
}

impl Range {
    /// The invariant: members are distinct and well formed.
    pub open spec fn wf(&self) -> bool {
        &&& forall|i: int, j: int| 0 <= i < j < self.hands@.len() ==> self.hands@[i] != self.hands@[j]
        &&& forall|i: int| 0 <= i < self.hands@.len() ==> (#[trigger] self.hands@[i]).wf()
    }

    /// An empty, untitled range.
    pub fn new() -> (r: Range)
        ensures
            r.name@ == "untitled range"@,
            r.hands@ == Seq::<Hand>::empty(),
            r.wf(),
    {
        Range { name: String::from_str("untitled range"), hands: Vec::new() }
    }

    /// Whether a hand is a member.
    pub fn contains(&self, hand: &Hand) -> (r: bool)
        ensures
            r == self.hands@.contains(*hand),
    {
        let mut i: usize = 0;
        while i < self.hands.len()
            invariant
                i <= self.hands@.len(),
                forall|j: int| 0 <= j < i ==> self.hands@[j] != *hand,
            decreases self.hands@.len() - i,
        {
            if self.hands[i] == *hand {
                proof {
                    assert(self.hands@.contains(*hand));
                }
                return true;
            }
            i = i + 1;
        }
        proof {
            if self.hands@.contains(*hand) {
                let j = choose|j: int| 0 <= j < self.hands@.len() && self.hands@[j] == *hand;
            }
        }
        false
    }

    /// Adds the hand if it is absent, removes it if it is present.
    pub fn toggle(&mut self, hand: Hand)
        requires
            old(self).wf(),
            hand.wf(),
        ensures
            final(self).wf(),
            final(self).name@ == old(self).name@,
            old(self).hands@.contains(hand) ==> !final(self).hands@.contains(hand),
            !old(self).hands@.contains(hand) ==> final(self).hands@ == old(self).hands@.push(hand),
            forall|h: Hand|
                h != hand ==> (final(self).hands@.contains(h) == old(self).hands@.contains(h)),
    {
        let mut i: usize = 0;
        let n = self.hands.len();
        while i < n
            invariant
                i <= n,
                n == self.hands@.len(),
                *self == *old(self),
                old(self).wf(),
                hand.wf(),
                forall|j: int| 0 <= j < i ==> self.hands@[j] != hand,
            decreases n - i,
        {
            if self.hands[i] == hand {
                let ghost idx = i as int;
                self.hands.remove(i);
                proof {
                    let olds = old(self).hands@;
                    let news = self.hands@;
                    assert(news == olds.remove(idx));
                    olds.remove_ensures(idx);
                    assert forall|t: int|
                        0 <= t < news.len() implies news[t] == (if t < idx {
                            olds[t]
                        } else {
                            olds[t + 1]
                        }) by {
                        assert(news[t] == olds.remove(idx)[t]);
                    }
                    assert(olds[idx] == hand);
                    assert forall|h: Hand| news.contains(h) implies olds.contains(h) && h
                        != hand by {
                        let j = choose|j: int| 0 <= j < news.len() && news[j] == h;
                        if j < idx {
                            assert(olds[j] == h);
                            assert(olds[j] != olds[idx]);
                        } else {
                            assert(olds[j + 1] == h);
                            assert(olds[idx] != olds[j + 1]);
                        }
                    }
                    assert forall|h: Hand| olds.contains(h) && h != hand implies news.contains(
                        h,
                    ) by {
                        let j = choose|j: int| 0 <= j < olds.len() && olds[j] == h;
                        if j < idx {
                            assert(news[j] == h);
                        } else {
                            assert(j > idx);
                            assert(news[j - 1] == h);
                        }
                    }
                    assert forall|a: int, b: int|
                        0 <= a < b < news.len() implies news[a] != news[b] by {
                        if b < idx {
                            assert(news[a] == olds[a] && news[b] == olds[b]);
                        } else if a < idx {
                            assert(news[a] == olds[a] && news[b] == olds[b + 1]);
                        } else {
                            assert(news[a] == olds[a + 1] && news[b] == olds[b + 1]);
                        }
                    }
                    assert forall|a: int| 0 <= a < news.len() implies (
                    #[trigger] news[a]).wf() by {
                        if a < idx {
                            assert(news[a] == olds[a]);
                        } else {
                            assert(news[a] == olds[a + 1]);
                        }
                    }
                }
                return ;
            }
            i = i + 1;
        }
        self.hands.push(hand);
        proof {
            let olds = old(self).hands@;
            let news = self.hands@;
            assert(!olds.contains(hand));
            assert forall|h: Hand| h != hand implies (news.contains(h) == olds.contains(h)) by {
                if news.contains(h) {
                    let j = choose|j: int| 0 <= j < news.len() && news[j] == h;
                    assert(j < olds.len());
                    assert(olds[j] == h);
                }
                if olds.contains(h) {
                    let j = choose|j: int| 0 <= j < olds.len() && olds[j] == h;
                    assert(news[j] == h);
                }
            }
        }
    }
}

/// Every well-formed hand, each exactly once: all suited non-pairs, then
/// every offsuit combination including the pairs.
fn all_hands() -> (r: Vec<Hand>)
    ensures
        r@.len() == 325,
        forall|i: int| 0 <= i < r@.len() ==> (#[trigger] r@[i]).wf(),
        forall|i: int, j: int| 0 <= i < j < r@.len() ==> r@[i] != r@[j],
        forall|h: Hand| h.wf() ==> r@.contains(h),
{
    let cards = Card::iterator();
    let mut v: Vec<Hand> = Vec::new();
    let mut i: usize = 0;
    while i < 13
        invariant
            i <= 13,
            cards@.len() == 13,
            forall|a: int| 0 <= a < 13 ==> crate::card::spec_card_value(#[trigger] cards@[a]) == a
                + 2,
            v@.len() == i * 12,
            forall|k: int| 0 <= k < v@.len() ==> (#[trigger] v@[k]).wf(),
            forall|h: Hand|
                v@.contains(h) <==> (h.suited == Suit::Suited && h.first != h.second
                    && h.wf() && crate::card::spec_card_value(h.first) - 2 < i),
            forall|a: int, b: int| 0 <= a < b < v@.len() ==> v@[a] != v@[b],
        decreases 13 - i,
    {
        let mut j: usize = 0;
        while j < 13
            invariant
                i < 13,
                j <= 13,
                cards@.len() == 13,
                forall|a: int| 0 <= a < 13 ==> crate::card::spec_card_value(#[trigger] cards@[a])
                    == a + 2,
                v@.len() == i * 12 + if j > i {
                    j - 1
                } else {
                    j as int
                },
                forall|k: int| 0 <= k < v@.len() ==> (#[trigger] v@[k]).wf(),
                forall|h: Hand|
                    v@.contains(h) <==> (h.suited == Suit::Suited && h.first != h.second && h.wf()
                        && (crate::card::spec_card_value(h.first) - 2 < i || (
                        crate::card::spec_card_value(h.first) - 2 == i
                            && crate::card::spec_card_value(h.second) - 2 < j))),
                forall|a: int, b: int| 0 <= a < b < v@.len() ==> v@[a] != v@[b],
            decreases 13 - j,
        {
            if i != j {
                let h0 = Hand { first: cards[i], second: cards[j], suited: Suit::Suited };
                let ghost prev = v@;
                v.push(h0);
                proof {
                    assert forall|h: Hand|
                        v@.contains(h) <==> (prev.contains(h) || h == h0) by {
                        if v@.contains(h) {
                            let k = choose|k: int| 0 <= k < v@.len() && v@[k] == h;
                            if k < prev.len() {
                                assert(prev[k] == h);
                            }
                        }
                        if prev.contains(h) {
                            let k = choose|k: int| 0 <= k < prev.len() && prev[k] == h;
                            assert(v@[k] == h);
                        }
                        if h == h0 {
                            assert(v@[v@.len() - 1] == h);
                        }
                    }
                    assert forall|h: Hand|
                        h == h0 implies (h.suited == Suit::Suited && h.first != h.second && h.wf()
                        && crate::card::spec_card_value(h.first) - 2 == i
                        && crate::card::spec_card_value(h.second) - 2 == j) by {
                        crate::card::lemma_card_value_injective(h.first, cards[i as int]);
                    }
                    assert forall|h: Hand|
                        (h.suited == Suit::Suited && h.first != h.second && h.wf() && (
                        crate::card::spec_card_value(h.first) - 2 < i || (
                        crate::card::spec_card_value(h.first) - 2 == i
                            && crate::card::spec_card_value(h.second) - 2 < j
                            + 1))) implies v@.contains(h) by {
                        if crate::card::spec_card_value(h.first) - 2 == i
                            && crate::card::spec_card_value(h.second) - 2 == j {
                            crate::card::lemma_card_value_injective(h.first, cards@[i as int]);
                            crate::card::lemma_card_value_injective(h.second, cards@[j as int]);
                            assert(h == h0);
                        }
                    }
                }
            }
            j = j + 1;
        }
        i = i + 1;
    }
    let mut i2: usize = 0;
    while i2 < 13
        invariant
            i2 <= 13,
            cards@.len() == 13,
            forall|a: int| 0 <= a < 13 ==> crate::card::spec_card_value(#[trigger] cards@[a]) == a
                + 2,
            v@.len() == 156 + i2 * 13,
            forall|k: int| 0 <= k < v@.len() ==> (#[trigger] v@[k]).wf(),
            forall|h: Hand|
                v@.contains(h) <==> ((h.suited == Suit::Suited && h.first != h.second && h.wf())
                    || (h.suited == Suit::Off && h.wf() && crate::card::spec_card_value(h.first)
                    - 2 < i2)),
            forall|a: int, b: int| 0 <= a < b < v@.len() ==> v@[a] != v@[b],
        decreases 13 - i2,
    {
        let mut j: usize = 0;
        while j < 13
            invariant
                i2 < 13,
                j <= 13,
                cards@.len() == 13,
                forall|a: int| 0 <= a < 13 ==> crate::card::spec_card_value(#[trigger] cards@[a])
                    == a + 2,
                v@.len() == 156 + i2 * 13 + j,
                forall|k: int| 0 <= k < v@.len() ==> (#[trigger] v@[k]).wf(),
                forall|h: Hand|
                    v@.contains(h) <==> ((h.suited == Suit::Suited && h.first != h.second
                        && h.wf()) || (h.suited == Suit::Off && h.wf() && (
                    crate::card::spec_card_value(h.first) - 2 < i2 || (
                    crate::card::spec_card_value(h.first) - 2 == i2
                        && crate::card::spec_card_value(h.second) - 2 < j)))),
                forall|a: int, b: int| 0 <= a < b < v@.len() ==> v@[a] != v@[b],
            decreases 13 - j,
        {
            let h0 = Hand { first: cards[i2], second: cards[j], suited: Suit::Off };
            let ghost prev = v@;
            v.push(h0);
            proof {
                assert forall|h: Hand| v@.contains(h) <==> (prev.contains(h) || h == h0) by {
                    if v@.contains(h) {
                        let k = choose|k: int| 0 <= k < v@.len() && v@[k] == h;
                        if k < prev.len() {
                            assert(prev[k] == h);
                        }
                    }
                    if prev.contains(h) {
                        let k = choose|k: int| 0 <= k < prev.len() && prev[k] == h;
                        assert(v@[k] == h);
                    }
                    if h == h0 {
                        assert(v@[v@.len() - 1] == h);
                    }
                }
                assert forall|h: Hand|
                    (h.suited == Suit::Off && h.wf() && crate::card::spec_card_value(h.first) - 2
                        == i2 && crate::card::spec_card_value(h.second) - 2
                        == j) implies h == h0 by {
                    crate::card::lemma_card_value_injective(h.first, cards@[i2 as int]);
                    crate::card::lemma_card_value_injective(h.second, cards@[j as int]);
                }
            }
            j = j + 1;
        }
        i2 = i2 + 1;
    }
    proof {
        assert forall|h: Hand| h.wf() implies v@.contains(h) by {
            assert(2 <= crate::card::spec_card_value(h.first) <= 14);
            assert(2 <= crate::card::spec_card_value(h.second) <= 14);
            if h.suited == Suit::Suited {
                assert(h.first != h.second);
            }
        }
    }
    v
}

impl Range {
    /// The range of the strongest hands by Chen value: the top `percent`
    /// hundredths (rounded down) of all 325 well-formed hands. Every
    /// member ranks at least as high as every hand left out; ties at the
    /// cut are broken arbitrarily.
    pub fn from_percent(percent: u8) -> (r: Range)
        ensures
            r.wf(),
            r.name@ == "Top "@ + spec_digits(percent as nat) + " percent"@,
            r.hands@.len() == if 325 * (percent as int) / 100 < 325 {
                325 * (percent as int) / 100
            } else {
                325
            },
            forall|a: int, h: Hand|
                #![trigger r.hands@[a], spec_chen_x2(h)]
                0 <= a < r.hands@.len() && h.wf() && !r.hands@.contains(h) ==> spec_chen_x2(
                    r.hands@[a],
                ) >= spec_chen_x2(h),
    {
        let all = all_hands();
        let ghost all0 = all@;
        let total: usize = all.len();
        let share: usize = total * (percent as usize) / 100;
        let k: usize = if share < total {
            share
        } else {
            total
        };
        let mut rest = all;
        let mut picked: Vec<Hand> = Vec::new();
        while picked.len() < k
            invariant
                k <= 325,
                picked@.len() <= k,
                picked@.len() + rest@.len() == 325,
                forall|h: Hand| (picked@.contains(h) || rest@.contains(h)) <==> all0.contains(h),
                forall|h: Hand| !(picked@.contains(h) && rest@.contains(h)),
                forall|a: int, b: int| 0 <= a < b < picked@.len() ==> picked@[a] != picked@[b],
                forall|a: int, b: int| 0 <= a < b < rest@.len() ==> rest@[a] != rest@[b],
                forall|a: int| 0 <= a < picked@.len() ==> (#[trigger] picked@[a]).wf(),
                forall|a: int| 0 <= a < rest@.len() ==> (#[trigger] rest@[a]).wf(),
                forall|a: int, b: int|
                    0 <= a < picked@.len() && 0 <= b < rest@.len() ==> spec_chen_x2(
                        #[trigger] picked@[a],
                    ) >= spec_chen_x2(#[trigger] rest@[b]),
            decreases k - picked@.len(),
        {
            let mut best: usize = 0;
            let mut m: usize = 1;
            while m < rest.len()
                invariant
                    rest@.len() > 0,
                    best < m <= rest@.len(),
                    forall|b: int|
                        0 <= b < m ==> spec_chen_x2(rest@[best as int]) >= spec_chen_x2(
                            #[trigger] rest@[b],
                        ),
                decreases rest@.len() - m,
            {
                if rest[m].chen_value_x2() > rest[best].chen_value_x2() {
                    best = m;
                }
                m = m + 1;
            }
            let ghost prev_rest = rest@;
            let ghost prev_picked = picked@;
            let chosen = rest.remove(best);
            picked.push(chosen);
            proof {
                let ghost idx = best as int;
                prev_rest.remove_ensures(idx);
                assert forall|t: int|
                    0 <= t < rest@.len() implies rest@[t] == (if t < idx {
                        prev_rest[t]
                    } else {
                        prev_rest[t + 1]
                    }) by {
                    assert(rest@[t] == prev_rest.remove(idx)[t]);
                }
                assert(prev_rest[idx] == chosen);
                assert forall|h: Hand| rest@.contains(h) implies prev_rest.contains(h) by {
                    let b = choose|b: int| 0 <= b < rest@.len() && rest@[b] == h;
                    if b < idx {
                        assert(prev_rest[b] == h);
                    } else {
                        assert(prev_rest[b + 1] == h);
                    }
                }
                assert forall|h: Hand|
                    prev_rest.contains(h) && h != chosen implies rest@.contains(h) by {
                    let b = choose|b: int| 0 <= b < prev_rest.len() && prev_rest[b] == h;
                    if b < idx {
                        assert(rest@[b] == h);
                    } else {
                        assert(b != idx);
                        assert(rest@[b - 1] == h);
                    }
                }
                assert(!rest@.contains(chosen)) by {
                    if rest@.contains(chosen) {
                        let b = choose|b: int| 0 <= b < rest@.len() && rest@[b] == chosen;
                        if b < idx {
                            assert(prev_rest[b] == prev_rest[idx]);
                        } else {
                            assert(prev_rest[b + 1] == prev_rest[idx]);
                        }
                    }
                }
                assert forall|h: Hand| picked@.contains(h) implies (prev_picked.contains(h) || h
                    == chosen) by {
                    let b = choose|b: int| 0 <= b < picked@.len() && picked@[b] == h;
                    if b < prev_picked.len() {
                        assert(prev_picked[b] == h);
                    }
                }
                assert forall|h: Hand| prev_picked.contains(h) implies picked@.contains(h) by {
                    let b = choose|b: int| 0 <= b < prev_picked.len() && prev_picked[b] == h;
                    assert(picked@[b] == h);
                }
                assert(picked@.contains(chosen)) by {
                    assert(picked@[picked@.len() - 1] == chosen);
                }
                assert(!prev_picked.contains(chosen));
                assert forall|a: int, b: int|
                    0 <= a < picked@.len() && 0 <= b < rest@.len() implies spec_chen_x2(
                    #[trigger] picked@[a],
                ) >= spec_chen_x2(#[trigger] rest@[b]) by {
                    assert(rest@.contains(rest@[b]));
                    let c = choose|c: int| 0 <= c < prev_rest.len() && prev_rest[c] == rest@[b];
                    if a < prev_picked.len() {
                        assert(picked@[a] == prev_picked[a]);
                    } else {
                        assert(picked@[a] == chosen);
                    }
                }
                assert forall|h: Hand|
                    (picked@.contains(h) || rest@.contains(h)) <==> all0.contains(h) by {
                    assert((prev_picked.contains(h) || prev_rest.contains(h)) <==> all0.contains(
                        h,
                    ));
                }
                assert forall|h: Hand| !(picked@.contains(h) && rest@.contains(h)) by {
                    if picked@.contains(h) && rest@.contains(h) {
                        assert(prev_rest.contains(h));
                        if h == chosen {
                            assert(!rest@.contains(chosen));
                        } else {
                            assert(prev_picked.contains(h));
                        }
                    }
                }
                assert forall|a: int, b: int|
                    0 <= a < b < picked@.len() implies picked@[a] != picked@[b] by {
                    if b == picked@.len() - 1 {
                        assert(picked@[a] == prev_picked[a]);
                        assert(prev_picked.contains(prev_picked[a]));
                        assert(picked@[b] == chosen);
                    } else {
                        assert(picked@[a] == prev_picked[a] && picked@[b] == prev_picked[b]);
                    }
                }
                assert forall|a: int, b: int|
                    0 <= a < b < rest@.len() implies rest@[a] != rest@[b] by {
                    if b < idx {
                        assert(rest@[a] == prev_rest[a] && rest@[b] == prev_rest[b]);
                    } else if a < idx {
                        assert(rest@[a] == prev_rest[a] && rest@[b] == prev_rest[b + 1]);
                    } else {
                        assert(rest@[a] == prev_rest[a + 1] && rest@[b] == prev_rest[b + 1]);
                    }
                }
                assert forall|a: int| 0 <= a < picked@.len() implies (
                #[trigger] picked@[a]).wf() by {
                    if a < prev_picked.len() {
                        assert(picked@[a] == prev_picked[a]);
                    } else {
                        assert(picked@[a] == chosen);
                        assert(prev_rest.contains(chosen) || prev_rest[idx] == chosen);
                        assert(prev_rest[idx].wf());
                    }
                }
                assert forall|a: int| 0 <= a < rest@.len() implies (#[trigger] rest@[a]).wf() by {
                    if a < idx {
                        assert(rest@[a] == prev_rest[a]);
                    } else {
                        assert(rest@[a] == prev_rest[a + 1]);
                    }
                }
            }
        }
        let mut name_chars: Vec<char> = Vec::new();
        push_str_chars(&mut name_chars, "Top ");
        let digits = fmt_u64(percent as u64);
        push_all(&mut name_chars, &digits);
        push_str_chars(&mut name_chars, " percent");
        let name = string_from_chars(&name_chars);
        let r = Range { name, hands: picked };
        proof {
            assert(r.name@ =~= "Top "@ + spec_digits(percent as nat) + " percent"@);
            assert(325 * (percent as int) / 100 == share) by {
                assert(total == 325);
            }
            assert forall|a: int, h: Hand|
                #![trigger r.hands@[a], spec_chen_x2(h)]
                0 <= a < r.hands@.len() && h.wf() && !r.hands@.contains(h) implies spec_chen_x2(
                r.hands@[a],
            ) >= spec_chen_x2(h) by {
                assert(all0.contains(h));
                assert(rest@.contains(h));
                let b = choose|b: int| 0 <= b < rest@.len() && rest@[b] == h;
            }
        }
        r
    }
}

} // verus!
