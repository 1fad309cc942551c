//! The training engine: regenerating the question universe from the
//! current ranges and the fixed pot-odds grid, carrying over scheduling
//! history, and driving the answer/select cycle.

use vstd::prelude::*;
use crate::hand::Hand;
use crate::item::{ReviewItem, ReviewItemV, spec_overdue, spec_updated_difficulty, spec_updated_days};
use crate::num::{fmt_u64, spec_digits, lemma_digits, lemma_digits_clean};
use crate::question::{
    Presentation, PresentationV, Answer, AnswerV, Question, QuestionV, Options, grade_answer,
    spec_grade, PokerActionV,
};
use crate::collection::{ReviewCollection, ReviewEntryV, entry_v_wf};
use crate::range::{Range, RangeV};
use crate::schedule::{ReviewSchedule, ScheduleItem, ScheduleItemV};
use crate::text::{
    DisplayString, is_clean, spec_sanitize, string_from_chars, push_str_chars, push_all,
};

verus! {

/// The pot-odds grid, in half-big-blind units: bets from [`BET_MIN`] to
/// [`BET_MAX`] against pots from [`POT_MIN`] to [`POT_MAX`].
pub const BET_MIN: u64 = 2;

pub const BET_MAX: u64 = 200;

pub const POT_MIN: u64 = 3;

pub const POT_MAX: u64 = 200;

/// The tolerance granted on pot-odds answers: `9.6` in millionths.
pub const RFE_TOLERANCE: u64 = 9_600_000;

/// The identity key of the membership question for one hand of a named
/// range: the sanitized range name with the hand, answered yes.
pub open spec fn spec_range_key(name: Seq<char>, h: Hand) -> (PresentationV, AnswerV) {
    (PresentationV::TextHand(spec_sanitize(name), h), AnswerV::Yes)
}

/// A count of half big blinds as decimal text: whole, or with `.5`.
pub open spec fn spec_half_text(n: u64) -> Seq<char> {
    if n % 2 == 0 {
        spec_digits((n / 2) as nat)
    } else {
        spec_digits((n / 2) as nat) + seq!['.', '5']
    }
}

/// The prose of a required-fold-equity question for one grid cell.
pub open spec fn spec_rfe_presentation(bet: u64, pot: u64) -> Seq<char> {
    "RFE for "@ + spec_half_text(bet) + "BB bet to win "@ + spec_half_text(pot) + "BB pot"@
}

/// The stored answer of a grid cell: the bet over the final pot, as whole
/// percent, computed in truncating integer arithmetic.
pub open spec fn spec_rfe_answer(bet: u64, pot: u64) -> Seq<char> {
    spec_digits((((bet as int) / ((bet + pot) as int)) * 100) as nat)
}

/// The identity key of the pot-odds question for one grid cell.
pub open spec fn spec_grid_key(bet: u64, pot: u64) -> (PresentationV, AnswerV) {
    (
        PresentationV::Text(spec_rfe_presentation(bet, pot)),
        AnswerV::Text(spec_rfe_answer(bet, pot)),
    )
}

/// Whether a key belongs to the membership universe of some ranges.
pub open spec fn in_range_universe(rvs: Seq<RangeV>, k: (PresentationV, AnswerV)) -> bool {
    exists|a: int, b: int|
        0 <= a < rvs.len() && 0 <= b < rvs[a].hands.len() && k == spec_range_key(
            rvs[a].name,
            rvs[a].hands[b],
        )
}

/// Whether a key belongs to the pot-odds universe of a grid.
pub open spec fn in_grid_universe(
    k: (PresentationV, AnswerV),
    bet_lo: u64,
    bet_hi: u64,
    pot_lo: u64,
    pot_hi: u64,
) -> bool {
    exists|bet: u64, pot: u64|
        bet_lo <= bet <= bet_hi && pot_lo <= pot <= pot_hi && k == spec_grid_key(bet, pot)
}

/// The freshly seeded membership question for a key.
pub open spec fn binary_seed_question(k: (PresentationV, AnswerV)) -> QuestionV {
    QuestionV { presentation: k.0, options: Options::Binary, answer: k.1, tolerance: None }
}

/// The freshly seeded pot-odds question for a key.
pub open spec fn numbers_seed_question(k: (PresentationV, AnswerV)) -> QuestionV {
    QuestionV {
        presentation: k.0,
        options: Options::Numbers,
        answer: k.1,
        tolerance: Some(RFE_TOLERANCE),
    }
}

/// A fresh review item around a question: the seed scheduling state.
pub open spec fn seeded_item(q: QuestionV) -> ReviewItemV {
    ReviewItemV {
        difficulty: 300_000,
        days_between_review_attempts: 3_000_000,
        date_last_reviewed: None,
        last_answer_correct: false,
        question: q,
    }
}

/// What the rebuilt collection must hold under a key: the old item when
/// the key already had one, else the fresh seed around `q`.
pub open spec fn carried_or(
    old_m: Map<(PresentationV, AnswerV), ReviewItemV>,
    k: (PresentationV, AnswerV),
    q: QuestionV,
) -> ReviewItemV {
    if old_m.dom().contains(k) {
        old_m[k]
    } else {
        seeded_item(q)
    }
}

/// Builds the decimal text of a count of half big blinds.
fn half_chars(n: u64) -> (r: Vec<char>)
    ensures
        r@ == spec_half_text(n),
{
    let mut out = fmt_u64(n / 2);
    if n % 2 != 0 {
        out.push('.');
        out.push('5');
        proof {
            assert(out@ =~= spec_half_text(n));
        }
    }
    out
}

/// The half-big-blind text is clean.
proof fn lemma_half_text_clean(n: u64)
    ensures
        is_clean(spec_half_text(n)),
{
    lemma_digits((n / 2) as nat);
    lemma_digits_clean(spec_digits((n / 2) as nat));
    if n % 2 != 0 {
        let s = spec_half_text(n);
        assert forall|i: int| 0 <= i < s.len() implies s[i] != crate::text::FIELD_SEP && s[i]
            != crate::text::KEY_SEP && s[i] != '\n' by {
            if i < spec_digits((n / 2) as nat).len() {
                assert(s[i] == spec_digits((n / 2) as nat)[i]);
            }
        }
    }
}

/// The prose of a grid question is clean, so it is a valid display string.
proof fn lemma_rfe_presentation_clean(bet: u64, pot: u64)
    ensures
        is_clean(spec_rfe_presentation(bet, pot)),
{
    reveal_strlit("RFE for ");
    reveal_strlit("BB bet to win ");
    reveal_strlit("BB pot");
    lemma_half_text_clean(bet);
    lemma_half_text_clean(pot);
    let s = spec_rfe_presentation(bet, pot);
    let p1 = "RFE for "@;
    let h1 = spec_half_text(bet);
    let p2 = "BB bet to win "@;
    let h2 = spec_half_text(pot);
    let p3 = "BB pot"@;
    assert forall|i: int| 0 <= i < s.len() implies s[i] != crate::text::FIELD_SEP && s[i]
        != crate::text::KEY_SEP && s[i] != '\n' by {
        if i < p1.len() {
            assert(s[i] == p1[i]);
        } else if i < p1.len() + h1.len() {
            assert(s[i] == h1[i - p1.len()]);
        } else if i < p1.len() + h1.len() + p2.len() {
            assert(s[i] == p2[i - p1.len() - h1.len()]);
        } else if i < p1.len() + h1.len() + p2.len() + h2.len() {
            assert(s[i] == h2[i - p1.len() - h1.len() - p2.len()]);
        } else {
            assert(s[i] == p3[i - p1.len() - h1.len() - p2.len() - h2.len()]);
        }
    }
}

/// Builds the prose of a grid question.
fn rfe_presentation_chars(bet: u64, pot: u64) -> (r: Vec<char>)
    ensures
        r@ == spec_rfe_presentation(bet, pot),
{
    let mut out: Vec<char> = Vec::new();
    push_str_chars(&mut out, "RFE for ");
    let h1 = half_chars(bet);
    push_all(&mut out, &h1);
    push_str_chars(&mut out, "BB bet to win ");
    let h2 = half_chars(pot);
    push_all(&mut out, &h2);
    push_str_chars(&mut out, "BB pot");
    proof {
        assert(out@ =~= spec_rfe_presentation(bet, pot));
    }
    out
}

/// Builds the membership question key for one hand of a named range.
fn make_range_key(name: &String, h: Hand) -> (r: (Presentation, Answer))
    requires
        h.wf(),
    ensures
        (r.0@, r.1@) == spec_range_key(name@, h),
        r.0.wf(),
        r.1.wf(),
{
    let d = DisplayString::new(name.as_str());
    (Presentation::TextHand(d, h), Answer::Yes)
}

/// Builds the pot-odds question key for one grid cell.
fn make_grid_key(bet: u64, pot: u64) -> (r: (Presentation, Answer))
    requires
        1 <= bet <= 1_000_000,
        1 <= pot <= 1_000_000,
    ensures
        (r.0@, r.1@) == spec_grid_key(bet, pot),
        r.0.wf(),
        r.1.wf(),
{
    let pc = rfe_presentation_chars(bet, pot);
    proof {
        lemma_rfe_presentation_clean(bet, pot);
    }
    let p = Presentation::Text(DisplayString(string_from_chars(&pc)));
    let percent = (bet / (bet + pot)) * 100;
    let ac = fmt_u64(percent);
    proof {
        lemma_digits(percent as nat);
        lemma_digits_clean(spec_digits(percent as nat));
    }
    let a = Answer::Text(DisplayString(string_from_chars(&ac)));
    (p, a)
}

/// Carries an existing item over, or seeds a fresh one for the question.
fn carry_or_seed(
    old_items: &ReviewCollection,
    key: &(Presentation, Answer),
    question: Question,
) -> (r: ReviewItem)
    requires
        old_items.wf(),
        question.wf(),
        question@.presentation == key.0@,
        question@.answer == key.1@,
    ensures
        r@ == carried_or(old_items.as_map(), (key.0@, key.1@), question@),
        r.wf(),
{
    match old_items.get(key) {
        Some(it) => {
            proof {
                crate::collection::lemma_map_of(old_items@);
                let i = choose|i: int|
                    0 <= i < old_items@.len() && (#[trigger] old_items@[i]).0 == (key.0@, key.1@);
                assert(entry_v_wf(old_items@[i]));
            }
            it.duplicate()
        },
        None => ReviewItem::seed(question),
    }
}

/// Whether a key was generated by the membership pass up to range `a_lim`,
/// hand `b_lim` of that range.
spec fn in_partial_ranges(
    rs: Seq<Range>,
    k: (PresentationV, AnswerV),
    a_lim: int,
    b_lim: int,
) -> bool {
    exists|a: int, b: int|
        0 <= a < rs.len() && 0 <= b < rs[a]@.hands.len() && (a < a_lim || (a == a_lim && b
            < b_lim)) && k == spec_range_key(rs[a]@.name, rs[a]@.hands[b])
}

/// Whether a key was generated by the grid pass up to bet `bet_lim`, pot
/// `pot_lim` of that bet.
spec fn in_partial_grid(
    k: (PresentationV, AnswerV),
    bet_lo: u64,
    bet_hi: u64,
    pot_lo: u64,
    pot_hi: u64,
    bet_lim: int,
    pot_lim: int,
) -> bool {
    exists|bet: u64, pot: u64|
        bet_lo <= bet <= bet_hi && pot_lo <= pot <= pot_hi && ((bet as int) < bet_lim || ((
        bet as int) == bet_lim && (pot as int) < pot_lim)) && k == spec_grid_key(bet, pot)
}

/// A grid key is never a membership key: their presentations differ in
/// kind.
proof fn lemma_grid_key_not_range(rs: Seq<Range>, bet: u64, pot: u64)
    ensures
        !in_range_universe(rs.map_values(|r: Range| r@), spec_grid_key(bet, pot)),
{
    let rvs = rs.map_values(|r: Range| r@);
    if in_range_universe(rvs, spec_grid_key(bet, pot)) {
        let (a, b) = choose|a: int, b: int|
            0 <= a < rvs.len() && 0 <= b < rvs[a].hands.len() && spec_grid_key(bet, pot)
                == spec_range_key(rvs[a].name, rvs[a].hands[b]);
    }
}

/// Regenerates the question universe from the given ranges and grid,
/// carrying the scheduling history of every key that is still generated
/// and silently dropping every key that no longer is.
pub fn rebuild_collection(
    ranges: &Vec<Range>,
    old_items: &ReviewCollection,
    bet_lo: u64,
    bet_hi: u64,
    pot_lo: u64,
    pot_hi: u64,
) -> (r: ReviewCollection)
    requires
        old_items.wf(),
        forall|i: int| 0 <= i < ranges@.len() ==> (#[trigger] ranges@[i]).wf(),
        1 <= bet_lo,
        bet_hi <= 1_000_000,
        1 <= pot_lo,
        pot_hi <= 1_000_000,
        bet_lo <= bet_hi + 1,
        pot_lo <= pot_hi + 1,
    ensures
        r.wf(),
        forall|a: int, b: int|
            #![trigger ranges@[a]@.hands[b]]
            0 <= a < ranges@.len() && 0 <= b < ranges@[a]@.hands.len() ==> {
                let k = spec_range_key(ranges@[a]@.name, ranges@[a]@.hands[b]);
                r.as_map().dom().contains(k) && r.as_map()[k] == carried_or(
                    old_items.as_map(),
                    k,
                    binary_seed_question(k),
                )
            },
        forall|bet: u64, pot: u64|
            #![trigger spec_grid_key(bet, pot)]
            bet_lo <= bet <= bet_hi && pot_lo <= pot <= pot_hi ==> {
                let k = spec_grid_key(bet, pot);
                r.as_map().dom().contains(k) && r.as_map()[k] == carried_or(
                    old_items.as_map(),
                    k,
                    numbers_seed_question(k),
                )
            },
        forall|k: (PresentationV, AnswerV)|
            r.as_map().dom().contains(k) ==> in_range_universe(
                ranges@.map_values(|rg: Range| rg@),
                k,
            ) || in_grid_universe(k, bet_lo, bet_hi, pot_lo, pot_hi),
{
    let ghost old_m = old_items.as_map();
    let ghost rs = ranges@;
    let mut out = ReviewCollection::new();
    let mut ri: usize = 0;
    while ri < ranges.len()
        invariant
            ri <= rs.len(),
            rs == ranges@,
            old_m == old_items.as_map(),
            old_items.wf(),
            forall|i: int| 0 <= i < rs.len() ==> (#[trigger] rs[i]).wf(),
            out.wf(),
            forall|k: (PresentationV, AnswerV)|
                out.as_map().dom().contains(k) <==> in_partial_ranges(rs, k, ri as int, 0),
            forall|k: (PresentationV, AnswerV)|
                out.as_map().dom().contains(k) ==> out.as_map()[k] == carried_or(
                    old_m,
                    k,
                    binary_seed_question(k),
                ),
        decreases rs.len() - ri,
    {
        let nh = ranges[ri].hands.len();
        let mut hi: usize = 0;
        while hi < nh
            invariant
                ri < rs.len(),
                hi <= nh,
                nh == rs[ri as int]@.hands.len(),
                rs == ranges@,
                old_m == old_items.as_map(),
                old_items.wf(),
                forall|i: int| 0 <= i < rs.len() ==> (#[trigger] rs[i]).wf(),
                out.wf(),
                forall|k: (PresentationV, AnswerV)|
                    out.as_map().dom().contains(k) <==> in_partial_ranges(
                        rs,
                        k,
                        ri as int,
                        hi as int,
                    ),
                forall|k: (PresentationV, AnswerV)|
                    out.as_map().dom().contains(k) ==> out.as_map()[k] == carried_or(
                        old_m,
                        k,
                        binary_seed_question(k),
                    ),
            decreases nh - hi,
        {
            let h = ranges[ri].hands[hi];
            let key = make_range_key(&ranges[ri].name, h);
            let ghost k0 = (key.0@, key.1@);
            let q = Question {
                presentation: key.0.duplicate(),
                options: Options::Binary,
                answer: key.1.duplicate(),
                tolerance: None,
            };
            proof {
                assert(rs[ri as int]@.hands[hi as int] == h);
                assert(rs[ri as int].wf());
                assert(h.wf());
                assert(q@ == binary_seed_question(k0));
            }
            let item = carry_or_seed(old_items, &key, q);
            let ghost pre = out.as_map();
            out.insert(key, item);
            proof {
                assert(out.as_map() == pre.insert(k0, item@));
                assert(k0 == spec_range_key(rs[ri as int]@.name, rs[ri as int]@.hands[hi as int]));
                assert forall|k: (PresentationV, AnswerV)|
                    out.as_map().dom().contains(k) <==> in_partial_ranges(
                    rs,
                    k,
                    ri as int,
                    hi + 1,
                ) by {
                    if out.as_map().dom().contains(k) {
                        if k == k0 {
                            assert(in_partial_ranges(rs, k, ri as int, hi + 1));
                        } else {
                            assert(pre.dom().contains(k));
                            let (a, b) = choose|a: int, b: int|
                                0 <= a < rs.len() && 0 <= b < rs[a]@.hands.len() && (a < ri as int
                                    || (a == ri as int && b < hi as int)) && k == spec_range_key(
                                    rs[a]@.name,
                                    rs[a]@.hands[b],
                                );
                            assert(in_partial_ranges(rs, k, ri as int, hi + 1));
                        }
                    }
                    if in_partial_ranges(rs, k, ri as int, hi + 1) {
                        let (a, b) = choose|a: int, b: int|
                            0 <= a < rs.len() && 0 <= b < rs[a]@.hands.len() && (a < ri as int || (
                            a == ri as int && b < hi + 1)) && k == spec_range_key(
                                rs[a]@.name,
                                rs[a]@.hands[b],
                            );
                        if a == ri as int && b == hi as int {
                            assert(k == k0);
                        } else {
                            assert(in_partial_ranges(rs, k, ri as int, hi as int));
                        }
                    }
                }
            }
            hi = hi + 1;
        }
        proof {
            assert forall|k: (PresentationV, AnswerV)|
                #![trigger in_partial_ranges(rs, k, ri as int, nh as int)]
                in_partial_ranges(rs, k, ri as int, nh as int) <==> in_partial_ranges(
                rs,
                k,
                ri + 1,
                0,
            ) by {
                if in_partial_ranges(rs, k, ri as int, nh as int) {
                    let (a, b) = choose|a: int, b: int|
                        0 <= a < rs.len() && 0 <= b < rs[a]@.hands.len() && (a < ri as int || (a
                            == ri as int && b < nh as int)) && k == spec_range_key(
                            rs[a]@.name,
                            rs[a]@.hands[b],
                        );
                    assert(a < ri + 1);
                    assert(in_partial_ranges(rs, k, ri + 1, 0));
                }
                if in_partial_ranges(rs, k, ri + 1, 0) {
                    let (a, b) = choose|a: int, b: int|
                        0 <= a < rs.len() && 0 <= b < rs[a]@.hands.len() && (a < ri + 1) && k
                            == spec_range_key(rs[a]@.name, rs[a]@.hands[b]);
                    if a == ri as int {
                        assert(b < nh as int);
                    }
                    assert(in_partial_ranges(rs, k, ri as int, nh as int));
                }
            }
        }
        ri = ri + 1;
    }
    proof {
        assert forall|k: (PresentationV, AnswerV)|
            in_partial_grid(k, bet_lo, bet_hi, pot_lo, pot_hi, bet_lo as int, pot_lo as int)
                implies false by {
            let (b2, p2) = choose|b2: u64, p2: u64|
                bet_lo <= b2 <= bet_hi && pot_lo <= p2 <= pot_hi && ((b2 as int) < bet_lo || ((
                b2 as int) == bet_lo && (p2 as int) < pot_lo)) && k == spec_grid_key(b2, p2);
        }
    }
    let mut bet: u64 = bet_lo;
    while bet <= bet_hi
        invariant
            bet_lo <= bet <= bet_hi + 1,
            1 <= bet_lo,
            bet_hi <= 1_000_000,
            1 <= pot_lo,
            pot_hi <= 1_000_000,
            pot_lo <= pot_hi + 1,
            rs == ranges@,
            old_m == old_items.as_map(),
            old_items.wf(),
            out.wf(),
            forall|k: (PresentationV, AnswerV)|
                out.as_map().dom().contains(k) <==> in_partial_ranges(rs, k, rs.len() as int, 0)
                    || in_partial_grid(k, bet_lo, bet_hi, pot_lo, pot_hi, bet as int, pot_lo as int),
            forall|k: (PresentationV, AnswerV)|
                out.as_map().dom().contains(k) ==> out.as_map()[k] == (if in_partial_ranges(
                    rs,
                    k,
                    rs.len() as int,
                    0,
                ) {
                    carried_or(old_m, k, binary_seed_question(k))
                } else {
                    carried_or(old_m, k, numbers_seed_question(k))
                }),
        decreases bet_hi + 1 - bet,
    {
        let mut pot: u64 = pot_lo;
        while pot <= pot_hi
            invariant
                bet_lo <= bet <= bet_hi,
                pot_lo <= pot <= pot_hi + 1,
                1 <= bet_lo,
                bet_hi <= 1_000_000,
                1 <= pot_lo,
                pot_hi <= 1_000_000,
                pot_lo <= pot_hi + 1,
                rs == ranges@,
                old_m == old_items.as_map(),
                old_items.wf(),
                out.wf(),
                forall|k: (PresentationV, AnswerV)|
                    out.as_map().dom().contains(k) <==> in_partial_ranges(
                        rs,
                        k,
                        rs.len() as int,
                        0,
                    ) || in_partial_grid(
                        k,
                        bet_lo,
                        bet_hi,
                        pot_lo,
                        pot_hi,
                        bet as int,
                        pot as int,
                    ),
                forall|k: (PresentationV, AnswerV)|
                    out.as_map().dom().contains(k) ==> out.as_map()[k] == (if in_partial_ranges(
                        rs,
                        k,
                        rs.len() as int,
                        0,
                    ) {
                        carried_or(old_m, k, binary_seed_question(k))
                    } else {
                        carried_or(old_m, k, numbers_seed_question(k))
                    }),
            decreases pot_hi + 1 - pot,
        {
            let key = make_grid_key(bet, pot);
            let ghost k0 = (key.0@, key.1@);
            let q = Question {
                presentation: key.0.duplicate(),
                options: Options::Numbers,
                answer: key.1.duplicate(),
                tolerance: Some(RFE_TOLERANCE),
            };
            proof {
                assert(q@ == numbers_seed_question(k0));
                lemma_grid_key_not_range(rs, bet, pot);
                assert(!in_partial_ranges(rs, k0, rs.len() as int, 0)) by {
                    if in_partial_ranges(rs, k0, rs.len() as int, 0) {
                        let rvs = rs.map_values(|rg: Range| rg@);
                        let (a, b) = choose|a: int, b: int|
                            0 <= a < rs.len() && 0 <= b < rs[a]@.hands.len() && (a < rs.len()) && k0
                                == spec_range_key(rs[a]@.name, rs[a]@.hands[b]);
                        assert(rvs[a] == rs[a]@);
                        assert(in_range_universe(rvs, k0));
                    }
                }
            }
            let item = carry_or_seed(old_items, &key, q);
            let ghost pre = out.as_map();
            out.insert(key, item);
            proof {
                assert(out.as_map() == pre.insert(k0, item@));
                assert(k0 == spec_grid_key(bet, pot));
                assert forall|k: (PresentationV, AnswerV)|
                    out.as_map().dom().contains(k) <==> in_partial_ranges(
                    rs,
                    k,
                    rs.len() as int,
                    0,
                ) || in_partial_grid(
                    k,
                    bet_lo,
                    bet_hi,
                    pot_lo,
                    pot_hi,
                    bet as int,
                    pot + 1,
                ) by {
                    if out.as_map().dom().contains(k) && k == k0 {
                        assert(in_partial_grid(
                            k,
                            bet_lo,
                            bet_hi,
                            pot_lo,
                            pot_hi,
                            bet as int,
                            pot + 1,
                        ));
                    }
                    if out.as_map().dom().contains(k) && k != k0 && in_partial_grid(
                        k,
                        bet_lo,
                        bet_hi,
                        pot_lo,
                        pot_hi,
                        bet as int,
                        pot as int,
                    ) {
                        let (b2, p2) = choose|b2: u64, p2: u64|
                            bet_lo <= b2 <= bet_hi && pot_lo <= p2 <= pot_hi && ((b2 as int) < bet
                                || ((b2 as int) == bet && (p2 as int) < pot)) && k == spec_grid_key(
                                b2,
                                p2,
                            );
                        assert(in_partial_grid(
                            k,
                            bet_lo,
                            bet_hi,
                            pot_lo,
                            pot_hi,
                            bet as int,
                            pot + 1,
                        ));
                    }
                    if in_partial_grid(k, bet_lo, bet_hi, pot_lo, pot_hi, bet as int, pot + 1) {
                        let (b2, p2) = choose|b2: u64, p2: u64|
                            bet_lo <= b2 <= bet_hi && pot_lo <= p2 <= pot_hi && ((b2 as int) < bet
                                || ((b2 as int) == bet && (p2 as int) < pot + 1)) && k
                                == spec_grid_key(b2, p2);
                        if b2 == bet && p2 == pot {
                            assert(k == k0);
                        } else {
                            assert(in_partial_grid(
                                k,
                                bet_lo,
                                bet_hi,
                                pot_lo,
                                pot_hi,
                                bet as int,
                                pot as int,
                            ));
                        }
                    }
                }
            }
            pot = pot + 1;
        }
        proof {
            assert forall|k: (PresentationV, AnswerV)|
                #![trigger in_partial_grid(k, bet_lo, bet_hi, pot_lo, pot_hi, bet as int, pot_hi + 1)]
                in_partial_grid(k, bet_lo, bet_hi, pot_lo, pot_hi, bet as int, pot_hi + 1)
                    <==> in_partial_grid(
                    k,
                    bet_lo,
                    bet_hi,
                    pot_lo,
                    pot_hi,
                    bet + 1,
                    pot_lo as int,
                ) by {
                if in_partial_grid(k, bet_lo, bet_hi, pot_lo, pot_hi, bet as int, pot_hi + 1) {
                    let (b2, p2) = choose|b2: u64, p2: u64|
                        bet_lo <= b2 <= bet_hi && pot_lo <= p2 <= pot_hi && ((b2 as int) < bet || ((
                        b2 as int) == bet && (p2 as int) < pot_hi + 1)) && k == spec_grid_key(
                            b2,
                            p2,
                        );
                    assert(in_partial_grid(k, bet_lo, bet_hi, pot_lo, pot_hi, bet + 1, pot_lo as int));
                }
                if in_partial_grid(k, bet_lo, bet_hi, pot_lo, pot_hi, bet + 1, pot_lo as int) {
                    let (b2, p2) = choose|b2: u64, p2: u64|
                        bet_lo <= b2 <= bet_hi && pot_lo <= p2 <= pot_hi && ((b2 as int) < bet + 1)
                            && k == spec_grid_key(b2, p2);
                    if b2 == bet {
                        assert(p2 <= pot_hi);
                    }
                    assert(in_partial_grid(k, bet_lo, bet_hi, pot_lo, pot_hi, bet as int, pot_hi
                        + 1));
                }
            }
        }
        bet = bet + 1;
    }
    proof {
        let rvs = rs.map_values(|rg: Range| rg@);
        assert(bet == bet_hi + 1);
        assert forall|a: int, b: int|
            #![trigger ranges@[a]@.hands[b]]
            0 <= a < ranges@.len() && 0 <= b < ranges@[a]@.hands.len() implies {
            let k = spec_range_key(ranges@[a]@.name, ranges@[a]@.hands[b]);
            out.as_map().dom().contains(k) && out.as_map()[k] == carried_or(
                old_items.as_map(),
                k,
                binary_seed_question(k),
            )
        } by {
            let k = spec_range_key(rs[a]@.name, rs[a]@.hands[b]);
            assert(in_partial_ranges(rs, k, rs.len() as int, 0));
        }
        assert forall|bet2: u64, pot2: u64|
            #![trigger spec_grid_key(bet2, pot2)]
            bet_lo <= bet2 <= bet_hi && pot_lo <= pot2 <= pot_hi implies {
            let k = spec_grid_key(bet2, pot2);
            out.as_map().dom().contains(k) && out.as_map()[k] == carried_or(
                old_items.as_map(),
                k,
                numbers_seed_question(k),
            )
        } by {
            let k = spec_grid_key(bet2, pot2);
            assert(in_partial_grid(k, bet_lo, bet_hi, pot_lo, pot_hi, bet as int, pot_lo as int));
            lemma_grid_key_not_range(rs, bet2, pot2);
            assert(!in_partial_ranges(rs, k, rs.len() as int, 0)) by {
                if in_partial_ranges(rs, k, rs.len() as int, 0) {
                    let (a, b) = choose|a: int, b: int|
                        0 <= a < rs.len() && 0 <= b < rs[a]@.hands.len() && (a < rs.len()) && k
                            == spec_range_key(rs[a]@.name, rs[a]@.hands[b]);
                    assert(rvs[a] == rs[a]@);
                    assert(in_range_universe(rvs, k));
                }
            }
        }
        assert forall|k: (PresentationV, AnswerV)|
            out.as_map().dom().contains(k) implies in_range_universe(rvs, k) || in_grid_universe(
            k,
            bet_lo,
            bet_hi,
            pot_lo,
            pot_hi,
        ) by {
            if in_partial_ranges(rs, k, rs.len() as int, 0) {
                let (a, b) = choose|a: int, b: int|
                    0 <= a < rs.len() && 0 <= b < rs[a]@.hands.len() && (a < rs.len()) && k
                        == spec_range_key(rs[a]@.name, rs[a]@.hands[b]);
                assert(rvs[a] == rs[a]@);
                assert(in_range_universe(rvs, k));
            } else {
                assert(in_partial_grid(k, bet_lo, bet_hi, pot_lo, pot_hi, bet as int, pot_lo as int));
                let (b2, p2) = choose|b2: u64, p2: u64|
                    bet_lo <= b2 <= bet_hi && pot_lo <= p2 <= pot_hi && ((b2 as int) < bet || ((
                    b2 as int) == bet && (p2 as int) < pot_lo)) && k == spec_grid_key(b2, p2);
                assert(in_grid_universe(k, bet_lo, bet_hi, pot_lo, pot_hi));
            }
        }
    }
    out
}

/// Every token of the schedule names a key the collection still holds, so
/// popping can always present the current item under that key.
pub open spec fn schedule_covered(
    sched: Seq<ScheduleItemV>,
    m: Map<(PresentationV, AnswerV), ReviewItemV>,
) -> bool {
    forall|i: int| 0 <= i < sched.len() ==> m.dom().contains((#[trigger] sched[i]).key)
}

/// The training engine's whole state: the range definitions, the keyed
/// review items, the overdue-ordered schedule, and the question now shown.
pub struct RangeTrainer {
    pub ranges: Vec<Range>,
    pub review_items: ReviewCollection,
    pub review_schedule: ReviewSchedule,
    pub current_question: Option<ReviewItem>,
}

impl RangeTrainer {
    /// The invariant: a well-formed collection, well-formed ranges, and a
    /// schedule whose every token points into the collection.
    pub open spec fn wf(&self) -> bool {
        &&& self.review_items.wf()
        &&& (forall|i: int| 0 <= i < self.ranges@.len() ==> (#[trigger] self.ranges@[i]).wf())
        &&& schedule_covered(self.review_schedule@, self.review_items.as_map())
    }
}

/// The ranking token of each stored association, scored at time `now`, in
/// storage order.
pub open spec fn spec_schedule_of(es: Seq<ReviewEntryV>, now: i64) -> Seq<ScheduleItemV> {
    Seq::new(
        es.len(),
        |j: int|
            ScheduleItemV {
                key: es[j].0,
                percent_overdue: spec_overdue(
                    es[j].1.last_answer_correct,
                    es[j].1.date_last_reviewed,
                    es[j].1.days_between_review_attempts,
                    now,
                ),
            },
    )
}

/// One ranking token per stored item, scored at time `now`.
fn schedule_from_collection(c: &ReviewCollection, now: i64) -> (r: ReviewSchedule)
    requires
        c.wf(),
    ensures
        r@ == spec_schedule_of(c@, now),
        schedule_covered(r@, c.as_map()),
{
    let entries = c.iter();
    let mut sched = ReviewSchedule::new();
    let mut i: usize = 0;
    while i < entries.len()
        invariant
            i <= entries@.len(),
            entries@.len() == c@.len(),
            c.wf(),
            forall|j: int|
                0 <= j < c@.len() ==> (((#[trigger] entries@[j]).0.0@, entries@[j].0.1@),
                entries@[j].1@) == c@[j],
            sched@.len() == i,
            forall|j: int|
                0 <= j < i ==> (#[trigger] sched@[j]).key == c@[j].0 && sched@[j].percent_overdue
                    == spec_overdue(
                    c@[j].1.last_answer_correct,
                    c@[j].1.date_last_reviewed,
                    c@[j].1.days_between_review_attempts,
                    now,
                ),
        decreases entries@.len() - i,
    {
        proof {
            assert(entry_v_wf(c@[i as int]));
        }
        let po = entries[i].1.percent_overdue(now);
        let key = (entries[i].0.0.duplicate(), entries[i].0.1.duplicate());
        sched.push(ScheduleItem { key, percent_overdue: po });
        i = i + 1;
    }
    proof {
        assert(sched@ =~= spec_schedule_of(c@, now));
        crate::collection::lemma_map_of(c@);
        assert forall|j: int| 0 <= j < sched@.len() implies c.as_map().dom().contains(
            (#[trigger] sched@[j]).key,
        ) by {
            assert(sched@[j].key == c@[j].0);
        }
    }
    sched
}

impl RangeTrainer {
    /// Starts the engine from loaded state: every stored item is put on
    /// the schedule with its overdue score at `now`, and the most overdue
    /// one is selected for study.
    pub fn new(ranges: Vec<Range>, review_items: ReviewCollection, now: i64) -> (r: RangeTrainer)
        requires
            review_items.wf(),
            forall|i: int| 0 <= i < ranges@.len() ==> (#[trigger] ranges@[i]).wf(),
        ensures
            r.wf(),
            r.ranges@ == ranges@,
            r.review_items@ == review_items@,
            r.current_question is Some <==> review_items@.len() > 0,
            review_items@.len() == 0 ==> r.review_schedule@.len() == 0,
            review_items@.len() > 0 ==> exists|i: int|
                #![trigger spec_schedule_of(review_items@, now).remove(i)]
                {
                    let tokens = spec_schedule_of(review_items@, now);
                    &&& 0 <= i < tokens.len()
                    &&& r.review_schedule@ == tokens.remove(i)
                    &&& (forall|j: int|
                        0 <= j < tokens.len() ==> (#[trigger] tokens[j]).percent_overdue
                            <= tokens[i].percent_overdue)
                    &&& r.current_question->Some_0@ == crate::collection::map_of(
                        review_items@,
                    )[tokens[i].key]
                },
    {
        let sched = schedule_from_collection(&review_items, now);
        let mut t = RangeTrainer {
            ranges,
            review_items,
            review_schedule: sched,
            current_question: None,
        };
        t.request_new_question();
        t
    }

    /// Pops the most overdue token and presents the collection's current
    /// item under that key; with an empty schedule, no question is shown.
    ///
    /// A popped token may be stale: the score it was pushed with no longer
    /// matters, and the item presented is always the one now stored under
    /// the token's key.
    pub fn request_new_question(&mut self)
        requires
            old(self).wf(),
        ensures
            final(self).wf(),
            final(self).ranges@ == old(self).ranges@,
            final(self).review_items@ == old(self).review_items@,
            old(self).review_schedule@.len() == 0 ==> final(self).current_question is None && final(self).review_schedule@ == old(self).review_schedule@,
            old(self).review_schedule@.len() > 0 ==> exists|i: int|
                {
                    &&& 0 <= i < old(self).review_schedule@.len()
                    &&& final(self).review_schedule@ == old(self).review_schedule@.remove(i)
                    &&& (forall|j: int|
                        0 <= j < old(self).review_schedule@.len() ==> (#[trigger] old(self).review_schedule@[j]).percent_overdue
                            <= old(self).review_schedule@[i].percent_overdue)
                    &&& final(self).current_question is Some
                    &&& final(self).current_question->Some_0@ == old(self).review_items.as_map()[old(self).review_schedule@[i].key]
                },
    {
        match self.review_schedule.pop_max() {
            None => {
                self.current_question = None;
            },
            Some(top) => {
                let item = match self.review_items.get(&top.key) {
                    Some(it) => it.duplicate(),
                    None => {
                        proof {
                            let i = choose|i: int|
                                0 <= i < old(self).review_schedule@.len() && (#[trigger] old(self).review_schedule@[i]) == top@;
                            assert(false);
                        }
                        ReviewItem::seed(
                            Question {
                                presentation: top.key.0,
                                options: Options::Binary,
                                answer: top.key.1,
                                tolerance: None,
                            },
                        )
                    },
                };
                self.current_question = Some(item);
                proof {
                    let i = choose|i: int|
                        {
                            &&& 0 <= i < old(self).review_schedule@.len()
                            &&& (#[trigger] old(self).review_schedule@[i]) == top@
                            &&& final(self).review_schedule@ == old(self).review_schedule@.remove(
                                i,
                            )
                        };
                    assert(final(self).current_question->Some_0@ == old(self).review_items.as_map()[old(self).review_schedule@[i].key]);
                }
            },
        }
    }

    /// Regenerates the question universe from the current ranges and the
    /// fixed pot-odds grid. Every generated key keeps its scheduling
    /// history when it already had an item; keys no longer generated are
    /// dropped. The schedule is rebuilt from the new collection and a new
    /// question is selected.
    pub fn rebuild_review_items(&mut self, now: i64)
        requires
            old(self).wf(),
        ensures
            final(self).wf(),
            final(self).ranges@ == old(self).ranges@,
            forall|a: int, b: int|
                #![trigger old(self).ranges@[a]@.hands[b]]
                0 <= a < old(self).ranges@.len() && 0 <= b < old(self).ranges@[a]@.hands.len()
                    ==> {
                    let k = spec_range_key(
                        old(self).ranges@[a]@.name,
                        old(self).ranges@[a]@.hands[b],
                    );
                    final(self).review_items.as_map().dom().contains(k) && final(self).review_items.as_map()[k] == carried_or(
                        old(self).review_items.as_map(),
                        k,
                        binary_seed_question(k),
                    )
                },
            forall|bet: u64, pot: u64|
                #![trigger spec_grid_key(bet, pot)]
                BET_MIN <= bet <= BET_MAX && POT_MIN <= pot <= POT_MAX ==> {
                    let k = spec_grid_key(bet, pot);
                    final(self).review_items.as_map().dom().contains(k) && final(self).review_items.as_map()[k] == carried_or(
                        old(self).review_items.as_map(),
                        k,
                        numbers_seed_question(k),
                    )
                },
            forall|k: (PresentationV, AnswerV)|
                final(self).review_items.as_map().dom().contains(k) ==> in_range_universe(
                    old(self).ranges@.map_values(|rg: Range| rg@),
                    k,
                ) || in_grid_universe(k, BET_MIN, BET_MAX, POT_MIN, POT_MAX),
            final(self).review_items@.len() == 0 ==> final(self).review_schedule@.len() == 0
                && final(self).current_question is None,
            final(self).review_items@.len() > 0 ==> exists|i: int|
                #![trigger spec_schedule_of(final(self).review_items@, now).remove(i)]
                {
                    let tokens = spec_schedule_of(final(self).review_items@, now);
                    &&& 0 <= i < tokens.len()
                    &&& final(self).review_schedule@ == tokens.remove(i)
                    &&& (forall|j: int|
                        0 <= j < tokens.len() ==> (#[trigger] tokens[j]).percent_overdue
                            <= tokens[i].percent_overdue)
                    &&& final(self).current_question is Some
                    &&& final(self).current_question->Some_0@ == crate::collection::map_of(
                        final(self).review_items@,
                    )[tokens[i].key]
                },
    {
        let new_items = rebuild_collection(
            &self.ranges,
            &self.review_items,
            BET_MIN,
            BET_MAX,
            POT_MIN,
            POT_MAX,
        );
        let sched = schedule_from_collection(&new_items, now);
        self.review_items = new_items;
        self.review_schedule = sched;
        self.request_new_question();
    }

    /// Replaces the range definitions and regenerates the question
    /// universe from them, as [`RangeTrainer::rebuild_review_items`] does.
    pub fn notify_ranges_changed(&mut self, ranges: Vec<Range>, now: i64)
        requires
            old(self).wf(),
            forall|i: int| 0 <= i < ranges@.len() ==> (#[trigger] ranges@[i]).wf(),
        ensures
            final(self).wf(),
            final(self).ranges@ == ranges@,
            forall|a: int, b: int|
                #![trigger ranges@[a]@.hands[b]]
                0 <= a < ranges@.len() && 0 <= b < ranges@[a]@.hands.len() ==> {
                    let k = spec_range_key(ranges@[a]@.name, ranges@[a]@.hands[b]);
                    final(self).review_items.as_map().dom().contains(k)
                        && final(self).review_items.as_map()[k] == carried_or(
                        old(self).review_items.as_map(),
                        k,
                        binary_seed_question(k),
                    )
                },
            forall|k: (PresentationV, AnswerV)|
                final(self).review_items.as_map().dom().contains(k) ==> in_range_universe(
                    ranges@.map_values(|rg: Range| rg@),
                    k,
                ) || in_grid_universe(k, BET_MIN, BET_MAX, POT_MIN, POT_MAX),
    {
        self.ranges = ranges;
        self.rebuild_review_items(now);
    }

    /// Grades a submitted answer against the stored question under `key`,
    /// and applies the outcome: an ungradable submission is silently
    /// ignored, while a graded one updates the item in place and pushes a
    /// fresh token for its key onto the schedule. The old token, if still
    /// present, is deliberately left in place.
    pub fn submit_answer(&mut self, key: &(Presentation, Answer), given: &Answer, now: i64) -> (r:
        Option<bool>)
        requires
            old(self).wf(),
            old(self).review_items.as_map().dom().contains((key.0@, key.1@)),
            ({
                let q = old(self).review_items.as_map()[(key.0@, key.1@)].question;
                &&& ((given@ matches AnswerV::Text(_) && q.answer matches AnswerV::Text(_))
                    ==> q.tolerance is Some)
                &&& ((given@ matches AnswerV::PokerAction(PokerActionV::Raise(_))
                    && q.answer matches AnswerV::PokerAction(PokerActionV::Raise(_)))
                    ==> q.tolerance is Some)
            }),
        ensures
            final(self).wf(),
            final(self).ranges@ == old(self).ranges@,
            final(self).current_question == old(self).current_question,
            r == spec_grade(given@, old(self).review_items.as_map()[(key.0@, key.1@)].question),
            r is None ==> final(self).review_items@ == old(self).review_items@ && final(self).review_schedule@ == old(self).review_schedule@,
            r matches Some(c) ==> ({
                let kv = (key.0@, key.1@);
                let old_it = old(self).review_items.as_map()[kv];
                let nd = spec_updated_difficulty(old_it.difficulty, c);
                let updated = ReviewItemV {
                    difficulty: nd,
                    days_between_review_attempts: spec_updated_days(nd, c),
                    date_last_reviewed: Some(now),
                    last_answer_correct: c,
                    question: old_it.question,
                };
                &&& final(self).review_items.as_map() == old(self).review_items.as_map().insert(
                    kv,
                    updated,
                )
                &&& final(self).review_schedule@ == old(self).review_schedule@.push(
                    ScheduleItemV {
                        key: kv,
                        percent_overdue: spec_overdue(
                            c,
                            Some(now),
                            updated.days_between_review_attempts,
                            now,
                        ),
                    },
                )
            }),
    {
        let ghost kv = (key.0@, key.1@);
        proof {
            crate::collection::lemma_map_of(self.review_items@);
            let i = choose|i: int|
                0 <= i < self.review_items@.len() && (#[trigger] self.review_items@[i]).0 == kv;
            assert(entry_v_wf(self.review_items@[i]));
        }
        let mut item = match self.review_items.get(key) {
            Some(it) => it.duplicate(),
            None => {
                proof {
                    assert(false);
                }
                return None;
            },
        };
        let outcome = grade_answer(given, &item.question);
        let correct = match outcome {
            Some(c) => c,
            None => {
                return None;
            },
        };
        item.update(correct, now);
        let po = item.percent_overdue(now);
        let new_key = (key.0.duplicate(), key.1.duplicate());
        self.review_items.insert((key.0.duplicate(), key.1.duplicate()), item);
        self.review_schedule.push(ScheduleItem { key: new_key, percent_overdue: po });
        proof {
            assert forall|j: int|
                0 <= j < self.review_schedule@.len() implies self.review_items.as_map().dom().contains(
                (#[trigger] self.review_schedule@[j]).key,
            ) by {
                if j < old(self).review_schedule@.len() {
                    assert(self.review_schedule@[j] == old(self).review_schedule@[j]);
                    assert(old(self).review_items.as_map().dom().contains(
                        old(self).review_schedule@[j].key,
                    ));
                } else {
                    assert(self.review_schedule@[j].key == kv);
                }
            }
        }
        Some(correct)
    }
}

} // verus!
