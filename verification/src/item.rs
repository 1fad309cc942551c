//! A reviewable item and its spaced-repetition state: how overdue it is,
//! and how difficulty and review interval move after each answer.
//!
//! Difficulty, intervals and overdue scores are fixed-point values in
//! millionths (see [`crate::SCALE`]); timestamps are seconds, and elapsed
//! time is counted in whole days.

use vstd::prelude::*;
use crate::SCALE;
use crate::question::{Question, QuestionV};

verus! {

/// Seconds per day, for turning timestamp differences into whole days.
pub const DAY_SECONDS: i64 = 86_400;

/// One reviewable question together with its mutable review state.
#[derive(Debug, Clone, PartialEq)]
pub struct ReviewItem {
    /// How hard this item currently is for the user, in `[0, SCALE]`.
    pub difficulty: u64,
    /// The target interval until the next review, in millionths of a day;
    /// always positive.
    pub days_between_review_attempts: u64,
    /// When this item was last answered, as seconds, if ever.
    pub date_last_reviewed: Option<i64>,
    /// Whether the last answer was correct.
    pub last_answer_correct: bool,
    /// The question this item schedules.
    pub question: Question,
}

/// The abstract value of a [`ReviewItem`].
pub struct ReviewItemV {
    pub difficulty: u64,
    pub days_between_review_attempts: u64,
    pub date_last_reviewed: Option<i64>,
    pub last_answer_correct: bool,
    pub question: QuestionV,
}

impl View for ReviewItem {
    type V = ReviewItemV;

    open spec fn view(&self) -> ReviewItemV {
        ReviewItemV {
            difficulty: self.difficulty,
            days_between_review_attempts: self.days_between_review_attempts,
            date_last_reviewed: self.date_last_reviewed,
            last_answer_correct: self.last_answer_correct,
            question: self.question@,
        }
    }
}

/// The number of whole days from `then` to `now`, never negative.
pub open spec fn spec_days_since(now: i64, then: i64) -> int {
    if now >= then {
        (now - then) / (DAY_SECONDS as int)
    } else {
        0
    }
}

/// How overdue an item with the given state is at time `now`, in
/// millionths: `1.0` whenever the last answer was wrong or the item was
/// never reviewed, otherwise the elapsed days over the target interval,
/// capped at `2.0`.
pub open spec fn spec_overdue(
    correct: bool,
    date: Option<i64>,
    days_between: u64,
    now: i64,
) -> u64 {
    if !correct {
        SCALE
    } else {
        match date {
            None => SCALE,
            Some(then) => {
                let ratio = spec_days_since(now, then) * (SCALE as int) * (SCALE as int) / (
                days_between as int);
                if ratio >= 2 * (SCALE as int) {
                    (2 * SCALE) as u64
                } else {
                    ratio as u64
                }
            },
        }
    }
}

/// The difficulty after an answer: unchanged when correct, pushed up by
/// `8/17` of a full overdue score (and clamped at `1.0`) when wrong.
pub open spec fn spec_updated_difficulty(old_d: u64, correct: bool) -> u64 {
    if correct {
        old_d
    } else {
        let inc = 8 * (SCALE as int) / 17;
        if old_d + inc > SCALE {
            SCALE
        } else {
            (old_d + inc) as u64
        }
    }
}

/// The difficulty weight `3.0 - 1.7 * difficulty`, in millionths.
pub open spec fn spec_difficulty_weight(d: u64) -> int {
    3 * (SCALE as int) - (17 * (d as int)) / 10
}

/// The next review interval after an answer: exactly one day when
/// correct, `1 / weight^2` days when wrong.
pub open spec fn spec_updated_days(d_new: u64, correct: bool) -> u64 {
    if correct {
        SCALE
    } else {
        let dw = spec_difficulty_weight(d_new);
        ((SCALE as int) * (SCALE as int) * (SCALE as int) / (dw * dw)) as u64
    }
}

/// The invariant every item keeps: difficulty within `[0, 1.0]`, a
/// positive interval, and a well-formed question.
pub open spec fn item_v_wf(it: ReviewItemV) -> bool {
    it.difficulty <= SCALE && it.days_between_review_attempts >= 1 && crate::question::question_v_wf(
        it.question,
    )
}

impl ReviewItem {
    /// The invariant every item keeps; see [`item_v_wf`].
    pub open spec fn wf(&self) -> bool {
        item_v_wf(self@)
    }

    /// A fresh, never-reviewed item for a question: difficulty `0.3`,
    /// interval three days, no review date, last answer counted wrong.
    pub fn seed(question: Question) -> (r: ReviewItem)
        requires
            question.wf(),
        ensures
            r.difficulty == 300_000u64,
            r.days_between_review_attempts == 3_000_000u64,
            r.date_last_reviewed is None,
            r.last_answer_correct == false,
            r@.question == question@,
            r.wf(),
    {
        ReviewItem {
            difficulty: 300_000,
            days_between_review_attempts: 3_000_000,
            date_last_reviewed: None,
            last_answer_correct: false,
            question,
        }
    }

    /// An exact copy.
    pub fn duplicate(&self) -> (r: ReviewItem)
        ensures
            r@ == self@,
    {
        let r = ReviewItem {
            difficulty: self.difficulty,
            days_between_review_attempts: self.days_between_review_attempts,
            date_last_reviewed: self.date_last_reviewed,
            last_answer_correct: self.last_answer_correct,
            question: self.question.duplicate(),
        };
        proof {
            assert(r@ == self@);
        }
        r
    }

    /// How overdue this item is at time `now`, in millionths.
    pub fn percent_overdue(&self, now: i64) -> (r: u64)
        requires
            self.wf(),
        ensures
            r == spec_overdue(
                self.last_answer_correct,
                self.date_last_reviewed,
                self.days_between_review_attempts,
                now,
            ),
            r <= 2 * SCALE,
    {
        if !self.last_answer_correct {
            SCALE
        } else {
            match self.date_last_reviewed {
                None => SCALE,
                Some(then) => {
                    let diff: i128 = now as i128 - then as i128;
                    let d: i128 = if diff >= 0 {
                        diff / (DAY_SECONDS as i128)
                    } else {
                        0
                    };
                    proof {
                        assert(d == spec_days_since(now, then));
                        assert(d >= 0) by {
                            if diff >= 0 {
                                vstd::arithmetic::div_mod::lemma_div_is_ordered(
                                    0,
                                    diff as int,
                                    DAY_SECONDS as int,
                                );
                            }
                        }
                        assert(d <= 0x8000_0000_0000_0000i128) by {
                            if diff >= 0 {
                                vstd::arithmetic::div_mod::lemma_div_is_ordered(
                                    diff as int,
                                    0x1_0000_0000_0000_0000i128 as int,
                                    DAY_SECONDS as int,
                                );
                            }
                        }
                        assert((d as int) * (SCALE as int) * (SCALE as int)
                            <= 0x8000_0000_0000_0000i128 * 1_000_000_000_000i128)
                            by (nonlinear_arith)
                            requires
                                0 <= d <= 0x8000_0000_0000_0000i128,
                                SCALE == 1_000_000u64,
                        ;
                    }
                    let num: u128 = (d as u128) * (SCALE as u128) * (SCALE as u128);
                    let ratio: u128 = num / (self.days_between_review_attempts as u128);
                    proof {
                        assert(ratio == spec_days_since(now, then) * (SCALE as int) * (
                        SCALE as int) / (self.days_between_review_attempts as int));
                    }
                    if ratio >= 2 * (SCALE as u128) {
                        2 * SCALE
                    } else {
                        ratio as u64
                    }
                },
            }
        }
    }

    /// Applies one graded answer at time `now`: records the time and the
    /// outcome, then moves difficulty and interval by the update rule.
    ///
    /// The overdue score the rule consumes is computed after the time and
    /// outcome are recorded, so a correct answer sees a freshly-reviewed
    /// item: its difficulty keeps its value and its interval collapses to
    /// one day, while a wrong answer pushes difficulty up by `8/17` and
    /// shrinks the interval to `1 / weight^2` days. In every case the new
    /// difficulty stays in `[0, 1.0]` and the new interval is positive.
    pub fn update(&mut self, correct: bool, now: i64)
        requires
            old(self).wf(),
        ensures
            final(self).date_last_reviewed == Some(now),
            final(self).last_answer_correct == correct,
            final(self)@.question == old(self)@.question,
            final(self).difficulty == spec_updated_difficulty(old(self).difficulty, correct),
            final(self).days_between_review_attempts == spec_updated_days(
                final(self).difficulty,
                correct,
            ),
            final(self).difficulty <= SCALE,
            final(self).days_between_review_attempts >= 1,
            final(self).wf(),
    {
        self.date_last_reviewed = Some(now);
        self.last_answer_correct = correct;
        let po = self.percent_overdue(now);
        proof {
            if correct {
                assert(spec_days_since(now, now) == 0) by {
                    assert((0int) / (DAY_SECONDS as int) == 0);
                }
                assert(po == 0);
            } else {
                assert(po == SCALE);
            }
        }
        if correct {
            let dec = po / 17;
            self.difficulty = if dec > self.difficulty {
                0
            } else {
                self.difficulty - dec
            };
        } else {
            let inc = po * 8 / 17;
            self.difficulty = if self.difficulty + inc > SCALE {
                SCALE
            } else {
                self.difficulty + inc
            };
        }
        let dw: u64 = 3 * SCALE - self.difficulty * 17 / 10;
        proof {
            assert(dw == spec_difficulty_weight(self.difficulty));
            assert(1_300_000 <= dw <= 3_000_000) by {
                assert(self.difficulty * 17 / 10 <= 1_700_000) by {
                    vstd::arithmetic::div_mod::lemma_div_is_ordered(
                        self.difficulty * 17,
                        17_000_000,
                        10,
                    );
                }
            }
        }
        if correct {
            let scaled: u64 = (dw - SCALE) * po / SCALE;
            self.days_between_review_attempts = SCALE + scaled;
        } else {
            proof {
                assert(1_690_000_000_000u64 <= dw * dw <= 9_000_000_000_000u64)
                    by (nonlinear_arith)
                    requires
                        1_300_000 <= dw <= 3_000_000,
                ;
            }
            let dw2: u64 = dw * dw;
            let days: u64 = 1_000_000_000_000_000_000u64 / dw2;
            proof {
                assert(days >= 111_111) by {
                    vstd::arithmetic::div_mod::lemma_div_is_ordered_by_denominator(
                        1_000_000_000_000_000_000,
                        dw2 as int,
                        9_000_000_000_000,
                    );
                }
                assert((SCALE as int) * (SCALE as int) * (SCALE as int)
                    == 1_000_000_000_000_000_000int);
            }
            self.days_between_review_attempts = days;
        }
    }
}

/// How overdue an item is never decreases as time passes, while its last
/// answer stands correct and it has a review date.
pub proof fn lemma_overdue_monotone(
    date: Option<i64>,
    days_between: u64,
    now1: i64,
    now2: i64,
)
    requires
        days_between >= 1,
        now1 <= now2,
    ensures
        spec_overdue(true, date, days_between, now1) <= spec_overdue(true, date, days_between, now2),
{
    match date {
        None => {
        },
        Some(then) => {
            let d1 = spec_days_since(now1, then);
            let d2 = spec_days_since(now2, then);
            assert(d1 <= d2) by {
                if now1 >= then {
                    vstd::arithmetic::div_mod::lemma_div_is_ordered(
                        now1 - then,
                        now2 - then,
                        DAY_SECONDS as int,
                    );
                } else if now2 >= then {
                    vstd::arithmetic::div_mod::lemma_div_is_ordered(
                        0,
                        now2 - then,
                        DAY_SECONDS as int,
                    );
                }
            }
            assert(d1 * (SCALE as int) * (SCALE as int) <= d2 * (SCALE as int) * (SCALE as int))
                by (nonlinear_arith)
                requires
                    d1 <= d2,
            ;
            vstd::arithmetic::div_mod::lemma_div_is_ordered(
                d1 * (SCALE as int) * (SCALE as int),
                d2 * (SCALE as int) * (SCALE as int),
                days_between as int,
            );
        },
    }
}

/// Immediately after any wrong answer, an item's overdue score is exactly
/// `1.0`: an item last answered wrong is always maximally due.
pub proof fn lemma_overdue_after_incorrect(date: Option<i64>, days_between: u64, now: i64)
    ensures
        spec_overdue(false, date, days_between, now) == SCALE,
{
}

} // verus!
