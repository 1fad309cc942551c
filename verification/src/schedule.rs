//! The review schedule: an overdue-ordered working set of ranking tokens,
//! consumed to pick the next question.
//!
//! Stale duplicate tokens for one key are expected and tolerated: popping
//! only selects which key to study next, and the collection's current item
//! under that key is what gets presented.

use vstd::prelude::*;
use crate::question::{Presentation, PresentationV, Answer, AnswerV};

verus! {

/// An ephemeral ranking token: a key and the overdue score it was pushed
/// with, in millionths.
pub struct ScheduleItem {
    pub key: (Presentation, Answer),
    pub percent_overdue: u64,
}

/// The abstract value of a [`ScheduleItem`].
pub struct ScheduleItemV {
    pub key: (PresentationV, AnswerV),
    pub percent_overdue: u64,
}

impl View for ScheduleItem {
    type V = ScheduleItemV;

    open spec fn view(&self) -> ScheduleItemV {
        ScheduleItemV { key: ((self.key).0@, (self.key).1@), percent_overdue: self.percent_overdue }
    }
}

/// The overdue-ordered working set.
pub struct ReviewSchedule {
    /// The pending tokens; order of storage carries no meaning.
    pub items: Vec<ScheduleItem>,
}

impl View for ReviewSchedule {
    type V = Seq<ScheduleItemV>;

    open spec fn view(&self) -> Seq<ScheduleItemV> {
        let items = self.items@;
        Seq::new(items.len() as nat, |i: int| items[i]@)
    }
}

impl ReviewSchedule {
    /// An empty schedule.
    pub fn new() -> (r: ReviewSchedule)
        ensures
            r@ == Seq::<ScheduleItemV>::empty(),
    {
        let r = ReviewSchedule { items: Vec::new() };
        proof {
            assert(r@ =~= Seq::<ScheduleItemV>::empty());
        }
        r
    }

    /// The number of pending tokens.
    pub fn len(&self) -> (r: usize)
        ensures
            r == self@.len(),
    {
        self.items.len()
    }

    /// Adds a token; an older token for the same key is not removed.
    pub fn push(&mut self, item: ScheduleItem)
        ensures
            final(self)@ == old(self)@.push(item@),
    {
        self.items.push(item);
        proof {
            assert(self@ =~= old(self)@.push(item@));
        }
    }

    /// Removes and returns a token of maximal overdue score, if any; among
    /// tokens of equal score the earliest-pushed one is taken, though
    /// callers may rely only on maximality.
    pub fn pop_max(&mut self) -> (r: Option<ScheduleItem>)
        ensures
            match r {
                None => old(self)@.len() == 0 && final(self)@ == old(self)@,
                Some(top) => {
                    &&& old(self)@.len() > 0
                    &&& exists|i: int|
                        0 <= i < old(self)@.len() && (#[trigger] old(self)@[i]) == top@
                            && final(self)@ == old(self)@.remove(i)
                    &&& forall|j: int|
                        0 <= j < old(self)@.len() ==> (#[trigger] old(self)@[j]).percent_overdue
                            <= top@.percent_overdue
                },
            },
    {
        if self.items.len() == 0 {
            return None;
        }
        let mut best: usize = 0;
        let mut i: usize = 1;
        while i < self.items.len()
            invariant
                best < i <= self.items@.len(),
                *self == *old(self),
                forall|j: int|
                    0 <= j < i ==> (#[trigger] self@[j]).percent_overdue <= self@[
                        best as int
                    ].percent_overdue,
            decreases self.items@.len() - i,
        {
            if self.items[i].percent_overdue > self.items[best].percent_overdue {
                best = i;
            }
            i = i + 1;
        }
        let top = self.items.remove(best);
        proof {
            assert(final(self)@ =~= old(self)@.remove(best as int));
            assert(old(self)@[best as int] == top@);
        }
        Some(top)
    }
}

} // verus!
