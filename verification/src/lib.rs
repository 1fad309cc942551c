//! A spaced-repetition engine for a poker starting-hand range trainer.
//!
//! The library covers the data model of a reviewable question, the canonical
//! text encodings used as storage keys, the difficulty/interval update rule,
//! the keyed collection of review items with its lossless text serialization,
//! and the overdue-ordered schedule that selects the next question to ask.

use vstd::prelude::*;

pub mod card;
pub mod collection;
pub mod hand;
pub mod item;
pub mod num;
pub mod question;
pub mod range;
pub mod schedule;
pub mod text;
pub mod trainer;

verus! {

/// Number of fixed-point units that stand for the real value `1.0`.
///
/// Difficulty, review intervals in days, overdue scores, tolerances and
/// answer amounts are all held as integer multiples of one millionth.
pub const SCALE: u64 = 1_000_000;

} // verus!
