//! The overdue score and the difficulty/interval update rule, on exact
//! fixed-point values.

use range_trainer::SCALE;
use range_trainer::item::ReviewItem;
use range_trainer::question::{Answer, Options, Presentation, Question};
use range_trainer::text::DisplayString;

fn sample_question() -> Question {
    Question {
        presentation: Presentation::Text(DisplayString::new("2 + 2?")),
        options: Options::Numbers,
        answer: Answer::Text(DisplayString::new("4")),
        tolerance: Some(500_000),
    }
}

const DAY: i64 = 86_400;

#[test]
fn fresh_item_is_fully_overdue() {
    let item = ReviewItem::seed(sample_question());
    assert_eq!(item.difficulty, 300_000);
    assert_eq!(item.days_between_review_attempts, 3_000_000);
    assert_eq!(item.date_last_reviewed, None);
    assert!(!item.last_answer_correct);
    assert_eq!(item.percent_overdue(12_345), SCALE);
}

#[test]
fn fresh_item_answered_correctly() {
    let mut item = ReviewItem::seed(sample_question());
    assert_eq!(item.percent_overdue(1_000), SCALE);
    item.update(true, 1_000);
    assert_eq!(item.date_last_reviewed, Some(1_000));
    assert!(item.last_answer_correct);
    assert_eq!(item.difficulty, 300_000);
    assert_eq!(item.days_between_review_attempts, SCALE);
}

#[test]
fn wrong_answer_raises_difficulty_and_shrinks_interval() {
    let mut item = ReviewItem::seed(sample_question());
    item.update(false, 5_000);
    assert_eq!(item.date_last_reviewed, Some(5_000));
    assert!(!item.last_answer_correct);
    assert_eq!(item.difficulty, 770_588);
    assert_eq!(item.days_between_review_attempts, 350_127);
    assert_eq!(item.percent_overdue(5_000), SCALE);
    assert_eq!(item.percent_overdue(5_000 + 400 * DAY), SCALE);
}

#[test]
fn wrong_answer_at_maximal_difficulty_stays_in_range() {
    let mut item = ReviewItem::seed(sample_question());
    item.difficulty = SCALE;
    item.update(false, 0);
    assert_eq!(item.difficulty, SCALE);
    assert!(item.days_between_review_attempts > 0);
    let mut easy = ReviewItem::seed(sample_question());
    easy.difficulty = 0;
    easy.update(true, 0);
    assert_eq!(easy.difficulty, 0);
    assert_eq!(easy.days_between_review_attempts, SCALE);
}

#[test]
fn overdue_grows_with_elapsed_time_and_caps_at_two() {
    let mut item = ReviewItem::seed(sample_question());
    item.update(true, 0);
    item.days_between_review_attempts = 3_000_000;
    item.last_answer_correct = true;
    item.date_last_reviewed = Some(0);
    assert_eq!(item.percent_overdue(0), 0);
    assert_eq!(item.percent_overdue(3 * DAY), SCALE);
    assert_eq!(item.percent_overdue(6 * DAY), 2 * SCALE);
    assert_eq!(item.percent_overdue(600 * DAY), 2 * SCALE);
    assert!(item.percent_overdue(DAY) <= item.percent_overdue(2 * DAY));
}

#[test]
fn overdue_before_the_review_date_is_zero() {
    let mut item = ReviewItem::seed(sample_question());
    item.update(true, 1_000_000);
    assert_eq!(item.percent_overdue(0), 0);
}

#[test]
fn never_reviewed_item_is_fully_overdue_even_after_a_correct_run() {
    let mut item = ReviewItem::seed(sample_question());
    item.last_answer_correct = true;
    item.date_last_reviewed = None;
    assert_eq!(item.percent_overdue(999_999), SCALE);
}
