//! The training engine: rebuilds, grading, and the pop/present cycle.

use range_trainer::SCALE;
use range_trainer::card::Card;
use range_trainer::collection::ReviewCollection;
use range_trainer::hand::{Hand, Suit};
use range_trainer::question::{grade_answer, Answer, Options, PokerAction, Presentation, Question};
use range_trainer::range::Range;
use range_trainer::text::DisplayString;
use range_trainer::trainer::{rebuild_collection, RangeTrainer};

fn hand(a: Card, b: Card) -> Hand {
    Hand { first: a, second: b, suited: Suit::Off }
}

fn named_range(name: &str, hands: &[Hand]) -> Range {
    let mut r = Range::new();
    r.name = String::from(name);
    for h in hands {
        r.toggle(*h);
    }
    r
}

fn membership_key(name: &str, h: Hand) -> (Presentation, Answer) {
    (Presentation::TextHand(DisplayString::new(name), h), Answer::Yes)
}

#[test]
fn rebuild_seeds_membership_and_grid_items() {
    let h1 = hand(Card::Ace, Card::King);
    let ranges = vec![named_range("opens", &[h1])];
    let empty = ReviewCollection::new();
    let built = rebuild_collection(&ranges, &empty, 2, 2, 3, 3);
    assert_eq!(built.len(), 2);
    let member = built.get(&membership_key("opens", h1)).expect("membership item");
    assert_eq!(member.difficulty, 300_000);
    assert_eq!(member.days_between_review_attempts, 3_000_000);
    assert_eq!(member.question.options, Options::Binary);
    assert_eq!(member.question.answer, Answer::Yes);
    assert_eq!(member.question.tolerance, None);
    let grid_key = (
        Presentation::Text(DisplayString::new("RFE for 1BB bet to win 1.5BB pot")),
        Answer::Text(DisplayString::new("0")),
    );
    let cell = built.get(&grid_key).expect("grid item");
    assert_eq!(cell.question.options, Options::Numbers);
    assert_eq!(cell.question.tolerance, Some(9_600_000));
}

#[test]
fn rebuild_drops_removed_range_and_keeps_shared_history() {
    let h1 = hand(Card::Ace, Card::King);
    let h2 = hand(Card::Queen, Card::Jack);
    let h3 = hand(Card::Nine, Card::Eight);
    let both = vec![named_range("alpha", &[h1, h2]), named_range("beta", &[h2, h3])];
    let empty = ReviewCollection::new();
    let mut first = rebuild_collection(&both, &empty, 2, 2, 3, 3);
    assert_eq!(first.len(), 5);

    let beta_key = membership_key("beta", h2);
    let mut studied = first.get(&beta_key).unwrap().clone();
    studied.update(true, 1_000);
    first.insert(beta_key.clone(), studied.clone());

    let only_beta = vec![named_range("beta", &[h2, h3])];
    let second = rebuild_collection(&only_beta, &first, 2, 2, 3, 3);
    assert_eq!(second.len(), 3);
    assert!(second.get(&membership_key("alpha", h1)).is_none());
    assert!(second.get(&membership_key("alpha", h2)).is_none());
    assert_eq!(second.get(&beta_key), Some(&studied));
    assert!(second.get(&membership_key("beta", h3)).is_some());
}

#[test]
fn grading_matches_each_answer_kind() {
    let binary = Question {
        presentation: Presentation::Text(DisplayString::new("in range?")),
        options: Options::Binary,
        answer: Answer::Yes,
        tolerance: None,
    };
    assert_eq!(grade_answer(&Answer::Yes, &binary), Some(true));
    assert_eq!(grade_answer(&Answer::No, &binary), Some(false));

    let numeric = Question {
        presentation: Presentation::Text(DisplayString::new("pot odds?")),
        options: Options::Numbers,
        answer: Answer::Text(DisplayString::new("25")),
        tolerance: Some(9_600_000),
    };
    assert_eq!(
        grade_answer(&Answer::Text(DisplayString::new("30")), &numeric),
        Some(true)
    );
    assert_eq!(
        grade_answer(&Answer::Text(DisplayString::new("34.5")), &numeric),
        Some(true)
    );
    assert_eq!(
        grade_answer(&Answer::Text(DisplayString::new("34.6")), &numeric),
        Some(false)
    );
    assert_eq!(grade_answer(&Answer::Text(DisplayString::new("what")), &numeric), None);
    assert_eq!(grade_answer(&Answer::Yes, &numeric), Some(false));

    let action = Question {
        presentation: Presentation::Text(DisplayString::new("facing a 3-bet?")),
        options: Options::PokerAction,
        answer: Answer::PokerAction(PokerAction::Raise(String::from("10"))),
        tolerance: Some(2_000_000),
    };
    let close = Answer::PokerAction(PokerAction::Raise(String::from("11.5")));
    let far = Answer::PokerAction(PokerAction::Raise(String::from("13")));
    assert_eq!(grade_answer(&close, &action), Some(true));
    assert_eq!(grade_answer(&far, &action), Some(false));
    assert_eq!(grade_answer(&Answer::PokerAction(PokerAction::Fold), &action), Some(false));
}

#[test]
fn tie_between_fully_overdue_items_pops_one_of_them() {
    let h1 = hand(Card::Ace, Card::King);
    let h2 = hand(Card::Queen, Card::Jack);
    let ranges = vec![named_range("pair of picks", &[h1, h2])];
    let empty = ReviewCollection::new();
    let items = rebuild_collection(&ranges, &empty, 2, 2, 3, 2);
    assert_eq!(items.len(), 2);
    let trainer = RangeTrainer::new(ranges, items, 0);
    let current = trainer.current_question.as_ref().expect("a question is selected");
    assert_eq!(current.percent_overdue(0), SCALE);
    let k1 = membership_key("pair of picks", h1);
    let k2 = membership_key("pair of picks", h2);
    let shown = (current.question.presentation.clone(), current.question.answer.clone());
    assert!(shown == k1 || shown == k2);
}

#[test]
fn stale_schedule_token_presents_the_current_item() {
    let h1 = hand(Card::Ace, Card::King);
    let ranges = vec![named_range("solo", &[h1])];
    let empty = ReviewCollection::new();
    let items = rebuild_collection(&ranges, &empty, 2, 2, 3, 2);
    let mut trainer = RangeTrainer::new(ranges, items, 0);
    let key = membership_key("solo", h1);
    // The startup pop consumed the only token; answering pushes a fresh
    // token for the key while the item itself has just been rewritten.
    let outcome = trainer.submit_answer(&key, &Answer::Yes, 7_000);
    assert_eq!(outcome, Some(true));
    trainer.request_new_question();
    let shown = trainer.current_question.as_ref().expect("the key is still stored");
    assert_eq!(shown.date_last_reviewed, Some(7_000));
    assert!(shown.last_answer_correct);
    assert_eq!(shown, trainer.review_items.get(&key).unwrap());
}

#[test]
fn wrong_answer_keeps_the_item_maximally_due() {
    let h1 = hand(Card::Ace, Card::King);
    let ranges = vec![named_range("solo", &[h1])];
    let empty = ReviewCollection::new();
    let items = rebuild_collection(&ranges, &empty, 2, 2, 3, 2);
    let mut trainer = RangeTrainer::new(ranges, items, 0);
    let key = membership_key("solo", h1);
    let outcome = trainer.submit_answer(&key, &Answer::No, 9_000);
    assert_eq!(outcome, Some(false));
    let item = trainer.review_items.get(&key).unwrap();
    assert!(!item.last_answer_correct);
    assert_eq!(item.percent_overdue(9_000), SCALE);
    assert_eq!(item.percent_overdue(9_000 + 86_400 * 30), SCALE);
}
