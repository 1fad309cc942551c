//! The keyed collection and its stored-text round trip.

use range_trainer::card::Card;
use range_trainer::collection::ReviewCollection;
use range_trainer::hand::{Hand, Suit};
use range_trainer::item::ReviewItem;
use range_trainer::question::{Answer, Options, PokerAction, Presentation, Question};
use range_trainer::text::DisplayString;

fn key_a() -> (Presentation, Answer) {
    (
        Presentation::TextHand(
            DisplayString::new("tight range"),
            Hand { first: Card::Ace, second: Card::King, suited: Suit::Suited },
        ),
        Answer::Yes,
    )
}

fn key_b() -> (Presentation, Answer) {
    (
        Presentation::Text(DisplayString::new("RFE for 1BB bet to win 1.5BB pot")),
        Answer::Text(DisplayString::new("0")),
    )
}

fn item_for(key: &(Presentation, Answer), options: Options, tolerance: Option<u64>) -> ReviewItem {
    ReviewItem {
        difficulty: 412_000,
        days_between_review_attempts: 1_250_000,
        date_last_reviewed: Some(-3_600),
        last_answer_correct: true,
        question: Question {
            presentation: key.0.clone(),
            options,
            answer: key.1.clone(),
            tolerance,
        },
    }
}

#[test]
fn insert_get_and_replace() {
    let mut c = ReviewCollection::new();
    assert_eq!(c.len(), 0);
    assert!(c.get(&key_a()).is_none());
    let first = ReviewItem::seed(item_for(&key_a(), Options::Binary, None).question);
    assert_eq!(c.insert(key_a(), first.clone()), None);
    assert_eq!(c.len(), 1);
    assert_eq!(c.get(&key_a()), Some(&first));
    let second = item_for(&key_a(), Options::Binary, None);
    assert_eq!(c.insert(key_a(), second.clone()), Some(first));
    assert_eq!(c.len(), 1);
    assert_eq!(c.get(&key_a()), Some(&second));
    assert!(c.get(&key_b()).is_none());
}

#[test]
fn get_mut_edits_in_place() {
    let mut c = ReviewCollection::new();
    c.insert(key_a(), item_for(&key_a(), Options::Binary, None));
    if let Some(item) = c.get_mut(&key_a()) {
        item.difficulty = 999;
    } else {
        panic!("key must be present");
    }
    assert_eq!(c.get(&key_a()).unwrap().difficulty, 999);
    assert!(c.get_mut(&key_b()).is_none());
}

#[test]
fn serialized_collection_round_trips() {
    let mut c = ReviewCollection::new();
    c.insert(key_a(), item_for(&key_a(), Options::Binary, None));
    c.insert(key_b(), item_for(&key_b(), Options::Numbers, Some(9_600_000)));
    let never = (
        key_a().0,
        Answer::PokerAction(PokerAction::Raise(String::from("7.25"))),
    );
    let mut fresh = item_for(&never, Options::PokerAction, Some(100));
    fresh.date_last_reviewed = None;
    fresh.last_answer_correct = false;
    c.insert(never.clone(), fresh);
    let text = c.serialize();
    let back = ReviewCollection::deserialize(&text).expect("own text must parse");
    assert_eq!(back, c);
    assert_eq!(back.serialize(), text);
}

#[test]
fn empty_collection_round_trips() {
    let c = ReviewCollection::new();
    let text = c.serialize();
    assert_eq!(text, "");
    let back = ReviewCollection::deserialize(&text).expect("empty text must parse");
    assert_eq!(back.len(), 0);
}

#[test]
fn deserialize_rejects_malformed_text() {
    assert!(ReviewCollection::deserialize("not a stored line").is_none());
    let mut c = ReviewCollection::new();
    c.insert(key_a(), item_for(&key_a(), Options::Binary, None));
    let mut text = c.serialize();
    text.push('\u{2999}');
    assert!(ReviewCollection::deserialize(&text).is_none());
}

#[test]
fn deserialize_rejects_out_of_range_state() {
    let mut c = ReviewCollection::new();
    let mut item = item_for(&key_a(), Options::Binary, None);
    item.days_between_review_attempts = 1;
    c.insert(key_a(), item);
    let text = c.serialize();
    let zeroed = text.replacen("0.000001", "0", 1);
    assert!(ReviewCollection::deserialize(&zeroed).is_none());
}
