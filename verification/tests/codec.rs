//! Round trips and exact forms of the canonical text encodings.

use range_trainer::card::Card;
use range_trainer::hand::{Hand, Suit, encode_hand, parse_hand};
use range_trainer::hand::ParseHandError;
use range_trainer::question::{
    Answer, Presentation, PokerAction, decode_answer, decode_poker_action, decode_presentation,
    parse_review_collection_key, serialize_review_collection_key,
};
use range_trainer::text::DisplayString;

fn hand(a: Card, b: Card, s: Suit) -> Hand {
    Hand { first: a, second: b, suited: s }
}

#[test]
fn display_string_sanitizes_separators_and_newlines() {
    let d = DisplayString::new("a\u{2A3C}b\u{2999}c\nd");
    assert_eq!(d.0, "a_b|c\\nd");
}

#[test]
fn display_string_sanitize_is_idempotent() {
    let once = DisplayString::new("x\ny\u{2A3C}z");
    let twice = DisplayString::new(&once.0);
    assert_eq!(once, twice);
}

#[test]
fn display_form_restores_newlines() {
    let d = DisplayString::new("two\nlines");
    assert_eq!(d.to_display(), "two\nlines");
    assert_eq!(d.0, "two\\nlines");
}

#[test]
fn hand_text_round_trip() {
    let h = hand(Card::Ace, Card::King, Suit::Suited);
    let text = encode_hand(&h);
    let n = text.len();
    assert_eq!(parse_hand(&text, 0, n), Ok(h));
    let pair = hand(Card::Seven, Card::Seven, Suit::Off);
    let ptext = encode_hand(&pair);
    let s: String = ptext.iter().collect();
    assert_eq!(s, "77");
    let pn = ptext.len();
    assert_eq!(parse_hand(&ptext, 0, pn), Ok(pair));
}

#[test]
fn presentation_text_round_trip() {
    let p = Presentation::Text(DisplayString::new("what beats a flush?"));
    let text = p.encode();
    assert_eq!(text, "Presentation\u{2A3C}Text\u{2A3C}what beats a flush?");
    assert_eq!(decode_presentation(&text), Ok(p));
}

#[test]
fn presentation_text_hand_round_trip() {
    let p = Presentation::TextHand(
        DisplayString::new("open raise?"),
        hand(Card::Queen, Card::Jack, Suit::Off),
    );
    let text = p.encode();
    assert_eq!(text, "Presentation\u{2A3C}TextHand\u{2A3C}open raise?\u{2A3C}QJo");
    assert_eq!(decode_presentation(&text), Ok(p));
}

#[test]
fn presentation_decode_rejects_bad_tag() {
    assert!(decode_presentation("Presentation\u{2A3C}Image\u{2A3C}x").is_err());
    assert!(decode_presentation("nonsense").is_err());
    assert!(decode_presentation("Presentation\u{2A3C}TextHand\u{2A3C}x\u{2A3C}ZZ").is_err());
}

#[test]
fn answer_round_trips() {
    for a in [
        Answer::Yes,
        Answer::No,
        Answer::Text(DisplayString::new("42")),
        Answer::PokerAction(PokerAction::Fold),
        Answer::PokerAction(PokerAction::Check),
        Answer::PokerAction(PokerAction::Call),
        Answer::PokerAction(PokerAction::Raise(String::from("12.5"))),
    ] {
        let text = a.encode();
        assert_eq!(decode_answer(&text), Ok(a));
    }
}

#[test]
fn answer_exact_encodings() {
    assert_eq!(Answer::Yes.encode(), "Answer\u{2A3C}Yes");
    let raise = Answer::PokerAction(PokerAction::Raise(String::from("12.5")));
    assert_eq!(
        raise.encode(),
        "Answer\u{2A3C}PokerAction\u{2A3C}PokerAction\u{2A3C}Raise\u{2A3C}12.5"
    );
}

#[test]
fn answer_decode_rejects_bad_input() {
    assert!(decode_answer("Answer\u{2A3C}Maybe").is_err());
    assert!(decode_answer("").is_err());
}

#[test]
fn poker_action_raise_rejects_non_numeric_amount() {
    assert!(decode_poker_action("PokerAction\u{2A3C}Raise\u{2A3C}abc").is_err());
    assert_eq!(
        decode_poker_action("PokerAction\u{2A3C}Raise\u{2A3C}3.25"),
        Ok(PokerAction::Raise(String::from("3.25")))
    );
}

#[test]
fn composite_key_round_trip() {
    let key = (
        Presentation::TextHand(DisplayString::new("top pairs"), hand(Card::Ace, Card::Ace, Suit::Off)),
        Answer::Yes,
    );
    let text = serialize_review_collection_key(&key);
    assert_eq!(
        text,
        "Presentation\u{2A3C}TextHand\u{2A3C}top pairs\u{2A3C}AA\u{2999}Answer\u{2A3C}Yes"
    );
    assert_eq!(parse_review_collection_key(&text), Some(key));
}

#[test]
fn composite_key_with_separators_in_source_text() {
    let key = (
        Presentation::Text(DisplayString::new("odd \u{2999} name \u{2A3C} here")),
        Answer::Text(DisplayString::new("0")),
    );
    let text = serialize_review_collection_key(&key);
    assert_eq!(parse_review_collection_key(&text), Some(key));
}

#[test]
fn composite_key_rejects_missing_separator() {
    assert_eq!(parse_review_collection_key("Presentation\u{2A3C}Text\u{2A3C}x"), None);
}

#[test]
fn reveal_text_forms() {
    assert_eq!(Answer::Yes.reveal_text(), "Yes");
    assert_eq!(Answer::No.reveal_text(), "No");
    assert_eq!(Answer::Text(DisplayString::new("17")).reveal_text(), "17");
    assert_eq!(
        Answer::PokerAction(PokerAction::Raise(String::from("2.5"))).reveal_text(),
        "Raise 2.5 BB"
    );
}

#[test]
fn composite_key_with_nested_action_round_trip() {
    let key = (
        Presentation::Text(DisplayString::new("facing a shove")),
        Answer::PokerAction(PokerAction::Raise(String::from("99.5"))),
    );
    let text = serialize_review_collection_key(&key);
    assert_eq!(parse_review_collection_key(&text), Some(key));
}

#[test]
fn hand_parse_rejects_bad_shapes() {
    let no_suit: Vec<char> = "AK".chars().collect();
    assert_eq!(parse_hand(&no_suit, 0, 2), Err(ParseHandError));
    let suited_pair: Vec<char> = "AAs".chars().collect();
    assert_eq!(parse_hand(&suited_pair, 0, 3), Err(ParseHandError));
    assert!(Suit::from_char('x').is_err());
    assert!(Suit::from_char('s').is_ok());
}
