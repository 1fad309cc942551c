//! Ranges, Chen values, and selecting the top share of all hands.

use range_trainer::card::Card;
use range_trainer::hand::{Hand, Suit};
use range_trainer::num::{fmt_amount, fmt_micros, parse_amount, Amount};
use range_trainer::range::Range;

fn hand(a: Card, b: Card, s: Suit) -> Hand {
    Hand { first: a, second: b, suited: s }
}

#[test]
fn chen_values_of_known_hands() {
    // Doubled Chen points: aces 20, a pair doubles, suited adds 2,
    // gaps subtract, low connectors get the straight bonus.
    assert_eq!(hand(Card::Ace, Card::Ace, Suit::Off).chen_value_x2(), 40);
    assert_eq!(hand(Card::Ace, Card::King, Suit::Suited).chen_value_x2(), 24);
    assert_eq!(hand(Card::Five, Card::Five, Suit::Off).chen_value_x2(), 12);
    assert_eq!(hand(Card::Seven, Card::Six, Suit::Suited).chen_value_x2(), 13);
    assert_eq!(hand(Card::Seven, Card::Two, Suit::Off).chen_value_x2(), -3);
}

#[test]
fn toggle_adds_then_removes() {
    let mut r = Range::new();
    assert_eq!(r.name, "untitled range");
    let h = hand(Card::Ten, Card::Nine, Suit::Suited);
    assert!(!r.contains(&h));
    r.toggle(h);
    assert!(r.contains(&h));
    r.toggle(h);
    assert!(!r.contains(&h));
}

#[test]
fn from_percent_takes_the_strongest_share() {
    let all = Range::from_percent(100);
    assert_eq!(all.name, "Top 100 percent");
    assert_eq!(all.hands.len(), 325);
    let none = Range::from_percent(0);
    assert_eq!(none.hands.len(), 0);
    let top = Range::from_percent(20);
    assert_eq!(top.name, "Top 20 percent");
    assert_eq!(top.hands.len(), 65);
    assert!(top.contains(&hand(Card::Ace, Card::Ace, Suit::Off)));
    assert!(!top.contains(&hand(Card::Seven, Card::Two, Suit::Off)));
}

#[test]
fn amounts_print_and_parse_canonically() {
    let texts: Vec<(Amount, &str)> = vec![
        (Amount { neg: false, micros: 0 }, "0"),
        (Amount { neg: false, micros: 12_500_000 }, "12.5"),
        (Amount { neg: false, micros: 300_000 }, "0.3"),
        (Amount { neg: true, micros: 2_000_001 }, "-2.000001"),
        (Amount { neg: false, micros: 7_000_000 }, "7"),
    ];
    for (a, want) in texts {
        let chars = fmt_amount(&a);
        let text: String = chars.iter().collect();
        assert_eq!(text, want);
        let n = chars.len();
        assert_eq!(parse_amount(&chars, 0, n), Some(a));
    }
}

#[test]
fn micros_formatting_matches_decimal_text() {
    let one: String = fmt_micros(1).iter().collect();
    assert_eq!(one, "0.000001");
    let whole: String = fmt_micros(3_000_000).iter().collect();
    assert_eq!(whole, "3");
}

#[test]
fn amount_parsing_normalizes_and_rejects() {
    let loose: Vec<char> = "012.50".chars().collect();
    let n = loose.len();
    assert_eq!(parse_amount(&loose, 0, n), Some(Amount { neg: false, micros: 12_500_000 }));
    let bad: Vec<char> = "1.2.3".chars().collect();
    let bn = bad.len();
    assert_eq!(parse_amount(&bad, 0, bn), None);
    let deep: Vec<char> = "1.1234567".chars().collect();
    let dn = deep.len();
    assert_eq!(parse_amount(&deep, 0, dn), None);
}
