//! The question model: presentations, answers, poker actions, and their
//! canonical text encodings.
//!
//! Each variant type has an injective single-line encoding built from
//! literal tag words and the field separator. Decoding the encoding of any
//! well-formed value gives that value back; the decoders state this for
//! every value at once in their contracts.

use vstd::prelude::*;
use crate::hand::{Hand, spec_encode_hand, encode_hand, parse_hand};
use crate::num::{Amount, spec_fmt_amount, spec_parse_amount, fmt_amount, parse_amount};
use crate::text::{
    DisplayString, FIELD_SEP, KEY_SEP, is_clean, chars_of_str, string_from_chars, push_all,
    push_str_chars, subrange_chars, find_char_range, range_eq, starts_with_at,
};

verus! {

/// How a question is put to the user: prose, or prose plus a hand to show.
#[derive(Debug, Clone, PartialEq, Eq, Hash)]
pub enum Presentation {
    Text(DisplayString),
    TextHand(DisplayString, Hand),
}

/// The abstract value of a [`Presentation`].
pub enum PresentationV {
    Text(Seq<char>),
    TextHand(Seq<char>, Hand),
}

/// The answer-input mode of a question; descriptive only.
#[derive(Debug, Clone, Copy, PartialEq, Eq, Hash, Structural)]
pub enum Options {
    Binary,
    Numbers,
    PokerAction,
}

/// A poker action an answer can name; a raise carries its amount as
/// canonical decimal text.
#[derive(Debug, Clone, PartialEq, Eq, Hash)]
pub enum PokerAction {
    Fold,
    Raise(String),
    Check,
    Call,
}

/// The abstract value of a [`PokerAction`].
pub enum PokerActionV {
    Fold,
    Raise(Seq<char>),
    Check,
    Call,
}

/// The answer to a question.
#[derive(Debug, Clone, PartialEq, Eq, Hash)]
pub enum Answer {
    Yes,
    No,
    Text(DisplayString),
    PokerAction(PokerAction),
}

/// The abstract value of an [`Answer`].
pub enum AnswerV {
    Yes,
    No,
    Text(Seq<char>),
    PokerAction(PokerActionV),
}

/// The text of a presentation could not be parsed.
#[derive(Clone, Copy, Debug, PartialEq, Eq, Structural)]
pub struct ParsePresentationError;

/// The text of an answer could not be parsed.
#[derive(Clone, Copy, Debug, PartialEq, Eq, Structural)]
pub struct ParseAnswerError;

/// The text of a poker action could not be parsed.
#[derive(Clone, Copy, Debug, PartialEq, Eq, Structural)]
pub struct ParsePokerActionError;

impl View for Presentation {
    type V = PresentationV;

    open spec fn view(&self) -> PresentationV {
        match self {
            Presentation::Text(d) => PresentationV::Text(d@),
            Presentation::TextHand(d, h) => PresentationV::TextHand(d@, *h),
        }
    }
}

impl View for PokerAction {
    type V = PokerActionV;

    open spec fn view(&self) -> PokerActionV {
        match self {
            PokerAction::Fold => PokerActionV::Fold,
            PokerAction::Raise(s) => PokerActionV::Raise(s@),
            PokerAction::Check => PokerActionV::Check,
            PokerAction::Call => PokerActionV::Call,
        }
    }
}

impl View for Answer {
    type V = AnswerV;

    open spec fn view(&self) -> AnswerV {
        match self {
            Answer::Yes => AnswerV::Yes,
            Answer::No => AnswerV::No,
            Answer::Text(d) => AnswerV::Text(d@),
            Answer::PokerAction(p) => AnswerV::PokerAction(p@),
        }
    }
}

/// A raise amount is valid when it is the canonical text of some amount.
pub open spec fn raise_amount_valid(s: Seq<char>) -> bool {
    exists|a: Amount| a.wf() && s == spec_fmt_amount(a)
}

/// A well-formed presentation holds sanitized text and a well-formed hand.
pub open spec fn presentation_v_wf(p: PresentationV) -> bool {
    match p {
        PresentationV::Text(t) => is_clean(t),
        PresentationV::TextHand(t, h) => is_clean(t) && h.wf(),
    }
}

/// A well-formed poker action carries a canonical raise amount, if any.
pub open spec fn poker_v_wf(p: PokerActionV) -> bool {
    match p {
        PokerActionV::Raise(s) => raise_amount_valid(s),
        _ => true,
    }
}

/// A well-formed answer holds sanitized text and a well-formed action.
pub open spec fn answer_v_wf(a: AnswerV) -> bool {
    match a {
        AnswerV::Text(t) => is_clean(t),
        AnswerV::PokerAction(p) => poker_v_wf(p),
        _ => true,
    }
}

impl Presentation {
    /// The invariant that construction and decoding establish.
    pub open spec fn wf(&self) -> bool {
        presentation_v_wf(self@)
    }

    /// An exact copy.
    pub fn duplicate(&self) -> (r: Presentation)
        ensures
            r@ == self@,
    {
        match self {
            Presentation::Text(d) => Presentation::Text(d.duplicate()),
            Presentation::TextHand(d, h) => Presentation::TextHand(d.duplicate(), *h),
        }
    }
}

impl PokerAction {
    /// The invariant that construction and decoding establish.
    pub open spec fn wf(&self) -> bool {
        poker_v_wf(self@)
    }

    /// An exact copy.
    pub fn duplicate(&self) -> (r: PokerAction)
        ensures
            r@ == self@,
    {
        match self {
            PokerAction::Fold => PokerAction::Fold,
            PokerAction::Raise(s) => PokerAction::Raise(s.clone()),
            PokerAction::Check => PokerAction::Check,
            PokerAction::Call => PokerAction::Call,
        }
    }
}

impl Answer {
    /// The invariant that construction and decoding establish.
    pub open spec fn wf(&self) -> bool {
        answer_v_wf(self@)
    }

    /// An exact copy.
    pub fn duplicate(&self) -> (r: Answer)
        ensures
            r@ == self@,
    {
        match self {
            Answer::Yes => Answer::Yes,
            Answer::No => Answer::No,
            Answer::Text(d) => Answer::Text(d.duplicate()),
            Answer::PokerAction(p) => Answer::PokerAction(p.duplicate()),
        }
    }
}

/// Whether two presentations are the same value.
pub fn presentation_eq(a: &Presentation, b: &Presentation) -> (r: bool)
    ensures
        r == (a@ == b@),
{
    match (a, b) {
        (Presentation::Text(x), Presentation::Text(y)) => crate::text::display_eq(x, y),
        (Presentation::TextHand(x, g), Presentation::TextHand(y, h)) => {
            crate::text::display_eq(x, y) && crate::hand::card_eq(g.first, h.first)
                && crate::hand::card_eq(g.second, h.second) && suit_eq(g.suited, h.suited)
        },
        _ => false,
    }
}

/// Whether two suitedness markers are equal.
fn suit_eq(a: crate::hand::Suit, b: crate::hand::Suit) -> (r: bool)
    ensures
        r == (a == b),
{
    a == b
}

/// Whether two poker actions are the same value.
pub fn poker_action_eq(a: &PokerAction, b: &PokerAction) -> (r: bool)
    ensures
        r == (a@ == b@),
{
    match (a, b) {
        (PokerAction::Fold, PokerAction::Fold) => true,
        (PokerAction::Check, PokerAction::Check) => true,
        (PokerAction::Call, PokerAction::Call) => true,
        (PokerAction::Raise(x), PokerAction::Raise(y)) => *x == *y,
        _ => false,
    }
}

/// Whether two answers are the same value.
pub fn answer_eq(a: &Answer, b: &Answer) -> (r: bool)
    ensures
        r == (a@ == b@),
{
    match (a, b) {
        (Answer::Yes, Answer::Yes) => true,
        (Answer::No, Answer::No) => true,
        (Answer::Text(x), Answer::Text(y)) => crate::text::display_eq(x, y),
        (Answer::PokerAction(x), Answer::PokerAction(y)) => poker_action_eq(x, y),
        _ => false,
    }
}

/// The canonical encoding of a presentation.
pub open spec fn spec_encode_presentation(p: PresentationV) -> Seq<char> {
    match p {
        PresentationV::Text(t) => "Presentation"@ + seq![FIELD_SEP] + "Text"@ + seq![FIELD_SEP]
            + t,
        PresentationV::TextHand(t, h) => "Presentation"@ + seq![FIELD_SEP] + "TextHand"@ + seq![
            FIELD_SEP,
        ] + t + seq![FIELD_SEP] + spec_encode_hand(h),
    }
}

/// The canonical encoding of a poker action.
pub open spec fn spec_encode_poker(p: PokerActionV) -> Seq<char> {
    match p {
        PokerActionV::Fold => "PokerAction"@ + seq![FIELD_SEP] + "Fold"@,
        PokerActionV::Check => "PokerAction"@ + seq![FIELD_SEP] + "Check"@,
        PokerActionV::Call => "PokerAction"@ + seq![FIELD_SEP] + "Call"@,
        PokerActionV::Raise(s) => "PokerAction"@ + seq![FIELD_SEP] + "Raise"@ + seq![FIELD_SEP]
            + s,
    }
}

/// The canonical encoding of an answer.
pub open spec fn spec_encode_answer(a: AnswerV) -> Seq<char> {
    match a {
        AnswerV::Yes => "Answer"@ + seq![FIELD_SEP] + "Yes"@,
        AnswerV::No => "Answer"@ + seq![FIELD_SEP] + "No"@,
        AnswerV::Text(t) => "Answer"@ + seq![FIELD_SEP] + "Text"@ + seq![FIELD_SEP] + t,
        AnswerV::PokerAction(p) => "Answer"@ + seq![FIELD_SEP] + "PokerAction"@ + seq![FIELD_SEP]
            + spec_encode_poker(p),
    }
}

/// Two tag words joined by the field separator.
fn cat2(a: &str, b: &str) -> (r: Vec<char>)
    ensures
        r@ == a@ + seq![FIELD_SEP] + b@,
{
    let mut out: Vec<char> = Vec::new();
    push_str_chars(&mut out, a);
    out.push(FIELD_SEP);
    push_str_chars(&mut out, b);
    proof {
        assert(out@ =~= a@ + seq![FIELD_SEP] + b@);
    }
    out
}

/// Two tag words, each followed by the field separator.
fn cat2p(a: &str, b: &str) -> (r: Vec<char>)
    ensures
        r@ == a@ + seq![FIELD_SEP] + b@ + seq![FIELD_SEP],
{
    let mut out: Vec<char> = Vec::new();
    push_str_chars(&mut out, a);
    out.push(FIELD_SEP);
    push_str_chars(&mut out, b);
    out.push(FIELD_SEP);
    proof {
        assert(out@ =~= a@ + seq![FIELD_SEP] + b@ + seq![FIELD_SEP]);
    }
    out
}

/// The lengths of the poker-action tag words.
pub proof fn lemma_poker_tag_lens()
    ensures
        "PokerAction"@.len() == 11,
        "Fold"@.len() == 4,
        "Check"@.len() == 5,
        "Call"@.len() == 4,
        "Raise"@.len() == 5,
        "Fold"@[0] == 'F',
        "Check"@[0] == 'C',
        "Call"@[0] == 'C',
        "Check"@[1] == 'h',
        "Call"@[1] == 'a',
        "Raise"@[0] == 'R',
{
    reveal_strlit("PokerAction");
    reveal_strlit("Fold");
    reveal_strlit("Check");
    reveal_strlit("Call");
    reveal_strlit("Raise");
}

/// The lengths of the presentation tag words.
proof fn lemma_presentation_tag_lens()
    ensures
        "Presentation"@.len() == 12,
        "Text"@.len() == 4,
        "TextHand"@.len() == 8,
        "TextHand"@[4] == 'H',
{
    reveal_strlit("Presentation");
    reveal_strlit("Text");
    reveal_strlit("TextHand");
}

/// The lengths of the answer tag words.
proof fn lemma_answer_tag_lens()
    ensures
        "Answer"@.len() == 6,
        "Yes"@.len() == 3,
        "No"@.len() == 2,
        "Text"@.len() == 4,
        "PokerAction"@.len() == 11,
        "Text"@[0] == 'T',
        "PokerAction"@[0] == 'P',
{
    reveal_strlit("Text");
    reveal_strlit("PokerAction");
    reveal_strlit("Answer");
    reveal_strlit("Yes");
    reveal_strlit("No");
}

/// A valid raise amount is nonempty text.
proof fn lemma_raise_valid_nonempty(x: Seq<char>)
    requires
        raise_amount_valid(x),
    ensures
        x.len() >= 1,
{
    let a = choose|a: Amount| a.wf() && x == spec_fmt_amount(a);
    crate::num::lemma_fmt_micros_parts(a.micros as nat);
}

impl Presentation {
    /// Encodes this presentation as characters.
    pub fn encode_chars(&self) -> (r: Vec<char>)
        ensures
            r@ == spec_encode_presentation(self@),
    {
        let mut out: Vec<char> = Vec::new();
        push_str_chars(&mut out, "Presentation");
        out.push(FIELD_SEP);
        match self {
            Presentation::Text(d) => {
                push_str_chars(&mut out, "Text");
                out.push(FIELD_SEP);
                let body = d.chars();
                push_all(&mut out, &body);
            },
            Presentation::TextHand(d, h) => {
                push_str_chars(&mut out, "TextHand");
                out.push(FIELD_SEP);
                let body = d.chars();
                push_all(&mut out, &body);
                out.push(FIELD_SEP);
                let hb = encode_hand(h);
                push_all(&mut out, &hb);
            },
        }
        proof {
            assert(out@ =~= spec_encode_presentation(self@));
        }
        out
    }

    /// Encodes this presentation as its canonical text.
    pub fn encode(&self) -> (r: String)
        ensures
            r@ == spec_encode_presentation(self@),
    {
        let v = self.encode_chars();
        string_from_chars(&v)
    }
}

impl PokerAction {
    /// Encodes this action as characters.
    pub fn encode_chars(&self) -> (r: Vec<char>)
        ensures
            r@ == spec_encode_poker(self@),
    {
        let mut out: Vec<char> = Vec::new();
        push_str_chars(&mut out, "PokerAction");
        out.push(FIELD_SEP);
        match self {
            PokerAction::Fold => {
                push_str_chars(&mut out, "Fold");
            },
            PokerAction::Check => {
                push_str_chars(&mut out, "Check");
            },
            PokerAction::Call => {
                push_str_chars(&mut out, "Call");
            },
            PokerAction::Raise(s) => {
                push_str_chars(&mut out, "Raise");
                out.push(FIELD_SEP);
                push_str_chars(&mut out, s.as_str());
            },
        }
        proof {
            assert(out@ =~= spec_encode_poker(self@));
        }
        out
    }

    /// Encodes this action as its canonical text.
    pub fn encode(&self) -> (r: String)
        ensures
            r@ == spec_encode_poker(self@),
    {
        let v = self.encode_chars();
        string_from_chars(&v)
    }
}

impl Answer {
    /// Encodes this answer as characters.
    pub fn encode_chars(&self) -> (r: Vec<char>)
        ensures
            r@ == spec_encode_answer(self@),
    {
        let mut out: Vec<char> = Vec::new();
        push_str_chars(&mut out, "Answer");
        out.push(FIELD_SEP);
        match self {
            Answer::Yes => {
                push_str_chars(&mut out, "Yes");
            },
            Answer::No => {
                push_str_chars(&mut out, "No");
            },
            Answer::Text(d) => {
                push_str_chars(&mut out, "Text");
                out.push(FIELD_SEP);
                let body = d.chars();
                push_all(&mut out, &body);
            },
            Answer::PokerAction(p) => {
                push_str_chars(&mut out, "PokerAction");
                out.push(FIELD_SEP);
                let body = p.encode_chars();
                push_all(&mut out, &body);
            },
        }
        proof {
            assert(out@ =~= spec_encode_answer(self@));
        }
        out
    }

    /// Encodes this answer as its canonical text.
    pub fn encode(&self) -> (r: String)
        ensures
            r@ == spec_encode_answer(self@),
    {
        let v = self.encode_chars();
        string_from_chars(&v)
    }
}

/// Decodes a poker action from the characters of `v` between `from` and
/// `to`.
///
/// Decoding the encoding of any well-formed action gives that action back:
/// the second clause states this round trip for every action at once.
pub fn decode_poker_chars(v: &Vec<char>, from: usize, to: usize) -> (r: Result<
    PokerAction,
    ParsePokerActionError,
>)
    requires
        from <= to <= v@.len(),
    ensures
        r is Ok ==> r->Ok_0.wf(),
        r is Ok ==> v@.subrange(from as int, to as int) == spec_encode_poker(r->Ok_0@),
        forall|p: PokerActionV|
            poker_v_wf(p) && v@.subrange(from as int, to as int) == spec_encode_poker(p) ==> r
                is Ok && r->Ok_0@ == p,
{
    let ghost s = v@.subrange(from as int, to as int);
    proof {
        reveal_strlit("PokerAction");
        reveal_strlit("Fold");
        reveal_strlit("Check");
        reveal_strlit("Call");
        reveal_strlit("Raise");
    }
    let lit_fold = cat2("PokerAction", "Fold");
    let lit_check = cat2("PokerAction", "Check");
    let lit_call = cat2("PokerAction", "Call");
    let raise_prefix = cat2p("PokerAction", "Raise");
    if range_eq(v, from, to, &lit_fold) {
        proof {
            assert forall|p: PokerActionV|
                poker_v_wf(p) && s == spec_encode_poker(p) implies PokerActionV::Fold == p by {
                lemma_poker_tag_lens();
                assert(s == lit_fold@);
                assert(s.len() == 16);
                match p {
                    PokerActionV::Fold => {
                    },
                    PokerActionV::Check => {
                        assert(spec_encode_poker(p).len() == 17);
                        assert(false);
                    },
                    PokerActionV::Call => {
                        assert(spec_encode_poker(p).len() == 16);
                        assert(spec_encode_poker(p)[12] == 'C');
                        assert(lit_fold@[12] == 'F');
                        assert(false);
                    },
                    PokerActionV::Raise(x) => {
                        lemma_raise_valid_nonempty(x);
                        assert(spec_encode_poker(p).len() >= 19);
                        assert(false);
                    },
                }
            }
        }
        proof {
            assert(s == spec_encode_poker(PokerActionV::Fold));
        }
        Ok(PokerAction::Fold)
    } else if range_eq(v, from, to, &lit_check) {
        proof {
            assert forall|p: PokerActionV|
                poker_v_wf(p) && s == spec_encode_poker(p) implies PokerActionV::Check == p by {
                lemma_poker_tag_lens();
                assert(s.len() == 17);
                match p {
                    PokerActionV::Check => {
                    },
                    PokerActionV::Fold => {
                        assert(spec_encode_poker(p).len() == 16);
                        assert(false);
                    },
                    PokerActionV::Call => {
                        assert(spec_encode_poker(p).len() == 16);
                        assert(false);
                    },
                    PokerActionV::Raise(x) => {
                        lemma_raise_valid_nonempty(x);
                        assert(spec_encode_poker(p).len() >= 19);
                        assert(false);
                    },
                }
            }
        }
        proof {
            assert(s == spec_encode_poker(PokerActionV::Check));
        }
        Ok(PokerAction::Check)
    } else if range_eq(v, from, to, &lit_call) {
        proof {
            assert forall|p: PokerActionV|
                poker_v_wf(p) && s == spec_encode_poker(p) implies PokerActionV::Call == p by {
                lemma_poker_tag_lens();
                assert(s == lit_call@);
                assert(s.len() == 16);
                match p {
                    PokerActionV::Call => {
                    },
                    PokerActionV::Fold => {
                        assert(spec_encode_poker(p)[12] == 'F');
                        assert(lit_call@[12] == 'C');
                        assert(false);
                    },
                    PokerActionV::Check => {
                        assert(spec_encode_poker(p).len() == 17);
                        assert(false);
                    },
                    PokerActionV::Raise(x) => {
                        lemma_raise_valid_nonempty(x);
                        assert(spec_encode_poker(p).len() >= 19);
                        assert(false);
                    },
                }
            }
        }
        proof {
            assert(s == spec_encode_poker(PokerActionV::Call));
        }
        Ok(PokerAction::Call)
    } else if starts_with_at(v, from, to, &raise_prefix) {
        let body_start = from + raise_prefix.len();
        let ghost rpl = raise_prefix@.len() as int;
        proof {
            assert(s.subrange(rpl, s.len() as int) =~= v@.subrange(body_start as int, to as int));
        }
        match parse_amount(v, body_start, to) {
            Some(a) => {
                let txt = fmt_amount(&a);
                if !range_eq(v, body_start, to, &txt) {
                    proof {
                        assert forall|p: PokerActionV|
                            poker_v_wf(p) && s == spec_encode_poker(p) implies false by {
                            lemma_poker_tag_lens();
                            assert(s.len() >= 18);
                            match p {
                                PokerActionV::Fold => {
                                    assert(spec_encode_poker(p).len() == 16);
                                },
                                PokerActionV::Check => {
                                    assert(spec_encode_poker(p).len() == 17);
                                },
                                PokerActionV::Call => {
                                    assert(spec_encode_poker(p).len() == 16);
                                },
                                PokerActionV::Raise(x) => {
                                    assert(spec_encode_poker(p).subrange(rpl, s.len() as int)
                                        =~= x);
                                    let a0 = choose|a0: Amount| a0.wf() && x == spec_fmt_amount(
                                        a0,
                                    );
                                    crate::num::lemma_parse_fmt_amount(a0);
                                },
                            }
                        }
                    }
                    return Err(ParsePokerActionError);
                }
                let payload = string_from_chars(&txt);
                proof {
                    assert(s =~= spec_encode_poker(PokerActionV::Raise(txt@)));
                    assert forall|p: PokerActionV|
                        poker_v_wf(p) && s == spec_encode_poker(p) implies PokerActionV::Raise(
                        txt@,
                    ) == p by {
                        lemma_poker_tag_lens();
                        assert(s.len() >= 18);
                        match p {
                            PokerActionV::Fold => {
                                assert(spec_encode_poker(p).len() == 16);
                                assert(false);
                            },
                            PokerActionV::Check => {
                                assert(spec_encode_poker(p).len() == 17);
                                assert(false);
                            },
                            PokerActionV::Call => {
                                assert(spec_encode_poker(p).len() == 16);
                                assert(false);
                            },
                            PokerActionV::Raise(x) => {
                                assert(spec_encode_poker(p).subrange(rpl, s.len() as int) =~= x);
                                let a0 = choose|a0: Amount| a0.wf() && x == spec_fmt_amount(a0);
                                crate::num::lemma_parse_fmt_amount(a0);
                            },
                        }
                    }
                }
                Ok(PokerAction::Raise(payload))
            },
            None => {
                proof {
                    assert forall|p: PokerActionV|
                        poker_v_wf(p) && s == spec_encode_poker(p) implies false by {
                        lemma_poker_tag_lens();
                        assert(s.len() >= 18);
                        match p {
                            PokerActionV::Fold => {
                                assert(spec_encode_poker(p).len() == 16);
                            },
                            PokerActionV::Check => {
                                assert(spec_encode_poker(p).len() == 17);
                            },
                            PokerActionV::Call => {
                                assert(spec_encode_poker(p).len() == 16);
                            },
                            PokerActionV::Raise(x) => {
                                assert(spec_encode_poker(p).subrange(rpl, s.len() as int) =~= x);
                                let a0 = choose|a0: Amount| a0.wf() && x == spec_fmt_amount(a0);
                                crate::num::lemma_parse_fmt_amount(a0);
                            },
                        }
                    }
                }
                Err(ParsePokerActionError)
            },
        }
    } else {
        proof {
            assert forall|p: PokerActionV|
                poker_v_wf(p) && s == spec_encode_poker(p) implies false by {
                lemma_poker_tag_lens();
                match p {
                    PokerActionV::Fold => {
                        assert(s == lit_fold@);
                    },
                    PokerActionV::Check => {
                        assert(s == lit_check@);
                    },
                    PokerActionV::Call => {
                        assert(s == lit_call@);
                    },
                    PokerActionV::Raise(x) => {
                        lemma_raise_valid_nonempty(x);
                        assert(spec_encode_poker(p).subrange(0, raise_prefix@.len() as int)
                            =~= raise_prefix@);
                        assert(v@.subrange(from as int, from + raise_prefix@.len()) =~= s.subrange(
                            0,
                            raise_prefix@.len() as int,
                        ));
                        assert(s.len() >= raise_prefix@.len());
                    },
                }
            }
        }
        Err(ParsePokerActionError)
    }
}

/// Every encoded poker action is at least as long as the shortest literal.
proof fn lemma_encode_poker_min_len(p: PokerActionV)
    requires
        poker_v_wf(p),
    ensures
        spec_encode_poker(p).len() >= 16,
{
    lemma_poker_tag_lens();
    if let PokerActionV::Raise(x) = p {
        lemma_raise_valid_nonempty(x);
    }
}
/// Splits a slice of `v` along a known concatenation: if the slice equals
/// `pre + rest`, the two halves can be read off at their own ranges.
proof fn lemma_seq_chop(v: Seq<char>, from: int, to: int, pre: Seq<char>, rest: Seq<char>)
    requires
        0 <= from <= to <= v.len(),
        v.subrange(from, to) == pre + rest,
    ensures
        from + pre.len() <= to,
        v.subrange(from, from + pre.len()) == pre,
        v.subrange(from + pre.len(), to) == rest,
{
    assert(v.subrange(from, to).len() == pre.len() + rest.len());
    assert forall|j: int| 0 <= j < pre.len() implies v.subrange(from, from + pre.len())[j]
        == pre[j] by {
        assert(v.subrange(from, to)[j] == (pre + rest)[j]);
        assert(v.subrange(from, to)[j] == v[from + j]);
        assert((pre + rest)[j] == pre[j]);
        assert(v.subrange(from, from + pre.len())[j] == v[from + j]);
    }
    assert forall|j: int| 0 <= j < rest.len() implies v.subrange(from + pre.len(), to)[j]
        == rest[j] by {
        assert(v.subrange(from, to)[pre.len() + j] == (pre + rest)[pre.len() + j]);
        assert(v.subrange(from, to)[pre.len() + j] == v[from + pre.len() + j]);
        assert((pre + rest)[pre.len() + j] == rest[j]);
        assert(v.subrange(from + pre.len(), to)[j] == v[from + pre.len() + j]);
    }
    assert(v.subrange(from, from + pre.len()) =~= pre);
    assert(v.subrange(from + pre.len(), to) =~= rest);
}

/// Decodes a presentation from the characters of `v` between `from` and
/// `to`.
///
/// Decoding the encoding of any well-formed presentation gives that
/// presentation back: the second clause states this round trip for every
/// presentation at once.
pub fn decode_presentation_chars(v: &Vec<char>, from: usize, to: usize) -> (r: Result<
    Presentation,
    ParsePresentationError,
>)
    requires
        from <= to <= v@.len(),
    ensures
        r is Ok ==> r->Ok_0.wf(),
        r is Ok ==> v@.subrange(from as int, to as int) == spec_encode_presentation(r->Ok_0@),
        forall|p: PresentationV|
            presentation_v_wf(p) && v@.subrange(from as int, to as int)
                == spec_encode_presentation(p) ==> r is Ok && r->Ok_0@ == p,
{
    let ghost s = v@.subrange(from as int, to as int);
    let text_prefix = cat2p("Presentation", "Text");
    let hand_prefix = cat2p("Presentation", "TextHand");
    let ghost tpl = text_prefix@.len() as int;
    let ghost hpl = hand_prefix@.len() as int;
    proof {
        lemma_presentation_tag_lens();
        assert forall|p: PresentationV|
            presentation_v_wf(p) && s == spec_encode_presentation(p) implies match p {
            PresentationV::Text(t) => s =~= text_prefix@ + t,
            PresentationV::TextHand(t, h) => s =~= hand_prefix@ + (t + seq![FIELD_SEP]
                + spec_encode_hand(h)),
        } by {
            match p {
                PresentationV::Text(t) => {
                    assert(s =~= text_prefix@ + t);
                },
                PresentationV::TextHand(t, h) => {
                    assert(s =~= hand_prefix@ + (t + seq![FIELD_SEP] + spec_encode_hand(h)));
                },
            }
        }
    }
    if starts_with_at(v, from, to, &hand_prefix) {
        let body_start = from + hand_prefix.len();
        proof {
            assert forall|p: PresentationV|
                presentation_v_wf(p) && s == spec_encode_presentation(p) implies p matches
                PresentationV::TextHand(_, _) by {
                lemma_presentation_tag_lens();
                if let PresentationV::Text(t) = p {
                    lemma_seq_chop(v@, from as int, to as int, text_prefix@, t);
                    assert(v@[from + 17] == text_prefix@[17]);
                    assert(text_prefix@[17] == FIELD_SEP);
                    assert(v@.subrange(from as int, from + hpl) == hand_prefix@);
                    assert(v@[from + 17] == hand_prefix@[17]);
                    assert(hand_prefix@[17] == 'H');
                }
            }
            assert forall|p: PresentationV|
                presentation_v_wf(p) && s == spec_encode_presentation(p) implies match p {
                PresentationV::TextHand(t, h) => {
                    &&& v@.subrange(body_start as int, to as int) == t + seq![FIELD_SEP]
                        + spec_encode_hand(h)
                    &&& to - body_start > t.len()
                    &&& v@[body_start + t.len()] == FIELD_SEP
                    &&& forall|j: int|
                        0 <= j < t.len() ==> #[trigger] v@[body_start + j] != FIELD_SEP
                },
                _ => true,
            } by {
                if let PresentationV::TextHand(t, h) = p {
                    lemma_presentation_tag_lens();
                    lemma_seq_chop(
                        v@,
                        from as int,
                        to as int,
                        hand_prefix@,
                        t + seq![FIELD_SEP] + spec_encode_hand(h),
                    );
                    let rest = t + seq![FIELD_SEP] + spec_encode_hand(h);
                    assert forall|j: int| 0 <= j < t.len() implies #[trigger] v@[body_start + j]
                        != FIELD_SEP by {
                        assert(v@.subrange(body_start as int, to as int)[j] == rest[j]);
                        assert(rest[j] == t[j]);
                    }
                    assert(v@.subrange(body_start as int, to as int)[t.len() as int]
                        == rest[t.len() as int]);
                }
            }
        }
        match find_char_range(v, body_start, to, FIELD_SEP) {
            Some(cut) => {
                let raw = subrange_chars(v, body_start, cut);
                proof {
                    assert forall|p: PresentationV|
                        presentation_v_wf(p) && s == spec_encode_presentation(p) implies match p {
                        PresentationV::TextHand(t, h) => {
                            &&& cut == body_start + t.len()
                            &&& raw@ == t
                            &&& v@.subrange(cut + 1 as int, to as int) == spec_encode_hand(h)
                        },
                        _ => false,
                    } by {
                        if let PresentationV::TextHand(t, h) = p {
                            lemma_presentation_tag_lens();
                            assert(cut - body_start == t.len()) by {
                                if cut - body_start < t.len() {
                                    assert(v@[cut as int] == FIELD_SEP);
                                    assert(v@[body_start + (cut - body_start)] == FIELD_SEP);
                                }
                                if cut - body_start > t.len() {
                                    assert(v@[body_start + t.len()] == FIELD_SEP);
                                }
                            }
                            assert(raw@ =~= t);
                            lemma_seq_chop(
                                v@,
                                body_start as int,
                                to as int,
                                t + seq![FIELD_SEP],
                                spec_encode_hand(h),
                            );
                        }
                    }
                }
                if !crate::text::chars_clean(&raw) {
                    return Err(ParsePresentationError);
                }
                match parse_hand(v, cut + 1, to) {
                    Ok(h) => {
                        let d = DisplayString(string_from_chars(&raw));
                        proof {
                            assert(s =~= spec_encode_presentation(
                                PresentationV::TextHand(raw@, h),
                            ));
                        }
                        Ok(Presentation::TextHand(d, h))
                    },
                    Err(_) => Err(ParsePresentationError),
                }
            },
            None => Err(ParsePresentationError),
        }
    } else if starts_with_at(v, from, to, &text_prefix) {
        let raw = subrange_chars(v, from + text_prefix.len(), to);
        proof {
            assert forall|p: PresentationV|
                presentation_v_wf(p) && s == spec_encode_presentation(p) implies PresentationV::Text(
                raw@,
            ) == p by {
                lemma_presentation_tag_lens();
                match p {
                    PresentationV::Text(t) => {
                        lemma_seq_chop(v@, from as int, to as int, text_prefix@, t);
                        assert(raw@ == t);
                    },
                    PresentationV::TextHand(t, h2) => {
                        lemma_seq_chop(
                            v@,
                            from as int,
                            to as int,
                            hand_prefix@,
                            t + seq![FIELD_SEP] + spec_encode_hand(h2),
                        );
                        assert(s.len() >= hpl);
                    },
                }
            }
        }
        if !crate::text::chars_clean(&raw) {
            return Err(ParsePresentationError);
        }
        let d = DisplayString(string_from_chars(&raw));
        proof {
            assert(s =~= spec_encode_presentation(PresentationV::Text(raw@)));
        }
        Ok(Presentation::Text(d))
    } else {
        proof {
            assert forall|p: PresentationV|
                presentation_v_wf(p) && s == spec_encode_presentation(p) implies false by {
                lemma_presentation_tag_lens();
                match p {
                    PresentationV::Text(t) => {
                        lemma_seq_chop(v@, from as int, to as int, text_prefix@, t);
                        assert(s.len() >= tpl);
                    },
                    PresentationV::TextHand(t, h2) => {
                        lemma_seq_chop(
                            v@,
                            from as int,
                            to as int,
                            hand_prefix@,
                            t + seq![FIELD_SEP] + spec_encode_hand(h2),
                        );
                        assert(s.len() >= hpl);
                    },
                }
            }
        }
        Err(ParsePresentationError)
    }
}

/// Decodes an answer from the characters of `v` between `from` and `to`.
///
/// Decoding the encoding of any well-formed answer gives that answer back:
/// the second clause states this round trip for every answer at once.
pub fn decode_answer_chars(v: &Vec<char>, from: usize, to: usize) -> (r: Result<
    Answer,
    ParseAnswerError,
>)
    requires
        from <= to <= v@.len(),
    ensures
        r is Ok ==> r->Ok_0.wf(),
        r is Ok ==> v@.subrange(from as int, to as int) == spec_encode_answer(r->Ok_0@),
        forall|a: AnswerV|
            answer_v_wf(a) && v@.subrange(from as int, to as int) == spec_encode_answer(a) ==> r
                is Ok && r->Ok_0@ == a,
{
    let ghost s = v@.subrange(from as int, to as int);
    let lit_yes = cat2("Answer", "Yes");
    let lit_no = cat2("Answer", "No");
    let text_prefix = cat2p("Answer", "Text");
    let pa_prefix = cat2p("Answer", "PokerAction");
    let ghost tpl = text_prefix@.len() as int;
    let ghost ppl = pa_prefix@.len() as int;
    proof {
        lemma_answer_tag_lens();
        assert forall|a: AnswerV|
            answer_v_wf(a) && s == spec_encode_answer(a) implies match a {
            AnswerV::Yes => s == lit_yes@,
            AnswerV::No => s == lit_no@,
            AnswerV::Text(t) => s =~= text_prefix@ + t,
            AnswerV::PokerAction(q) => s =~= pa_prefix@ + spec_encode_poker(q),
        } by {
            match a {
                AnswerV::Yes => {
                },
                AnswerV::No => {
                },
                AnswerV::Text(t) => {
                    assert(s =~= text_prefix@ + t);
                },
                AnswerV::PokerAction(q) => {
                    assert(s =~= pa_prefix@ + spec_encode_poker(q));
                },
            }
        }
    }
    if range_eq(v, from, to, &lit_yes) {
        proof {
            assert forall|a: AnswerV|
                answer_v_wf(a) && s == spec_encode_answer(a) implies AnswerV::Yes == a by {
                lemma_answer_tag_lens();
                assert(s.len() == 10);
                match a {
                    AnswerV::Yes => {
                    },
                    AnswerV::No => {
                        assert(s.len() == 9);
                    },
                    AnswerV::Text(t) => {
                        assert(s.len() >= 12);
                    },
                    AnswerV::PokerAction(q) => {
                        lemma_encode_poker_min_len(q);
                        assert(s.len() >= 35);
                    },
                }
            }
        }
        proof {
            assert(s == spec_encode_answer(AnswerV::Yes));
        }
        Ok(Answer::Yes)
    } else if range_eq(v, from, to, &lit_no) {
        proof {
            assert forall|a: AnswerV|
                answer_v_wf(a) && s == spec_encode_answer(a) implies AnswerV::No == a by {
                lemma_answer_tag_lens();
                assert(s.len() == 9);
                match a {
                    AnswerV::No => {
                    },
                    AnswerV::Yes => {
                        assert(s.len() == 10);
                    },
                    AnswerV::Text(t) => {
                        assert(s.len() >= 12);
                    },
                    AnswerV::PokerAction(q) => {
                        lemma_encode_poker_min_len(q);
                        assert(s.len() >= 35);
                    },
                }
            }
        }
        proof {
            assert(s == spec_encode_answer(AnswerV::No));
        }
        Ok(Answer::No)
    } else if starts_with_at(v, from, to, &text_prefix) {
        let raw = subrange_chars(v, from + text_prefix.len(), to);
        proof {
            assert forall|a: AnswerV|
                answer_v_wf(a) && s == spec_encode_answer(a) implies AnswerV::Text(raw@) == a by {
                lemma_answer_tag_lens();
                assert(s.len() >= tpl);
                match a {
                    AnswerV::Yes => {
                        assert(s.len() == 10);
                    },
                    AnswerV::No => {
                        assert(s.len() == 9);
                    },
                    AnswerV::Text(t) => {
                        lemma_seq_chop(v@, from as int, to as int, text_prefix@, t);
                        assert(raw@ == t);
                    },
                    AnswerV::PokerAction(q) => {
                        assert(v@.subrange(from as int, from + tpl) == text_prefix@);
                        assert(v@[from + 7] == text_prefix@[7]);
                        assert(text_prefix@[7] == 'T');
                        lemma_seq_chop(
                            v@,
                            from as int,
                            to as int,
                            pa_prefix@,
                            spec_encode_poker(q),
                        );
                        assert(v@[from + 7] == pa_prefix@[7]);
                        assert(pa_prefix@[7] == 'P');
                    },
                }
            }
        }
        if !crate::text::chars_clean(&raw) {
            return Err(ParseAnswerError);
        }
        let d = DisplayString(string_from_chars(&raw));
        proof {
            assert(s =~= spec_encode_answer(AnswerV::Text(raw@)));
        }
        Ok(Answer::Text(d))
    } else if starts_with_at(v, from, to, &pa_prefix) {
        let body_start = from + pa_prefix.len();
        proof {
            assert forall|a: AnswerV|
                answer_v_wf(a) && s == spec_encode_answer(a) implies match a {
                AnswerV::PokerAction(q) => v@.subrange(body_start as int, to as int)
                    == spec_encode_poker(q),
                _ => false,
            } by {
                lemma_answer_tag_lens();
                assert(s.len() >= ppl);
                match a {
                    AnswerV::Yes => {
                        assert(s.len() == 10);
                    },
                    AnswerV::No => {
                        assert(s.len() == 9);
                    },
                    AnswerV::Text(t) => {
                        assert(v@.subrange(from as int, from + ppl) == pa_prefix@);
                        assert(v@[from + 7] == pa_prefix@[7]);
                        assert(pa_prefix@[7] == 'P');
                        lemma_seq_chop(v@, from as int, to as int, text_prefix@, t);
                        assert(v@[from + 7] == text_prefix@[7]);
                        assert(text_prefix@[7] == 'T');
                    },
                    AnswerV::PokerAction(q) => {
                        lemma_seq_chop(
                            v@,
                            from as int,
                            to as int,
                            pa_prefix@,
                            spec_encode_poker(q),
                        );
                    },
                }
            }
        }
        match decode_poker_chars(v, body_start, to) {
            Ok(q) => {
                proof {
                    assert(s =~= spec_encode_answer(AnswerV::PokerAction(q@)));
                }
                Ok(Answer::PokerAction(q))
            },
            Err(_) => Err(ParseAnswerError),
        }
    } else {
        proof {
            assert forall|a: AnswerV| answer_v_wf(a) && s == spec_encode_answer(a) implies false by {
                lemma_answer_tag_lens();
                match a {
                    AnswerV::Yes => {
                        assert(s == lit_yes@);
                    },
                    AnswerV::No => {
                        assert(s == lit_no@);
                    },
                    AnswerV::Text(t) => {
                        lemma_seq_chop(v@, from as int, to as int, text_prefix@, t);
                        assert(s.len() >= tpl);
                    },
                    AnswerV::PokerAction(q) => {
                        lemma_seq_chop(
                            v@,
                            from as int,
                            to as int,
                            pa_prefix@,
                            spec_encode_poker(q),
                        );
                        assert(s.len() >= ppl);
                    },
                }
            }
        }
        Err(ParseAnswerError)
    }
}

/// Free of the key separator and of newlines: such text can stand as one
/// field of a stored line.
pub open spec fn line_clean(s: Seq<char>) -> bool {
    forall|i: int| 0 <= i < s.len() ==> s[i] != KEY_SEP && s[i] != '\n'
}

/// Clean text (no separators at all) is in particular line clean.
pub proof fn lemma_clean_line_clean(s: Seq<char>)
    requires
        is_clean(s),
    ensures
        line_clean(s),
{
}

/// Joining two line-clean texts is line clean.
pub proof fn lemma_line_clean_concat(a: Seq<char>, b: Seq<char>)
    requires
        line_clean(a),
        line_clean(b),
    ensures
        line_clean(a + b),
{
    assert forall|i: int| 0 <= i < (a + b).len() implies (a + b)[i] != KEY_SEP && (a + b)[i]
        != '\n' by {
        if i < a.len() {
            assert((a + b)[i] == a[i]);
        } else {
            assert((a + b)[i] == b[i - a.len()]);
        }
    }
}

/// The tag words of the encodings are line clean.
pub proof fn lemma_tags_line_clean()
    ensures
        line_clean("Presentation"@),
        line_clean("Text"@),
        line_clean("TextHand"@),
        line_clean("Answer"@),
        line_clean("Yes"@),
        line_clean("No"@),
        line_clean("PokerAction"@),
        line_clean("Fold"@),
        line_clean("Check"@),
        line_clean("Call"@),
        line_clean("Raise"@),
        line_clean(seq![FIELD_SEP]),
{
    reveal_strlit("Presentation");
    reveal_strlit("Text");
    reveal_strlit("TextHand");
    reveal_strlit("Answer");
    reveal_strlit("Yes");
    reveal_strlit("No");
    reveal_strlit("PokerAction");
    reveal_strlit("Fold");
    reveal_strlit("Check");
    reveal_strlit("Call");
    reveal_strlit("Raise");
}

/// The text of a hand is line clean.
pub proof fn lemma_encode_hand_line_clean(h: Hand)
    ensures
        line_clean(spec_encode_hand(h)),
{
    let e = spec_encode_hand(h);
    assert forall|i: int| 0 <= i < e.len() implies e[i] != KEY_SEP && e[i] != '\n' by {
        crate::card::lemma_card_char_injective(h.first, h.first);
    }
}

/// The encoding of a well-formed presentation is line clean, so the first
/// key separator of a composite key is unambiguous.
pub proof fn lemma_encode_presentation_line_clean(p: PresentationV)
    requires
        presentation_v_wf(p),
    ensures
        line_clean(spec_encode_presentation(p)),
{
    lemma_tags_line_clean();
    match p {
        PresentationV::Text(t) => {
            lemma_clean_line_clean(t);
            lemma_line_clean_concat("Presentation"@, seq![FIELD_SEP]);
            lemma_line_clean_concat("Presentation"@ + seq![FIELD_SEP], "Text"@);
            lemma_line_clean_concat("Presentation"@ + seq![FIELD_SEP] + "Text"@, seq![FIELD_SEP]);
            lemma_line_clean_concat(
                "Presentation"@ + seq![FIELD_SEP] + "Text"@ + seq![FIELD_SEP],
                t,
            );
        },
        PresentationV::TextHand(t, h) => {
            lemma_clean_line_clean(t);
            lemma_encode_hand_line_clean(h);
            lemma_line_clean_concat("Presentation"@, seq![FIELD_SEP]);
            lemma_line_clean_concat("Presentation"@ + seq![FIELD_SEP], "TextHand"@);
            lemma_line_clean_concat(
                "Presentation"@ + seq![FIELD_SEP] + "TextHand"@,
                seq![FIELD_SEP],
            );
            lemma_line_clean_concat(
                "Presentation"@ + seq![FIELD_SEP] + "TextHand"@ + seq![FIELD_SEP],
                t,
            );
            lemma_line_clean_concat(
                "Presentation"@ + seq![FIELD_SEP] + "TextHand"@ + seq![FIELD_SEP] + t,
                seq![FIELD_SEP],
            );
            lemma_line_clean_concat(
                "Presentation"@ + seq![FIELD_SEP] + "TextHand"@ + seq![FIELD_SEP] + t + seq![
                    FIELD_SEP,
                ],
                spec_encode_hand(h),
            );
        },
    }
}

/// The encoding of a well-formed poker action is line clean.
pub proof fn lemma_encode_poker_line_clean(p: PokerActionV)
    requires
        poker_v_wf(p),
    ensures
        line_clean(spec_encode_poker(p)),
{
    lemma_tags_line_clean();
    lemma_line_clean_concat("PokerAction"@, seq![FIELD_SEP]);
    match p {
        PokerActionV::Fold => {
            lemma_line_clean_concat("PokerAction"@ + seq![FIELD_SEP], "Fold"@);
        },
        PokerActionV::Check => {
            lemma_line_clean_concat("PokerAction"@ + seq![FIELD_SEP], "Check"@);
        },
        PokerActionV::Call => {
            lemma_line_clean_concat("PokerAction"@ + seq![FIELD_SEP], "Call"@);
        },
        PokerActionV::Raise(x) => {
            let a = choose|a: Amount| a.wf() && x == spec_fmt_amount(a);
            crate::num::lemma_fmt_amount_clean(a);
            lemma_clean_line_clean(x);
            lemma_line_clean_concat("PokerAction"@ + seq![FIELD_SEP], "Raise"@);
            lemma_line_clean_concat(
                "PokerAction"@ + seq![FIELD_SEP] + "Raise"@,
                seq![FIELD_SEP],
            );
            lemma_line_clean_concat(
                "PokerAction"@ + seq![FIELD_SEP] + "Raise"@ + seq![FIELD_SEP],
                x,
            );
        },
    }
}

/// The encoding of a well-formed answer is line clean.
pub proof fn lemma_encode_answer_line_clean(a: AnswerV)
    requires
        answer_v_wf(a),
    ensures
        line_clean(spec_encode_answer(a)),
{
    lemma_tags_line_clean();
    lemma_line_clean_concat("Answer"@, seq![FIELD_SEP]);
    match a {
        AnswerV::Yes => {
            lemma_line_clean_concat("Answer"@ + seq![FIELD_SEP], "Yes"@);
        },
        AnswerV::No => {
            lemma_line_clean_concat("Answer"@ + seq![FIELD_SEP], "No"@);
        },
        AnswerV::Text(t) => {
            lemma_clean_line_clean(t);
            lemma_line_clean_concat("Answer"@ + seq![FIELD_SEP], "Text"@);
            lemma_line_clean_concat("Answer"@ + seq![FIELD_SEP] + "Text"@, seq![FIELD_SEP]);
            lemma_line_clean_concat(
                "Answer"@ + seq![FIELD_SEP] + "Text"@ + seq![FIELD_SEP],
                t,
            );
        },
        AnswerV::PokerAction(q) => {
            lemma_encode_poker_line_clean(q);
            lemma_line_clean_concat("Answer"@ + seq![FIELD_SEP], "PokerAction"@);
            lemma_line_clean_concat(
                "Answer"@ + seq![FIELD_SEP] + "PokerAction"@,
                seq![FIELD_SEP],
            );
            lemma_line_clean_concat(
                "Answer"@ + seq![FIELD_SEP] + "PokerAction"@ + seq![FIELD_SEP],
                spec_encode_poker(q),
            );
        },
    }
}

/// The composite key of a review item: the presentation's encoding and the
/// answer's encoding, joined by the key separator.
pub open spec fn spec_encode_key(p: PresentationV, a: AnswerV) -> Seq<char> {
    spec_encode_presentation(p) + seq![KEY_SEP] + spec_encode_answer(a)
}

/// Encodes a composite key as characters.
pub fn encode_key_chars(k: &(Presentation, Answer)) -> (r: Vec<char>)
    ensures
        r@ == spec_encode_key(k.0@, k.1@),
{
    let mut out = k.0.encode_chars();
    out.push(KEY_SEP);
    let ac = k.1.encode_chars();
    push_all(&mut out, &ac);
    proof {
        assert(out@ =~= spec_encode_key(k.0@, k.1@));
    }
    out
}

/// The composite storage key for a review item, as text.
pub fn serialize_review_collection_key(k: &(Presentation, Answer)) -> (r: String)
    ensures
        r@ == spec_encode_key(k.0@, k.1@),
{
    let v = encode_key_chars(k);
    string_from_chars(&v)
}

/// Parses a composite storage key from the characters of `v` between
/// `from` and `to`, splitting on the first key separator.
///
/// Parsing the text of any well-formed key gives that key back: the second
/// clause states this round trip for every key at once.
pub fn parse_key_chars(v: &Vec<char>, from: usize, to: usize) -> (r: Option<(Presentation, Answer)>)
    requires
        from <= to <= v@.len(),
    ensures
        r is Some ==> r->Some_0.0.wf() && r->Some_0.1.wf(),
        r is Some ==> v@.subrange(from as int, to as int) == spec_encode_key(
            r->Some_0.0@,
            r->Some_0.1@,
        ),
        forall|p: PresentationV, a: AnswerV|
            presentation_v_wf(p) && answer_v_wf(a) && v@.subrange(from as int, to as int)
                == spec_encode_key(p, a) ==> r is Some && r->Some_0.0@ == p && r->Some_0.1@ == a,
{
    let ghost s = v@.subrange(from as int, to as int);
    proof {
        assert forall|p: PresentationV, a: AnswerV|
            presentation_v_wf(p) && answer_v_wf(a) && s == spec_encode_key(p, a) implies {
            &&& to - from > spec_encode_presentation(p).len()
            &&& v@[from + spec_encode_presentation(p).len()] == KEY_SEP
            &&& forall|j: int|
                0 <= j < spec_encode_presentation(p).len() ==> #[trigger] v@[from + j] != KEY_SEP
            &&& v@.subrange(from as int, from + spec_encode_presentation(p).len())
                == spec_encode_presentation(p)
            &&& v@.subrange(
                from + spec_encode_presentation(p).len() + 1,
                to as int,
            ) == spec_encode_answer(a)
        } by {
            lemma_encode_presentation_line_clean(p);
            let ep = spec_encode_presentation(p);
            let ea = spec_encode_answer(a);
            assert(s =~= ep + (seq![KEY_SEP] + ea));
            lemma_seq_chop(v@, from as int, to as int, ep, seq![KEY_SEP] + ea);
            assert(v@.subrange(from + ep.len(), to as int)[0] == (seq![KEY_SEP] + ea)[0]);
            lemma_seq_chop(v@, from + ep.len(), to as int, seq![KEY_SEP], ea);
            assert forall|j: int| 0 <= j < ep.len() implies #[trigger] v@[from + j] != KEY_SEP by {
                assert(v@.subrange(from as int, from + ep.len())[j] == ep[j]);
            }
        }
    }
    match find_char_range(v, from, to, KEY_SEP) {
        Some(cut) => {
            let pres = match decode_presentation_chars(v, from, cut) {
                Ok(x) => x,
                Err(_) => {
                    proof {
                        assert forall|p: PresentationV, a: AnswerV|
                            presentation_v_wf(p) && answer_v_wf(a) && s == spec_encode_key(
                            p,
                            a,
                        ) implies false by {
                            assert(cut - from == spec_encode_presentation(p).len()) by {
                                if cut - from < spec_encode_presentation(p).len() {
                                    assert(v@[from + (cut - from)] == KEY_SEP);
                                }
                            }
                            assert(v@.subrange(from as int, cut as int)
                                == spec_encode_presentation(p));
                        }
                    }
                    return None;
                },
            };
            let ans = match decode_answer_chars(v, cut + 1, to) {
                Ok(x) => x,
                Err(_) => {
                    proof {
                        assert forall|p: PresentationV, a: AnswerV|
                            presentation_v_wf(p) && answer_v_wf(a) && s == spec_encode_key(
                            p,
                            a,
                        ) implies false by {
                            assert(cut - from == spec_encode_presentation(p).len()) by {
                                if cut - from < spec_encode_presentation(p).len() {
                                    assert(v@[from + (cut - from)] == KEY_SEP);
                                }
                            }
                        }
                    }
                    return None;
                },
            };
            proof {
                assert forall|p: PresentationV, a: AnswerV|
                    presentation_v_wf(p) && answer_v_wf(a) && s == spec_encode_key(
                    p,
                    a,
                ) implies pres@ == p && ans@ == a by {
                    assert(cut - from == spec_encode_presentation(p).len()) by {
                        if cut - from < spec_encode_presentation(p).len() {
                            assert(v@[from + (cut - from)] == KEY_SEP);
                        }
                    }
                    assert(v@.subrange(from as int, cut as int) == spec_encode_presentation(p));
                }
            }
            proof {
                assert(s =~= spec_encode_key(pres@, ans@));
            }
            Some((pres, ans))
        },
        None => {
            proof {
                assert forall|p: PresentationV, a: AnswerV|
                    presentation_v_wf(p) && answer_v_wf(a) && s == spec_encode_key(
                    p,
                    a,
                ) implies false by {
                }
            }
            None
        },
    }
}

/// Parses a composite storage key from text.
pub fn parse_review_collection_key(s: &str) -> (r: Option<(Presentation, Answer)>)
    ensures
        r is Some ==> r->Some_0.0.wf() && r->Some_0.1.wf(),
        r is Some ==> s@ == spec_encode_key(r->Some_0.0@, r->Some_0.1@),
        forall|p: PresentationV, a: AnswerV|
            presentation_v_wf(p) && answer_v_wf(a) && s@ == spec_encode_key(p, a) ==> r is Some
                && r->Some_0.0@ == p && r->Some_0.1@ == a,
{
    let v = chars_of_str(s);
    let n = v.len();
    proof {
        assert(v@.subrange(0, n as int) =~= v@);
    }
    parse_key_chars(&v, 0, n)
}

/// Decodes a presentation from text.
pub fn decode_presentation(s: &str) -> (r: Result<Presentation, ParsePresentationError>)
    ensures
        r is Ok ==> r->Ok_0.wf(),
        r is Ok ==> s@ == spec_encode_presentation(r->Ok_0@),
        forall|p: PresentationV|
            presentation_v_wf(p) && s@ == spec_encode_presentation(p) ==> r is Ok && r->Ok_0@
                == p,
{
    let v = chars_of_str(s);
    let n = v.len();
    proof {
        assert(v@.subrange(0, n as int) =~= v@);
    }
    decode_presentation_chars(&v, 0, n)
}

/// Decodes an answer from text.
pub fn decode_answer(s: &str) -> (r: Result<Answer, ParseAnswerError>)
    ensures
        r is Ok ==> r->Ok_0.wf(),
        r is Ok ==> s@ == spec_encode_answer(r->Ok_0@),
        forall|a: AnswerV|
            answer_v_wf(a) && s@ == spec_encode_answer(a) ==> r is Ok && r->Ok_0@ == a,
{
    let v = chars_of_str(s);
    let n = v.len();
    proof {
        assert(v@.subrange(0, n as int) =~= v@);
    }
    decode_answer_chars(&v, 0, n)
}

/// Decodes a poker action from text.
pub fn decode_poker_action(s: &str) -> (r: Result<PokerAction, ParsePokerActionError>)
    ensures
        r is Ok ==> r->Ok_0.wf(),
        r is Ok ==> s@ == spec_encode_poker(r->Ok_0@),
        forall|p: PokerActionV|
            poker_v_wf(p) && s@ == spec_encode_poker(p) ==> r is Ok && r->Ok_0@ == p,
{
    let v = chars_of_str(s);
    let n = v.len();
    proof {
        assert(v@.subrange(0, n as int) =~= v@);
    }
    decode_poker_chars(&v, 0, n)
}

/// One quiz item's content: what is shown, how it is answered, the stored
/// answer, and the numeric slack allowed when grading numeric answers.
#[derive(Debug, Clone, PartialEq)]
pub struct Question {
    pub presentation: Presentation,
    pub options: Options,
    pub answer: Answer,
    pub tolerance: Option<u64>,
}

/// The abstract value of a [`Question`].
pub struct QuestionV {
    pub presentation: PresentationV,
    pub options: Options,
    pub answer: AnswerV,
    pub tolerance: Option<u64>,
}

impl View for Question {
    type V = QuestionV;

    open spec fn view(&self) -> QuestionV {
        QuestionV {
            presentation: self.presentation@,
            options: self.options,
            answer: self.answer@,
            tolerance: self.tolerance,
        }
    }
}

/// A well-formed question holds a well-formed presentation and answer.
pub open spec fn question_v_wf(q: QuestionV) -> bool {
    presentation_v_wf(q.presentation) && answer_v_wf(q.answer)
}

impl Question {
    /// The invariant that construction establishes.
    pub open spec fn wf(&self) -> bool {
        question_v_wf(self@)
    }

    /// An exact copy.
    pub fn duplicate(&self) -> (r: Question)
        ensures
            r@ == self@,
    {
        let r = Question {
            presentation: self.presentation.duplicate(),
            options: self.options,
            answer: self.answer.duplicate(),
            tolerance: self.tolerance,
        };
        r
    }
}

/// Whether a submission with numeric content meets the stored answer: both
/// texts must parse as amounts, and their difference must be strictly
/// within the tolerance.
pub open spec fn spec_numeric_match(given: Seq<char>, stored: Seq<char>, tol: u64) -> Option<
    bool,
> {
    match (spec_parse_amount(given), spec_parse_amount(stored)) {
        (Some(a), Some(b)) => {
            let diff = a.signed() - b.signed();
            Some(
                (if diff < 0 {
                    -diff
                } else {
                    diff
                }) < tol,
            )
        },
        _ => None,
    }
}

/// What grading a submitted answer against a question yields: `None` when
/// the submission cannot be graded (and is silently ignored), otherwise
/// whether it was correct.
pub open spec fn spec_grade(given: AnswerV, q: QuestionV) -> Option<bool> {
    match given {
        AnswerV::Yes => Some(given == q.answer),
        AnswerV::No => Some(given == q.answer),
        AnswerV::Text(s) => match q.answer {
            AnswerV::Text(x) => spec_numeric_match(s, x, q.tolerance->Some_0),
            _ => None,
        },
        AnswerV::PokerAction(PokerActionV::Raise(s)) => match q.answer {
            AnswerV::PokerAction(PokerActionV::Raise(x)) => spec_numeric_match(
                s,
                x,
                q.tolerance->Some_0,
            ),
            _ => None,
        },
        AnswerV::PokerAction(_) => Some(given == q.answer),
    }
}

/// Parses the whole text of a display string as an amount.
fn parse_display_amount(d: &DisplayString) -> (r: Option<Amount>)
    ensures
        r == spec_parse_amount(d@),
{
    let v = d.chars();
    let n = v.len();
    proof {
        assert(v@.subrange(0, n as int) =~= v@);
    }
    parse_amount(&v, 0, n)
}

/// Parses the whole text of a raise payload as an amount.
fn parse_raise_amount(s: &String) -> (r: Option<Amount>)
    ensures
        r == spec_parse_amount(s@),
{
    let v = chars_of_str(s.as_str());
    let n = v.len();
    proof {
        assert(v@.subrange(0, n as int) =~= v@);
    }
    parse_amount(&v, 0, n)
}

/// Grades a submitted answer against a question.
///
/// A submission whose numeric text cannot be parsed is not graded: the
/// result is `None` and the caller treats the submission as ignored.
pub fn grade_answer(given: &Answer, q: &Question) -> (r: Option<bool>)
    requires
        (given@ matches AnswerV::Text(_) && q@.answer matches AnswerV::Text(_)) ==> q.tolerance
            is Some,
        (given@ matches AnswerV::PokerAction(PokerActionV::Raise(_))
            && q@.answer matches AnswerV::PokerAction(PokerActionV::Raise(_))) ==> q.tolerance
            is Some,
    ensures
        r == spec_grade(given@, q@),
{
    match given {
        Answer::Yes => Some(answer_eq(given, &q.answer)),
        Answer::No => Some(answer_eq(given, &q.answer)),
        Answer::Text(s) => {
            match &q.answer {
                Answer::Text(x) => {
                    let ga = parse_display_amount(s);
                    let sa = parse_display_amount(x);
                    match (ga, sa) {
                        (Some(a), Some(b)) => {
                            let tol = match q.tolerance {
                                Some(t) => t,
                                None => {
                                    proof {
                                        assert(false);
                                    }
                                    0
                                },
                            };
                            Some(crate::num::amount_within(&a, &b, tol))
                        },
                        _ => None,
                    }
                },
                _ => None,
            }
        },
        Answer::PokerAction(PokerAction::Raise(s)) => {
            match &q.answer {
                Answer::PokerAction(PokerAction::Raise(x)) => {
                    let ga = parse_raise_amount(s);
                    let sa = parse_raise_amount(x);
                    match (ga, sa) {
                        (Some(a), Some(b)) => {
                            let tol = match q.tolerance {
                                Some(t) => t,
                                None => {
                                    proof {
                                        assert(false);
                                    }
                                    0
                                },
                            };
                            Some(crate::num::amount_within(&a, &b, tol))
                        },
                        _ => None,
                    }
                },
                _ => None,
            }
        },
        Answer::PokerAction(_) => Some(answer_eq(given, &q.answer)),
    }
}

/// The text shown to the user when an answer is revealed.
pub open spec fn spec_reveal(a: AnswerV) -> Seq<char> {
    match a {
        AnswerV::Yes => "Yes"@,
        AnswerV::No => "No"@,
        AnswerV::Text(t) => t,
        AnswerV::PokerAction(p) => match p {
            PokerActionV::Fold => "Fold"@,
            PokerActionV::Check => "Check"@,
            PokerActionV::Call => "Call"@,
            PokerActionV::Raise(x) => "Raise "@ + x + " BB"@,
        },
    }
}

impl Answer {
    /// The text shown to the user when this answer is revealed.
    pub fn reveal_text(&self) -> (r: String)
        ensures
            r@ == spec_reveal(self@),
    {
        match self {
            Answer::Yes => {
                let mut out: Vec<char> = Vec::new();
                push_str_chars(&mut out, "Yes");
                string_from_chars(&out)
            },
            Answer::No => {
                let mut out: Vec<char> = Vec::new();
                push_str_chars(&mut out, "No");
                string_from_chars(&out)
            },
            Answer::Text(d) => {
                let v = d.chars();
                string_from_chars(&v)
            },
            Answer::PokerAction(p) => {
                match p {
                    PokerAction::Fold => {
                        let mut out: Vec<char> = Vec::new();
                        push_str_chars(&mut out, "Fold");
                        string_from_chars(&out)
                    },
                    PokerAction::Check => {
                        let mut out: Vec<char> = Vec::new();
                        push_str_chars(&mut out, "Check");
                        string_from_chars(&out)
                    },
                    PokerAction::Call => {
                        let mut out: Vec<char> = Vec::new();
                        push_str_chars(&mut out, "Call");
                        string_from_chars(&out)
                    },
                    PokerAction::Raise(x) => {
                        let mut out: Vec<char> = Vec::new();
                        push_str_chars(&mut out, "Raise ");
                        push_str_chars(&mut out, x.as_str());
                        push_str_chars(&mut out, " BB");
                        proof {
                            assert(out@ =~= spec_reveal(self@));
                        }
                        string_from_chars(&out)
                    },
                }
            },
        }
    }
}

} // verus!
