//! The keyed store of review items: a mapping from the identity of a
//! reviewable fact — its presentation and its answer — to the item that
//! schedules it, with keys unique.

use vstd::prelude::*;
use crate::SCALE;
use crate::item::{ReviewItem, ReviewItemV, item_v_wf};
use crate::num::{
    spec_fmt_micros, spec_parse_micros, spec_fmt_i64, spec_parse_i64, fmt_micros, fmt_i64,
    parse_micros, parse_i64, lemma_parse_fmt_micros, lemma_parse_fmt_i64, lemma_fmt_micros_chars,
    lemma_fmt_i64_clean,
};
use crate::question::{
    Presentation, PresentationV, Answer, AnswerV, Question, Options, presentation_v_wf,
    answer_v_wf, presentation_eq, answer_eq, spec_encode_presentation, spec_encode_answer,
    decode_presentation_chars, decode_answer_chars, line_clean, lemma_clean_line_clean,
    lemma_encode_presentation_line_clean, lemma_encode_answer_line_clean,
};
use crate::text::{
    KEY_SEP, spec_join, lemma_split_join, lemma_join_free, split_on, join_chars, push_str_chars,
    string_from_chars, chars_of_str, chars_eq_str,
};

verus! {

/// One stored association: a composite key and its review item.
pub type ReviewEntry = ((Presentation, Answer), ReviewItem);

/// The abstract value of one stored association.
pub type ReviewEntryV = ((PresentationV, AnswerV), ReviewItemV);

/// The abstract value of one stored association.
pub open spec fn entry_view(e: ReviewEntry) -> ReviewEntryV {
    (((e.0).0@, (e.0).1@), e.1@)
}

/// A well-formed association: sanitized key parts and a well-formed item.
pub open spec fn entry_v_wf(e: ReviewEntryV) -> bool {
    presentation_v_wf((e.0).0) && answer_v_wf((e.0).1) && item_v_wf(e.1)
}

/// No two associations share a key.
pub open spec fn unique_keys(es: Seq<ReviewEntryV>) -> bool {
    forall|i: int, j: int| 0 <= i < j < es.len() ==> (#[trigger] es[i]).0 != (#[trigger] es[j]).0
}

/// A well-formed association sequence: unique keys, every entry well
/// formed.
pub open spec fn wf_entries(es: Seq<ReviewEntryV>) -> bool {
    unique_keys(es) && forall|i: int| 0 <= i < es.len() ==> entry_v_wf(#[trigger] es[i])
}

/// The map an association sequence denotes; later associations win.
pub open spec fn map_of(es: Seq<ReviewEntryV>) -> Map<(PresentationV, AnswerV), ReviewItemV>
    decreases es.len(),
{
    if es.len() == 0 {
        Map::empty()
    } else {
        map_of(es.drop_last()).insert(es.last().0, es.last().1)
    }
}

/// With unique keys, the denoted map holds exactly the associations.
pub proof fn lemma_map_of(es: Seq<ReviewEntryV>)
    requires
        unique_keys(es),
    ensures
        forall|k: (PresentationV, AnswerV)|
            map_of(es).dom().contains(k) <==> exists|i: int|
                0 <= i < es.len() && (#[trigger] es[i]).0 == k,
        forall|i: int|
            0 <= i < es.len() ==> map_of(es).dom().contains((#[trigger] es[i]).0) && map_of(es)[
                es[i].0
            ] == es[i].1,
    decreases es.len(),
{
    if es.len() > 0 {
        let front = es.drop_last();
        assert(unique_keys(front));
        lemma_map_of(front);
        assert forall|i: int| 0 <= i < es.len() implies map_of(es).dom().contains(
            (#[trigger] es[i]).0,
        ) && map_of(es)[es[i].0] == es[i].1 by {
            if i < es.len() - 1 {
                assert(front[i] == es[i]);
                assert(es[i].0 != es.last().0);
            }
        }
        assert forall|k: (PresentationV, AnswerV)|
            map_of(es).dom().contains(k) implies exists|i: int|
            0 <= i < es.len() && (#[trigger] es[i]).0 == k by {
            if k == es.last().0 {
                assert(es[es.len() - 1].0 == k);
            } else {
                assert(map_of(front).dom().contains(k));
                let i = choose|i: int| 0 <= i < front.len() && (#[trigger] front[i]).0 == k;
                assert(front[i] == es[i]);
                assert(es[i].0 == k);
            }
        }
    }
}

/// The keyed store of review items.
#[derive(Debug, Clone, PartialEq)]
pub struct ReviewCollection {
    /// The stored associations; treat as read only and mutate through the
    /// methods, which keep keys unique.
    pub entries: Vec<ReviewEntry>,
}

impl View for ReviewCollection {
    type V = Seq<ReviewEntryV>;

    open spec fn view(&self) -> Seq<ReviewEntryV> {
        let es = self.entries@;
        Seq::new(es.len() as nat, |i: int| entry_view(es[i]))
    }
}

/// Whether two composite keys are the same value.
pub fn key_eq(a: &(Presentation, Answer), b: &(Presentation, Answer)) -> (r: bool)
    ensures
        r == ((a.0@, a.1@) == (b.0@, b.1@)),
{
    presentation_eq(&a.0, &b.0) && answer_eq(&a.1, &b.1)
}

impl ReviewCollection {
    /// The invariant: keys unique, every entry well formed.
    pub open spec fn wf(&self) -> bool {
        unique_keys(self@) && forall|i: int| 0 <= i < self@.len() ==> entry_v_wf(#[trigger] self@[i])
    }

    /// The map this collection denotes.
    pub open spec fn as_map(&self) -> Map<(PresentationV, AnswerV), ReviewItemV> {
        map_of(self@)
    }

    /// An empty collection.
    pub fn new() -> (r: ReviewCollection)
        ensures
            r@ == Seq::<ReviewEntryV>::empty(),
            r.wf(),
    {
        let r = ReviewCollection { entries: Vec::new() };
        proof {
            assert(r@ =~= Seq::<ReviewEntryV>::empty());
        }
        r
    }

    /// The number of stored items.
    pub fn len(&self) -> (r: usize)
        ensures
            r == self@.len(),
    {
        self.entries.len()
    }

    /// The stored associations, in storage order.
    pub fn iter(&self) -> (r: &Vec<ReviewEntry>)
        ensures
            r@.len() == self@.len(),
            forall|i: int|
                0 <= i < self@.len() ==> (((#[trigger] r@[i]).0.0@, r@[i].0.1@), r@[i].1@)
                    == self@[i],
    {
        &self.entries
    }

    /// The position of a key, if it is stored.
    fn find_index(&self, key: &(Presentation, Answer)) -> (r: Option<usize>)
        ensures
            match r {
                Some(i) => i < self@.len() && self@[i as int].0 == (key.0@, key.1@),
                None => forall|i: int| 0 <= i < self@.len() ==> (#[trigger] self@[i]).0 != (
                key.0@, key.1@),
            },
    {
        let mut i: usize = 0;
        while i < self.entries.len()
            invariant
                i <= self@.len(),
                self@.len() == self.entries@.len(),
                forall|j: int| 0 <= j < i ==> (#[trigger] self@[j]).0 != (key.0@, key.1@),
            decreases self@.len() - i,
        {
            if key_eq(&self.entries[i].0, key) {
                return Some(i);
            }
            i = i + 1;
        }
        None
    }

    /// The item stored under a key, if any.
    pub fn get(&self, key: &(Presentation, Answer)) -> (r: Option<&ReviewItem>)
        requires
            self.wf(),
        ensures
            match r {
                Some(it) => self.as_map().dom().contains((key.0@, key.1@)) && it@ == self.as_map()[
                    (key.0@, key.1@)
                ],
                None => !self.as_map().dom().contains((key.0@, key.1@)),
            },
    {
        proof {
            lemma_map_of(self@);
        }
        match self.find_index(key) {
            Some(i) => {
                proof {
                    assert(self@[i as int] == entry_view(self.entries@[i as int]));
                }
                Some(&self.entries[i].1)
            },
            None => {
                proof {
                    if self.as_map().dom().contains((key.0@, key.1@)) {
                        let i = choose|i: int|
                            0 <= i < self@.len() && (#[trigger] self@[i]).0 == (key.0@, key.1@);
                    }
                }
                None
            },
        }
    }

    /// A mutable borrow of the item stored under a key, if any. The key
    /// itself cannot be changed through the borrow, so uniqueness of keys
    /// survives whatever the caller writes.
    pub fn get_mut(&mut self, key: &(Presentation, Answer)) -> (r: Option<&mut ReviewItem>)
        requires
            old(self).wf(),
        ensures
            match r {
                Some(m) => {
                    &&& exists|i: int|
                        {
                            &&& 0 <= i < old(self)@.len()
                            &&& (#[trigger] old(self)@[i]).0 == (key.0@, key.1@)
                            &&& *m == old(self).entries@[i].1
                            &&& final(self)@.len() == old(self)@.len()
                            &&& final(self)@[i] == (old(self)@[i].0, final(m)@)
                            &&& forall|j: int|
                                0 <= j < old(self)@.len() && j != i ==> final(self)@[j] == old(
                                    self,
                                )@[j]
                        }
                },
                None => {
                    &&& final(self)@ == old(self)@
                    &&& !old(self).as_map().dom().contains((key.0@, key.1@))
                },
            },
    {
        proof {
            lemma_map_of(self@);
        }
        let n = self.entries.len();
        let mut i: usize = 0;
        while i < n
            invariant
                i <= n,
                n == self.entries@.len(),
                *self == *old(self),
                forall|j: int| 0 <= j < i ==> (#[trigger] self@[j]).0 != (key.0@, key.1@),
            decreases n - i,
        {
            if key_eq(&self.entries[i].0, key) {
                proof {
                    assert(self@[i as int] == entry_view(self.entries@[i as int]));
                    assert((#[trigger] old(self)@[i as int]).0 == (key.0@, key.1@));
                    assert(old(self).entries@[i as int].1 == self.entries@[i as int].1);
                }
                let m = &mut self.entries[i].1;
                return Some(m);
            }
            i = i + 1;
        }
        proof {
            if old(self).as_map().dom().contains((key.0@, key.1@)) {
                lemma_map_of(old(self)@);
                let j = choose|j: int|
                    0 <= j < old(self)@.len() && (#[trigger] old(self)@[j]).0 == (key.0@, key.1@);
            }
        }
        None
    }

    /// Stores an item under a key, replacing and returning any previous
    /// item under the same key.
    pub fn insert(&mut self, key: (Presentation, Answer), value: ReviewItem) -> (r: Option<
        ReviewItem,
    >)
        requires
            old(self).wf(),
            key.0.wf(),
            key.1.wf(),
            value.wf(),
        ensures
            final(self).wf(),
            final(self).as_map() == old(self).as_map().insert((key.0@, key.1@), value@),
            match r {
                Some(prev) => {
                    &&& old(self).as_map().dom().contains((key.0@, key.1@))
                    &&& prev@ == old(self).as_map()[(key.0@, key.1@)]
                    &&& exists|i: int|
                        0 <= i < old(self)@.len() && (#[trigger] old(self)@[i]).0 == (
                        key.0@, key.1@) && final(self)@ == old(self)@.update(
                            i,
                            ((key.0@, key.1@), value@),
                        )
                },
                None => {
                    &&& !old(self).as_map().dom().contains((key.0@, key.1@))
                    &&& final(self)@ == old(self)@.push(((key.0@, key.1@), value@))
                },
            },
    {
        proof {
            lemma_map_of(self@);
        }
        match self.find_index(&key) {
            Some(i) => {
                let prev = self.entries[i].1.duplicate();
                self.entries[i] = (key, value);
                proof {
                    let ghost idx = i as int;
                    assert(self@ =~= old(self)@.update(idx, ((key.0@, key.1@), value@)));
                    assert(unique_keys(self@)) by {
                        assert forall|a: int, b: int|
                            0 <= a < b < self@.len() implies (#[trigger] self@[a]).0 != (
                        #[trigger] self@[b]).0 by {
                            assert(old(self)@[a].0 != old(self)@[b].0);
                        }
                    }
                    lemma_map_of(self@);
                    lemma_map_of(old(self)@);
                    let kv = (key.0@, key.1@);
                    let rhs = old(self).as_map().insert(kv, value@);
                    assert forall|k: (PresentationV, AnswerV)|
                        self.as_map().dom().contains(k) <==> rhs.dom().contains(k) by {
                        if self.as_map().dom().contains(k) {
                            let a = choose|a: int|
                                0 <= a < self@.len() && (#[trigger] self@[a]).0 == k;
                            if a != idx {
                                assert(old(self)@[a].0 == k);
                            }
                        }
                        if rhs.dom().contains(k) {
                            if k == kv {
                                assert(self@[idx].0 == k);
                            } else {
                                let a = choose|a: int|
                                    0 <= a < old(self)@.len() && (#[trigger] old(self)@[a]).0
                                        == k;
                                assert(a != idx);
                                assert(self@[a].0 == k);
                            }
                        }
                    }
                    assert forall|k: (PresentationV, AnswerV)|
                        self.as_map().dom().contains(k) implies self.as_map()[k] == rhs[k] by {
                        if k == kv {
                            assert(self.as_map()[self@[idx].0] == self@[idx].1);
                        } else {
                            let a = choose|a: int|
                                0 <= a < self@.len() && (#[trigger] self@[a]).0 == k;
                            assert(a != idx);
                            assert(self.as_map()[self@[a].0] == self@[a].1);
                            assert(old(self)@[a].0 == k);
                            assert(old(self).as_map()[old(self)@[a].0] == old(self)@[a].1);
                        }
                    }
                    assert(self.as_map() =~= rhs);
                }
                Some(prev)
            },
            None => {
                proof {
                    if old(self).as_map().dom().contains((key.0@, key.1@)) {
                        let j = choose|j: int|
                            0 <= j < old(self)@.len() && (#[trigger] old(self)@[j]).0 == (
                            key.0@, key.1@);
                    }
                }
                self.entries.push((key, value));
                proof {
                    assert(self@ =~= old(self)@.push(((key.0@, key.1@), value@)));
                    assert(self@.drop_last() =~= old(self)@);
                    lemma_map_of(self@);
                }
                None
            },
        }
    }
}

/// The stored text of an optional review date: empty when there is none.
pub open spec fn spec_fmt_date(d: Option<i64>) -> Seq<char> {
    match d {
        None => Seq::empty(),
        Some(t) => spec_fmt_i64(t),
    }
}

/// The stored text of a outcome.
pub open spec fn spec_fmt_bool(b: bool) -> Seq<char> {
    if b {
        "true"@
    } else {
        "false"@
    }
}

/// The stored text of an answer-input mode.
pub open spec fn spec_options_tag(o: Options) -> Seq<char> {
    match o {
        Options::Binary => "Binary"@,
        Options::Numbers => "Numbers"@,
        Options::PokerAction => "PokerAction"@,
    }
}

/// The stored text of an optional tolerance: empty when there is none.
pub open spec fn spec_fmt_opt_micros(t: Option<u64>) -> Seq<char> {
    match t {
        None => Seq::empty(),
        Some(m) => spec_fmt_micros(m as nat),
    }
}

/// The lengths and cleanliness of the stored value tags.
pub proof fn lemma_value_tag_props()
    ensures
        "true"@.len() == 4,
        "false"@.len() == 5,
        "Binary"@.len() == 6,
        "Numbers"@.len() == 7,
        line_clean("true"@),
        line_clean("false"@),
        line_clean("Binary"@),
        line_clean("Numbers"@),
{
    reveal_strlit("true");
    reveal_strlit("false");
    reveal_strlit("Binary");
    reveal_strlit("Numbers");
}

/// The ten stored fields of one association, in storage order: the two key
/// parts, the four scheduling fields, and the four question fields.
pub open spec fn spec_entry_fields(e: ReviewEntryV) -> Seq<Seq<char>> {
    seq![
        spec_encode_presentation((e.0).0),
        spec_encode_answer((e.0).1),
        spec_fmt_micros(e.1.difficulty as nat),
        spec_fmt_micros(e.1.days_between_review_attempts as nat),
        spec_fmt_date(e.1.date_last_reviewed),
        spec_fmt_bool(e.1.last_answer_correct),
        spec_encode_presentation(e.1.question.presentation),
        spec_options_tag(e.1.question.options),
        spec_encode_answer(e.1.question.answer),
        spec_fmt_opt_micros(e.1.question.tolerance),
    ]
}

/// One stored line: the ten fields joined by the key separator.
pub open spec fn spec_entry_line(e: ReviewEntryV) -> Seq<char> {
    spec_join(spec_entry_fields(e), KEY_SEP)
}

/// The stored text of a whole collection: one line per association.
pub open spec fn spec_serialize(es: Seq<ReviewEntryV>) -> Seq<char> {
    spec_join(es.map_values(|e: ReviewEntryV| spec_entry_line(e)), '\n')
}

/// Every stored field of a well-formed association is free of the key
/// separator and of newlines.
pub proof fn lemma_entry_fields_clean(e: ReviewEntryV)
    requires
        entry_v_wf(e),
    ensures
        forall|i: int, j: int|
            0 <= i < spec_entry_fields(e).len() && 0 <= j < spec_entry_fields(e)[i].len()
                ==> #[trigger] spec_entry_fields(e)[i][j] != KEY_SEP && spec_entry_fields(e)[i][j]
                != '\n',
{
    let fs = spec_entry_fields(e);
    lemma_encode_presentation_line_clean((e.0).0);
    lemma_encode_answer_line_clean((e.0).1);
    lemma_fmt_micros_chars(e.1.difficulty as nat);
    lemma_clean_line_clean(spec_fmt_micros(e.1.difficulty as nat));
    lemma_fmt_micros_chars(e.1.days_between_review_attempts as nat);
    lemma_clean_line_clean(spec_fmt_micros(e.1.days_between_review_attempts as nat));
    if let Some(t) = e.1.date_last_reviewed {
        lemma_fmt_i64_clean(t);
        lemma_clean_line_clean(spec_fmt_i64(t));
    }
    lemma_value_tag_props();
    crate::question::lemma_tags_line_clean();
    lemma_encode_presentation_line_clean(e.1.question.presentation);
    lemma_encode_answer_line_clean(e.1.question.answer);
    if let Some(m) = e.1.question.tolerance {
        lemma_fmt_micros_chars(m as nat);
        lemma_clean_line_clean(spec_fmt_micros(m as nat));
    }
    assert forall|i: int, j: int|
        0 <= i < fs.len() && 0 <= j < fs[i].len() implies #[trigger] fs[i][j] != KEY_SEP && fs[i][j]
        != '\n' by {
        assert(line_clean(fs[i]));
    }
}

/// The line of a well-formed association contains no newline, so lines can
/// be joined with newlines and split back apart.
pub proof fn lemma_entry_line_newline_free(e: ReviewEntryV)
    requires
        entry_v_wf(e),
    ensures
        forall|j: int| 0 <= j < spec_entry_line(e).len() ==> #[trigger] spec_entry_line(e)[j]
            != '\n',
        spec_entry_line(e).len() >= 9,
{
    lemma_entry_fields_clean(e);
    lemma_join_free(spec_entry_fields(e), KEY_SEP, '\n');
    assert(spec_entry_line(e).len() >= 9) by {
        reveal_with_fuel(spec_join, 12);
    }
}

/// Builds the stored line of one association.
fn entry_line(key: &(Presentation, Answer), it: &ReviewItem) -> (r: Vec<char>)
    ensures
        r@ == spec_entry_line(((key.0@, key.1@), it@)),
{
    let ghost e: ReviewEntryV = ((key.0@, key.1@), it@);
    let mut fields: Vec<Vec<char>> = Vec::new();
    fields.push(key.0.encode_chars());
    fields.push(key.1.encode_chars());
    fields.push(fmt_micros(it.difficulty));
    fields.push(fmt_micros(it.days_between_review_attempts));
    match it.date_last_reviewed {
        None => {
            let empty: Vec<char> = Vec::new();
            fields.push(empty);
        },
        Some(t) => {
            fields.push(fmt_i64(t));
        },
    }
    if it.last_answer_correct {
        let mut b: Vec<char> = Vec::new();
        push_str_chars(&mut b, "true");
        fields.push(b);
    } else {
        let mut b: Vec<char> = Vec::new();
        push_str_chars(&mut b, "false");
        fields.push(b);
    }
    fields.push(it.question.presentation.encode_chars());
    match it.question.options {
        Options::Binary => {
            let mut b: Vec<char> = Vec::new();
            push_str_chars(&mut b, "Binary");
            fields.push(b);
        },
        Options::Numbers => {
            let mut b: Vec<char> = Vec::new();
            push_str_chars(&mut b, "Numbers");
            fields.push(b);
        },
        Options::PokerAction => {
            let mut b: Vec<char> = Vec::new();
            push_str_chars(&mut b, "PokerAction");
            fields.push(b);
        },
    }
    fields.push(it.question.answer.encode_chars());
    match it.question.tolerance {
        None => {
            let empty: Vec<char> = Vec::new();
            fields.push(empty);
        },
        Some(m) => {
            fields.push(fmt_micros(m));
        },
    }
    proof {
        assert(fields@.map_values(|p: Vec<char>| p@) =~= spec_entry_fields(e));
    }
    join_chars(&fields, KEY_SEP)
}

impl ReviewCollection {
    /// The whole collection as its stored text, one line per item.
    ///
    /// Together with the contract of [`ReviewCollection::deserialize`]
    /// this gives the round trip: deserializing the serialized text of any
    /// collection yields an equal collection.
    pub fn serialize(&self) -> (r: String)
        ensures
            r@ == spec_serialize(self@),
    {
        let ghost m = self@.map_values(|e: ReviewEntryV| spec_entry_line(e));
        let mut lines: Vec<Vec<char>> = Vec::new();
        let mut i: usize = 0;
        while i < self.entries.len()
            invariant
                i <= self.entries@.len(),
                self.entries@.len() == self@.len(),
                m == self@.map_values(|e: ReviewEntryV| spec_entry_line(e)),
                lines@.map_values(|p: Vec<char>| p@) =~= m.take(i as int),
            decreases self.entries@.len() - i,
        {
            let ghost prev = lines@;
            let line = entry_line(&self.entries[i].0, &self.entries[i].1);
            proof {
                assert(self@[i as int] == entry_view(self.entries@[i as int]));
            }
            lines.push(line);
            proof {
                assert(lines@.map_values(|p: Vec<char>| p@) =~= prev.map_values(
                    |p: Vec<char>| p@,
                ).push(line@));
                assert(m.take(i + 1) =~= m.take(i as int).push(m[i as int]));
            }
            i = i + 1;
        }
        proof {
            assert(m.take(self@.len() as int) =~= m);
        }
        let joined = join_chars(&lines, '\n');
        string_from_chars(&joined)
    }
}

/// Parses a stored date field: empty means never reviewed.
fn parse_date_field(v: &Vec<char>) -> (r: Option<Option<i64>>)
    ensures
        forall|d: Option<i64>| v@ == spec_fmt_date(d) ==> r == Some(d),
{
    proof {
        assert forall|d: Option<i64>| v@ == spec_fmt_date(d) implies match d {
            None => v@.len() == 0,
            Some(t) => v@.len() >= 1 && spec_parse_i64(v@) == Some(t),
        } by {
            if let Some(t) = d {
                lemma_fmt_i64_clean(t);
                lemma_parse_fmt_i64(t);
            }
        }
    }
    if v.len() == 0 {
        Some(None)
    } else {
        let n = v.len();
        proof {
            assert(v@.subrange(0, n as int) =~= v@);
        }
        match parse_i64(v, 0, n) {
            Some(t) => Some(Some(t)),
            None => None,
        }
    }
}

/// Parses a stored tolerance field: empty means no tolerance.
fn parse_opt_micros_field(v: &Vec<char>) -> (r: Option<Option<u64>>)
    ensures
        forall|t: Option<u64>| v@ == spec_fmt_opt_micros(t) ==> r == Some(t),
{
    proof {
        assert forall|t: Option<u64>| v@ == spec_fmt_opt_micros(t) implies match t {
            None => v@.len() == 0,
            Some(m) => v@.len() >= 1 && spec_parse_micros(v@) == Some(m),
        } by {
            if let Some(m) = t {
                lemma_fmt_micros_chars(m as nat);
                lemma_parse_fmt_micros(m);
            }
        }
    }
    if v.len() == 0 {
        Some(None)
    } else {
        let n = v.len();
        proof {
            assert(v@.subrange(0, n as int) =~= v@);
        }
        match parse_micros(v, 0, n) {
            Some(m) => Some(Some(m)),
            None => None,
        }
    }
}

/// Parses a stored outcome field.
fn parse_bool_field(v: &Vec<char>) -> (r: Option<bool>)
    ensures
        forall|b: bool| v@ == spec_fmt_bool(b) ==> r == Some(b),
{
    proof {
        lemma_value_tag_props();
    }
    if chars_eq_str(v, "true") {
        Some(true)
    } else if chars_eq_str(v, "false") {
        Some(false)
    } else {
        None
    }
}

/// Parses a stored answer-input-mode field.
fn parse_options_field(v: &Vec<char>) -> (r: Option<Options>)
    ensures
        forall|o: Options| v@ == spec_options_tag(o) ==> r == Some(o),
{
    proof {
        lemma_value_tag_props();
        crate::question::lemma_poker_tag_lens();
    }
    if chars_eq_str(v, "Binary") {
        Some(Options::Binary)
    } else if chars_eq_str(v, "Numbers") {
        Some(Options::Numbers)
    } else if chars_eq_str(v, "PokerAction") {
        Some(Options::PokerAction)
    } else {
        None
    }
}

/// Parses a whole-field count of millionths.
fn parse_micros_field(v: &Vec<char>) -> (r: Option<u64>)
    ensures
        forall|m: u64| v@ == spec_fmt_micros(m as nat) ==> r == Some(m),
{
    proof {
        assert forall|m: u64| v@ == spec_fmt_micros(m as nat) implies spec_parse_micros(v@)
            == Some(m) by {
            lemma_parse_fmt_micros(m);
        }
    }
    let n = v.len();
    proof {
        assert(v@.subrange(0, n as int) =~= v@);
    }
    parse_micros(v, 0, n)
}

/// Parses one stored line back into an association.
///
/// Parsing the line of any well-formed association gives it back: the
/// final clause states this for every association at once.
fn parse_entry(line: &Vec<char>) -> (r: Option<ReviewEntry>)
    ensures
        r is Some ==> entry_v_wf(entry_view(r->Some_0)),
        forall|e: ReviewEntryV|
            entry_v_wf(e) && line@ == spec_entry_line(e) ==> r is Some && entry_view(r->Some_0)
                == e,
{
    let n = line.len();
    let fields = split_on(line, 0, n, KEY_SEP);
    let ghost fv = fields@.map_values(|p: Vec<char>| p@);
    proof {
        assert(line@.subrange(0, n as int) =~= line@);
        assert forall|e: ReviewEntryV|
            entry_v_wf(e) && line@ == spec_entry_line(e) implies fv == spec_entry_fields(e) by {
            lemma_entry_fields_clean(e);
            lemma_split_join(spec_entry_fields(e), KEY_SEP);
        }
    }
    if fields.len() != 10 {
        return None;
    }
    let f0 = &fields[0];
    let kp = match decode_presentation_chars(f0, 0, f0.len()) {
        Ok(x) => x,
        Err(_) => {
            proof {
                field_whole(fields@[0]);
            }
            return None;
        },
    };
    let f1 = &fields[1];
    let ka = match decode_answer_chars(f1, 0, f1.len()) {
        Ok(x) => x,
        Err(_) => {
            proof {
                field_whole(fields@[1]);
            }
            return None;
        },
    };
    let difficulty = match parse_micros_field(&fields[2]) {
        Some(x) => x,
        None => {
            return None;
        },
    };
    if difficulty > SCALE {
        return None;
    }
    let days = match parse_micros_field(&fields[3]) {
        Some(x) => x,
        None => {
            return None;
        },
    };
    if days < 1 {
        return None;
    }
    let date = match parse_date_field(&fields[4]) {
        Some(x) => x,
        None => {
            return None;
        },
    };
    let correct = match parse_bool_field(&fields[5]) {
        Some(x) => x,
        None => {
            return None;
        },
    };
    let f6 = &fields[6];
    let qp = match decode_presentation_chars(f6, 0, f6.len()) {
        Ok(x) => x,
        Err(_) => {
            proof {
                field_whole(fields@[6]);
            }
            return None;
        },
    };
    let opts = match parse_options_field(&fields[7]) {
        Some(x) => x,
        None => {
            return None;
        },
    };
    let f8 = &fields[8];
    let qa = match decode_answer_chars(f8, 0, f8.len()) {
        Ok(x) => x,
        Err(_) => {
            proof {
                field_whole(fields@[8]);
            }
            return None;
        },
    };
    let tolerance = match parse_opt_micros_field(&fields[9]) {
        Some(x) => x,
        None => {
            return None;
        },
    };
    proof {
        field_whole(fields@[0]);
        field_whole(fields@[1]);
        field_whole(fields@[6]);
        field_whole(fields@[8]);
    }
    let item = ReviewItem {
        difficulty,
        days_between_review_attempts: days,
        date_last_reviewed: date,
        last_answer_correct: correct,
        question: Question { presentation: qp, options: opts, answer: qa, tolerance },
    };
    Some(((kp, ka), item))
}

/// A whole field is its own subrange.
proof fn field_whole(f: Vec<char>)
    ensures
        f@.subrange(0, f@.len() as int) == f@,
{
    assert(f@.subrange(0, f@.len() as int) =~= f@);
}

/// Whether any two associations share a key.
fn find_duplicate_key(entries: &Vec<ReviewEntry>) -> (r: bool)
    ensures
        r == !unique_keys(
            Seq::new(entries@.len() as nat, |i: int| entry_view(entries@[i])),
        ),
{
    let ghost es = Seq::new(entries@.len() as nat, |i: int| entry_view(entries@[i]));
    let mut i: usize = 0;
    while i < entries.len()
        invariant
            i <= entries@.len(),
            es == Seq::new(entries@.len() as nat, |k: int| entry_view(entries@[k])),
            forall|a: int, b: int| 0 <= a < b < es.len() && a < i ==> (#[trigger] es[a]).0 != (
            #[trigger] es[b]).0,
        decreases entries@.len() - i,
    {
        let mut j: usize = i + 1;
        while j < entries.len()
            invariant
                i < j <= entries@.len(),
                i < entries@.len(),
                es == Seq::new(entries@.len() as nat, |k: int| entry_view(entries@[k])),
                forall|b: int| i < b < j ==> (#[trigger] es[b]).0 != es[i as int].0,
            decreases entries@.len() - j,
        {
            proof {
                assert(es[i as int] == entry_view(entries@[i as int]));
                assert(es[j as int] == entry_view(entries@[j as int]));
            }
            if key_eq(&entries[i].0, &entries[j].0) {
                proof {
                    assert((es[i as int]).0 == (es[j as int]).0);
                    assert(!unique_keys(es));
                }
                return true;
            }
            j = j + 1;
        }
        i = i + 1;
    }
    false
}

impl ReviewCollection {
    /// Rebuilds a collection from its stored text.
    ///
    /// Strictly parsed: any malformed line, out-of-range value or repeated
    /// key yields `None`, and the caller falls back to an empty
    /// collection. The final clause is the round trip with
    /// [`ReviewCollection::serialize`]: the stored text of any well-formed
    /// collection parses back to exactly its associations.
    pub fn deserialize(s: &str) -> (r: Option<ReviewCollection>)
        ensures
            r is Some ==> r->Some_0.wf(),
            forall|es: Seq<ReviewEntryV>|
                wf_entries(es) && s@ == #[trigger] spec_serialize(es) ==> r is Some
                    && r->Some_0@ == es,
    {
        let v = chars_of_str(s);
        let n = v.len();
        if n == 0 {
            let empty = ReviewCollection::new();
            proof {
                assert forall|es: Seq<ReviewEntryV>| wf_entries(es) && s@ == #[trigger] spec_serialize(es) implies empty@ == es by {
                    if es.len() >= 1 {
                        lemma_entry_line_newline_free(es[0]);
                        let m = es.map_values(|e: ReviewEntryV| spec_entry_line(e));
                        assert(m[0] == spec_entry_line(es[0]));
                        assert(spec_serialize(es).len() >= m[0].len()) by {
                            if m.len() == 1 {
                                assert(spec_join(m, '\n') == m[0]);
                            } else {
                                assert(spec_join(m, '\n') == m[0] + seq!['\n'] + spec_join(
                                    m.drop_first(),
                                    '\n',
                                ));
                            }
                        }
                    }
                    assert(empty@ =~= es);
                }
            }
            return Some(empty);
        }
        let lines = split_on(&v, 0, n, '\n');
        let ghost lv = lines@.map_values(|p: Vec<char>| p@);
        proof {
            assert(v@.subrange(0, n as int) =~= v@);
            assert forall|es: Seq<ReviewEntryV>| wf_entries(es) && s@ == #[trigger] spec_serialize(es) implies es.len() >= 1 && lv
                == es.map_values(|e: ReviewEntryV| spec_entry_line(e)) by {
                let m = es.map_values(|e: ReviewEntryV| spec_entry_line(e));
                if es.len() == 0 {
                    assert(spec_serialize(es).len() == 0);
                } else {
                    assert forall|a: int, b: int|
                        0 <= a < m.len() && 0 <= b < m[a].len() implies #[trigger] m[a][b]
                        != '\n' by {
                        lemma_entry_line_newline_free(es[a]);
                        assert(m[a] == spec_entry_line(es[a]));
                    }
                    lemma_split_join(m, '\n');
                }
            }
        }
        let mut out: Vec<ReviewEntry> = Vec::new();
        let mut i: usize = 0;
        while i < lines.len()
            invariant
                i <= lines@.len(),
                lv == lines@.map_values(|p: Vec<char>| p@),
                forall|es: Seq<ReviewEntryV>|
                    wf_entries(es) && s@ == #[trigger] spec_serialize(es) ==> es.len() >= 1 && lv
                        == es.map_values(|e: ReviewEntryV| spec_entry_line(e)),
                forall|k: int|
                    0 <= k < out@.len() ==> entry_v_wf(entry_view(#[trigger] out@[k])),
                forall|es: Seq<ReviewEntryV>|
                    wf_entries(es) && s@ == #[trigger] spec_serialize(es) ==> out@.len() == i
                        && Seq::new(out@.len() as nat, |k: int| entry_view(out@[k])) == es.take(
                        i as int,
                    ),
            decreases lines@.len() - i,
        {
            let entry = match parse_entry(&lines[i]) {
                Some(e) => e,
                None => {
                    proof {
                        assert forall|es: Seq<ReviewEntryV>| wf_entries(es) && s@ == #[trigger] spec_serialize(es) implies false by {
                            assert(lv[i as int] == spec_entry_line(es[i as int]));
                            assert(entry_v_wf(es[i as int]));
                        }
                    }
                    return None;
                },
            };
            let ghost prev = out@;
            out.push(entry);
            proof {
                assert forall|es: Seq<ReviewEntryV>| wf_entries(es) && s@ == #[trigger] spec_serialize(es) implies Seq::new(
                    out@.len() as nat,
                    |k: int| entry_view(out@[k]),
                ) == es.take(i + 1) by {
                    assert(lv[i as int] == spec_entry_line(es[i as int]));
                    assert(entry_v_wf(es[i as int]));
                    assert(entry_view(entry) == es[i as int]);
                    assert(Seq::new(out@.len() as nat, |k: int| entry_view(out@[k])) =~= es.take(
                        i + 1,
                    ));
                }
            }
            i = i + 1;
        }
        if find_duplicate_key(&out) {
            proof {
                assert forall|es: Seq<ReviewEntryV>| wf_entries(es) && s@ == #[trigger] spec_serialize(es) implies false by {
                    assert(Seq::new(out@.len() as nat, |k: int| entry_view(out@[k])) == es.take(
                        lines@.len() as int,
                    ));
                    assert(es.take(lines@.len() as int) =~= es);
                }
            }
            return None;
        }
        let r = ReviewCollection { entries: out };
        proof {
            assert(r@ =~= Seq::new(out@.len() as nat, |k: int| entry_view(out@[k])));
            assert forall|es: Seq<ReviewEntryV>| wf_entries(es) && s@ == #[trigger] spec_serialize(es) implies r@ == es by {
                assert(es.take(lines@.len() as int) =~= es);
            }
        }
        Some(r)
    }
}

} // verus!
