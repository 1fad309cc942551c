//! Sanitized display strings and the character-level helpers that the
//! canonical encodings are built from.
//!
//! Every piece of user-visible text is kept in a [`DisplayString`], which is
//! guaranteed never to contain the two reserved separator characters nor a
//! literal newline, so that composite encodings stay single-line and can be
//! split on separators unambiguously.

use vstd::prelude::*;
use vstd::string::StrSliceExecFns;

verus! {

/// Separator between the fields of one encoded value.
pub const FIELD_SEP: char = '\u{2A3C}';

/// Separator between the presentation part and the answer part of a
/// composite storage key, and between the fields of one stored entry.
pub const KEY_SEP: char = '\u{2999}';

/// A character sequence that may safely appear between separators:
/// it contains neither separator and no newline.
pub open spec fn is_clean(s: Seq<char>) -> bool {
    forall|i: int| 0 <= i < s.len() ==> s[i] != FIELD_SEP && s[i] != KEY_SEP && s[i] != '\n'
}

/// What one raw character contributes to a sanitized string: separators are
/// replaced by harmless look-alikes and a newline becomes the two-character
/// escape `\n`.
pub open spec fn sanitize_char(c: char) -> Seq<char> {
    if c == FIELD_SEP {
        seq!['_']
    } else if c == KEY_SEP {
        seq!['|']
    } else if c == '\n' {
        seq!['\\', 'n']
    } else {
        seq![c]
    }
}

/// The sanitized form of a raw character sequence.
pub open spec fn spec_sanitize(s: Seq<char>) -> Seq<char>
    decreases s.len(),
{
    if s.len() == 0 {
        Seq::empty()
    } else {
        spec_sanitize(s.drop_last()) + sanitize_char(s.last())
    }
}

/// Sanitized strings are clean: they contain no separator and no newline.
pub proof fn lemma_sanitize_is_clean(s: Seq<char>)
    ensures
        is_clean(spec_sanitize(s)),
    decreases s.len(),
{
    if s.len() > 0 {
        lemma_sanitize_is_clean(s.drop_last());
    }
}

/// Sanitization does not touch a string that is already clean.
pub proof fn lemma_sanitize_clean_identity(s: Seq<char>)
    requires
        is_clean(s),
    ensures
        spec_sanitize(s) == s,
    decreases s.len(),
{
    if s.len() == 0 {
        assert(spec_sanitize(s) =~= s);
    } else {
        assert(is_clean(s.drop_last()));
        lemma_sanitize_clean_identity(s.drop_last());
        assert(spec_sanitize(s) =~= s);
    }
}

/// Sanitizing twice is the same as sanitizing once.
pub proof fn lemma_sanitize_idempotent(s: Seq<char>)
    ensures
        spec_sanitize(spec_sanitize(s)) == spec_sanitize(s),
{
    lemma_sanitize_is_clean(s);
    lemma_sanitize_clean_identity(spec_sanitize(s));
}

/// A string value that never contains the reserved separator characters nor
/// a literal newline; the only way to build one is through sanitization.
#[derive(Debug, Clone, PartialEq, Eq, Hash)]
pub struct DisplayString(pub String);

impl View for DisplayString {
    type V = Seq<char>;

    open spec fn view(&self) -> Seq<char> {
        self.0@
    }
}

impl DisplayString {
    /// The invariant that construction establishes.
    pub open spec fn wf(&self) -> bool {
        is_clean(self@)
    }

    /// Builds a display string from raw text, replacing each reserved
    /// separator and escaping each newline.
    pub fn new(s: &str) -> (r: DisplayString)
        ensures
            r@ == spec_sanitize(s@),
            r.wf(),
    {
        let raw = chars_of_str(s);
        Self::new_from_chars(&raw)
    }

    /// Builds a display string from raw characters; same sanitization as
    /// [`DisplayString::new`].
    pub fn new_from_chars(v: &Vec<char>) -> (r: DisplayString)
        ensures
            r@ == spec_sanitize(v@),
            r.wf(),
    {
        let clean = sanitize_chars(v);
        let text = string_from_chars(&clean);
        proof {
            lemma_sanitize_is_clean(v@);
        }
        DisplayString(text)
    }

    /// An exact copy.
    pub fn duplicate(&self) -> (r: DisplayString)
        ensures
            r@ == self@,
    {
        DisplayString(self.0.clone())
    }

    /// The sanitized text itself, as characters.
    pub fn chars(&self) -> (r: Vec<char>)
        ensures
            r@ == self@,
    {
        chars_of_str(self.0.as_str())
    }

    /// The display form of the text: escaped newlines are turned back into
    /// real newlines. This is deliberately not the inverse used by the
    /// canonical encoder, which keeps the single-line escaped form.
    pub fn to_display(&self) -> (r: String)
        ensures
            r@ == spec_unescape(self@),
    {
        let v = self.chars();
        let u = unescape_chars(&v);
        string_from_chars(&u)
    }
}

/// Equality of two display strings, by their sanitized text.
pub fn display_eq(a: &DisplayString, b: &DisplayString) -> (r: bool)
    ensures
        r == (a@ == b@),
{
    a.0 == b.0
}

/// The display form of a sanitized string: each two-character escape `\n`
/// stands for one real newline.
pub open spec fn spec_unescape(s: Seq<char>) -> Seq<char>
    decreases s.len(),
{
    if s.len() == 0 {
        Seq::empty()
    } else if s.len() >= 2 && s[0] == '\\' && s[1] == 'n' {
        seq!['\n'] + spec_unescape(s.subrange(2, s.len() as int))
    } else {
        seq![s[0]] + spec_unescape(s.subrange(1, s.len() as int))
    }
}

/// Sanitizes a character sequence.
pub fn sanitize_chars(v: &Vec<char>) -> (r: Vec<char>)
    ensures
        r@ == spec_sanitize(v@),
{
    let mut out: Vec<char> = Vec::new();
    let mut i: usize = 0;
    while i < v.len()
        invariant
            i <= v@.len(),
            out@ == spec_sanitize(v@.take(i as int)),
        decreases v@.len() - i,
    {
        let c = v[i];
        if c == FIELD_SEP {
            out.push('_');
        } else if c == KEY_SEP {
            out.push('|');
        } else if c == '\n' {
            out.push('\\');
            out.push('n');
        } else {
            out.push(c);
        }
        proof {
            let t = v@.take(i + 1 as int);
            assert(t.drop_last() =~= v@.take(i as int));
            assert(t.last() == v@[i as int]);
        }
        i = i + 1;
    }
    proof {
        assert(v@.take(v@.len() as int) =~= v@);
    }
    out
}

/// Undoes newline escaping on a character sequence.
pub fn unescape_chars(v: &Vec<char>) -> (r: Vec<char>)
    ensures
        r@ == spec_unescape(v@),
{
    let mut out: Vec<char> = Vec::new();
    let mut i: usize = 0;
    proof {
        assert(v@.subrange(0, v@.len() as int) =~= v@);
        assert(Seq::<char>::empty() + spec_unescape(v@) =~= spec_unescape(v@));
    }
    while i < v.len()
        invariant
            i <= v@.len(),
            out@ + spec_unescape(v@.subrange(i as int, v@.len() as int)) == spec_unescape(v@),
        decreases v@.len() - i,
    {
        let ghost rest = v@.subrange(i as int, v@.len() as int);
        let ghost prev = out@;
        if i + 1 < v.len() && v[i] == '\\' && v[i + 1] == 'n' {
            out.push('\n');
            proof {
                assert(rest.subrange(2, rest.len() as int) =~= v@.subrange(
                    i + 2 as int,
                    v@.len() as int,
                ));
                assert(spec_unescape(rest) == seq!['\n'] + spec_unescape(
                    rest.subrange(2, rest.len() as int),
                ));
                assert(out@ + spec_unescape(rest.subrange(2, rest.len() as int)) =~= prev
                    + spec_unescape(rest));
            }
            i = i + 2;
        } else {
            out.push(v[i]);
            proof {
                assert(rest.subrange(1, rest.len() as int) =~= v@.subrange(
                    i + 1 as int,
                    v@.len() as int,
                ));
                assert(spec_unescape(rest) == seq![rest[0]] + spec_unescape(
                    rest.subrange(1, rest.len() as int),
                ));
                assert(out@ + spec_unescape(rest.subrange(1, rest.len() as int)) =~= prev
                    + spec_unescape(rest));
            }
            i = i + 1;
        }
    }
    proof {
        assert(v@.subrange(v@.len() as int, v@.len() as int) =~= Seq::<char>::empty());
    }
    out
}

/// The characters of a string slice, in order.
pub fn chars_of_str(s: &str) -> (r: Vec<char>)
    ensures
        r@ == s@,
{
    let n = s.unicode_len();
    let mut out: Vec<char> = Vec::new();
    let mut i: usize = 0;
    while i < n
        invariant
            i <= n,
            n == s@.len(),
            out@ == s@.take(i as int),
        decreases n - i,
    {
        out.push(s.get_char(i));
        proof {
            assert(s@.take(i + 1 as int) =~= s@.take(i as int).push(s@[i as int]));
        }
        i = i + 1;
    }
    proof {
        assert(s@.take(n as int) =~= s@);
    }
    out
}

/// Relies on `String::from_iter` over `char`: collecting characters yields
/// the string with exactly those characters in order.
#[verifier::external_body]
pub fn string_from_chars(v: &Vec<char>) -> (r: String)
    ensures
        r@ == v@,
{
    v.iter().collect()
}

/// Appends all characters of `src` to `dst`.
pub fn push_all(dst: &mut Vec<char>, src: &Vec<char>)
    ensures
        final(dst)@ == old(dst)@ + src@,
{
    let mut i: usize = 0;
    while i < src.len()
        invariant
            i <= src@.len(),
            dst@ == old(dst)@ + src@.take(i as int),
        decreases src@.len() - i,
    {
        dst.push(src[i]);
        proof {
            assert(old(dst)@ + src@.take(i + 1 as int) =~= (old(dst)@ + src@.take(i as int)).push(
                src@[i as int],
            ));
        }
        i = i + 1;
    }
    proof {
        assert(src@.take(src@.len() as int) =~= src@);
    }
}

/// Appends the characters of a string slice to `dst`.
pub fn push_str_chars(dst: &mut Vec<char>, s: &str)
    ensures
        final(dst)@ == old(dst)@ + s@,
{
    let v = chars_of_str(s);
    push_all(dst, &v);
}

/// The characters of `v` from `from` (inclusive) to `to` (exclusive).
pub fn subrange_chars(v: &Vec<char>, from: usize, to: usize) -> (r: Vec<char>)
    requires
        from <= to <= v@.len(),
    ensures
        r@ == v@.subrange(from as int, to as int),
{
    let mut out: Vec<char> = Vec::new();
    let mut i: usize = from;
    while i < to
        invariant
            from <= i <= to <= v@.len(),
            out@ == v@.subrange(from as int, i as int),
        decreases to - i,
    {
        out.push(v[i]);
        proof {
            assert(v@.subrange(from as int, i + 1 as int) =~= v@.subrange(from as int, i as int)
                .push(v@[i as int]));
        }
        i = i + 1;
    }
    out
}

/// Whether the characters of `v` are clean: no separators and no newline.
pub fn chars_clean(v: &Vec<char>) -> (r: bool)
    ensures
        r == is_clean(v@),
{
    let mut i: usize = 0;
    while i < v.len()
        invariant
            i <= v@.len(),
            forall|j: int| 0 <= j < i ==> v@[j] != FIELD_SEP && v@[j] != KEY_SEP && v@[j] != '\n',
        decreases v@.len() - i,
    {
        if v[i] == FIELD_SEP || v[i] == KEY_SEP || v[i] == '\n' {
            return false;
        }
        i = i + 1;
    }
    true
}

/// The first position of `c` in `v` at or after `from` and before `to`,
/// if any.
pub fn find_char_range(v: &Vec<char>, from: usize, to: usize, c: char) -> (r: Option<usize>)
    requires
        from <= to <= v@.len(),
    ensures
        match r {
            Some(i) => from <= i < to && v@[i as int] == c && forall|j: int|
                from <= j < i ==> v@[j] != c,
            None => forall|j: int| from <= j < to ==> v@[j] != c,
        },
{
    let mut i: usize = from;
    while i < to
        invariant
            from <= i <= to <= v@.len(),
            forall|j: int| from <= j < i ==> v@[j] != c,
        decreases to - i,
    {
        if v[i] == c {
            return Some(i);
        }
        i = i + 1;
    }
    None
}

/// Whether two character sequences are equal.
pub fn chars_eq(a: &Vec<char>, b: &Vec<char>) -> (r: bool)
    ensures
        r == (a@ == b@),
{
    if a.len() != b.len() {
        return false;
    }
    let mut i: usize = 0;
    while i < a.len()
        invariant
            i <= a@.len(),
            a@.len() == b@.len(),
            forall|j: int| 0 <= j < i ==> a@[j] == b@[j],
        decreases a@.len() - i,
    {
        if a[i] != b[i] {
            return false;
        }
        i = i + 1;
    }
    proof {
        assert(a@ =~= b@);
    }
    true
}

/// Whether the characters of `v` between `from` and `to` equal `p`.
pub fn range_eq(v: &Vec<char>, from: usize, to: usize, p: &Vec<char>) -> (r: bool)
    requires
        from <= to <= v@.len(),
    ensures
        r == (v@.subrange(from as int, to as int) == p@),
{
    if to - from != p.len() {
        return false;
    }
    let mut i: usize = 0;
    while i < p.len()
        invariant
            i <= p@.len(),
            from + p@.len() == to <= v@.len(),
            forall|j: int| 0 <= j < i ==> v@[from + j] == p@[j],
        decreases p@.len() - i,
    {
        if v[from + i] != p[i] {
            return false;
        }
        i = i + 1;
    }
    proof {
        assert(v@.subrange(from as int, to as int) =~= p@);
    }
    true
}

/// Whether the characters of `v` between `from` and `to` begin with `p`.
pub fn starts_with_at(v: &Vec<char>, from: usize, to: usize, p: &Vec<char>) -> (r: bool)
    requires
        from <= to <= v@.len(),
    ensures
        r == (to - from >= p@.len() && v@.subrange(from as int, from + p@.len()) == p@),
{
    if to - from < p.len() {
        return false;
    }
    let mut i: usize = 0;
    while i < p.len()
        invariant
            i <= p@.len(),
            from + p@.len() <= to <= v@.len(),
            forall|j: int| 0 <= j < i ==> v@[from + j] == p@[j],
        decreases p@.len() - i,
    {
        if v[from + i] != p[i] {
            return false;
        }
        i = i + 1;
    }
    proof {
        assert(v@.subrange(from as int, from + p@.len()) =~= p@);
    }
    true
}

/// Whether the characters of `v` equal those of the string slice `s`.
pub fn chars_eq_str(v: &Vec<char>, s: &str) -> (r: bool)
    ensures
        r == (v@ == s@),
{
    let w = chars_of_str(s);
    chars_eq(v, &w)
}

/// Pieces joined with a separator character between each two.
pub open spec fn spec_join(ps: Seq<Seq<char>>, sep: char) -> Seq<char>
    decreases ps.len(),
{
    if ps.len() == 0 {
        Seq::empty()
    } else if ps.len() == 1 {
        ps[0]
    } else {
        ps[0] + seq![sep] + spec_join(ps.drop_first(), sep)
    }
}

/// A string split at every occurrence of a separator character.
pub open spec fn spec_split(s: Seq<char>, sep: char) -> Seq<Seq<char>>
    decreases s.len(),
{
    match spec_find_at(s, sep) {
        None => seq![s],
        Some(i) => {
            if 0 <= i < s.len() {
                seq![s.subrange(0, i)] + spec_split(s.subrange(i + 1, s.len() as int), sep)
            } else {
                seq![s]
            }
        },
    }
}

/// The first position of `c` in `s`, if any.
pub open spec fn spec_find_at(s: Seq<char>, c: char) -> Option<int>
    decreases s.len(),
{
    if s.len() == 0 {
        None
    } else if s[0] == c {
        Some(0)
    } else {
        match spec_find_at(s.drop_first(), c) {
            Some(i) => Some(i + 1),
            None => None,
        }
    }
}

/// `spec_find_at` finds the first occurrence, and `None` means there is
/// none.
pub proof fn lemma_spec_find_at(s: Seq<char>, c: char)
    ensures
        match spec_find_at(s, c) {
            Some(i) => 0 <= i < s.len() && s[i] == c && forall|j: int| 0 <= j < i ==> s[j] != c,
            None => forall|j: int| 0 <= j < s.len() ==> s[j] != c,
        },
    decreases s.len(),
{
    if s.len() == 0 {
    } else if s[0] == c {
    } else {
        lemma_spec_find_at(s.drop_first(), c);
        let rest = s.drop_first();
        match spec_find_at(rest, c) {
            Some(i) => {
                assert(s[i + 1] == rest[i]);
                assert(forall|j: int| 1 <= j < i + 1 ==> s[j] == rest[j - 1]);
            },
            None => {
                assert(forall|j: int| 1 <= j < s.len() ==> s[j] == rest[j - 1]);
            },
        }
    }
}

/// Splitting what was joined from separator-free pieces gives the pieces
/// back.
pub proof fn lemma_split_join(ps: Seq<Seq<char>>, sep: char)
    requires
        ps.len() >= 1,
        forall|i: int, j: int|
            0 <= i < ps.len() && 0 <= j < ps[i].len() ==> #[trigger] ps[i][j] != sep,
    ensures
        spec_split(spec_join(ps, sep), sep) == ps,
    decreases ps.len(),
{
    let s = spec_join(ps, sep);
    lemma_spec_find_at(s, sep);
    if ps.len() == 1 {
        match spec_find_at(s, sep) {
            None => {
                assert(spec_split(s, sep) =~= ps);
            },
            Some(i) => {
                assert(ps[0][i] != sep);
            },
        }
    } else {
        let rest = ps.drop_first();
        let tail = spec_join(rest, sep);
        assert(s == ps[0] + seq![sep] + tail);
        assert(s[ps[0].len() as int] == sep);
        assert forall|j: int| 0 <= j < ps[0].len() implies s[j] != sep by {
            assert(s[j] == ps[0][j]);
        }
        match spec_find_at(s, sep) {
            None => {
                assert(false);
            },
            Some(i) => {
                assert(i == ps[0].len()) by {
                    if i < ps[0].len() {
                        assert(s[i] != sep);
                    }
                }
                assert(s.subrange(0, i) =~= ps[0]);
                assert(s.subrange(i + 1, s.len() as int) =~= tail);
                assert forall|a: int, b: int|
                    0 <= a < rest.len() && 0 <= b < rest[a].len() implies #[trigger] rest[a][b]
                    != sep by {
                    assert(rest[a] == ps[a + 1]);
                }
                lemma_split_join(rest, sep);
                assert(spec_split(s, sep) =~= seq![ps[0]] + spec_split(tail, sep));
                assert(seq![ps[0]] + rest =~= ps);
            },
        }
    }
}

/// Splits the characters of `v` between `from` and `to` at every
/// occurrence of `sep`.
pub fn split_on(v: &Vec<char>, from: usize, to: usize, sep: char) -> (r: Vec<Vec<char>>)
    requires
        from <= to <= v@.len(),
    ensures
        r@.map_values(|p: Vec<char>| p@) == spec_split(v@.subrange(from as int, to as int), sep),
{
    let mut out: Vec<Vec<char>> = Vec::new();
    let mut pos: usize = from;
    loop
        invariant
            from <= pos <= to <= v@.len(),
            out@.map_values(|p: Vec<char>| p@) + spec_split(
                v@.subrange(pos as int, to as int),
                sep,
            ) =~= spec_split(v@.subrange(from as int, to as int), sep),
        decreases to - pos + 1,
    {
        let ghost rest = v@.subrange(pos as int, to as int);
        proof {
            lemma_spec_find_at(rest, sep);
        }
        match find_char_range(v, pos, to, sep) {
            Some(cut) => {
                proof {
                    match spec_find_at(rest, sep) {
                        None => {
                            assert(rest[cut - pos] == sep);
                            assert(false);
                        },
                        Some(i) => {
                            assert(i == cut - pos) by {
                                if i < cut - pos {
                                    assert(v@[pos + i] == sep);
                                }
                                if i > cut - pos {
                                    assert(rest[cut - pos] != sep);
                                }
                            }
                            assert(rest.subrange(0, i) =~= v@.subrange(pos as int, cut as int));
                            assert(rest.subrange(i + 1, rest.len() as int) =~= v@.subrange(
                                cut + 1 as int,
                                to as int,
                            ));
                        },
                    }
                }
                let piece = subrange_chars(v, pos, cut);
                let ghost prev = out@;
                out.push(piece);
                proof {
                    assert(out@.map_values(|p: Vec<char>| p@) =~= prev.map_values(
                        |p: Vec<char>| p@,
                    ).push(piece@));
                }
                pos = cut + 1;
            },
            None => {
                proof {
                    match spec_find_at(rest, sep) {
                        None => {
                        },
                        Some(i) => {
                            assert(v@[pos + i] == sep);
                        },
                    }
                }
                let piece = subrange_chars(v, pos, to);
                let ghost prev = out@;
                out.push(piece);
                proof {
                    assert(out@.map_values(|p: Vec<char>| p@) =~= prev.map_values(
                        |p: Vec<char>| p@,
                    ).push(piece@));
                    assert(spec_split(rest, sep) =~= seq![rest]);
                }
                return out;
            },
        }
    }
}

/// Joining one more piece appends a separator and the piece.
proof fn lemma_join_push(ps: Seq<Seq<char>>, p: Seq<char>, sep: char)
    ensures
        spec_join(ps.push(p), sep) == if ps.len() == 0 {
            p
        } else {
            spec_join(ps, sep) + seq![sep] + p
        },
    decreases ps.len(),
{
    let whole = ps.push(p);
    if ps.len() == 0 {
        assert(whole.len() == 1);
        assert(spec_join(whole, sep) == whole[0]);
    } else if ps.len() == 1 {
        assert(whole.drop_first() =~= seq![p]);
        assert(spec_join(whole, sep) == whole[0] + seq![sep] + spec_join(whole.drop_first(), sep));
        assert(spec_join(ps, sep) == ps[0]);
    } else {
        lemma_join_push(ps.drop_first(), p, sep);
        assert(whole.drop_first() =~= ps.drop_first().push(p));
        assert(spec_join(whole, sep) == whole[0] + seq![sep] + spec_join(whole.drop_first(), sep));
        assert(spec_join(ps, sep) == ps[0] + seq![sep] + spec_join(ps.drop_first(), sep));
        assert(ps[0] + seq![sep] + (spec_join(ps.drop_first(), sep) + seq![sep] + p) =~= (ps[0]
            + seq![sep] + spec_join(ps.drop_first(), sep)) + seq![sep] + p);
    }
}

/// A join of pieces free of some character, with a separator that is not
/// that character, is itself free of it.
pub proof fn lemma_join_free(ps: Seq<Seq<char>>, sep: char, c: char)
    requires
        sep != c,
        forall|i: int, j: int|
            0 <= i < ps.len() && 0 <= j < ps[i].len() ==> #[trigger] ps[i][j] != c,
    ensures
        forall|j: int| 0 <= j < spec_join(ps, sep).len() ==> #[trigger] spec_join(ps, sep)[j] != c,
    decreases ps.len(),
{
    if ps.len() == 0 {
    } else if ps.len() == 1 {
        assert forall|j: int| 0 <= j < spec_join(ps, sep).len() implies #[trigger] spec_join(
            ps,
            sep,
        )[j] != c by {
            assert(spec_join(ps, sep)[j] == ps[0][j]);
        }
    } else {
        let rest = ps.drop_first();
        assert forall|a: int, b: int|
            0 <= a < rest.len() && 0 <= b < rest[a].len() implies #[trigger] rest[a][b] != c by {
            assert(rest[a] == ps[a + 1]);
        }
        lemma_join_free(rest, sep, c);
        let s = spec_join(ps, sep);
        assert(s == ps[0] + seq![sep] + spec_join(rest, sep));
        assert forall|j: int| 0 <= j < s.len() implies #[trigger] s[j] != c by {
            if j < ps[0].len() {
                assert(s[j] == ps[0][j]);
            } else if j == ps[0].len() {
                assert(s[j] == sep);
            } else {
                assert(s[j] == spec_join(rest, sep)[j - ps[0].len() - 1]);
            }
        }
    }
}

/// Joins pieces with a separator character between each two.
pub fn join_chars(ps: &Vec<Vec<char>>, sep: char) -> (r: Vec<char>)
    ensures
        r@ == spec_join(ps@.map_values(|p: Vec<char>| p@), sep),
{
    let ghost m = ps@.map_values(|p: Vec<char>| p@);
    let mut out: Vec<char> = Vec::new();
    let mut i: usize = 0;
    proof {
        assert(m.take(0) =~= Seq::<Seq<char>>::empty());
    }
    while i < ps.len()
        invariant
            i <= ps@.len(),
            m == ps@.map_values(|p: Vec<char>| p@),
            out@ == spec_join(m.take(i as int), sep),
        decreases ps@.len() - i,
    {
        let ghost prev = out@;
        if i > 0 {
            out.push(sep);
        }
        push_all(&mut out, &ps[i]);
        proof {
            lemma_join_push(m.take(i as int), m[i as int], sep);
            assert(m.take(i + 1) =~= m.take(i as int).push(m[i as int]));
            if i == 0 {
                assert(out@ =~= m[0]);
            } else {
                assert(out@ =~= spec_join(m.take(i as int), sep) + seq![sep] + m[i as int]);
            }
        }
        i = i + 1;
    }
    proof {
        assert(m.take(ps@.len() as int) =~= m);
    }
    out
}

} // verus!
