//! Decimal numerals and fixed-point amounts.
//!
//! All quantities of the engine — difficulty, review intervals, overdue
//! scores, tolerances and answer amounts — are integer multiples of one
//! millionth (see [`crate::SCALE`]). This module formats such values as
//! canonical decimal text and parses that text back, with a proved
//! round trip.

use vstd::prelude::*;
use crate::SCALE;

verus! {

/// The number of fractional digits that one [`crate::SCALE`] unit spans.
pub const FRAC_WIDTH: u64 = 6;

/// The decimal digit character for `d` (only meaningful for `d < 10`).
pub open spec fn digit_char(d: nat) -> char {
    if d == 0 {
        '0'
    } else if d == 1 {
        '1'
    } else if d == 2 {
        '2'
    } else if d == 3 {
        '3'
    } else if d == 4 {
        '4'
    } else if d == 5 {
        '5'
    } else if d == 6 {
        '6'
    } else if d == 7 {
        '7'
    } else if d == 8 {
        '8'
    } else {
        '9'
    }
}

/// The value of a decimal digit character; 10 stands for "not a digit".
pub open spec fn char_digit(c: char) -> nat {
    if c == '0' {
        0
    } else if c == '1' {
        1
    } else if c == '2' {
        2
    } else if c == '3' {
        3
    } else if c == '4' {
        4
    } else if c == '5' {
        5
    } else if c == '6' {
        6
    } else if c == '7' {
        7
    } else if c == '8' {
        8
    } else if c == '9' {
        9
    } else {
        10
    }
}

/// Whether every character of `s` is a decimal digit.
pub open spec fn all_digits(s: Seq<char>) -> bool {
    forall|i: int| 0 <= i < s.len() ==> char_digit(s[i]) < 10
}

/// The decimal numeral of `n`, most significant digit first.
pub open spec fn spec_digits(n: nat) -> Seq<char>
    decreases n,
{
    if n < 10 {
        seq![digit_char(n)]
    } else {
        spec_digits(n / 10).push(digit_char(n % 10))
    }
}

/// The numeral of `n` padded with leading zeros to exactly `w` digits.
pub open spec fn spec_digits_pad(n: nat, w: nat) -> Seq<char>
    decreases w,
{
    if w == 0 {
        Seq::empty()
    } else {
        spec_digits_pad(n / 10, (w - 1) as nat).push(digit_char(n % 10))
    }
}

/// The number a digit string denotes.
pub open spec fn spec_val(s: Seq<char>) -> nat
    decreases s.len(),
{
    if s.len() == 0 {
        0
    } else {
        spec_val(s.drop_last()) * 10 + char_digit(s.last())
    }
}

/// `s` with its trailing zero digits removed.
pub open spec fn drop_tz(s: Seq<char>) -> Seq<char>
    decreases s.len(),
{
    if s.len() > 0 && s.last() == '0' {
        drop_tz(s.drop_last())
    } else {
        s
    }
}

/// Ten to the power `e`.
pub open spec fn pow10(e: nat) -> nat
    decreases e,
{
    if e == 0 {
        1
    } else {
        10 * pow10((e - 1) as nat)
    }
}

/// The numeral of `n` is a nonempty digit string that denotes `n`.
pub proof fn lemma_digits(n: nat)
    ensures
        spec_digits(n).len() >= 1,
        all_digits(spec_digits(n)),
        spec_val(spec_digits(n)) == n,
    decreases n,
{
    if n < 10 {
        let s = spec_digits(n);
        assert(s.drop_last() =~= Seq::<char>::empty());
        assert(s.last() == digit_char(n));
        assert(spec_val(Seq::<char>::empty()) == 0);
        assert(char_digit(digit_char(n)) == n);
    } else {
        lemma_digits(n / 10);
        let s = spec_digits(n);
        assert(s.drop_last() =~= spec_digits(n / 10));
        assert(spec_val(s) == (n / 10) * 10 + n % 10);
    }
}

/// A `w`-digit string denotes a number below ten to the `w`.
proof fn lemma_val_bound(s: Seq<char>)
    requires
        all_digits(s),
    ensures
        spec_val(s) < pow10(s.len() as nat),
    decreases s.len(),
{
    if s.len() == 0 {
    } else {
        assert(all_digits(s.drop_last()));
        lemma_val_bound(s.drop_last());
        assert(char_digit(s.last()) < 10);
        assert(spec_val(s.drop_last()) * 10 + 9 < pow10(s.len() as nat)) by {
            assert(spec_val(s.drop_last()) + 1 <= pow10((s.len() - 1) as nat));
            assert((spec_val(s.drop_last()) + 1) * 10 <= pow10((s.len() - 1) as nat) * 10)
                by (nonlinear_arith)
                requires
                    spec_val(s.drop_last()) + 1 <= pow10((s.len() - 1) as nat),
            ;
        }
    }
}

/// The padded numeral of `n < 10^w` has exactly `w` digits and denotes `n`.
proof fn lemma_digits_pad(n: nat, w: nat)
    requires
        n < pow10(w),
    ensures
        spec_digits_pad(n, w).len() == w,
        all_digits(spec_digits_pad(n, w)),
        spec_val(spec_digits_pad(n, w)) == n,
    decreases w,
{
    if w == 0 {
    } else {
        assert(n / 10 < pow10((w - 1) as nat)) by (nonlinear_arith)
            requires
                n < 10 * pow10((w - 1) as nat),
        ;
        lemma_digits_pad(n / 10, (w - 1) as nat);
        let s = spec_digits_pad(n, w);
        assert(s.drop_last() =~= spec_digits_pad(n / 10, (w - 1) as nat));
        assert(spec_val(s) == (n / 10) * 10 + n % 10);
    }
}

/// Removing trailing zeros keeps a prefix that denotes the same number up to
/// a power of ten.
proof fn lemma_drop_tz(s: Seq<char>)
    requires
        all_digits(s),
    ensures
        drop_tz(s).len() <= s.len(),
        drop_tz(s) == s.subrange(0, drop_tz(s).len() as int),
        all_digits(drop_tz(s)),
        spec_val(s) == spec_val(drop_tz(s)) * pow10((s.len() - drop_tz(s).len()) as nat),
        drop_tz(s).len() > 0 ==> drop_tz(s).last() != '0',
        drop_tz(s).len() == 0 ==> spec_val(s) == 0,
    decreases s.len(),
{
    if s.len() > 0 && s.last() == '0' {
        assert(all_digits(s.drop_last()));
        lemma_drop_tz(s.drop_last());
        let t = drop_tz(s);
        assert(t == drop_tz(s.drop_last()));
        assert(s.drop_last().subrange(0, t.len() as int) =~= s.subrange(0, t.len() as int));
        let e = (s.len() - 1 - t.len()) as nat;
        assert(spec_val(s) == spec_val(s.drop_last()) * 10);
        assert(spec_val(s.drop_last()) == spec_val(t) * pow10(e));
        assert(spec_val(t) * pow10(e) * 10 == spec_val(t) * (pow10(e) * 10)) by (nonlinear_arith);
        assert(pow10(e) * 10 == pow10((e + 1) as nat)) by {
            assert(pow10((e + 1) as nat) == 10 * pow10(e));
        }
        assert((s.len() - t.len()) as nat == (e + 1) as nat);
        assert(spec_val(s) == spec_val(t) * pow10((s.len() - t.len()) as nat));
    } else {
        assert(drop_tz(s) == s);
        assert(s.subrange(0, s.len() as int) =~= s);
        assert(pow10(0) == 1);
        assert(spec_val(s) * 1 == spec_val(s)) by (nonlinear_arith);
        assert(spec_val(s) == spec_val(drop_tz(s)) * pow10((s.len() - drop_tz(s).len()) as nat));
    }
}

/// A digit character is one of `'0'` through `'9'`; in particular it is not
/// a separator, a dot, a minus sign or a newline.
proof fn lemma_digit_char_shape(c: char)
    requires
        char_digit(c) < 10,
    ensures
        c == '0' || c == '1' || c == '2' || c == '3' || c == '4' || c == '5' || c == '6' || c
            == '7' || c == '8' || c == '9',
{
}

/// Digit strings are clean text: no separators, no newline.
pub proof fn lemma_digits_clean(s: Seq<char>)
    requires
        all_digits(s),
    ensures
        crate::text::is_clean(s),
{
    assert forall|i: int| 0 <= i < s.len() implies s[i] != crate::text::FIELD_SEP && s[i]
        != crate::text::KEY_SEP && s[i] != '\n' by {
        lemma_digit_char_shape(s[i]);
    }
}

/// The exec digit character for `d`.
pub fn digit_to_char(d: u64) -> (c: char)
    requires
        d < 10,
    ensures
        c == digit_char(d as nat),
{
    if d == 0 {
        '0'
    } else if d == 1 {
        '1'
    } else if d == 2 {
        '2'
    } else if d == 3 {
        '3'
    } else if d == 4 {
        '4'
    } else if d == 5 {
        '5'
    } else if d == 6 {
        '6'
    } else if d == 7 {
        '7'
    } else if d == 8 {
        '8'
    } else {
        '9'
    }
}

/// The exec value of a digit character, if it is one.
pub fn char_to_digit(c: char) -> (r: Option<u64>)
    ensures
        match r {
            Some(d) => d < 10 && char_digit(c) == d as nat,
            None => char_digit(c) == 10,
        },
{
    if c == '0' {
        Some(0)
    } else if c == '1' {
        Some(1)
    } else if c == '2' {
        Some(2)
    } else if c == '3' {
        Some(3)
    } else if c == '4' {
        Some(4)
    } else if c == '5' {
        Some(5)
    } else if c == '6' {
        Some(6)
    } else if c == '7' {
        Some(7)
    } else if c == '8' {
        Some(8)
    } else if c == '9' {
        Some(9)
    } else {
        None
    }
}

/// Formats `n` as its decimal numeral.
pub fn fmt_u64(n: u64) -> (r: Vec<char>)
    ensures
        r@ == spec_digits(n as nat),
    decreases n,
{
    if n < 10 {
        let mut v: Vec<char> = Vec::new();
        v.push(digit_to_char(n));
        proof {
            assert(v@ =~= spec_digits(n as nat));
        }
        v
    } else {
        let mut v = fmt_u64(n / 10);
        v.push(digit_to_char(n % 10));
        v
    }
}

/// Formats `n` as exactly `w` digits, zero padded on the left.
pub fn fmt_u64_pad(n: u64, w: usize) -> (r: Vec<char>)
    ensures
        r@ == spec_digits_pad(n as nat, w as nat),
    decreases w,
{
    if w == 0 {
        let v: Vec<char> = Vec::new();
        proof {
            assert(v@ =~= spec_digits_pad(n as nat, 0));
        }
        v
    } else {
        let mut v = fmt_u64_pad(n / 10, w - 1);
        v.push(digit_to_char(n % 10));
        v
    }
}

/// A prefix of a digit string denotes no more than the whole string.
proof fn lemma_val_prefix_le(s: Seq<char>, k: int)
    requires
        all_digits(s),
        0 <= k <= s.len(),
    ensures
        spec_val(s.subrange(0, k)) <= spec_val(s),
    decreases s.len() - k,
{
    if k < s.len() {
        lemma_val_prefix_le(s, k + 1);
        let a = s.subrange(0, k);
        let b = s.subrange(0, k + 1);
        assert(b.drop_last() =~= a);
        assert(spec_val(b) == spec_val(a) * 10 + char_digit(s[k]));
        assert(spec_val(a) <= spec_val(a) * 10) by (nonlinear_arith);
    } else {
        assert(s.subrange(0, k) =~= s);
    }
}

/// Parses the digits of `v` between `from` and `to` as a number.
///
/// Succeeds exactly on nonempty all-digit ranges whose value fits in `u64`.
pub fn parse_u64(v: &Vec<char>, from: usize, to: usize) -> (r: Option<u64>)
    requires
        from <= to <= v@.len(),
    ensures
        match r {
            Some(x) => {
                &&& from < to
                &&& all_digits(v@.subrange(from as int, to as int))
                &&& x as nat == spec_val(v@.subrange(from as int, to as int))
            },
            None => {
                ||| from == to
                ||| !all_digits(v@.subrange(from as int, to as int))
                ||| spec_val(v@.subrange(from as int, to as int)) > u64::MAX
            },
        },
{
    if from == to {
        return None;
    }
    let ghost s = v@.subrange(from as int, to as int);
    let mut val: u64 = 0;
    let mut i: usize = from;
    while i < to
        invariant
            from <= i <= to <= v@.len(),
            s == v@.subrange(from as int, to as int),
            all_digits(s.subrange(0, i - from)),
            val as nat == spec_val(s.subrange(0, i - from)),
        decreases to - i,
    {
        let ghost done = s.subrange(0, i - from);
        match char_to_digit(v[i]) {
            Some(d) => {
                let wide: u128 = (val as u128) * 10 + (d as u128);
                if wide > u64::MAX as u128 {
                    proof {
                        let stepped = s.subrange(0, i + 1 - from);
                        assert(stepped.drop_last() =~= done);
                        assert(stepped.last() == s[i - from]);
                        assert(all_digits(stepped));
                        assert(spec_val(stepped) == spec_val(done) * 10 + d);
                        if all_digits(s) {
                            lemma_val_prefix_le(s, i + 1 - from);
                        }
                    }
                    return None;
                }
                val = (wide) as u64;
                proof {
                    let stepped = s.subrange(0, i + 1 - from);
                    assert(stepped.drop_last() =~= done);
                    assert(stepped.last() == s[i - from]);
                }
            },
            None => {
                proof {
                    assert(char_digit(s[i - from]) == 10);
                }
                return None;
            },
        }
        i = i + 1;
    }
    proof {
        assert(s.subrange(0, to - from) =~= s);
    }
    Some(val)
}

/// What a nonempty all-digit string parses to, if its value fits.
pub open spec fn spec_parse_u64(s: Seq<char>) -> Option<u64> {
    if s.len() > 0 && all_digits(s) && spec_val(s) <= u64::MAX {
        Some(spec_val(s) as u64)
    } else {
        None
    }
}

/// The canonical decimal text of `m` millionths: the whole part, and a dot
/// with the fractional digits only when the fraction is not zero.
pub open spec fn spec_fmt_micros(m: nat) -> Seq<char> {
    if m % (SCALE as nat) == 0 {
        spec_digits(m / (SCALE as nat))
    } else {
        spec_digits(m / (SCALE as nat)) + seq!['.'] + drop_tz(
            spec_digits_pad(m % (SCALE as nat), FRAC_WIDTH as nat),
        )
    }
}

/// What a decimal string parses to, in millionths: an optional dot splits
/// the whole part from at most six fractional digits.
pub open spec fn spec_parse_micros(s: Seq<char>) -> Option<u64> {
    match crate::text::spec_find_at(s, '.') {
        None => match spec_parse_u64(s) {
            Some(ip) => {
                if ip * (SCALE as nat) <= u64::MAX {
                    Some((ip * SCALE) as u64)
                } else {
                    None
                }
            },
            None => None,
        },
        Some(d) => {
            let frac = s.subrange(d + 1, s.len() as int);
            if 1 <= frac.len() <= FRAC_WIDTH {
                match (spec_parse_u64(s.subrange(0, d)), spec_parse_u64(frac)) {
                    (Some(ip), Some(fv)) => {
                        let fp = (fv as nat) * pow10((FRAC_WIDTH - frac.len()) as nat);
                        if ip * (SCALE as nat) + fp <= u64::MAX {
                            Some((ip * (SCALE as nat) + fp) as u64)
                        } else {
                            None
                        }
                    },
                    _ => None,
                }
            } else {
                None
            }
        },
    }
}

/// Powers of ten grow with the exponent.
proof fn lemma_pow10_mono(a: nat, b: nat)
    requires
        a <= b,
    ensures
        pow10(a) <= pow10(b),
    decreases b,
{
    if a < b {
        lemma_pow10_mono(a, (b - 1) as nat);
        assert(pow10(b) == 10 * pow10((b - 1) as nat));
    }
}

/// The pieces of the canonical text of `m` millionths.
pub proof fn lemma_fmt_micros_parts(m: nat)
    requires
        m <= u64::MAX,
    ensures
        ({
            let ip = m / (SCALE as nat);
            let fp = m % (SCALE as nat);
            let ds = spec_digits(ip);
            let s = spec_fmt_micros(m);
            &&& all_digits(ds)
            &&& spec_val(ds) == ip
            &&& ds.len() >= 1
            &&& (fp == 0 ==> s == ds)
            &&& (fp != 0 ==> {
                let tail = drop_tz(spec_digits_pad(fp, FRAC_WIDTH as nat));
                &&& s == ds + seq!['.'] + tail
                &&& 1 <= tail.len() <= FRAC_WIDTH
                &&& all_digits(tail)
                &&& (spec_val(tail) as nat) * pow10((FRAC_WIDTH - tail.len()) as nat) == fp
                &&& tail.last() != '0'
            })
        }),
{
    let ip = m / (SCALE as nat);
    let fp = m % (SCALE as nat);
    lemma_digits(ip);
    if fp != 0 {
        assert(fp < SCALE as nat);
        assert(pow10(FRAC_WIDTH as nat) == SCALE) by {
            reveal_with_fuel(pow10, 7);
        }
        lemma_digits_pad(fp, FRAC_WIDTH as nat);
        let padded = spec_digits_pad(fp, FRAC_WIDTH as nat);
        lemma_drop_tz(padded);
        let tail = drop_tz(padded);
        if tail.len() == 0 {
            assert(spec_val(padded) == 0);
            assert(false);
        }
        assert(spec_val(tail) * pow10((FRAC_WIDTH - tail.len()) as nat) == fp);
    }
}

/// The characters of the canonical text of `m` millionths are digits and at
/// most one dot; in particular the text is clean and free of minus signs.
pub proof fn lemma_fmt_micros_chars(m: nat)
    requires
        m <= u64::MAX,
    ensures
        spec_fmt_micros(m).len() >= 1,
        forall|i: int|
            0 <= i < spec_fmt_micros(m).len() ==> (char_digit(#[trigger] spec_fmt_micros(m)[i])
                < 10 || spec_fmt_micros(m)[i] == '.'),
        crate::text::is_clean(spec_fmt_micros(m)),
{
    lemma_fmt_micros_parts(m);
    let s = spec_fmt_micros(m);
    assert forall|i: int| 0 <= i < s.len() implies (char_digit(#[trigger] s[i]) < 10 || s[i]
        == '.') by {
        let ip = m / (SCALE as nat);
        let fp = m % (SCALE as nat);
        let ds = spec_digits(ip);
        if fp != 0 {
            let tail = drop_tz(spec_digits_pad(fp, FRAC_WIDTH as nat));
            if i < ds.len() {
                assert(s[i] == ds[i]);
            } else if i == ds.len() {
                assert(s[i] == '.');
            } else {
                assert(s[i] == tail[i - ds.len() - 1]);
            }
        }
    }
    assert forall|i: int| 0 <= i < s.len() implies s[i] != crate::text::FIELD_SEP && s[i]
        != crate::text::KEY_SEP && s[i] != '\n' by {
        if char_digit(s[i]) < 10 {
            lemma_digit_char_shape(s[i]);
        }
    }
}

/// Parsing the canonical text of `m` millionths gives back exactly `m`.
pub proof fn lemma_parse_fmt_micros(m: u64)
    ensures
        spec_parse_micros(spec_fmt_micros(m as nat)) == Some(m),
{
    lemma_fmt_micros_parts(m as nat);
    let ip = (m as nat) / (SCALE as nat);
    let fp = (m as nat) % (SCALE as nat);
    let ds = spec_digits(ip);
    let s = spec_fmt_micros(m as nat);
    vstd::arithmetic::div_mod::lemma_fundamental_div_mod(m as int, SCALE as int);
    crate::text::lemma_spec_find_at(s, '.');
    assert forall|i: int| 0 <= i < ds.len() implies ds[i] != '.' by {
        lemma_digit_char_shape(ds[i]);
    }
    if fp == 0 {
        assert(crate::text::spec_find_at(s, '.') is None);
        assert(spec_parse_u64(s) == Some(spec_val(ds) as u64));
        assert(ip * (SCALE as nat) == m);
    } else {
        let tail = drop_tz(spec_digits_pad(fp, FRAC_WIDTH as nat));
        assert forall|i: int| 0 <= i < tail.len() implies tail[i] != '.' by {
            lemma_digit_char_shape(tail[i]);
        }
        assert(s[ds.len() as int] == '.');
        assert forall|j: int| 0 <= j < s.len() && s[j] == '.' implies j == ds.len() by {
            if j < ds.len() {
                assert(s[j] == ds[j]);
            } else if j > ds.len() {
                assert(s[j] == tail[j - ds.len() - 1]);
            }
        }
        match crate::text::spec_find_at(s, '.') {
            None => {
                assert(false);
            },
            Some(d) => {
                assert(d == ds.len());
                assert(s.subrange(0, d) =~= ds);
                let frac = s.subrange(d + 1, s.len() as int);
                assert(frac =~= tail);
                lemma_val_bound(tail);
                lemma_pow10_mono(tail.len() as nat, FRAC_WIDTH as nat);
                assert(pow10(FRAC_WIDTH as nat) == SCALE) by {
                    reveal_with_fuel(pow10, 7);
                }
                assert(spec_val(tail) <= u64::MAX);
                assert(spec_parse_u64(ds) == Some(spec_val(ds) as u64));
                assert(spec_parse_u64(frac) == Some(spec_val(tail) as u64));
                assert(ip * (SCALE as nat) + fp == m);
            },
        }
    }
}

/// Strips trailing `'0'` characters.
pub fn strip_tz(v: &Vec<char>) -> (r: Vec<char>)
    ensures
        r@ == drop_tz(v@),
{
    let mut end: usize = v.len();
    proof {
        assert(v@.take(v@.len() as int) =~= v@);
    }
    while end > 0 && v[end - 1] == '0'
        invariant
            end <= v@.len(),
            drop_tz(v@.take(end as int)) == drop_tz(v@),
        decreases end,
    {
        proof {
            assert(v@.take(end as int).last() == v@[end - 1]);
            assert(v@.take(end as int).drop_last() =~= v@.take(end - 1));
        }
        end = end - 1;
    }
    let r = crate::text::subrange_chars(v, 0, end);
    proof {
        let t = v@.take(end as int);
        if end > 0 {
            assert(t.last() == v@[end - 1]);
        }
        assert(drop_tz(t) == t);
        assert(v@.subrange(0, end as int) =~= t);
    }
    r
}

/// Formats `m` millionths as canonical decimal text.
pub fn fmt_micros(m: u64) -> (r: Vec<char>)
    ensures
        r@ == spec_fmt_micros(m as nat),
{
    let ip = m / SCALE;
    let fp = m % SCALE;
    let mut out = fmt_u64(ip);
    if fp != 0 {
        out.push('.');
        let padded = fmt_u64_pad(fp, 6);
        let tail = strip_tz(&padded);
        let ghost mid = out@;
        crate::text::push_all(&mut out, &tail);
        proof {
            assert(FRAC_WIDTH as nat == 6);
            assert(out@ =~= spec_digits((m / SCALE) as nat) + seq!['.'] + drop_tz(
                spec_digits_pad((m % SCALE) as nat, FRAC_WIDTH as nat),
            ));
        }
    }
    out
}

/// Parses the characters of `v` between `from` and `to` as a decimal count
/// of millionths.
pub fn parse_micros(v: &Vec<char>, from: usize, to: usize) -> (r: Option<u64>)
    requires
        from <= to <= v@.len(),
    ensures
        r == spec_parse_micros(v@.subrange(from as int, to as int)),
{
    let ghost s = v@.subrange(from as int, to as int);
    proof {
        crate::text::lemma_spec_find_at(s, '.');
    }
    let dot = crate::text::find_char_range(v, from, to, '.');
    match dot {
        None => {
            proof {
                if crate::text::spec_find_at(s, '.') is Some {
                    let i = crate::text::spec_find_at(s, '.')->Some_0;
                    assert(s[i] == v@[from + i]);
                }
            }
            match parse_u64(v, from, to) {
                Some(ip) => {
                    proof {
                        assert(spec_parse_u64(s) == Some(ip));
                        assert((ip as u128) * (SCALE as u128) <= u128::MAX) by (nonlinear_arith)
                            requires
                                ip <= u64::MAX,
                                SCALE == 1_000_000u64,
                        ;
                    }
                    let wide: u128 = (ip as u128) * (SCALE as u128);
                    if wide > u64::MAX as u128 {
                        None
                    } else {
                        Some(wide as u64)
                    }
                },
                None => {
                    proof {
                        assert(spec_parse_u64(s) is None);
                    }
                    None
                },
            }
        },
        Some(d) => {
            proof {
                assert(s[d - from] == '.');
                assert forall|j: int| 0 <= j < d - from implies s[j] != '.' by {
                    assert(s[j] == v@[from + j]);
                }
                match crate::text::spec_find_at(s, '.') {
                    None => {
                        assert(false);
                    },
                    Some(i) => {
                        if i < d - from {
                            assert(s[i] == '.');
                        }
                        assert(i == d - from);
                    },
                }
            }
            let fl = to - d - 1;
            if fl < 1 || fl > 6 {
                proof {
                    assert(s.subrange(d - from + 1, s.len() as int).len() == fl);
                    assert(FRAC_WIDTH as nat == 6);
                }
                return None;
            }
            let ghost intpart = s.subrange(0, d - from);
            let ghost frac = s.subrange(d - from + 1, s.len() as int);
            proof {
                assert(intpart =~= v@.subrange(from as int, d as int));
                assert(frac =~= v@.subrange(d + 1 as int, to as int));
            }
            let ip = match parse_u64(v, from, d) {
                Some(x) => x,
                None => {
                    proof {
                        assert(spec_parse_u64(intpart) is None);
                    }
                    return None;
                },
            };
            let fv = match parse_u64(v, d + 1, to) {
                Some(x) => x,
                None => {
                    proof {
                        assert(spec_parse_u64(frac) is None);
                    }
                    return None;
                },
            };
            proof {
                assert(spec_parse_u64(intpart) == Some(ip));
                assert(spec_parse_u64(frac) == Some(fv));
            }
            let scale_down = pow10_small(6 - fl);
            proof {
                assert((ip as u128) * (SCALE as u128) + (fv as u128) * (scale_down as u128)
                    <= u128::MAX) by (nonlinear_arith)
                    requires
                        ip <= u64::MAX,
                        fv <= u64::MAX,
                        scale_down <= 1_000_000u64,
                        SCALE == 1_000_000u64,
                ;
            }
            let wide: u128 = (ip as u128) * (SCALE as u128) + (fv as u128) * (scale_down as u128);
            if wide > u64::MAX as u128 {
                None
            } else {
                Some(wide as u64)
            }
        },
    }
}

/// A signed fixed-point amount: `micros` millionths, negated when `neg` is
/// set. Zero is never negative, so each value has one canonical text form.
#[derive(Clone, Copy, Debug, PartialEq, Eq, Structural)]
pub struct Amount {
    pub neg: bool,
    pub micros: u64,
}

impl Amount {
    /// The invariant: a negative amount has a nonzero magnitude.
    pub open spec fn wf(&self) -> bool {
        self.neg ==> self.micros > 0
    }

    /// The signed number of millionths this amount stands for.
    pub open spec fn signed(&self) -> int {
        if self.neg {
            -(self.micros as int)
        } else {
            self.micros as int
        }
    }
}

/// The canonical decimal text of an amount.
pub open spec fn spec_fmt_amount(a: Amount) -> Seq<char> {
    if a.neg {
        seq!['-'] + spec_fmt_micros(a.micros as nat)
    } else {
        spec_fmt_micros(a.micros as nat)
    }
}

/// What a decimal string with an optional leading minus parses to.
pub open spec fn spec_parse_amount(s: Seq<char>) -> Option<Amount> {
    if s.len() > 0 && s[0] == '-' {
        match spec_parse_micros(s.subrange(1, s.len() as int)) {
            Some(m) => {
                if m > 0 {
                    Some(Amount { neg: true, micros: m })
                } else {
                    None
                }
            },
            None => None,
        }
    } else {
        match spec_parse_micros(s) {
            Some(m) => Some(Amount { neg: false, micros: m }),
            None => None,
        }
    }
}

/// Parsing the canonical text of an amount gives back exactly that amount.
pub proof fn lemma_parse_fmt_amount(a: Amount)
    requires
        a.wf(),
    ensures
        spec_parse_amount(spec_fmt_amount(a)) == Some(a),
{
    lemma_fmt_micros_chars(a.micros as nat);
    lemma_parse_fmt_micros(a.micros);
    let s = spec_fmt_amount(a);
    if a.neg {
        assert(s[0] == '-');
        assert(s.subrange(1, s.len() as int) =~= spec_fmt_micros(a.micros as nat));
    } else {
        let t = spec_fmt_micros(a.micros as nat);
        assert(char_digit(t[0]) < 10 || t[0] == '.');
        if char_digit(t[0]) < 10 {
            lemma_digit_char_shape(t[0]);
        }
        assert(s[0] != '-');
    }
}

/// The canonical text of an amount is clean.
pub proof fn lemma_fmt_amount_clean(a: Amount)
    ensures
        crate::text::is_clean(spec_fmt_amount(a)),
{
    lemma_fmt_micros_chars(a.micros as nat);
    let t = spec_fmt_micros(a.micros as nat);
    if a.neg {
        let s = spec_fmt_amount(a);
        assert(forall|i: int| 1 <= i < s.len() ==> s[i] == t[i - 1]);
    }
}

/// Formats an amount as canonical decimal text.
pub fn fmt_amount(a: &Amount) -> (r: Vec<char>)
    ensures
        r@ == spec_fmt_amount(*a),
{
    let mut out: Vec<char> = Vec::new();
    if a.neg {
        out.push('-');
    }
    let body = fmt_micros(a.micros);
    crate::text::push_all(&mut out, &body);
    proof {
        assert(out@ =~= spec_fmt_amount(*a));
    }
    out
}

/// Parses the characters of `v` between `from` and `to` as a signed
/// decimal amount.
pub fn parse_amount(v: &Vec<char>, from: usize, to: usize) -> (r: Option<Amount>)
    requires
        from <= to <= v@.len(),
    ensures
        r == spec_parse_amount(v@.subrange(from as int, to as int)),
        r is Some ==> r->Some_0.wf(),
{
    let ghost s = v@.subrange(from as int, to as int);
    if from < to && v[from] == '-' {
        proof {
            assert(s.subrange(1, s.len() as int) =~= v@.subrange(from + 1 as int, to as int));
        }
        match parse_micros(v, from + 1, to) {
            Some(m) => {
                if m > 0 {
                    Some(Amount { neg: true, micros: m })
                } else {
                    None
                }
            },
            None => None,
        }
    } else {
        match parse_micros(v, from, to) {
            Some(m) => Some(Amount { neg: false, micros: m }),
            None => None,
        }
    }
}

/// Whether two amounts differ by strictly less than `tol` millionths.
pub fn amount_within(a: &Amount, b: &Amount, tol: u64) -> (r: bool)
    ensures
        r == ({
            let diff = a.signed() - b.signed();
            (if diff < 0 {
                -diff
            } else {
                diff
            }) < tol
        }),
{
    if a.neg == b.neg {
        let d = if a.micros >= b.micros {
            a.micros - b.micros
        } else {
            b.micros - a.micros
        };
        d < tol
    } else {
        let sum: u128 = a.micros as u128 + b.micros as u128;
        sum < tol as u128
    }
}

/// Ten to the power `e`, for small `e`.
pub fn pow10_small(e: usize) -> (r: u64)
    requires
        e <= 6,
    ensures
        r as nat == pow10(e as nat),
        r <= 1_000_000,
{
    proof {
        reveal_with_fuel(pow10, 7);
    }
    if e == 0 {
        1
    } else if e == 1 {
        10
    } else if e == 2 {
        100
    } else if e == 3 {
        1_000
    } else if e == 4 {
        10_000
    } else if e == 5 {
        100_000
    } else {
        1_000_000
    }
}

/// The decimal text of a signed count of seconds: a minus sign and the
/// magnitude's digits.
pub open spec fn spec_fmt_i64(t: i64) -> Seq<char> {
    if t < 0 {
        seq!['-'] + spec_digits((-(t as int)) as nat)
    } else {
        spec_digits(t as nat)
    }
}

/// What a decimal string with an optional leading minus parses to as a
/// signed 64-bit value.
pub open spec fn spec_parse_i64(s: Seq<char>) -> Option<i64> {
    if s.len() > 0 && s[0] == '-' {
        match spec_parse_u64(s.subrange(1, s.len() as int)) {
            Some(m) => {
                if 0 < m <= 0x8000_0000_0000_0000u64 {
                    Some((-(m as int)) as i64)
                } else {
                    None
                }
            },
            None => None,
        }
    } else {
        match spec_parse_u64(s) {
            Some(m) => {
                if m <= 0x7fff_ffff_ffff_ffffu64 {
                    Some(m as i64)
                } else {
                    None
                }
            },
            None => None,
        }
    }
}

/// Parsing the decimal text of any signed value gives it back.
pub proof fn lemma_parse_fmt_i64(t: i64)
    ensures
        spec_parse_i64(spec_fmt_i64(t)) == Some(t),
{
    let s = spec_fmt_i64(t);
    if t < 0 {
        let m = (-(t as int)) as nat;
        lemma_digits(m);
        assert(s[0] == '-');
        assert(s.subrange(1, s.len() as int) =~= spec_digits(m));
    } else {
        lemma_digits(t as nat);
        lemma_digit_char_shape(s[0]);
    }
}

/// The decimal text of a signed value is clean.
pub proof fn lemma_fmt_i64_clean(t: i64)
    ensures
        crate::text::is_clean(spec_fmt_i64(t)),
        spec_fmt_i64(t).len() >= 1,
{
    if t < 0 {
        let ds = spec_digits((-(t as int)) as nat);
        lemma_digits((-(t as int)) as nat);
        lemma_digits_clean(ds);
        assert forall|i: int| 0 <= i < spec_fmt_i64(t).len() implies spec_fmt_i64(t)[i]
            != crate::text::FIELD_SEP && spec_fmt_i64(t)[i] != crate::text::KEY_SEP && spec_fmt_i64(
            t,
        )[i] != '\n' by {
            if i >= 1 {
                assert(spec_fmt_i64(t)[i] == ds[i - 1]);
            }
        }
    } else {
        lemma_digits(t as nat);
        lemma_digits_clean(spec_digits(t as nat));
    }
}

/// Formats a signed count of seconds as decimal text.
pub fn fmt_i64(t: i64) -> (r: Vec<char>)
    ensures
        r@ == spec_fmt_i64(t),
{
    if t >= 0 {
        fmt_u64(t as u64)
    } else {
        let mag: u64 = (-(t as i128)) as u64;
        let mut out: Vec<char> = Vec::new();
        out.push('-');
        let ds = fmt_u64(mag);
        crate::text::push_all(&mut out, &ds);
        proof {
            assert(out@ =~= spec_fmt_i64(t));
        }
        out
    }
}

/// Parses the characters of `v` between `from` and `to` as a signed
/// decimal value.
pub fn parse_i64(v: &Vec<char>, from: usize, to: usize) -> (r: Option<i64>)
    requires
        from <= to <= v@.len(),
    ensures
        r == spec_parse_i64(v@.subrange(from as int, to as int)),
{
    let ghost s = v@.subrange(from as int, to as int);
    if from < to && v[from] == '-' {
        proof {
            assert(s.subrange(1, s.len() as int) =~= v@.subrange(from + 1 as int, to as int));
        }
        match parse_u64(v, from + 1, to) {
            Some(m) => {
                proof {
                    assert(spec_parse_u64(s.subrange(1, s.len() as int)) == Some(m));
                }
                if 0 < m && m <= 0x8000_0000_0000_0000u64 {
                    Some((-(m as i128)) as i64)
                } else {
                    None
                }
            },
            None => {
                proof {
                    assert(spec_parse_u64(s.subrange(1, s.len() as int)) is None);
                }
                None
            },
        }
    } else {
        match parse_u64(v, from, to) {
            Some(m) => {
                proof {
                    assert(spec_parse_u64(s) == Some(m));
                }
                if m <= 0x7fff_ffff_ffff_ffffu64 {
                    Some(m as i64)
                } else {
                    None
                }
            },
            None => {
                proof {
                    assert(spec_parse_u64(s) is None);
                }
                None
            },
        }
    }
}

} // verus!
