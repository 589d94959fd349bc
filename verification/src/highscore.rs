//! The text a highscore is kept as: a decimal number of points.
//!
//! A score is a whole number of score units, a million to the point. It is
//! written in the shortest way: the points, and only where the score is no
//! whole number of points a full stop and the digits of the rest, without
//! zeros at the end.
//!
//! More is read than is written: a plus sign may come first; digits may
//! stand before a full stop, after it, or both; and an exponent may follow,
//! an `e` or `E`, perhaps a sign, and digits. What such a number holds
//! beyond the sixth digit after the full stop is dropped. A minus sign in
//! front, a blank, or a word such as `inf` make the text no highscore, and
//! so does a number too large to hold.

use vstd::prelude::*;
use crate::arith::{lemma_pow10_grows, pow10};
use crate::scenes::UNITS_PER_POINT;

verus! {

/// Whether `b` is one of the characters `0` to `9`.
pub open spec fn is_digit(b: u8) -> bool {
    48 <= b <= 57
}

/// Whether every byte of `s` is a digit.
pub open spec fn all_digits(s: Seq<u8>) -> bool {
    forall|i: int| 0 <= i < s.len() ==> is_digit(#[trigger] s[i])
}

/// The number that the digits `s` spell.
pub open spec fn digits_value(s: Seq<u8>) -> nat
    decreases s.len(),
{
    if s.len() == 0 {
        0
    } else {
        (digits_value(s.drop_last()) * 10 + (s.last() - 48)) as nat
    }
}

/// Where the run of digits that starts at `from` ends: the place of the
/// first byte from there on that is no digit, or the end of the text.
pub open spec fn digit_run(s: Seq<u8>, from: int) -> int
    decreases s.len() - from,
{
    if 0 <= from < s.len() && is_digit(s[from]) {
        digit_run(s, from + 1)
    } else {
        from
    }
}

/// Where the parts of a number stand in a text, each as the place where it
/// starts and the place where it ends.
pub struct Layout {
    /// The digits before the full stop.
    pub whole: (int, int),
    /// The digits after the full stop.
    pub fraction: (int, int),
    /// Whether an `e` or `E` follows the digits.
    pub has_exponent: bool,
    /// Whether a minus sign follows the `e`.
    pub exponent_negative: bool,
    /// The digits of the exponent.
    pub exponent: (int, int),
}

/// How a text is read as a number: a plus sign if there is one, then
/// digits, then a full stop and more digits if there is a full stop, then
/// an `e` or `E` with a sign if there is one and digits.
pub open spec fn layout(s: Seq<u8>) -> Layout {
    let a: int = if s.len() > 0 && s[0] == 43 { 1 } else { 0 };
    let b = digit_run(s, a);
    let stop = b < s.len() && s[b] == 46;
    let c = if stop { b + 1 } else { b };
    let d = if stop { digit_run(s, c) } else { b };
    let has_exponent = d < s.len() && (s[d] == 101 || s[d] == 69);
    let g = d + 1;
    let signed = has_exponent && g < s.len() && (s[g] == 43 || s[g] == 45);
    let h = if !has_exponent { d } else if signed { g + 1 } else { g };
    let j = if has_exponent { digit_run(s, h) } else { d };
    Layout {
        whole: (a, b),
        fraction: (c, d),
        has_exponent,
        exponent_negative: signed && s[g] == 45,
        exponent: (h, j),
    }
}

/// Whether `s` is a number as it may stand in the store: read as
/// [`layout`] says, it has a digit before or after the full stop, digits
/// in its exponent if it has one, and nothing left over.
pub open spec fn well_formed(s: Seq<u8>) -> bool {
    let l = layout(s);
    &&& (l.whole.1 - l.whole.0) + (l.fraction.1 - l.fraction.0) > 0
    &&& l.exponent.1 == s.len()
    &&& l.has_exponent ==> l.exponent.1 > l.exponent.0
}

/// The digits of the number, those before the full stop and those after.
pub open spec fn mantissa(s: Seq<u8>) -> Seq<u8> {
    let l = layout(s);
    s.subrange(l.whole.0, l.whole.1) + s.subrange(l.fraction.0, l.fraction.1)
}

/// The exponent of the number; nothing if it has none.
pub open spec fn exponent_value(s: Seq<u8>) -> int {
    let l = layout(s);
    let size = digits_value(s.subrange(l.exponent.0, l.exponent.1));
    if !l.has_exponent {
        0
    } else if l.exponent_negative {
        -size
    } else {
        size as int
    }
}

/// How many digits the number has before its point when it is counted in
/// score units: those before the full stop, six more for the units in a
/// point, and as many more or fewer as the exponent says.
pub open spec fn places(s: Seq<u8>) -> int {
    let l = layout(s);
    (l.whole.1 - l.whole.0) + 6 + exponent_value(s)
}

/// The first `places` of the digits `digits`, with zeros where they run
/// out: what stands before the point once the point has been moved.
pub open spec fn shifted(digits: Seq<u8>, places: int) -> Seq<u8> {
    Seq::new(
        if places > 0 { places as nat } else { 0 },
        |i: int| if i < digits.len() { digits[i] } else { 48u8 },
    )
}

/// The score that the text `s` stands for, in score units: its number of
/// points times a million, with what is less than a unit dropped.
/// [`lemma_shifted_value`] says what that comes to as a number.
pub open spec fn text_value(s: Seq<u8>) -> nat {
    digits_value(shifted(mantissa(s), places(s)))
}

/// The score that the text `s` holds, if it holds one that fits.
pub open spec fn parsed(s: Seq<u8>) -> Option<u64> {
    if well_formed(s) && text_value(s) <= u64::MAX {
        Some(text_value(s) as u64)
    } else {
        None
    }
}

/// The digits of `n`, without leading zeros.
pub open spec fn decimal(n: nat) -> Seq<u8>
    decreases n,
{
    if n < 10 {
        seq![(48 + n) as u8]
    } else {
        decimal(n / 10).push((48 + n % 10) as u8)
    }
}

/// The six digits that stand for `rest` score units, `rest` being less
/// than a point.
pub open spec fn six_digits(rest: nat) -> Seq<u8> {
    Seq::<u8>::empty().push((48 + rest / 100_000 % 10) as u8).push(
        (48 + rest / 10_000 % 10) as u8,
    ).push((48 + rest / 1_000 % 10) as u8).push((48 + rest / 100 % 10) as u8).push(
        (48 + rest / 10 % 10) as u8,
    ).push((48 + rest % 10) as u8)
}

/// The digits `s` without the zeros at their end.
pub open spec fn trimmed(s: Seq<u8>) -> Seq<u8>
    decreases s.len(),
{
    if s.len() > 0 && s.last() == 48 {
        trimmed(s.drop_last())
    } else {
        s
    }
}

/// The text that the score `score` is kept as: the shortest that reads
/// back as the score.
pub open spec fn rendered(score: u64) -> Seq<u8> {
    let points = (score / UNITS_PER_POINT) as nat;
    let rest = (score % UNITS_PER_POINT) as nat;
    if rest == 0 {
        decimal(points)
    } else {
        decimal(points).push(46u8) + trimmed(six_digits(rest))
    }
}

/// The highscore that a store with the given contents holds: nothing if
/// there is no store or if what it holds is no highscore.
pub open spec fn stored(contents: Option<Seq<u8>>) -> u64 {
    match contents {
        Some(text) => match parsed(text) {
            Some(score) => score,
            None => 0,
        },
        None => 0,
    }
}

/// Most exponents are small; one of this size or more moves the point
/// out of any text there can be. Two to the power of 70.
pub const EXPONENT_CAP: u128 = 0x40_0000_0000_0000_0000;

/// The digits of a number are digits, and spell the number.
pub proof fn lemma_decimal(n: nat)
    ensures
        decimal(n).len() > 0,
        all_digits(decimal(n)),
        digits_value(decimal(n)) == n,
    decreases n,
{
    if n < 10 {
        let s = decimal(n);
        assert(s.drop_last() =~= Seq::<u8>::empty());
        assert(digits_value(s.drop_last()) == 0);
    } else {
        lemma_decimal(n / 10);
        let s = decimal(n);
        assert(s.drop_last() =~= decimal(n / 10));
    }
}

/// A digit more at the end of a text.
proof fn lemma_push_digit(s: Seq<u8>, d: u8)
    requires
        is_digit(d),
    ensures
        digits_value(s.push(d)) == digits_value(s) * 10 + (d - 48),
        all_digits(s) ==> all_digits(s.push(d)),
{
    assert(s.push(d).drop_last() =~= s);
}

/// One more digit of a text taken in.
proof fn lemma_take_one_more(s: Seq<u8>, i: int)
    requires
        0 <= i < s.len(),
        is_digit(s[i]),
    ensures
        digits_value(s.take(i + 1)) == digits_value(s.take(i)) * 10 + (s[i] - 48),
{
    assert(s.take(i + 1) =~= s.take(i).push(s[i]));
    lemma_push_digit(s.take(i), s[i]);
}

/// The first digits of a number spell no more than all of them.
proof fn lemma_prefix_value(w: Seq<u8>, i: int)
    requires
        all_digits(w),
        0 <= i <= w.len(),
    ensures
        digits_value(w.take(i)) <= digits_value(w),
    decreases w.len(),
{
    if i == w.len() {
        assert(w.take(i) =~= w);
    } else {
        let shorter = w.drop_last();
        assert(is_digit(w.last()));
        assert(all_digits(shorter)) by {
            assert forall|k: int| 0 <= k < shorter.len() implies is_digit(
                #[trigger] shorter[k],
            ) by {
                assert(shorter[k] == w[k]);
            }
        }
        lemma_prefix_value(shorter, i);
        assert(shorter.take(i) =~= w.take(i));
    }
}

/// Zeros at the end of a number multiply it by ten each.
proof fn lemma_padded(t: Seq<u8>, n: int)
    requires
        0 <= n <= t.len(),
        forall|i: int| n <= i < t.len() ==> t[i] == 48,
    ensures
        digits_value(t) == digits_value(t.take(n)) * pow10((t.len() - n) as nat),
    decreases t.len() - n,
{
    if n == t.len() {
        assert(t.take(n) =~= t);
        assert(digits_value(t) * 1 == digits_value(t)) by (nonlinear_arith);
    } else {
        let shorter = t.drop_last();
        lemma_padded(shorter, n);
        assert(shorter.take(n) =~= t.take(n));
        assert(t.last() == 48);
        let v = digits_value(t.take(n));
        let p = pow10((shorter.len() - n) as nat);
        assert(pow10((t.len() - n) as nat) == 10 * p);
        assert((v * p) * 10 == v * (10 * p)) by (nonlinear_arith);
    }
}

/// Two runs of digits, one after the other.
proof fn lemma_concat_value(a: Seq<u8>, b: Seq<u8>)
    requires
        all_digits(b),
    ensures
        digits_value(a + b) == digits_value(a) * pow10(b.len()) + digits_value(b),
    decreases b.len(),
{
    if b.len() == 0 {
        assert(a + b =~= a);
        assert(digits_value(a) * 1 == digits_value(a)) by (nonlinear_arith);
    } else {
        let shorter = b.drop_last();
        assert(is_digit(b.last()));
        assert(all_digits(shorter)) by {
            assert forall|k: int| 0 <= k < shorter.len() implies is_digit(
                #[trigger] shorter[k],
            ) by {
                assert(shorter[k] == b[k]);
            }
        }
        lemma_concat_value(a, shorter);
        assert((a + b).drop_last() =~= a + shorter);
        assert((a + b).last() == b.last());
        let v = digits_value(a);
        let p = pow10(shorter.len());
        assert(pow10(b.len()) == 10 * p);
        assert((v * p + digits_value(shorter)) * 10 == v * (10 * p) + digits_value(shorter) * 10)
            by (nonlinear_arith);
    }
}

/// A run of digits ends where the digits end.
proof fn lemma_digit_run_ends(s: Seq<u8>, from: int, to: int)
    requires
        0 <= from <= to <= s.len(),
        forall|k: int| from <= k < to ==> is_digit(#[trigger] s[k]),
        to < s.len() ==> !is_digit(s[to]),
    ensures
        digit_run(s, from) == to,
    decreases to - from,
{
    if from < to {
        assert(is_digit(s[from]));
        lemma_digit_run_ends(s, from + 1, to);
    }
}

/// Digits taken off the end of a number divide it by ten each.
proof fn lemma_dropped(d: Seq<u8>, k: int)
    requires
        all_digits(d),
        0 <= k <= d.len(),
    ensures
        digits_value(d.take(k)) == digits_value(d) / pow10((d.len() - k) as nat),
    decreases d.len() - k,
{
    if k == d.len() {
        assert(d.take(k) =~= d);
        assert(pow10(0) == 1);
        assert((digits_value(d) as int) / 1 == digits_value(d));
    } else {
        let shorter = d.drop_last();
        assert(is_digit(d.last()));
        assert(all_digits(shorter)) by {
            assert forall|i: int| 0 <= i < shorter.len() implies is_digit(
                #[trigger] shorter[i],
            ) by {
                assert(shorter[i] == d[i]);
            }
        }
        lemma_dropped(shorter, k);
        assert(shorter.take(k) =~= d.take(k));
        let v = digits_value(shorter) as int;
        let l = d.last() - 48;
        let p = pow10((shorter.len() - k) as nat) as int;
        lemma_pow10_grows(0, (shorter.len() - k) as nat);
        assert(pow10((d.len() - k) as nat) == 10 * p);
        let q = v / p;
        let r = v % p;
        assert(v == q * p + r && 0 <= r < p) by (nonlinear_arith)
            requires
                q == v / p,
                r == v % p,
                p >= 1,
        ;
        assert((10 * v + l) == q * (10 * p) + (10 * r + l)) by (nonlinear_arith)
            requires
                v == q * p + r,
        ;
        assert((q * (10 * p) + (10 * r + l)) / (10 * p) == q) by (nonlinear_arith)
            requires
                0 <= 10 * r + l < 10 * p,
                p >= 1,
        ;
        assert(digits_value(d) == 10 * v + l);
        assert((digits_value(d) as int) / (10 * p) == q);
        assert(digits_value(d) / pow10((d.len() - k) as nat) == q);
        assert(digits_value(d.take(k)) == q);
    }
}

/// What moving the point does to a number. Moved beyond the last digit,
/// it multiplies the number by ten for each place; moved in among the
/// digits, it divides the number by ten for each digit left behind it and
/// drops what is less than one; moved to before the first digit or
/// further, it leaves nothing.
pub proof fn lemma_shifted_value(digits: Seq<u8>, places: int)
    requires
        all_digits(digits),
    ensures
        places >= digits.len() ==> digits_value(shifted(digits, places)) == digits_value(digits)
            * pow10((places - digits.len()) as nat),
        0 <= places <= digits.len() ==> digits_value(shifted(digits, places)) == digits_value(
            digits,
        ) / pow10((digits.len() - places) as nat),
        places <= 0 ==> digits_value(shifted(digits, places)) == 0,
{
    let t = shifted(digits, places);
    let n = digits.len() as int;
    if places >= n {
        assert(t.take(n) =~= digits);
        lemma_padded(t, n);
        if places == n {
            assert(t =~= digits);
            assert(pow10(0) == 1);
        }
    } else if places >= 0 {
        assert(t =~= digits.take(places));
        lemma_dropped(digits, places);
    }
}

/// Ten to the power of six, and of twenty.
proof fn lemma_pow10_values()
    ensures
        pow10(6) == 1_000_000,
        pow10(20) == 100_000_000_000_000_000_000,
{
    reveal_with_fuel(pow10, 21);
}

/// Appends the digits of `n` to `out`.
pub fn push_decimal(out: &mut Vec<u8>, n: u64)
    ensures
        final(out)@ == old(out)@ + decimal(n as nat),
    decreases n,
{
    if n >= 10 {
        push_decimal(out, n / 10);
    }
    let digit: u8 = (n % 10) as u8;
    out.push(48 + digit);
    assert(final(out)@ =~= old(out)@ + decimal(n as nat));
}

/// Where the run of digits that starts at `from` ends.
fn scan_digits(text: &[u8], from: usize) -> (to: usize)
    requires
        from <= text.len(),
    ensures
        to == digit_run(text@, from as int),
        from <= to <= text.len(),
        forall|k: int| from <= k < to ==> is_digit(#[trigger] text@[k]),
        to < text.len() ==> !is_digit(text@[to as int]),
{
    let len: usize = text.len();
    let mut i: usize = from;
    while i < len && 48 <= text[i] && text[i] <= 57
        invariant
            len == text@.len(),
            from <= i <= len,
            digit_run(text@, from as int) == digit_run(text@, i as int),
            forall|k: int| from <= k < i ==> is_digit(#[trigger] text@[k]),
        decreases len - i,
    {
        i = i + 1;
    }
    i
}

/// The number that the digits from `from` to `to` spell, or
/// [`EXPONENT_CAP`] if that is less.
fn capped_value(text: &[u8], from: usize, to: usize) -> (v: u128)
    requires
        from <= to <= text.len(),
        forall|k: int| from <= k < to ==> is_digit(#[trigger] text@[k]),
    ensures
        v <= EXPONENT_CAP,
        v == if digits_value(text@.subrange(from as int, to as int)) < EXPONENT_CAP {
            digits_value(text@.subrange(from as int, to as int))
        } else {
            EXPONENT_CAP as nat
        },
{
    let ghost run = text@.subrange(from as int, to as int);
    let mut v: u128 = 0;
    let mut i: usize = from;
    proof {
        assert(run.take(0) =~= Seq::<u8>::empty());
    }
    while i < to
        invariant
            from <= i <= to <= text.len(),
            run == text@.subrange(from as int, to as int),
            forall|k: int| from <= k < to ==> is_digit(#[trigger] text@[k]),
            v <= EXPONENT_CAP,
            v == if digits_value(run.take(i - from)) < EXPONENT_CAP {
                digits_value(run.take(i - from))
            } else {
                EXPONENT_CAP as nat
            },
        decreases to - i,
    {
        let digit: u128 = (text[i] - 48) as u128;
        proof {
            assert(run[i - from] == text@[i as int]);
            lemma_take_one_more(run, i - from);
        }
        let next: u128 = v * 10 + digit;
        v = if next < EXPONENT_CAP { next } else { EXPONENT_CAP };
        i = i + 1;
    }
    proof {
        assert(run.take(to - from) =~= run);
    }
    v
}

/// Where the parts of a number have been found in a text.
struct Parts {
    whole: (usize, usize),
    fraction: (usize, usize),
    has_exponent: bool,
    exponent_negative: bool,
    exponent: (usize, usize),
}

impl Parts {
    /// Whether the parts are where `l` says they are.
    spec fn at(self, l: Layout) -> bool {
        &&& self.whole.0 == l.whole.0
        &&& self.whole.1 == l.whole.1
        &&& self.fraction.0 == l.fraction.0
        &&& self.fraction.1 == l.fraction.1
        &&& self.has_exponent == l.has_exponent
        &&& self.exponent_negative == l.exponent_negative
        &&& self.exponent.0 == l.exponent.0
        &&& self.exponent.1 == l.exponent.1
    }

    /// Whether the parts lie within `s`, one after the other, and hold
    /// digits only.
    spec fn within(self, s: Seq<u8>) -> bool {
        &&& self.whole.0 <= self.whole.1 <= self.fraction.0 <= self.fraction.1
            <= self.exponent.0 <= self.exponent.1 <= s.len()
        &&& forall|k: int| self.whole.0 <= k < self.whole.1 ==> is_digit(#[trigger] s[k])
        &&& forall|k: int| self.fraction.0 <= k < self.fraction.1 ==> is_digit(#[trigger] s[k])
        &&& forall|k: int| self.exponent.0 <= k < self.exponent.1 ==> is_digit(#[trigger] s[k])
    }
}

/// Finds the parts of the number that `text` holds, if it holds one.
fn survey(text: &[u8]) -> (found: Option<Parts>)
    ensures
        found.is_some() == well_formed(text@),
        match found {
            Some(parts) => parts.at(layout(text@)) && parts.within(text@),
            None => true,
        },
{
    let len: usize = text.len();
    let a: usize = if len > 0 && text[0] == 43 { 1 } else { 0 };
    let b: usize = scan_digits(text, a);
    let stop: bool = b < len && text[b] == 46;
    let c: usize = if stop { b + 1 } else { b };
    let d: usize = if stop { scan_digits(text, c) } else { b };
    if (b - a) + (d - c) == 0 {
        return None;
    }
    let has_exponent: bool = d < len && (text[d] == 101 || text[d] == 69);
    if !has_exponent {
        if d != len {
            return None;
        }
        return Some(
            Parts {
                whole: (a, b),
                fraction: (c, d),
                has_exponent: false,
                exponent_negative: false,
                exponent: (d, d),
            },
        );
    }
    let g: usize = d + 1;
    let signed: bool = g < len && (text[g] == 43 || text[g] == 45);
    let negative: bool = signed && text[g] == 45;
    let h: usize = if signed { g + 1 } else { g };
    let j: usize = scan_digits(text, h);
    if j != len || j == h {
        return None;
    }
    Some(
        Parts {
            whole: (a, b),
            fraction: (c, d),
            has_exponent: true,
            exponent_negative: negative,
            exponent: (h, j),
        },
    )
}

/// The number that the first `take` digits of the number spell, those
/// before the full stop and then those after it; `None` if it is too large
/// to hold.
fn leading_value(text: &[u8], parts: &Parts, take: usize) -> (value: Option<u64>)
    requires
        parts.within(text@),
        take <= (parts.whole.1 - parts.whole.0) + (parts.fraction.1 - parts.fraction.0),
    ensures
        ({
            let digits = text@.subrange(parts.whole.0 as int, parts.whole.1 as int)
                + text@.subrange(parts.fraction.0 as int, parts.fraction.1 as int);
            match value {
                Some(v) => v == digits_value(digits.take(take as int)),
                None => digits_value(digits.take(take as int)) > u64::MAX,
            }
        }),
{
    let a: usize = parts.whole.0;
    let c: usize = parts.fraction.0;
    let whole: usize = parts.whole.1 - parts.whole.0;
    let ghost digits = text@.subrange(parts.whole.0 as int, parts.whole.1 as int)
        + text@.subrange(parts.fraction.0 as int, parts.fraction.1 as int);
    let ghost front = digits.take(take as int);
    let mut acc: u128 = 0;
    let mut i: usize = 0;
    proof {
        assert(front.take(0) =~= Seq::<u8>::empty());
        assert forall|k: int| 0 <= k < front.len() implies is_digit(#[trigger] front[k]) by {
            if k < whole {
                assert(digits[k] == text@[a + k]);
            } else {
                assert(digits[k] == text@[c + (k - whole)]);
            }
        }
    }
    while i < take
        invariant
            parts.within(text@),
            a == parts.whole.0,
            c == parts.fraction.0,
            whole == parts.whole.1 - parts.whole.0,
            take <= whole + (parts.fraction.1 - parts.fraction.0),
            digits == text@.subrange(parts.whole.0 as int, parts.whole.1 as int) + text@.subrange(
                parts.fraction.0 as int,
                parts.fraction.1 as int,
            ),
            front == digits.take(take as int),
            all_digits(front),
            i <= take,
            acc == digits_value(front.take(i as int)),
            acc <= u64::MAX,
        decreases take - i,
    {
        let byte: u8 = if i < whole { text[a + i] } else { text[c + (i - whole)] };
        proof {
            assert(front[i as int] == digits[i as int]);
            assert(digits[i as int] == byte);
            lemma_take_one_more(front, i as int);
        }
        acc = acc * 10 + (byte - 48) as u128;
        i = i + 1;
        if acc > u64::MAX as u128 {
            proof {
                lemma_prefix_value(front, i as int);
            }
            return None;
        }
    }
    proof {
        assert(front.take(take as int) =~= front);
    }
    Some(acc as u64)
}

/// `value` with `zeros` zeros written after it; `None` if that is too
/// large to hold.
fn with_zeros(value: u64, zeros: u8) -> (r: Option<u64>)
    requires
        zeros < 20,
    ensures
        r == if value * pow10(zeros as nat) <= u64::MAX {
            Some((value * pow10(zeros as nat)) as u64)
        } else {
            None
        },
{
    let mut acc: u128 = value as u128;
    let mut k: u8 = 0;
    proof {
        assert(value * pow10(0) == value) by (nonlinear_arith)
            requires
                pow10(0) == 1,
        ;
    }
    while k < zeros
        invariant
            k <= zeros < 20,
            acc == value * pow10(k as nat),
            acc <= u64::MAX,
        decreases zeros - k,
    {
        proof {
            assert(pow10((k + 1) as nat) == 10 * pow10(k as nat));
            assert(value * (10 * pow10(k as nat)) == (value * pow10(k as nat)) * 10)
                by (nonlinear_arith);
        }
        acc = acc * 10;
        k = k + 1;
        if acc > u64::MAX as u128 {
            proof {
                lemma_pow10_grows(k as nat, zeros as nat);
                assert(value * pow10(zeros as nat) >= value * pow10(k as nat))
                    by (nonlinear_arith)
                    requires
                        pow10(zeros as nat) >= pow10(k as nat),
                        value >= 0,
                ;
            }
            return None;
        }
    }
    Some(acc as u64)
}

/// Reads a score from the text it is kept as. Text that is no highscore, or
/// one too large to hold, gives `None`.
pub fn parse(text: &[u8]) -> (score: Option<u64>)
    ensures
        score == parsed(text@),
{
    let parts = match survey(text) {
        Some(parts) => parts,
        None => {
            return None;
        },
    };
    let ghost s = text@;
    let ghost digits = mantissa(s);
    let ghost t = shifted(digits, places(s));
    let whole: usize = parts.whole.1 - parts.whole.0;
    let n: usize = whole + (parts.fraction.1 - parts.fraction.0);
    let exponent: u128 = if parts.has_exponent {
        capped_value(text, parts.exponent.0, parts.exponent.1)
    } else {
        0
    };
    let shift: i128 = if parts.exponent_negative {
        whole as i128 + 6 - exponent as i128
    } else {
        whole as i128 + 6 + exponent as i128
    };
    proof {
        assert(digits.len() == n);
        // the shift is the number of places, or both are out of reach
        assert(exponent < EXPONENT_CAP ==> shift == places(s));
        assert(exponent == EXPONENT_CAP && parts.exponent_negative ==> shift < 0 && places(s)
            < 0);
        assert(exponent == EXPONENT_CAP && !parts.exponent_negative ==> n + 20 <= shift
            <= places(s));
    }
    if shift <= 0 {
        assert(t.len() == 0);
        return Some(0);
    }
    let take: usize = if shift < n as i128 { shift as usize } else { n };
    let front = leading_value(text, &parts, take);
    proof {
        assert(t.take(take as int) =~= digits.take(take as int));
        assert forall|i: int| 0 <= i < t.len() implies is_digit(#[trigger] t[i]) by {
            if i < n {
                if i < whole {
                    assert(digits[i] == s[parts.whole.0 + i]);
                } else {
                    assert(digits[i] == s[parts.fraction.0 + (i - whole)]);
                }
            }
        }
        lemma_prefix_value(t, take as int);
    }
    let value: u64 = match front {
        Some(value) => value,
        None => {
            return None;
        },
    };
    if shift <= n as i128 {
        proof {
            assert(t.take(take as int) =~= t);
        }
        return Some(value);
    }
    let ghost zeros: nat = (t.len() - n) as nat;
    proof {
        lemma_padded(t, n as int);
        lemma_pow10_values();
    }
    if value == 0 {
        assert(0 * pow10(zeros) == 0) by (nonlinear_arith);
        return Some(0);
    }
    if shift - n as i128 >= 20 {
        proof {
            lemma_pow10_grows(20, zeros);
            assert(value * pow10(zeros) >= pow10(zeros)) by (nonlinear_arith)
                requires
                    value >= 1,
                    pow10(zeros) >= 0,
            ;
        }
        return None;
    }
    with_zeros(value, (shift - n as i128) as u8)
}

/// What is left of digits without the zeros at their end is their
/// beginning, and all that was taken off is zeros.
proof fn lemma_trimmed(s: Seq<u8>)
    ensures
        trimmed(s).len() <= s.len(),
        trimmed(s) == s.take(trimmed(s).len() as int),
        forall|i: int| trimmed(s).len() <= i < s.len() ==> s[i] == 48,
    decreases s.len(),
{
    if s.len() > 0 && s.last() == 48 {
        lemma_trimmed(s.drop_last());
        let kept = trimmed(s).len() as int;
        assert(s.drop_last().take(kept) =~= s.take(kept));
        assert forall|i: int| kept <= i < s.len() implies s[i] == 48 by {
            if i < s.len() - 1 {
                assert(s.drop_last()[i] == s[i]);
            }
        }
    } else {
        assert(s.take(s.len() as int) =~= s);
    }
}

/// A number below a million is made up of its six digits.
proof fn lemma_six_digit_sum(rest: nat)
    requires
        rest < 1_000_000,
    ensures
        rest == (rest / 100_000 % 10) * 100_000 + (rest / 10_000 % 10) * 10_000 + (rest / 1_000
            % 10) * 1_000 + (rest / 100 % 10) * 100 + (rest / 10 % 10) * 10 + rest % 10,
{
    let a = rest / 10;
    let b = a / 10;
    let c = b / 10;
    let d = c / 10;
    let e = d / 10;
    assert(rest / 100 == b);
    assert(rest / 1_000 == c);
    assert(rest / 10_000 == d);
    assert(rest / 100_000 == e);
    assert(e < 10);
}

/// Six digits written for less than a point spell just that much.
proof fn lemma_six_digits(rest: nat)
    requires
        rest < 1_000_000,
    ensures
        six_digits(rest).len() == 6,
        all_digits(six_digits(rest)),
        digits_value(six_digits(rest)) == rest,
{
    let d0 = (48 + rest / 100_000 % 10) as u8;
    let d1 = (48 + rest / 10_000 % 10) as u8;
    let d2 = (48 + rest / 1_000 % 10) as u8;
    let d3 = (48 + rest / 100 % 10) as u8;
    let d4 = (48 + rest / 10 % 10) as u8;
    let d5 = (48 + rest % 10) as u8;
    let s0 = Seq::<u8>::empty();
    let s1 = s0.push(d0);
    let s2 = s1.push(d1);
    let s3 = s2.push(d2);
    let s4 = s3.push(d3);
    let s5 = s4.push(d4);
    let s6 = s5.push(d5);
    assert(all_digits(s0));
    lemma_push_digit(s0, d0);
    lemma_push_digit(s1, d1);
    lemma_push_digit(s2, d2);
    lemma_push_digit(s3, d3);
    lemma_push_digit(s4, d4);
    lemma_push_digit(s5, d5);
    lemma_six_digit_sum(rest);
}

/// What is written for a score reads back as that score.
pub proof fn lemma_round_trip(score: u64)
    ensures
        well_formed(rendered(score)),
        text_value(rendered(score)) == score,
{
    let points = (score / UNITS_PER_POINT) as nat;
    let rest = (score % UNITS_PER_POINT) as nat;
    let whole = decimal(points);
    let w = whole.len() as int;
    let s = rendered(score);
    lemma_decimal(points);
    lemma_pow10_values();
    assert(is_digit(whole[0]));
    if rest == 0 {
        assert(s == whole);
        lemma_digit_run_ends(s, 0, w);
        let l = layout(s);
        assert(l.whole.0 == 0 && l.whole.1 == w);
        assert(!l.has_exponent);
        assert(places(s) == w + 6);
        assert(mantissa(s) =~= whole);
        let t = shifted(whole, w + 6);
        assert(t.len() == w + 6);
        assert(t.take(w) =~= whole);
        lemma_padded(t, w);
        assert(text_value(s) == digits_value(t));
        assert(digits_value(t) == points * pow10(6));
    } else {
        let six = six_digits(rest);
        let frac = trimmed(six);
        lemma_six_digits(rest);
        lemma_trimmed(six);
        assert(s =~= whole.push(46u8) + frac);
        assert(s[0] == whole[0]);
        assert forall|k: int| 0 <= k < w implies is_digit(#[trigger] s[k]) by {
            assert(s[k] == whole[k]);
        }
        assert(s[w] == 46);
        lemma_digit_run_ends(s, 0, w);
        assert forall|k: int| w + 1 <= k < s.len() implies is_digit(#[trigger] s[k]) by {
            assert(s[k] == frac[k - w - 1]);
            assert(frac[k - w - 1] == six[k - w - 1]);
        }
        lemma_digit_run_ends(s, w + 1, s.len() as int);
        let l = layout(s);
        assert(l.whole.0 == 0 && l.whole.1 == w);
        assert(l.fraction.0 == w + 1 && l.fraction.1 == s.len());
        assert(!l.has_exponent);
        assert(places(s) == w + 6);
        assert(mantissa(s) =~= whole + frac);
        let t = shifted(whole + frac, w + 6);
        assert(t =~= whole + six) by {
            assert forall|i: int| 0 <= i < w + 6 implies t[i] == (whole + six)[i] by {
                if i >= w && i < w + frac.len() {
                    assert(frac[i - w] == six[i - w]);
                }
            }
        }
        lemma_concat_value(whole, six);
        assert(text_value(s) == digits_value(t));
        assert(digits_value(t) == points * pow10(6) + rest);
    }
}

/// Writes a score as the text it is kept as: the points, and if the score
/// is no whole number of points a full stop and the digits of the rest
/// without the zeros at their end.
pub fn render(score: u64) -> (text: Vec<u8>)
    ensures
        text@ == rendered(score),
        parsed(text@) == Some(score),
{
    let points: u64 = score / UNITS_PER_POINT;
    let rest: u64 = score % UNITS_PER_POINT;
    let mut text: Vec<u8> = Vec::new();
    push_decimal(&mut text, points);
    proof {
        lemma_round_trip(score);
    }
    if rest == 0 {
        assert(text@ =~= rendered(score));
        return text;
    }
    text.push(46);
    let mut six: Vec<u8> = Vec::new();
    six.push(48 + (rest / 100_000 % 10) as u8);
    six.push(48 + (rest / 10_000 % 10) as u8);
    six.push(48 + (rest / 1_000 % 10) as u8);
    six.push(48 + (rest / 100 % 10) as u8);
    six.push(48 + (rest / 10 % 10) as u8);
    six.push(48 + (rest % 10) as u8);
    assert(six@ =~= six_digits(rest as nat));
    let mut keep: usize = 6;
    proof {
        assert(six@.take(6) =~= six@);
    }
    while keep > 0 && six[keep - 1] == 48
        invariant
            keep <= 6,
            six@.len() == 6,
            trimmed(six@) == trimmed(six@.take(keep as int)),
        decreases keep,
    {
        proof {
            assert(six@.take(keep as int).drop_last() =~= six@.take(keep - 1));
        }
        keep = keep - 1;
    }
    assert(trimmed(six@) == six@.take(keep as int));
    let ghost stem = text@;
    let mut i: usize = 0;
    while i < keep
        invariant
            i <= keep <= 6,
            six@.len() == 6,
            text@ == stem + six@.take(i as int),
        decreases keep - i,
    {
        text.push(six[i]);
        proof {
            assert(six@.take(i + 1) =~= six@.take(i as int).push(six@[i as int]));
            assert(stem + six@.take(i as int).push(six@[i as int]) =~= (stem + six@.take(
                i as int,
            )).push(six@[i as int]));
        }
        i = i + 1;
    }
    text
}

/// A highscore that is saved and then loaded is the highscore that was
/// saved; a store that is not there holds a highscore of nothing.
pub proof fn lemma_saved_then_loaded(score: u64)
    ensures
        stored(Some(rendered(score))) == score,
        stored(None) == 0,
{
    lemma_round_trip(score);
}

/// Reads the highscore from what the store holds; `None` stands for a
/// store that is not there.
pub fn load(contents: Option<&[u8]>) -> (score: u64)
    ensures
        score == stored(
            match contents {
                Some(text) => Some(text@),
                None => None,
            },
        ),
{
    match contents {
        Some(text) => match parse(text) {
            Some(score) => score,
            None => 0,
        },
        None => 0,
    }
}

} // verus!
