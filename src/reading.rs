//! Reading a signal level from text written as a floating-point number.

use vstd::prelude::*;
use crate::signal::{
    SignalStrength, SignalTier, classify, lemma_classify_monotonic, lemma_pow10_monotonic,
    lemma_pow10_positive, pow10, pow10_exec, tier_of, tier_of_ratio, tier_rank,
};
use vstd::arithmetic::div_mod::{lemma_fundamental_div_mod, lemma_fundamental_div_mod_converse};
use crate::text::{chars_of, find_char, index_of, lemma_index_of_bounds};

verus! {

/// A signal level as read from text: a finite strength, an infinity, or a
/// value that is not a number.
#[derive(Clone, Copy, Debug, PartialEq, Eq, Structural)]
pub enum SignalReading {
    Finite(SignalStrength),
    PositiveInfinity,
    NegativeInfinity,
    NotANumber,
}

/// The tier of a reading. The infinities lie beyond either end of the table;
/// a value that is not a number reaches no threshold and falls to the last tier.
pub open spec fn reading_tier(r: SignalReading) -> SignalTier {
    match r {
        SignalReading::Finite(s) => tier_of(s),
        SignalReading::PositiveInfinity => SignalTier::Maximum,
        SignalReading::NegativeInfinity => SignalTier::Bad,
        SignalReading::NotANumber => SignalTier::Bad,
    }
}

/// The order of readings: the infinities below and above every finite
/// strength; a value that is not a number is comparable with nothing.
pub open spec fn reading_le(a: SignalReading, b: SignalReading) -> bool {
    if a is NotANumber || b is NotANumber {
        false
    } else if a is NegativeInfinity || b is PositiveInfinity {
        true
    } else if a is Finite && b is Finite {
        a->Finite_0.le(b->Finite_0)
    } else {
        false
    }
}

/// The quality tier of a reading.
pub fn classify_reading(r: SignalReading) -> (t: SignalTier)
    ensures
        t == reading_tier(r),
{
    match r {
        SignalReading::Finite(s) => classify(s),
        SignalReading::PositiveInfinity => SignalTier::Maximum,
        SignalReading::NegativeInfinity => SignalTier::Bad,
        SignalReading::NotANumber => SignalTier::Bad,
    }
}

/// Classification is monotonic over readings too: a reading at least as
/// strong as another never falls in a weaker tier.
pub proof fn lemma_classify_reading_monotonic(a: SignalReading, b: SignalReading)
    requires
        reading_le(a, b),
    ensures
        tier_rank(reading_tier(a)) <= tier_rank(reading_tier(b)),
{
    if a is Finite && b is Finite {
        lemma_classify_monotonic(a->Finite_0, b->Finite_0);
    }
}

pub open spec fn has_sign(s: Seq<char>) -> bool {
    s.len() > 0 && (s[0] == '-' || s[0] == '+')
}

pub open spec fn is_negative(s: Seq<char>) -> bool {
    s.len() > 0 && s[0] == '-'
}

/// `s` without its sign.
pub open spec fn unsigned_part(s: Seq<char>) -> Seq<char> {
    if has_sign(s) {
        s.drop_first()
    } else {
        s
    }
}

/// `c` is the lower-case letter `w`, in either case.
pub open spec fn same_letter(c: char, w: char) -> bool {
    c == w || (c as u32) + 32 == (w as u32)
}

/// `s` spells the lower-case word `w`, each letter in either case.
pub open spec fn spells(s: Seq<char>, w: Seq<char>) -> bool {
    s.len() == w.len() && forall|i: int| 0 <= i < s.len() ==> same_letter(#[trigger] s[i], w[i])
}

/// `s` writes an infinity: a sign, then `inf` or `infinity` in any case.
pub open spec fn spells_infinity(s: Seq<char>) -> bool {
    spells(unsigned_part(s), "inf"@) || spells(unsigned_part(s), "infinity"@)
}

/// `s` writes a value that is not a number: a sign, then `nan` in any case.
pub open spec fn spells_nan(s: Seq<char>) -> bool {
    spells(unsigned_part(s), "nan"@)
}

/// Position of the exponent mark, `e` or `E`, or the length when there is none.
pub open spec fn exponent_mark(u: Seq<char>) -> nat {
    let a = index_of(u, 'e');
    let b = index_of(u, 'E');
    if a <= b {
        a
    } else {
        b
    }
}

pub open spec fn has_exponent(s: Seq<char>) -> bool {
    exponent_mark(unsigned_part(s)) < unsigned_part(s).len()
}

/// The digits and point before the exponent mark.
pub open spec fn number_part(s: Seq<char>) -> Seq<char> {
    let u = unsigned_part(s);
    u.subrange(0, exponent_mark(u) as int)
}

/// The signed exponent after the mark, empty when there is no mark.
pub open spec fn exponent_part(s: Seq<char>) -> Seq<char> {
    let u = unsigned_part(s);
    if has_exponent(s) {
        u.subrange(exponent_mark(u) + 1int, u.len() as int)
    } else {
        Seq::empty()
    }
}

pub open spec fn exponent_digits(s: Seq<char>) -> Seq<char> {
    unsigned_part(exponent_part(s))
}

/// The digits of `p` before its decimal point.
pub open spec fn whole_of(p: Seq<char>) -> Seq<char> {
    p.subrange(0, index_of(p, '.') as int)
}

/// The digits of `p` after its decimal point, empty when there is no point.
pub open spec fn fraction_of(p: Seq<char>) -> Seq<char> {
    let k = index_of(p, '.');
    if k < p.len() {
        p.subrange(k + 1int, p.len() as int)
    } else {
        Seq::empty()
    }
}

pub open spec fn whole_digits(s: Seq<char>) -> Seq<char> {
    whole_of(number_part(s))
}

pub open spec fn fraction_digits(s: Seq<char>) -> Seq<char> {
    fraction_of(number_part(s))
}

/// The integer that the signed digits `x` write.
pub open spec fn signed_value(x: Seq<char>) -> int {
    if is_negative(x) {
        -digits_value(unsigned_part(x))
    } else {
        digits_value(unsigned_part(x))
    }
}

/// `s` writes a finite decimal: an optional sign, digits, optionally a point
/// followed by digits, with at least one digit in all, and optionally an
/// exponent mark followed by an optional sign and at least one digit.
pub open spec fn is_decimal(s: Seq<char>) -> bool {
    &&& all_digits(whole_digits(s))
    &&& all_digits(fraction_digits(s))
    &&& whole_digits(s).len() + fraction_digits(s).len() > 0
    &&& has_exponent(s) ==> all_digits(exponent_digits(s)) && exponent_digits(s).len() > 0
}

/// The magnitude of the decimal `s`, in units of its last digit.
pub open spec fn magnitude(s: Seq<char>) -> int {
    digits_value(whole_digits(s) + fraction_digits(s))
}

/// The exponent written after the mark, zero when there is none.
pub open spec fn exponent_value(s: Seq<char>) -> int {
    signed_value(exponent_part(s))
}

/// The power of ten that the magnitude is scaled by.
pub open spec fn decimal_exponent(s: Seq<char>) -> int {
    exponent_value(s) - fraction_digits(s).len()
}

/// The decimal `s` is held exactly by a `SignalStrength`: its digits and its
/// power of ten fit in `i64`.
pub open spec fn fits(s: Seq<char>) -> bool {
    &&& magnitude(s) <= i64::MAX
    &&& digits_value(exponent_digits(s)) <= i64::MAX
    &&& i64::MIN <= decimal_exponent(s) <= i64::MAX
}

/// `s` writes a signal level: an infinity, a value that is not a number, or a
/// decimal.
pub open spec fn readable(s: Seq<char>) -> bool {
    spells_infinity(s) || spells_nan(s) || is_decimal(s)
}

/// The magnitude of the decimal `s`, with its sign.
pub open spec fn signed_magnitude(s: Seq<char>) -> int {
    if is_negative(s) {
        -magnitude(s)
    } else {
        magnitude(s)
    }
}

/// The value that the decimal `s` writes is
/// `decimal_numerator(s) / decimal_denominator(s)`, exactly.
pub open spec fn decimal_numerator(s: Seq<char>) -> int {
    if decimal_exponent(s) >= 0 {
        signed_magnitude(s) * pow10(decimal_exponent(s) as nat)
    } else {
        signed_magnitude(s)
    }
}

pub open spec fn decimal_denominator(s: Seq<char>) -> int {
    if decimal_exponent(s) >= 0 {
        1
    } else {
        pow10((-decimal_exponent(s)) as nat)
    }
}

/// The tier of the value that the decimal `s` writes.
pub open spec fn decimal_tier(s: Seq<char>) -> SignalTier {
    tier_of_ratio(decimal_numerator(s), decimal_denominator(s))
}

/// The greatest whole number of dBm not above the value that `s` writes.
pub open spec fn decimal_floor(s: Seq<char>) -> int {
    decimal_numerator(s) / decimal_denominator(s)
}

/// A whole number of dBm, kept within -101 and 100: beyond them every value
/// lies in the same tier.
pub open spec fn clamp_dbm(x: int) -> int {
    if x > 100 {
        100
    } else if x < -101 {
        -101
    } else {
        x
    }
}

/// The reading of the text `s`: what it writes, or zero dBm when it writes no
/// signal level. A decimal that a `SignalStrength` holds is read exactly, with
/// no rounding to a binary floating-point value. A longer one is read as its
/// floor in whole dBm, kept within -101 and 100; that reading lies in the tier
/// of the value written (see `lemma_reading_tier_is_exact`).
pub open spec fn reading_of(s: Seq<char>) -> SignalReading {
    if spells_infinity(s) {
        if is_negative(s) {
            SignalReading::NegativeInfinity
        } else {
            SignalReading::PositiveInfinity
        }
    } else if spells_nan(s) {
        SignalReading::NotANumber
    } else if is_decimal(s) && fits(s) {
        SignalReading::Finite(
            SignalStrength {
                mantissa: signed_magnitude(s) as i64,
                exponent: decimal_exponent(s) as i64,
            },
        )
    } else if is_decimal(s) {
        SignalReading::Finite(SignalStrength { mantissa: clamp_dbm(decimal_floor(s)) as i64, exponent: 0 })
    } else {
        SignalReading::Finite(SignalStrength { mantissa: 0, exponent: 0 })
    }
}

/// A value reaches a whole threshold exactly when its floor does.
proof fn lemma_floor_reaches(n: int, d: int, t: int)
    requires
        d >= 1,
    ensures
        (n >= t * d) == (n / d >= t),
{
    lemma_fundamental_div_mod(n, d);
    let q = n / d;
    assert(0 <= n % d < d);
    if q >= t {
        assert(d * q >= d * t) by (nonlinear_arith)
            requires
                q >= t,
                d >= 1,
        ;
    } else {
        assert(d * q <= d * (t - 1)) by (nonlinear_arith)
            requires
                q <= t - 1,
                d >= 1,
        ;
    }
    assert(d * t == t * d && d * (t - 1) == t * d - d) by (nonlinear_arith);
}

/// The value `n / d` and its floor lie in the same tier, as every threshold is
/// a whole number.
proof fn lemma_tier_of_floor(n: int, d: int)
    requires
        d >= 1,
    ensures
        tier_of_ratio(n, d) == tier_of_ratio(n / d, 1),
{
    lemma_floor_reaches(n, d, -30);
    lemma_floor_reaches(n, d, -50);
    lemma_floor_reaches(n, d, -60);
    lemma_floor_reaches(n, d, -67);
    lemma_floor_reaches(n, d, -70);
    lemma_floor_reaches(n, d, -80);
}

/// The reading of a decimal lies in the tier of the value the decimal writes,
/// however many digits it has.
pub proof fn lemma_reading_tier_is_exact(s: Seq<char>)
    requires
        is_decimal(s),
    ensures
        reading_tier(reading_of(s)) == decimal_tier(s),
{
    lemma_all_digits_split(whole_digits(s), fraction_digits(s));
    lemma_digits_nonnegative(whole_digits(s) + fraction_digits(s));
    if !spells_infinity(s) && !spells_nan(s) && !fits(s) {
        let f = decimal_floor(s);
        lemma_pow10_positive((-decimal_exponent(s)) as nat);
        lemma_tier_of_floor(decimal_numerator(s), decimal_denominator(s));
        assert(pow10(0) == 1);
        let c = clamp_dbm(f);
        assert(c * pow10(0) == c);
    }
    if spells_infinity(s) || spells_nan(s) {
        // Such text holds letters, and no decimal does.
        assert(false) by {
            lemma_words_are_no_decimal(s);
        }
    }
}

pub open spec fn is_digit(c: char) -> bool {
    0x30 <= (c as u32) <= 0x39
}

pub open spec fn digit_value(c: char) -> int {
    (c as u32) as int - 0x30
}

pub open spec fn all_digits(s: Seq<char>) -> bool {
    forall|i: int| 0 <= i < s.len() ==> is_digit(#[trigger] s[i])
}

/// The number that a string of decimal digits writes.
pub open spec fn digits_value(s: Seq<char>) -> int
    decreases s.len(),
{
    if s.len() == 0 {
        0
    } else {
        10 * digits_value(s.drop_last()) + digit_value(s.last())
    }
}

proof fn lemma_digits_push(s: Seq<char>, c: char)
    ensures
        digits_value(s.push(c)) == 10 * digits_value(s) + digit_value(c),
{
    assert(s.push(c).drop_last() =~= s);
}

proof fn lemma_digits_nonnegative(s: Seq<char>)
    requires
        all_digits(s),
    ensures
        digits_value(s) >= 0,
    decreases s.len(),
{
    if s.len() > 0 {
        assert(all_digits(s.drop_last()) && is_digit(s[s.len() - 1]));
        lemma_digits_nonnegative(s.drop_last());
    }
}

/// Appending digits never makes the written number smaller.
proof fn lemma_digits_grow(a: Seq<char>, b: Seq<char>)
    requires
        all_digits(a + b),
    ensures
        digits_value(a) <= digits_value(a + b),
    decreases b.len(),
{
    if b.len() > 0 {
        let b0 = b.drop_last();
        assert((a + b).drop_last() =~= a + b0);
        assert(all_digits(a + b0)) by {
            assert forall|i: int| 0 <= i < (a + b0).len() implies is_digit(#[trigger] (a + b0)[i]) by {
                assert((a + b0)[i] == (a + b)[i]);
            }
        }
        assert(is_digit((a + b)[(a + b).len() - 1]));
        lemma_digits_grow(a, b0);
        lemma_digits_nonnegative(a + b0);
    }
}

proof fn lemma_all_digits_split(a: Seq<char>, b: Seq<char>)
    ensures
        all_digits(a + b) <==> all_digits(a) && all_digits(b),
{
    if all_digits(a + b) {
        assert forall|i: int| 0 <= i < b.len() implies is_digit(#[trigger] b[i]) by {
            assert(b[i] == (a + b)[a.len() + i]);
        }
        assert forall|i: int| 0 <= i < a.len() implies is_digit(#[trigger] a[i]) by {
            assert(a[i] == (a + b)[i]);
        }
    }
    if all_digits(a) && all_digits(b) {
        assert forall|i: int| 0 <= i < (a + b).len() implies is_digit(#[trigger] (a + b)[i]) by {
            if i >= a.len() {
                assert((a + b)[i] == b[i - a.len()]);
            }
        }
    }
}

/// Appends the digits of `s[from..to]` to the number `m`, written by `prefix`;
/// `None` when a character is no digit or the number outgrows `i64`.
fn read_digits(s: &Vec<char>, from: usize, to: usize, m: u128, Ghost(prefix): Ghost<Seq<char>>) -> (r:
    Option<u128>)
    requires
        from <= to <= s@.len(),
        all_digits(prefix),
        m == digits_value(prefix),
        m <= i64::MAX,
    ensures
        ({
            let w = prefix + s@.subrange(from as int, to as int);
            r == if all_digits(w) && digits_value(w) <= i64::MAX {
                Some(digits_value(w) as u128)
            } else {
                None::<u128>
            }
        }),
{
    let ghost whole = prefix + s@.subrange(from as int, to as int);
    let mut m = m;
    let mut i = from;
    assert(prefix + s@.subrange(from as int, from as int) =~= prefix);
    while i < to
        invariant
            from <= i <= to <= s@.len(),
            whole == prefix + s@.subrange(from as int, to as int),
            all_digits(prefix + s@.subrange(from as int, i as int)),
            m == digits_value(prefix + s@.subrange(from as int, i as int)),
            m <= i64::MAX,
        decreases to - i,
    {
        let ghost done = prefix + s@.subrange(from as int, i as int);
        let ghost next = prefix + s@.subrange(from as int, i + 1);
        let ghost tail = s@.subrange(i + 1, to as int);
        assert(next =~= done.push(s@[i as int]));
        assert(whole =~= next + tail);
        let c = s[i];
        if !(0x30 <= (c as u32) && (c as u32) <= 0x39) {
            proof {
                lemma_all_digits_split(next, tail);
                assert(!is_digit(next[next.len() - 1]));
            }
            return None;
        }
        proof {
            lemma_digits_push(done, c);
            lemma_all_digits_split(done, seq![c]);
            assert(done + seq![c] =~= next);
        }
        let d = (c as u32 - 0x30) as u128;
        let v = m * 10 + d;
        if v > i64::MAX as u128 {
            proof {
                if all_digits(whole) {
                    lemma_digits_grow(next, tail);
                }
            }
            return None;
        }
        m = v;
        i = i + 1;
    }
    Some(m)
}

/// Text that spells a word begins with a letter, so it writes no decimal.
proof fn lemma_words_are_no_decimal(s: Seq<char>)
    requires
        spells_infinity(s) || spells_nan(s),
    ensures
        !is_decimal(s),
{
    reveal_strlit("inf");
    reveal_strlit("infinity");
    reveal_strlit("nan");
    let u = unsigned_part(s);
    assert(u.len() > 0);
    let c = u[0];
    let k = c as u32;
    assert(k == 0x69 || k == 0x49 || k == 0x6e || k == 0x4e);
    assert(c != 'e' && c != 'E' && c != '.');
    let p = number_part(s);
    lemma_index_of_bounds(u, 'e');
    lemma_index_of_bounds(u, 'E');
    assert(exponent_mark(u) > 0);
    assert(p[0] == c);
    lemma_index_of_bounds(p, '.');
    assert(index_of(p, '.') > 0);
    assert(whole_digits(s)[0] == c);
    assert(!is_digit(c));
}

/// The digits of `a + b` write `a`'s number shifted past `b`'s digits, plus `b`'s.
proof fn lemma_digits_concat(a: Seq<char>, b: Seq<char>)
    ensures
        digits_value(a + b) == digits_value(a) * pow10(b.len()) + digits_value(b),
    decreases b.len(),
{
    if b.len() == 0 {
        assert(a + b =~= a);
    } else {
        let b0 = b.drop_last();
        assert((a + b).drop_last() =~= a + b0);
        assert((a + b).last() == b.last());
        lemma_digits_concat(a, b0);
        let x = digits_value(a);
        let p0 = pow10(b0.len());
        assert(pow10(b.len()) == 10 * p0);
        assert(10 * (x * p0) == x * (10 * p0)) by (nonlinear_arith);
    }
}

/// `b`'s digits write a number below ten to the power of their count.
proof fn lemma_digits_below(b: Seq<char>)
    requires
        all_digits(b),
    ensures
        0 <= digits_value(b) < pow10(b.len()),
    decreases b.len(),
{
    if b.len() > 0 {
        let b0 = b.drop_last();
        assert(all_digits(b0) && is_digit(b[b.len() - 1]));
        lemma_digits_below(b0);
    }
}

/// Floor division of `hi * q + lo` by `q`, with `lo` below `q`, for either sign.
proof fn lemma_floor_split(hi: int, lo: int, q: int)
    requires
        q >= 1,
        0 <= lo < q,
        hi >= 0,
    ensures
        (hi * q + lo) / q == hi,
        (-(hi * q + lo)) / q == if lo > 0 {
            -hi - 1
        } else {
            -hi
        },
{
    lemma_fundamental_div_mod_converse(hi * q + lo, q, hi, lo);
    if lo > 0 {
        assert(-(hi * q + lo) == (-hi - 1) * q + (q - lo)) by (nonlinear_arith);
        lemma_fundamental_div_mod_converse(-(hi * q + lo), q, -hi - 1, q - lo);
    } else {
        assert(-(hi * q + lo) == (-hi) * q + 0) by (nonlinear_arith)
            requires
                lo == 0,
        ;
        lemma_fundamental_div_mod_converse(-(hi * q + lo), q, -hi, 0);
    }
}

/// `x`, or `cap` when `x` is larger.
pub open spec fn at_most(x: int, cap: int) -> int {
    if x < cap {
        x
    } else {
        cap
    }
}

/// Returns whether all of `s[from..to]` are decimal digits.
fn all_digits_in(s: &Vec<char>, from: usize, to: usize) -> (r: bool)
    requires
        from <= to <= s@.len(),
    ensures
        r == all_digits(s@.subrange(from as int, to as int)),
{
    let mut i = from;
    while i < to
        invariant
            from <= i <= to <= s@.len(),
            all_digits(s@.subrange(from as int, i as int)),
        decreases to - i,
    {
        let c = s[i];
        if !(0x30 <= (c as u32) && (c as u32) <= 0x39) {
            assert(s@.subrange(from as int, to as int)[i - from] == c);
            return false;
        }
        assert forall|j: int| 0 <= j < i + 1 - from implies is_digit(
            #[trigger] s@.subrange(from as int, i + 1)[j],
        ) by {
            if j < i - from {
                assert(s@.subrange(from as int, i + 1)[j] == s@.subrange(from as int, i as int)[j]);
            }
        }
        i = i + 1;
    }
    true
}

/// Appends the digits of `s[from..to]` to the number written by `prefix`,
/// which is `acc` once held at most at `cap`; the result is held at most at
/// `cap` too.
fn sat_digits(
    s: &Vec<char>,
    from: usize,
    to: usize,
    acc: u128,
    cap: u128,
    Ghost(prefix): Ghost<Seq<char>>,
) -> (r: u128)
    requires
        from <= to <= s@.len(),
        all_digits(prefix),
        all_digits(s@.subrange(from as int, to as int)),
        cap <= 100_000_000_000_000_000_000,
        acc == at_most(digits_value(prefix), cap as int),
    ensures
        r == at_most(digits_value(prefix + s@.subrange(from as int, to as int)), cap as int),
{
    let mut acc = acc;
    let mut i = from;
    assert(prefix + s@.subrange(from as int, from as int) =~= prefix);
    while i < to
        invariant
            from <= i <= to <= s@.len(),
            all_digits(s@.subrange(from as int, to as int)),
            all_digits(prefix),
            cap <= 100_000_000_000_000_000_000,
            acc == at_most(digits_value(prefix + s@.subrange(from as int, i as int)), cap as int),
        decreases to - i,
    {
        let ghost done = prefix + s@.subrange(from as int, i as int);
        let ghost next = prefix + s@.subrange(from as int, i + 1);
        assert(next =~= done.push(s@[i as int]));
        assert(s@.subrange(from as int, to as int)[i - from] == s@[i as int]);
        let c = s[i];
        proof {
            lemma_digits_push(done, c);
            assert(all_digits(done)) by {
                assert forall|j: int| 0 <= j < done.len() implies is_digit(#[trigger] done[j]) by {
                    if j >= prefix.len() {
                        assert(done[j] == s@.subrange(from as int, to as int)[j - prefix.len()]);
                    }
                }
            }
            lemma_digits_nonnegative(done);
        }
        let d = (c as u32 - 0x30) as u128;
        let v = acc * 10 + d;
        acc = if v < cap {
            v
        } else {
            cap
        };
        i = i + 1;
    }
    acc
}

/// Whether `s[from..]` spells the lower-case word `w`, letters in either case.
fn spells_word(s: &Vec<char>, from: usize, w: &str) -> (r: bool)
    requires
        from <= s@.len(),
    ensures
        r == spells(s@.subrange(from as int, s@.len() as int), w@),
{
    let ghost t = s@.subrange(from as int, s@.len() as int);
    let n = w.unicode_len();
    if s.len() - from != n {
        return false;
    }
    let mut j: usize = from;
    while j < s.len()
        invariant
            n == w@.len(),
            from + n == s@.len(),
            from <= j <= s@.len(),
            t == s@.subrange(from as int, s@.len() as int),
            forall|k: int| 0 <= k < j - from ==> same_letter(#[trigger] t[k], w@[k]),
        decreases s@.len() - j,
    {
        let c = s[j];
        let d = w.get_char(j - from);
        if !(c == d || (c as u32) as u64 + 32 == (d as u32) as u64) {
            assert(!same_letter(t[j - from], w@[j - from]));
            return false;
        }
        j = j + 1;
    }
    true
}

/// Reads the digits of `s[from..to]`, with at most one decimal point among
/// them: the number they write, how many there are, and how many of them
/// stand after the point.
fn read_number(s: &Vec<char>, from: usize, to: usize) -> (r: Option<(u128, usize, usize)>)
    requires
        from <= to <= s@.len(),
    ensures
        ({
            let p = s@.subrange(from as int, to as int);
            let w = whole_of(p);
            let f = fraction_of(p);
            r == if all_digits(w) && all_digits(f) && digits_value(w + f) <= i64::MAX {
                Some((digits_value(w + f) as u128, (w.len() + f.len()) as usize, f.len() as usize))
            } else {
                None::<(u128, usize, usize)>
            }
        }),
        r is Some ==> (r->0).0 <= i64::MAX && (r->0).0 == digits_value(
            whole_of(s@.subrange(from as int, to as int)) + fraction_of(
                s@.subrange(from as int, to as int),
            ),
        ),
{
    let ghost p = s@.subrange(from as int, to as int);
    let dot = find_char(s, from, to, '.');
    proof {
        lemma_index_of_bounds(p, '.');
    }
    let frac_start = if dot < to {
        dot + 1
    } else {
        to
    };
    let ghost whole = whole_of(p);
    let ghost frac = fraction_of(p);
    assert(whole =~= s@.subrange(from as int, dot as int));
    assert(frac =~= s@.subrange(frac_start as int, to as int));
    assert(Seq::<char>::empty() + s@.subrange(from as int, dot as int) =~= whole);
    let m = match read_digits(s, from, dot, 0, Ghost(Seq::empty())) {
        None => {
            proof {
                lemma_all_digits_split(whole, frac);
                if all_digits(whole + frac) {
                    lemma_digits_grow(whole, frac);
                }
            }
            return None;
        },
        Some(m) => m,
    };
    proof {
        lemma_digits_nonnegative(whole);
    }
    let m = match read_digits(s, frac_start, to, m, Ghost(whole)) {
        None => {
            proof {
                lemma_all_digits_split(whole, frac);
            }
            return None;
        },
        Some(m) => m,
    };
    proof {
        lemma_all_digits_split(whole, frac);
        lemma_digits_nonnegative(whole + frac);
    }
    Some((m, (dot - from) + (to - frac_start), to - frac_start))
}

/// Reads the signed integer written by `s[from..]`: an optional sign and at
/// least one digit.
fn read_signed(s: &Vec<char>, from: usize) -> (r: Option<i128>)
    requires
        from <= s@.len(),
    ensures
        ({
            let x = s@.subrange(from as int, s@.len() as int);
            let d = unsigned_part(x);
            r == if all_digits(d) && d.len() > 0 && digits_value(d) <= i64::MAX {
                Some(signed_value(x) as i128)
            } else {
                None::<i128>
            }
        }),
        r is Some ==> -i64::MAX <= r->0 <= i64::MAX && r->0 == signed_value(
            s@.subrange(from as int, s@.len() as int),
        ),
{
    let n = s.len();
    let ghost x = s@.subrange(from as int, n as int);
    let signed = from < n && (s[from] == '-' || s[from] == '+');
    let negative = from < n && s[from] == '-';
    let start = if signed {
        from + 1
    } else {
        from
    };
    let ghost d = unsigned_part(x);
    assert(d =~= s@.subrange(start as int, n as int));
    if start == n {
        return None;
    }
    assert(Seq::<char>::empty() + s@.subrange(start as int, n as int) =~= d);
    let v = match read_digits(s, start, n, 0, Ghost(Seq::empty())) {
        None => {
            return None;
        },
        Some(v) => v,
    };
    proof {
        lemma_digits_nonnegative(d);
    }
    Some(
        if negative {
            -(v as i128)
        } else {
            v as i128
        },
    )
}

/// Reads the exponent of `text`, whose mark stands at `mark`; zero when
/// there is no mark.
fn read_exponent(s: &Vec<char>, mark: usize, Ghost(text): Ghost<Seq<char>>) -> (r: Option<i128>)
    requires
        s@ == text,
        mark <= s@.len(),
        has_exponent(text) == (mark < s@.len()),
        mark < s@.len() ==> exponent_part(text) == s@.subrange(mark + 1, s@.len() as int),
        mark == s@.len() ==> exponent_part(text) == Seq::<char>::empty(),
    ensures
        r == if (has_exponent(text) ==> all_digits(exponent_digits(text)) && exponent_digits(
            text,
        ).len() > 0) && digits_value(exponent_digits(text)) <= i64::MAX {
            Some(exponent_value(text) as i128)
        } else {
            None::<i128>
        },
        r is Some ==> r->0 == exponent_value(text) && -i64::MAX <= r->0 <= i64::MAX,
{
    if mark < s.len() {
        read_signed(s, mark + 1)
    } else {
        assert(exponent_digits(text) =~= Seq::<char>::empty());
        Some(0)
    }
}

/// Where the parts of `text` stand in `s`: the end of the whole digits, the
/// start of the fraction digits, and the exponent mark.
fn layout(s: &Vec<char>, start: usize, Ghost(text): Ghost<Seq<char>>) -> (r: (usize, usize, usize))
    requires
        s@ == text,
        start == (if has_sign(text) {
            1int
        } else {
            0int
        }),
    ensures
        start <= r.0 <= r.1 <= r.2 <= s@.len(),
        number_part(text) == s@.subrange(start as int, r.2 as int),
        whole_digits(text) == s@.subrange(start as int, r.0 as int),
        fraction_digits(text) == s@.subrange(r.1 as int, r.2 as int),
        has_exponent(text) == (r.2 < s@.len()),
        r.2 < s@.len() ==> exponent_part(text) == s@.subrange(r.2 + 1, s@.len() as int),
        r.2 == s@.len() ==> exponent_part(text) == Seq::<char>::empty(),
{
    let n = s.len();
    let ghost u = unsigned_part(text);
    assert(u =~= s@.subrange(start as int, n as int));
    let e1 = find_char(s, start, n, 'e');
    let e2 = find_char(s, start, n, 'E');
    let mark = if e1 <= e2 {
        e1
    } else {
        e2
    };
    proof {
        lemma_index_of_bounds(u, 'e');
        lemma_index_of_bounds(u, 'E');
    }
    let ghost p = number_part(text);
    assert(p =~= s@.subrange(start as int, mark as int));
    let dot = find_char(s, start, mark, '.');
    proof {
        lemma_index_of_bounds(p, '.');
    }
    let frac_start = if dot < mark {
        dot + 1
    } else {
        mark
    };
    assert(whole_digits(text) =~= s@.subrange(start as int, dot as int));
    assert(fraction_digits(text) =~= s@.subrange(frac_start as int, mark as int));
    assert(mark < n ==> exponent_part(text) =~= s@.subrange(mark + 1, n as int));
    assert(mark == n ==> exponent_part(text) =~= Seq::<char>::empty());
    (dot, frac_start, mark)
}

/// Reads the finite decimal that `text` writes, its sign already passed over.
fn read_finite(s: &Vec<char>, start: usize, Ghost(text): Ghost<Seq<char>>) -> (r: Option<
    SignalStrength,
>)
    requires
        s@ == text,
        start == (if has_sign(text) {
            1int
        } else {
            0int
        }),
    ensures
        r == if is_decimal(text) && fits(text) {
            Some(
                SignalStrength {
                    mantissa: signed_magnitude(text) as i64,
                    exponent: decimal_exponent(text) as i64,
                },
            )
        } else {
            None::<SignalStrength>
        },
{
    let n = s.len();
    let negative = n > 0 && s[0] == '-';
    let (dot, frac_start, mark) = layout(s, start, Ghost(text));
    let (m, digits, frac_len) = match read_number(s, start, mark) {
        None => {
            return None;
        },
        Some(r) => r,
    };
    proof {
        lemma_index_of_bounds(number_part(text), '.');
    }
    if digits == 0 {
        return None;
    }
    let exp_value = match read_exponent(s, mark, Ghost(text)) {
        None => {
            return None;
        },
        Some(v) => v,
    };
    let e = exp_value - frac_len as i128;
    if e < i64::MIN as i128 || e > i64::MAX as i128 {
        return None;
    }
    let mantissa = if negative {
        -(m as i64)
    } else {
        m as i64
    };
    Some(SignalStrength { mantissa, exponent: e as i64 })
}


/// The largest exponent that is read exactly when the value is too long for
/// a `SignalStrength`: far beyond the number of digits any text can hold.
pub open spec fn exponent_cap() -> int {
    100_000_000_000_000_000_000
}

/// The integer written by the signed digits `x`, held within the cap.
pub open spec fn signed_at_most(x: Seq<char>) -> int {
    if is_negative(x) {
        -at_most(digits_value(unsigned_part(x)), exponent_cap())
    } else {
        at_most(digits_value(unsigned_part(x)), exponent_cap())
    }
}

/// Reads the signed integer written by `s[from..]`, held within the cap.
fn read_signed_at_most(s: &Vec<char>, from: usize) -> (r: Option<i128>)
    requires
        from <= s@.len(),
    ensures
        ({
            let x = s@.subrange(from as int, s@.len() as int);
            let d = unsigned_part(x);
            r == if all_digits(d) && d.len() > 0 {
                Some(signed_at_most(x) as i128)
            } else {
                None::<i128>
            }
        }),
        r is Some ==> r->0 == signed_at_most(s@.subrange(from as int, s@.len() as int)),
{
    let n = s.len();
    let ghost x = s@.subrange(from as int, n as int);
    let signed = from < n && (s[from] == '-' || s[from] == '+');
    let negative = from < n && s[from] == '-';
    let start = if signed {
        from + 1
    } else {
        from
    };
    let ghost d = unsigned_part(x);
    assert(d =~= s@.subrange(start as int, n as int));
    if start == n || !all_digits_in(s, start, n) {
        return None;
    }
    assert(Seq::<char>::empty() + s@.subrange(start as int, n as int) =~= d);
    let v = sat_digits(s, start, n, 0, 100_000_000_000_000_000_000, Ghost(Seq::empty()));
    Some(
        if negative {
            -(v as i128)
        } else {
            v as i128
        },
    )
}

/// How the exponent, held within the cap, stands to the exponent written.
proof fn lemma_exponent_cases(text: Seq<char>, e: int, total: int)
    requires
        is_decimal(text),
        e == signed_at_most(exponent_part(text)) - fraction_digits(text).len(),
        fraction_digits(text).len() <= total <= usize::MAX,
    ensures
        -exponent_cap() <= signed_at_most(exponent_part(text)) <= exponent_cap(),
        e >= 3 ==> decimal_exponent(text) >= 3,
        0 <= e < 3 ==> decimal_exponent(text) == e,
        e < 0 && -e <= total ==> decimal_exponent(text) == e,
        e < 0 && -e > total ==> -decimal_exponent(text) > total,
{
    if has_exponent(text) {
        lemma_digits_nonnegative(exponent_digits(text));
    } else {
        assert(exponent_digits(text) =~= Seq::<char>::empty());
    }
}

/// The floor of `(-1 if neg) * m * 10^e`.
pub open spec fn floor_of(neg: bool, m: int, e: int) -> int {
    let sm = if neg {
        -m
    } else {
        m
    };
    if e >= 0 {
        (sm * pow10(e as nat)) / 1
    } else {
        sm / pow10((-e) as nat)
    }
}

proof fn lemma_floor_of_large(neg: bool, m: int, e: int)
    requires
        m >= 1,
        e >= 3,
    ensures
        clamp_dbm(floor_of(neg, m, e)) == if neg {
            -101int
        } else {
            100int
        },
{
    let p = pow10(e as nat);
    lemma_pow10_monotonic(3, e as nat);
    assert(pow10(3) == 1000) by {
        reveal_with_fuel(pow10, 4);
    }
    assert(m * p >= 1000) by (nonlinear_arith)
        requires
            m >= 1,
            p >= 1000,
    ;
    assert((-m) * p == -(m * p)) by (nonlinear_arith);
    let sm = if neg {
        -m
    } else {
        m
    };
    lemma_fundamental_div_mod_converse(sm * p, 1, sm * p, 0);
}

proof fn lemma_floor_of_small(neg: bool, m: int, ms: int, e: int, p: int)
    requires
        m >= 0,
        0 <= e <= 2,
        p == pow10(e as nat),
        ms == at_most(m, 1000),
    ensures
        clamp_dbm(floor_of(neg, m, e)) == clamp_dbm(
            if neg {
                -(ms * p)
            } else {
                ms * p
            },
        ),
{
    lemma_pow10_positive(e as nat);
    assert((-m) * p == -(m * p)) by (nonlinear_arith);
    let sm = if neg {
        -m
    } else {
        m
    };
    lemma_fundamental_div_mod_converse(sm * p, 1, sm * p, 0);
    if m >= 1000 {
        assert(m * p >= 1000 && ms * p >= 1000) by (nonlinear_arith)
            requires
                m >= 1000,
                ms == 1000,
                p >= 1,
        ;
    }
}

proof fn lemma_floor_of_tiny(neg: bool, m: int, e: int, total: nat)
    requires
        1 <= m < pow10(total),
        -e > total,
    ensures
        floor_of(neg, m, e) == if neg {
            -1int
        } else {
            0int
        },
{
    let q = (-e) as nat;
    lemma_pow10_monotonic(total, q);
    lemma_floor_split(0, m, pow10(q));
}

proof fn lemma_floor_of_split(neg: bool, h: int, l: int, q: nat, e: int)
    requires
        e == -q,
        q >= 1,
        h >= 0,
        0 <= l < pow10(q),
    ensures
        floor_of(neg, h * pow10(q) + l, e) == if neg {
            if l > 0 {
                -h - 1
            } else {
                -h
            }
        } else {
            h
        },
{
    lemma_pow10_positive(q);
    lemma_floor_split(h, l, pow10(q));
}

/// The number written by the first `k` digits of `w + s[frac_start..mark]`,
/// held within 1000, and whether any later digit is not zero.
fn split_digits(
    s: &Vec<char>,
    start: usize,
    dot: usize,
    frac_start: usize,
    mark: usize,
    k: usize,
    Ghost(w): Ghost<Seq<char>>,
) -> (r: (u128, u128))
    requires
        start <= dot <= frac_start <= mark <= s@.len(),
        w == s@.subrange(start as int, dot as int),
        all_digits(w),
        all_digits(s@.subrange(frac_start as int, mark as int)),
        k <= (dot - start) + (mark - frac_start),
    ensures
        ({
            let dd = w + s@.subrange(frac_start as int, mark as int);
            &&& r.0 == at_most(digits_value(dd.subrange(0, k as int)), 1000)
            &&& r.1 == at_most(digits_value(dd.subrange(k as int, dd.len() as int)), 1)
        }),
{
    let ghost f = s@.subrange(frac_start as int, mark as int);
    let ghost dd = w + f;
    let ghost hi = dd.subrange(0, k as int);
    let ghost lo = dd.subrange(k as int, dd.len() as int);
    let whole_len = dot - start;
    if k <= whole_len {
        let ghost a = s@.subrange(start as int, (start + k) as int);
        let ghost b = s@.subrange((start + k) as int, dot as int);
        assert(w =~= a + b);
        proof {
            lemma_all_digits_split(a, b);
        }
        assert(hi =~= Seq::<char>::empty() + a);
        assert(lo =~= b + f);
        assert(Seq::<char>::empty() + b =~= b);
        let h = sat_digits(s, start, start + k, 0, 1000, Ghost(Seq::empty()));
        let l0 = sat_digits(s, start + k, dot, 0, 1, Ghost(Seq::empty()));
        let l = sat_digits(s, frac_start, mark, l0, 1, Ghost(b));
        (h, l)
    } else {
        let j = frac_start + (k - whole_len);
        let ghost a = s@.subrange(frac_start as int, j as int);
        let ghost b = s@.subrange(j as int, mark as int);
        assert(f =~= a + b);
        proof {
            lemma_all_digits_split(a, b);
        }
        assert(hi =~= w + a);
        assert(lo =~= Seq::<char>::empty() + b);
        assert(Seq::<char>::empty() + w =~= w);
        let h = sat_digits(s, frac_start, j, sat_digits(s, start, dot, 0, 1000, Ghost(Seq::empty())), 1000, Ghost(w));
        let l = sat_digits(s, j, mark, 0, 1, Ghost(Seq::empty()));
        (h, l)
    }
}

/// The floor in whole dBm, kept within -101 and 100, of the decimal `text`
/// whose parts stand at the given places of `s`.
fn floor_clamped(
    s: &Vec<char>,
    start: usize,
    dot: usize,
    frac_start: usize,
    mark: usize,
    exp: i128,
    negative: bool,
    Ghost(text): Ghost<Seq<char>>,
) -> (r: i64)
    requires
        s@ == text,
        start <= dot <= frac_start <= mark <= s@.len(),
        whole_digits(text) == s@.subrange(start as int, dot as int),
        fraction_digits(text) == s@.subrange(frac_start as int, mark as int),
        is_decimal(text),
        exp == signed_at_most(exponent_part(text)),
        negative == is_negative(text),
    ensures
        r == clamp_dbm(decimal_floor(text)),
{
    let ghost w = whole_digits(text);
    let ghost f = fraction_digits(text);
    let ghost dd = w + f;
    let ghost m = digits_value(dd);
    let ghost big_e = decimal_exponent(text);
    let whole_len = dot - start;
    let frac_len = mark - frac_start;
    let total = whole_len + frac_len;
    proof {
        lemma_exponent_cases(text, exp - frac_len, total as int);
        lemma_all_digits_split(w, f);
        lemma_digits_nonnegative(dd);
        lemma_digits_below(dd);
        assert(decimal_floor(text) == floor_of(negative, m, big_e));
    }
    let e = exp - frac_len as i128;
    let all = split_digits(s, start, dot, frac_start, mark, 0, Ghost(w));
    assert(dd.subrange(0, dd.len() as int) =~= dd);
    if all.1 == 0 {
        proof {
            assert(m == 0);
            assert(decimal_numerator(text) == 0) by {
                assert(0 * pow10(big_e as nat) == 0);
            }
            lemma_pow10_positive((-big_e) as nat);
            lemma_fundamental_div_mod_converse(0, decimal_denominator(text), 0, 0);
        }
        return 0;
    }
    if e >= 3 {
        proof {
            lemma_floor_of_large(negative, m, big_e);
        }
        return if negative {
            -101
        } else {
            100
        };
    }
    if e >= 0 {
        let all = split_digits(s, start, dot, frac_start, mark, total, Ghost(w));
        let ms = all.0;
        let p = pow10_exec(e as u32);
        proof {
            lemma_pow10_monotonic(e as nat, 2);
            assert(pow10(2) == 100) by {
                reveal_with_fuel(pow10, 3);
            }
            lemma_floor_of_small(negative, m, ms as int, big_e, p as int);
        }
        assert(0 <= ms * p <= 1000 * 100) by (nonlinear_arith)
            requires
                0 <= ms <= 1000,
                1 <= p <= 100,
        ;
        let v = (ms as i128) * p;
        return if negative {
            if v > 101 {
                -101
            } else {
                -(v as i64)
            }
        } else {
            if v > 100 {
                100
            } else {
                v as i64
            }
        };
    }
    if 0 - e > total as i128 {
        proof {
            lemma_floor_of_tiny(negative, m, big_e, total as nat);
        }
        return if negative {
            -1
        } else {
            0
        };
    }
    let q = (0 - e) as usize;
    let k = total - q;
    let (his, los) = split_digits(s, start, dot, frac_start, mark, k, Ghost(w));
    proof {
        let hi = dd.subrange(0, k as int);
        let lo = dd.subrange(k as int, total as int);
        assert(hi + lo =~= dd);
        lemma_digits_concat(hi, lo);
        lemma_all_digits_split(hi, lo);
        lemma_digits_below(lo);
        lemma_digits_nonnegative(hi);
        lemma_floor_of_split(negative, digits_value(hi), digits_value(lo), q as nat, big_e);
    }
    if negative {
        let t = his + los;
        if t > 101 {
            -101
        } else {
            -(t as i64)
        }
    } else {
        if his > 100 {
            100
        } else {
            his as i64
        }
    }
}

/// Reads the decimal that `text` writes as its floor in whole dBm, kept
/// within -101 and 100.
fn read_floor(s: &Vec<char>, start: usize, Ghost(text): Ghost<Seq<char>>) -> (r: Option<i64>)
    requires
        s@ == text,
        start == (if has_sign(text) {
            1int
        } else {
            0int
        }),
    ensures
        r == if is_decimal(text) {
            Some(clamp_dbm(decimal_floor(text)) as i64)
        } else {
            None::<i64>
        },
{
    let n = s.len();
    let negative = n > 0 && s[0] == '-';
    let (dot, frac_start, mark) = layout(s, start, Ghost(text));
    if !all_digits_in(s, start, dot) || !all_digits_in(s, frac_start, mark) || (dot - start) + (
    mark - frac_start) == 0 {
        return None;
    }
    let exp = if mark < n {
        match read_signed_at_most(s, mark + 1) {
            None => {
                return None;
            },
            Some(v) => v,
        }
    } else {
        assert(exponent_digits(text) =~= Seq::<char>::empty());
        0
    };
    Some(floor_clamped(s, start, dot, frac_start, mark, exp, negative, Ghost(text)))
}

/// Reads a signal level written as a floating-point number in dBm: a decimal
/// with an optional exponent, or `inf`, `infinity` or `nan` in any case, each
/// with an optional sign; `None` when the text writes no signal level. A
/// decimal is read exactly, with no rounding to a binary floating-point value;
/// one too long for a `SignalStrength` is read as its floor in whole dBm, kept
/// within -101 and 100, which lies in the tier of the value written.
pub fn parse_signal(text: &str) -> (r: Option<SignalReading>)
    ensures
        r == if readable(text@) {
            Some(reading_of(text@))
        } else {
            None::<SignalReading>
        },
{
    let s = chars_of(text);
    let n = s.len();
    let signed = n > 0 && (s[0] == '-' || s[0] == '+');
    let negative = n > 0 && s[0] == '-';
    let start: usize = if signed {
        1
    } else {
        0
    };
    assert(unsigned_part(text@) =~= s@.subrange(start as int, n as int));
    if spells_word(&s, start, "inf") || spells_word(&s, start, "infinity") {
        return Some(
            if negative {
                SignalReading::NegativeInfinity
            } else {
                SignalReading::PositiveInfinity
            },
        );
    }
    if spells_word(&s, start, "nan") {
        return Some(SignalReading::NotANumber);
    }
    if let Some(v) = read_finite(&s, start, Ghost(text@)) {
        return Some(SignalReading::Finite(v));
    }
    match read_floor(&s, start, Ghost(text@)) {
        Some(v) => Some(SignalReading::Finite(SignalStrength { mantissa: v, exponent: 0 })),
        None => None,
    }
}

/// The reading of `text`, zero dBm when it writes no signal level.
pub fn signal_or_zero(text: &str) -> (r: SignalReading)
    ensures
        r == reading_of(text@),
{
    match parse_signal(text) {
        Some(v) => v,
        None => SignalReading::Finite(SignalStrength::zero()),
    }
}

} // verus!
