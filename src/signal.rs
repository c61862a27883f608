//! Signal strength in dBm, held as an exact decimal, and its quality tier.

use vstd::prelude::*;

verus! {

/// Ten to the power `n`.
pub open spec fn pow10(n: nat) -> int
    decreases n,
{
    if n == 0 {
        1
    } else {
        10 * pow10((n - 1) as nat)
    }
}

/// Quality tier of a signal, from strongest to weakest.
#[derive(Clone, Copy, Debug, PartialEq, Eq, Structural)]
pub enum SignalTier {
    Maximum,
    Excellent,
    Good,
    Reliable,
    Weak,
    Unreliable,
    Bad,
}

/// A finite signal strength in dBm, the exact decimal `mantissa * 10^exponent`.
#[derive(Clone, Copy, Debug, PartialEq, Eq, Structural)]
pub struct SignalStrength {
    pub mantissa: i64,
    pub exponent: i64,
}

impl SignalStrength {
    /// The value is `numerator() / denominator()`, with a power of ten below.
    pub open spec fn numerator(self) -> int {
        if self.exponent >= 0 {
            self.mantissa * pow10(self.exponent as nat)
        } else {
            self.mantissa as int
        }
    }

    pub open spec fn denominator(self) -> int {
        if self.exponent >= 0 {
            1
        } else {
            pow10((-self.exponent) as nat)
        }
    }

    /// The value is at least `t` dBm.
    pub open spec fn at_least(self, t: int) -> bool {
        self.numerator() >= t * self.denominator()
    }

    /// The value is at most the value of `other`.
    pub open spec fn le(self, other: SignalStrength) -> bool {
        self.numerator() * other.denominator() <= other.numerator() * self.denominator()
    }

    pub fn new(mantissa: i64, exponent: i64) -> (r: SignalStrength)
        ensures
            r.mantissa == mantissa,
            r.exponent == exponent,
    {
        SignalStrength { mantissa, exponent }
    }

    /// Zero dBm, the value an unreadable signal level stands for.
    pub fn zero() -> (r: SignalStrength)
        ensures
            r.mantissa == 0,
            r.exponent == 0,
    {
        SignalStrength { mantissa: 0, exponent: 0 }
    }
}

/// The tier of the value `n / d`: each tier owns its lower bound.
pub open spec fn tier_of_ratio(n: int, d: int) -> SignalTier {
    if n >= -30 * d {
        SignalTier::Maximum
    } else if n >= -50 * d {
        SignalTier::Excellent
    } else if n >= -60 * d {
        SignalTier::Good
    } else if n >= -67 * d {
        SignalTier::Reliable
    } else if n >= -70 * d {
        SignalTier::Weak
    } else if n >= -80 * d {
        SignalTier::Unreliable
    } else {
        SignalTier::Bad
    }
}

/// The tier of a signal strength.
pub open spec fn tier_of(s: SignalStrength) -> SignalTier {
    tier_of_ratio(s.numerator(), s.denominator())
}

/// Rank of a tier: the stronger the tier, the higher its rank.
pub open spec fn tier_rank(t: SignalTier) -> int {
    match t {
        SignalTier::Maximum => 6,
        SignalTier::Excellent => 5,
        SignalTier::Good => 4,
        SignalTier::Reliable => 3,
        SignalTier::Weak => 2,
        SignalTier::Unreliable => 1,
        SignalTier::Bad => 0,
    }
}

pub proof fn lemma_pow10_positive(n: nat)
    ensures
        pow10(n) >= 1,
    decreases n,
{
    if n > 0 {
        lemma_pow10_positive((n - 1) as nat);
    }
}

pub proof fn lemma_pow10_monotonic(a: nat, b: nat)
    requires
        a <= b,
    ensures
        pow10(a) <= pow10(b),
    decreases b,
{
    lemma_pow10_positive(b);
    if a < b {
        lemma_pow10_monotonic(a, (b - 1) as nat);
    }
}

proof fn lemma_pow10_19()
    ensures
        pow10(19) == 10_000_000_000_000_000_000,
        pow10(3) == 1000,
        pow10(2) == 100,
{
    reveal_with_fuel(pow10, 20);
}

/// Computes `10^n` for the exponents whose thresholds fit in `i128`.
pub(crate) fn pow10_exec(n: u32) -> (r: i128)
    requires
        n <= 18,
    ensures
        r == pow10(n as nat),
        1 <= r <= 1_000_000_000_000_000_000,
{
    let mut r: i128 = 1;
    let mut i: u32 = 0;
    proof {
        lemma_pow10_monotonic(n as nat, 18);
        lemma_pow10_19();
    }
    while i < n
        invariant
            i <= n <= 18,
            r == pow10(i as nat),
            pow10(n as nat) <= pow10(18),
            pow10(19) == 10_000_000_000_000_000_000,
        decreases n - i,
    {
        proof {
            lemma_pow10_monotonic((i + 1) as nat, n as nat);
            assert(pow10((i + 1) as nat) == 10 * pow10(i as nat));
            assert(pow10(19) == 10 * pow10(18));
            lemma_pow10_positive(i as nat);
        }
        r = r * 10;
        i = i + 1;
    }
    proof {
        lemma_pow10_positive(n as nat);
        assert(pow10(19) == 10 * pow10(18));
    }
    r
}

/// The tier of `n / d`, for a numerator and a denominator of moderate size.
fn tier_by(n: i128, d: i128) -> (r: SignalTier)
    requires
        -1_000_000_000_000_000_000_000 <= n <= 1_000_000_000_000_000_000_000,
        1 <= d <= 1_000_000_000_000_000_000,
    ensures
        r == tier_of_ratio(n as int, d as int),
{
    if n >= -30 * d {
        SignalTier::Maximum
    } else if n >= -50 * d {
        SignalTier::Excellent
    } else if n >= -60 * d {
        SignalTier::Good
    } else if n >= -67 * d {
        SignalTier::Reliable
    } else if n >= -70 * d {
        SignalTier::Weak
    } else if n >= -80 * d {
        SignalTier::Unreliable
    } else {
        SignalTier::Bad
    }
}

/// The quality tier of a signal strength.
pub fn classify(s: SignalStrength) -> (r: SignalTier)
    ensures
        r == tier_of(s),
{
    proof {
        lemma_pow10_19();
    }
    if s.exponent >= 0 {
        if s.mantissa >= 0 {
            proof {
                lemma_pow10_positive(s.exponent as nat);
                assert(s.mantissa * pow10(s.exponent as nat) >= 0) by (nonlinear_arith)
                    requires
                        s.mantissa >= 0,
                        pow10(s.exponent as nat) >= 1,
                ;
            }
            return SignalTier::Maximum;
        }
        if s.exponent >= 3 {
            // A negative value of at least a thousand dBm in size.
            proof {
                lemma_pow10_monotonic(3, s.exponent as nat);
                let p = pow10(s.exponent as nat);
                assert(s.mantissa * p <= -p) by (nonlinear_arith)
                    requires
                        s.mantissa <= -1,
                        p >= 1,
                ;
            }
            return SignalTier::Bad;
        }
        let p = pow10_exec(s.exponent as u32);
        proof {
            lemma_pow10_monotonic(s.exponent as nat, 2);
            assert(-1_000_000_000_000_000_000_000 <= s.mantissa * p <= 0) by (nonlinear_arith)
                requires
                    i64::MIN <= s.mantissa < 0,
                    1 <= p <= 100,
            ;
        }
        return tier_by(s.mantissa as i128 * p, 1);
    }
    if s.exponent < -18 {
        // Such a value lies strictly between -1 and 1 dBm.
        proof {
            lemma_pow10_monotonic(19, (-s.exponent) as nat);
            let p = pow10((-s.exponent) as nat);
            assert(-30 * p <= -30 * 10_000_000_000_000_000_000int) by (nonlinear_arith)
                requires
                    p >= 10_000_000_000_000_000_000int,
            ;
        }
        return SignalTier::Maximum;
    }
    let d = pow10_exec((-s.exponent) as u32);
    tier_by(s.mantissa as i128, d)
}

/// A whole number of dBm.
pub open spec fn whole_dbm(v: i64) -> SignalStrength {
    SignalStrength { mantissa: v, exponent: 0 }
}

/// Each boundary value belongs to the tier whose lower bound it is.
pub proof fn lemma_tier_boundaries()
    ensures
        tier_of(whole_dbm(-30i64)) == SignalTier::Maximum,
        tier_of(whole_dbm(-50i64)) == SignalTier::Excellent,
        tier_of(whole_dbm(-60i64)) == SignalTier::Good,
        tier_of(whole_dbm(-67i64)) == SignalTier::Reliable,
        tier_of(whole_dbm(-70i64)) == SignalTier::Weak,
        tier_of(whole_dbm(-80i64)) == SignalTier::Unreliable,
        tier_of(whole_dbm(0)) == SignalTier::Maximum,
{
    assert(pow10(0) == 1);
}

/// Colour in which a tier is shown.
#[derive(Clone, Copy, Debug, PartialEq, Eq, Structural)]
pub enum Color {
    Green,
    Yellow,
    Red,
}

/// How a tier's name is shown.
#[derive(Clone, Copy, Debug, PartialEq, Eq, Structural)]
pub struct TierStyle {
    pub color: Color,
    pub bold: bool,
    pub blink: bool,
}

pub open spec fn tier_name(t: SignalTier) -> Seq<char> {
    match t {
        SignalTier::Maximum => "Maximum"@,
        SignalTier::Excellent => "Excellent"@,
        SignalTier::Good => "Good"@,
        SignalTier::Reliable => "Reliable"@,
        SignalTier::Weak => "Weak"@,
        SignalTier::Unreliable => "Unreliable"@,
        SignalTier::Bad => "Bad"@,
    }
}

/// The style of each tier: green for the strong ones, yellow for the middle,
/// red for the weak; the strongest of each colour stand out.
pub open spec fn tier_style(t: SignalTier) -> TierStyle {
    match t {
        SignalTier::Maximum => TierStyle { color: Color::Green, bold: true, blink: true },
        SignalTier::Excellent => TierStyle { color: Color::Green, bold: true, blink: true },
        SignalTier::Good => TierStyle { color: Color::Green, bold: false, blink: true },
        SignalTier::Reliable => TierStyle { color: Color::Yellow, bold: true, blink: true },
        SignalTier::Weak => TierStyle { color: Color::Yellow, bold: false, blink: false },
        SignalTier::Unreliable => TierStyle { color: Color::Red, bold: false, blink: false },
        SignalTier::Bad => TierStyle { color: Color::Red, bold: true, blink: false },
    }
}

impl SignalTier {
    /// The tier's name.
    pub fn name(&self) -> (r: &'static str)
        ensures
            r@ == tier_name(*self),
    {
        match self {
            SignalTier::Maximum => "Maximum",
            SignalTier::Excellent => "Excellent",
            SignalTier::Good => "Good",
            SignalTier::Reliable => "Reliable",
            SignalTier::Weak => "Weak",
            SignalTier::Unreliable => "Unreliable",
            SignalTier::Bad => "Bad",
        }
    }

    /// How the tier's name is shown.
    pub fn style(&self) -> (r: TierStyle)
        ensures
            r == tier_style(*self),
    {
        match self {
            SignalTier::Maximum => TierStyle { color: Color::Green, bold: true, blink: true },
            SignalTier::Excellent => TierStyle { color: Color::Green, bold: true, blink: true },
            SignalTier::Good => TierStyle { color: Color::Green, bold: false, blink: true },
            SignalTier::Reliable => TierStyle { color: Color::Yellow, bold: true, blink: true },
            SignalTier::Weak => TierStyle { color: Color::Yellow, bold: false, blink: false },
            SignalTier::Unreliable => TierStyle { color: Color::Red, bold: false, blink: false },
            SignalTier::Bad => TierStyle { color: Color::Red, bold: true, blink: false },
        }
    }
}

proof fn lemma_threshold_kept(am: int, pa: int, bm: int, pb: int, t: int)
    requires
        pa >= 1,
        pb >= 1,
        am * pb <= bm * pa,
        am >= t * pa,
    ensures
        bm >= t * pb,
{
    assert(t * pa * pb <= am * pb) by (nonlinear_arith)
        requires
            am >= t * pa,
            pb >= 1,
    ;
    assert(t * pb * pa <= bm * pa ==> t * pb <= bm) by (nonlinear_arith)
        requires
            pa >= 1,
    ;
    assert(t * pa * pb == t * pb * pa) by (nonlinear_arith);
}

/// Classification is monotonic: a signal at least as strong as another never
/// falls in a weaker tier.
pub proof fn lemma_classify_monotonic(a: SignalStrength, b: SignalStrength)
    requires
        a.le(b),
    ensures
        tier_rank(tier_of(a)) <= tier_rank(tier_of(b)),
{
    lemma_pow10_positive((-a.exponent) as nat);
    lemma_pow10_positive((-b.exponent) as nat);
    let (an, ad, bn, bd) = (a.numerator(), a.denominator(), b.numerator(), b.denominator());
    if an >= -30 * ad {
        lemma_threshold_kept(an, ad, bn, bd, -30);
    }
    if an >= -50 * ad {
        lemma_threshold_kept(an, ad, bn, bd, -50);
    }
    if an >= -60 * ad {
        lemma_threshold_kept(an, ad, bn, bd, -60);
    }
    if an >= -67 * ad {
        lemma_threshold_kept(an, ad, bn, bd, -67);
    }
    if an >= -70 * ad {
        lemma_threshold_kept(an, ad, bn, bd, -70);
    }
    if an >= -80 * ad {
        lemma_threshold_kept(an, ad, bn, bd, -80);
    }
}
} // verus!
