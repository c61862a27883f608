use wifi_status::reading::{classify_reading, parse_signal, signal_or_zero, SignalReading};
use wifi_status::signal::{classify, Color, SignalStrength, SignalTier};

fn tier_of_text(text: &str) -> SignalTier {
    classify_reading(signal_or_zero(text))
}

fn finite(mantissa: i64, exponent: i64) -> Option<SignalReading> {
    Some(SignalReading::Finite(SignalStrength::new(mantissa, exponent)))
}

#[test]
fn classify_named_values() {
    assert_eq!(classify(SignalStrength::new(-300, -1)), SignalTier::Maximum);
    assert_eq!(classify(SignalStrength::new(-3001, -2)), SignalTier::Excellent);
    assert_eq!(classify(SignalStrength::new(-800, -1)), SignalTier::Unreliable);
    assert_eq!(classify(SignalStrength::new(-8001, -2)), SignalTier::Bad);
    assert_eq!(classify(SignalStrength::new(0, -1)), SignalTier::Maximum);
}

#[test]
fn classify_named_values_from_text() {
    assert_eq!(tier_of_text("-30.0"), SignalTier::Maximum);
    assert_eq!(tier_of_text("-30.01"), SignalTier::Excellent);
    assert_eq!(tier_of_text("-80.0"), SignalTier::Unreliable);
    assert_eq!(tier_of_text("-80.01"), SignalTier::Bad);
    assert_eq!(tier_of_text("0.0"), SignalTier::Maximum);
}

#[test]
fn classify_boundaries_belong_to_higher_tier() {
    assert_eq!(tier_of_text("-30"), SignalTier::Maximum);
    assert_eq!(tier_of_text("-50"), SignalTier::Excellent);
    assert_eq!(tier_of_text("-60"), SignalTier::Good);
    assert_eq!(tier_of_text("-67"), SignalTier::Reliable);
    assert_eq!(tier_of_text("-70"), SignalTier::Weak);
    assert_eq!(tier_of_text("-80"), SignalTier::Unreliable);
    assert_eq!(tier_of_text("-81"), SignalTier::Bad);
}

#[test]
fn classify_just_below_boundaries() {
    assert_eq!(tier_of_text("-50.001"), SignalTier::Good);
    assert_eq!(tier_of_text("-60.5"), SignalTier::Reliable);
    assert_eq!(tier_of_text("-67.1"), SignalTier::Weak);
    assert_eq!(tier_of_text("-70.01"), SignalTier::Unreliable);
    assert_eq!(tier_of_text("-29.99"), SignalTier::Maximum);
}

#[test]
fn classify_extremes() {
    assert_eq!(classify(SignalStrength::new(i64::MIN, 0)), SignalTier::Bad);
    assert_eq!(classify(SignalStrength::new(i64::MAX, 0)), SignalTier::Maximum);
    assert_eq!(classify(SignalStrength::new(i64::MIN, -18)), SignalTier::Maximum);
    assert_eq!(classify(SignalStrength::new(i64::MIN, -17)), SignalTier::Bad);
    assert_eq!(classify(SignalStrength::new(i64::MIN, -40)), SignalTier::Maximum);
    assert_eq!(classify(SignalStrength::new(-30, i64::MIN)), SignalTier::Maximum);
    assert_eq!(classify(SignalStrength::new(i64::MIN, 2)), SignalTier::Bad);
    assert_eq!(classify(SignalStrength::new(-1, i64::MAX)), SignalTier::Bad);
    assert_eq!(classify(SignalStrength::new(1, i64::MAX)), SignalTier::Maximum);
}

#[test]
fn classify_positive_exponents() {
    assert_eq!(classify(SignalStrength::new(-3, 1)), SignalTier::Maximum);
    assert_eq!(classify(SignalStrength::new(-5, 1)), SignalTier::Excellent);
    assert_eq!(classify(SignalStrength::new(-8, 1)), SignalTier::Unreliable);
    assert_eq!(classify(SignalStrength::new(-9, 1)), SignalTier::Bad);
    assert_eq!(classify(SignalStrength::new(-1, 2)), SignalTier::Bad);
    assert_eq!(classify(SignalStrength::new(-1, 3)), SignalTier::Bad);
    assert_eq!(classify(SignalStrength::new(0, 5)), SignalTier::Maximum);
}

#[test]
fn classify_is_monotonic_on_a_sweep() {
    let mut last = 0;
    let mut v: i64 = -10000;
    while v <= 1000 {
        let rank = match classify(SignalStrength::new(v, -2)) {
            SignalTier::Bad => 0,
            SignalTier::Unreliable => 1,
            SignalTier::Weak => 2,
            SignalTier::Reliable => 3,
            SignalTier::Good => 4,
            SignalTier::Excellent => 5,
            SignalTier::Maximum => 6,
        };
        assert!(rank >= last);
        last = rank;
        v += 1;
    }
    assert_eq!(last, 6);
}

#[test]
fn parse_signal_reads_decimals() {
    assert_eq!(parse_signal("-67"), finite(-67, 0));
    assert_eq!(parse_signal("+5.5"), finite(55, -1));
    assert_eq!(parse_signal("-30.01"), finite(-3001, -2));
    assert_eq!(parse_signal(".5"), finite(5, -1));
    assert_eq!(parse_signal("5."), finite(5, 0));
    assert_eq!(parse_signal("-0.000"), finite(0, -3));
    assert_eq!(parse_signal("9223372036854775807"), finite(i64::MAX, 0));
}

#[test]
fn parse_signal_reads_exponents() {
    assert_eq!(parse_signal("-1e2"), finite(-1, 2));
    assert_eq!(parse_signal("-1E2"), finite(-1, 2));
    assert_eq!(parse_signal("1.5e-3"), finite(15, -4));
    assert_eq!(parse_signal("-6.7e+1"), finite(-67, 0));
    assert_eq!(parse_signal(".5e1"), finite(5, 0));
    assert_eq!(parse_signal("5.e0"), finite(5, 0));
    assert_eq!(parse_signal("-1e-400"), finite(-1, -400));
}

#[test]
fn parse_signal_reads_infinities_and_nan() {
    assert_eq!(parse_signal("inf"), Some(SignalReading::PositiveInfinity));
    assert_eq!(parse_signal("+Infinity"), Some(SignalReading::PositiveInfinity));
    assert_eq!(parse_signal("-inf"), Some(SignalReading::NegativeInfinity));
    assert_eq!(parse_signal("-INFINITY"), Some(SignalReading::NegativeInfinity));
    assert_eq!(parse_signal("NaN"), Some(SignalReading::NotANumber));
    assert_eq!(parse_signal("-nan"), Some(SignalReading::NotANumber));
    assert_eq!(parse_signal("nAn"), Some(SignalReading::NotANumber));
}

#[test]
fn parse_signal_rejects_other_text() {
    assert_eq!(parse_signal(""), None);
    assert_eq!(parse_signal("-"), None);
    assert_eq!(parse_signal("."), None);
    assert_eq!(parse_signal("-."), None);
    assert_eq!(parse_signal("abc"), None);
    assert_eq!(parse_signal("1.2.3"), None);
    assert_eq!(parse_signal(" -67"), None);
    assert_eq!(parse_signal("-67 dBm"), None);
    assert_eq!(parse_signal("--67"), None);
    assert_eq!(parse_signal("1e"), None);
    assert_eq!(parse_signal("1e+"), None);
    assert_eq!(parse_signal("e5"), None);
    assert_eq!(parse_signal(".e5"), None);
    assert_eq!(parse_signal("1e2.5"), None);
    assert_eq!(parse_signal("1e2e3"), None);
    assert_eq!(parse_signal("infin"), None);
    assert_eq!(parse_signal("nana"), None);
    assert_eq!(parse_signal("+-inf"), None);
}

#[test]
fn float_text_gets_the_tier_of_its_value() {
    assert_eq!(tier_of_text("-1e2"), SignalTier::Bad);
    assert_eq!(tier_of_text("-6.5E1"), SignalTier::Reliable);
    assert_eq!(tier_of_text("-3e1"), SignalTier::Maximum);
    assert_eq!(tier_of_text("-1e-400"), SignalTier::Maximum);
    assert_eq!(tier_of_text("NaN"), SignalTier::Bad);
    assert_eq!(tier_of_text("-inf"), SignalTier::Bad);
    assert_eq!(tier_of_text("inf"), SignalTier::Maximum);
    assert_eq!(classify_reading(SignalReading::NotANumber), SignalTier::Bad);
}

#[test]
fn long_decimals_are_read_by_their_floor() {
    assert_eq!(parse_signal("9223372036854775808"), finite(100, 0));
    assert_eq!(parse_signal("-10000000000000000000"), finite(-101, 0));
    assert_eq!(parse_signal("-67.0000000000000000000000"), finite(-67, 0));
    assert_eq!(parse_signal("-67.0000000000000000000001"), finite(-68, 0));
    assert_eq!(parse_signal("-30.00000000000000000000001"), finite(-31, 0));
    assert_eq!(parse_signal("0.00000000000000000000000000000"), finite(0, -29));
    assert_eq!(parse_signal("-0.00000000000000000000000000001"), finite(-1, -29));
    assert_eq!(parse_signal("-0.10000000000000000000000000001"), finite(-1, 0));
    assert_eq!(parse_signal("1e9223372036854775808"), finite(100, 0));
    assert_eq!(parse_signal("-1e99999999999999999999"), finite(-101, 0));
    assert_eq!(parse_signal("1e-99999999999999999999"), finite(0, 0));
    assert_eq!(parse_signal("0e99999999999999999999"), finite(0, 0));
    assert_eq!(parse_signal("-123456789012345678901234e-22"), finite(-13, 0));
    assert_eq!(parse_signal("-123456789012345678901234.5e-21"), finite(-101, 0));
    assert_eq!(parse_signal("12345678901234567890123.45e-21"), finite(12, 0));
    assert_eq!(parse_signal("-7123456789012345678901234e-23"), finite(-72, 0));
}

#[test]
fn long_decimals_get_the_tier_of_their_value() {
    assert_eq!(tier_of_text("-10000000000000000000"), SignalTier::Bad);
    assert_eq!(tier_of_text("10000000000000000000"), SignalTier::Maximum);
    assert_eq!(tier_of_text("-1e99999999999999999999"), SignalTier::Bad);
    assert_eq!(tier_of_text("1e99999999999999999999"), SignalTier::Maximum);
    assert_eq!(tier_of_text("-1e-99999999999999999999"), SignalTier::Maximum);
    assert_eq!(tier_of_text("-67.0000000000000000000000"), SignalTier::Reliable);
    assert_eq!(tier_of_text("-67.0000000000000000000001"), SignalTier::Weak);
    assert_eq!(tier_of_text("-30.00000000000000000000001"), SignalTier::Excellent);
    assert_eq!(tier_of_text("-29.99999999999999999999999"), SignalTier::Maximum);
    assert_eq!(tier_of_text("-80.00000000000000000000000"), SignalTier::Unreliable);
    assert_eq!(tier_of_text("-80.00000000000000000000001"), SignalTier::Bad);
    assert_eq!(tier_of_text("-00000000000000000000000067"), SignalTier::Reliable);
    assert_eq!(tier_of_text("-6700000000000000000000000e-23"), SignalTier::Reliable);
}

#[test]
fn unreadable_signal_is_zero_and_maximum() {
    assert_eq!(signal_or_zero("n/a"), SignalReading::Finite(SignalStrength::zero()));
    assert_eq!(signal_or_zero(""), SignalReading::Finite(SignalStrength::zero()));
    assert_eq!(tier_of_text("n/a"), SignalTier::Maximum);
    assert_eq!(tier_of_text(""), SignalTier::Maximum);
}

#[test]
fn tier_names_and_styles() {
    assert_eq!(SignalTier::Maximum.name(), "Maximum");
    assert_eq!(SignalTier::Excellent.name(), "Excellent");
    assert_eq!(SignalTier::Good.name(), "Good");
    assert_eq!(SignalTier::Reliable.name(), "Reliable");
    assert_eq!(SignalTier::Weak.name(), "Weak");
    assert_eq!(SignalTier::Unreliable.name(), "Unreliable");
    assert_eq!(SignalTier::Bad.name(), "Bad");
    let s = SignalTier::Maximum.style();
    assert_eq!((s.color, s.bold, s.blink), (Color::Green, true, true));
    let s = SignalTier::Good.style();
    assert_eq!((s.color, s.bold, s.blink), (Color::Green, false, true));
    let s = SignalTier::Reliable.style();
    assert_eq!((s.color, s.bold, s.blink), (Color::Yellow, true, true));
    let s = SignalTier::Weak.style();
    assert_eq!((s.color, s.bold, s.blink), (Color::Yellow, false, false));
    let s = SignalTier::Unreliable.style();
    assert_eq!((s.color, s.bold, s.blink), (Color::Red, false, false));
    let s = SignalTier::Bad.style();
    assert_eq!((s.color, s.bold, s.blink), (Color::Red, true, false));
}
