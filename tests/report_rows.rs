use wifi_status::connection::{is_connected, parse_snapshot, ActiveConnection};
use wifi_status::report::{build_report, build_row, DiscoveredNetwork, ReportRow};
use wifi_status::signal::SignalTier;

fn network(mac: &str, ssid: &str, channel: &str, level: &str, security: &str) -> DiscoveredNetwork {
    DiscoveredNetwork {
        mac: mac.to_string(),
        ssid: ssid.to_string(),
        channel: channel.to_string(),
        signal_level: level.to_string(),
        security: security.to_string(),
    }
}

fn same_row(a: &ReportRow, b: &ReportRow) -> bool {
    a.is_current == b.is_current
        && a.mac == b.mac
        && a.ssid == b.ssid
        && a.channel == b.channel
        && a.tier == b.tier
        && a.signal_level == b.signal_level
        && a.security == b.security
}

fn snapshot() -> Vec<ActiveConnection> {
    parse_snapshot("yes:home\nno:office\n")
}

#[test]
fn row_of_current_network() {
    let n = network("aa:bb:cc:dd:ee:ff", "home", "6", "-55", "WPA2");
    let r = build_row(&n, &snapshot());
    assert!(r.is_current);
    assert_eq!(r.mac, "aa:bb:cc:dd:ee:ff");
    assert_eq!(r.ssid, "home");
    assert_eq!(r.channel, "6");
    assert_eq!(r.tier, SignalTier::Good);
    assert_eq!(r.signal_level, "-55");
    assert_eq!(r.security, "WPA2");
}

#[test]
fn row_of_other_network() {
    let n = network("11:22:33:44:55:66", "office", "11", "-82.5", "");
    let r = build_row(&n, &snapshot());
    assert!(!r.is_current);
    assert_eq!(r.tier, SignalTier::Bad);
    assert_eq!(r.signal_level, "-82.5");
    assert_eq!(r.security, "");
}

#[test]
fn row_with_unreadable_signal_level() {
    for level in ["", "abc", "-", "1e", "nan!"] {
        let r = build_row(&network("m", "x", "1", level, "WEP"), &snapshot());
        assert_eq!(r.tier, SignalTier::Maximum);
        assert_eq!(r.signal_level, level);
    }
}

#[test]
fn row_with_float_notation_signal_level() {
    let s = snapshot();
    assert_eq!(build_row(&network("m", "x", "1", "-1e2", ""), &s).tier, SignalTier::Bad);
    assert_eq!(build_row(&network("m", "x", "1", "NaN", ""), &s).tier, SignalTier::Bad);
    assert_eq!(build_row(&network("m", "x", "1", "-inf", ""), &s).tier, SignalTier::Bad);
    assert_eq!(build_row(&network("m", "x", "1", "inf", ""), &s).tier, SignalTier::Maximum);
    assert_eq!(build_row(&network("m", "x", "1", "-5.5e1", ""), &s).tier, SignalTier::Good);
    let long = build_row(&network("m", "x", "1", "-10000000000000000000", ""), &s);
    assert_eq!(long.tier, SignalTier::Bad);
    assert_eq!(long.signal_level, "-10000000000000000000");
}

#[test]
fn build_row_twice_gives_identical_rows() {
    let n = network("aa", "home", "36", "-68.5", "WPA3");
    let s = snapshot();
    let a = build_row(&n, &s);
    let b = build_row(&n, &s);
    assert!(same_row(&a, &b));
    assert_eq!(a.tier, SignalTier::Weak);
}

#[test]
fn report_rows_agree_with_resolver() {
    let networks = vec![
        network("a", "home", "1", "-20", "WPA2"),
        network("b", "office", "6", "-75", "WPA2"),
        network("c", "home", "11", "junk", ""),
        network("d", "", "13", "-90", "open"),
    ];
    let s = snapshot();
    let rows = build_report(&networks, &s);
    assert_eq!(rows.len(), networks.len());
    for (row, n) in rows.iter().zip(networks.iter()) {
        assert_eq!(row.ssid, n.ssid);
        assert_eq!(row.is_current, is_connected(&s, &row.ssid));
        assert!(same_row(row, &build_row(n, &s)));
    }
    let tiers: Vec<SignalTier> = rows.iter().map(|r| r.tier).collect();
    assert_eq!(
        tiers,
        vec![SignalTier::Maximum, SignalTier::Unreliable, SignalTier::Maximum, SignalTier::Bad]
    );
    assert_eq!(rows.iter().filter(|r| r.is_current).count(), 2);
}

#[test]
fn empty_report() {
    assert_eq!(build_report(&vec![], &snapshot()).len(), 0);
}
