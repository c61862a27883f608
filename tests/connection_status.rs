use wifi_status::access::is_root_user;
use wifi_status::connection::{is_connected, parse_snapshot, ActiveConnection};

fn entry(active: &str, ssid: &str) -> ActiveConnection {
    ActiveConnection { active: active == "yes", ssid: ssid.to_string() }
}

#[test]
fn empty_snapshot_is_not_connected() {
    assert!(!is_connected(&vec![], "home"));
}

#[test]
fn inactive_first_record_is_not_connected() {
    assert!(!is_connected(&vec![entry("no", "home")], "home"));
}

#[test]
fn active_matching_record_is_connected() {
    assert!(is_connected(&vec![entry("yes", "home")], "home"));
}

#[test]
fn active_other_network_is_not_connected() {
    assert!(!is_connected(&vec![entry("yes", "office")], "home"));
}

#[test]
fn only_first_record_counts() {
    let snapshot = vec![entry("no", "office"), entry("yes", "home")];
    assert!(!is_connected(&snapshot, "home"));
}

#[test]
fn names_compare_exactly() {
    assert!(!is_connected(&vec![entry("yes", "Home")], "home"));
    assert!(!is_connected(&vec![entry("yes", "home")], "home "));
}

#[test]
fn parse_snapshot_reads_lines() {
    let s = parse_snapshot("yes:home\nno:office\n");
    assert_eq!(s.len(), 2);
    assert!(s[0].active);
    assert_eq!(s[0].ssid, "home");
    assert!(!s[1].active);
    assert_eq!(s[1].ssid, "office");
    assert!(is_connected(&s, "home"));
    assert!(!is_connected(&s, "office"));
}

#[test]
fn parse_snapshot_of_empty_text() {
    assert_eq!(parse_snapshot("").len(), 0);
    assert!(!is_connected(&parse_snapshot(""), "home"));
}

#[test]
fn parse_snapshot_trims_each_line() {
    let s = parse_snapshot("  yes:home \t\r\nno:x");
    assert_eq!(s.len(), 2);
    assert!(s[0].active);
    assert_eq!(s[0].ssid, "home");
    assert_eq!(s[1].ssid, "x");
}

#[test]
fn parse_snapshot_odd_lines() {
    let s = parse_snapshot("yes\n\nyes:a:b\nyesno:c");
    assert_eq!(s.len(), 4);
    assert!(!s[0].active);
    assert_eq!(s[0].ssid, "");
    assert!(!s[1].active);
    assert!(s[2].active);
    assert_eq!(s[2].ssid, "a:b");
    assert!(!s[3].active);
    assert_eq!(s[3].ssid, "c");
    assert!(!is_connected(&s, ""));
}

#[test]
fn blank_first_line_hides_later_records() {
    let s = parse_snapshot("\nyes:home\n");
    assert_eq!(s.len(), 2);
    assert!(!is_connected(&s, "home"));
}

#[test]
fn root_user_check() {
    assert!(is_root_user("root"));
    assert!(!is_root_user("Root"));
    assert!(!is_root_user("alice"));
    assert!(!is_root_user(""));
    assert!(!is_root_user("root "));
}
