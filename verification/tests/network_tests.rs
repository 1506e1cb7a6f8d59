use family_router::network::{
    drop_rules, find_addr, get_addr, lease_addresses, lease_hardware, lookup_lease, rules_needed, text_eq, LeaseError,
};
use family_router::text::split_text;

const LEASES: &str = "lease 10.0.1.23 {\n  starts 4 2021/01/07 18:34:02;\n  hardware ethernet aa:bb:cc:dd:ee:01;\n}\nlease 10.0.1.24 {\n  starts 4 2021/01/07 18:35:10;\n  hardware ethernet aa:bb:cc:dd:ee:02;\n}\n";

#[test]
fn addresses_are_read_in_file_order() {
    let addrs = lease_addresses(LEASES).unwrap();
    assert_eq!(addrs, vec!["10.0.1.23".to_string(), "10.0.1.24".to_string()]);
}

#[test]
fn hardware_is_read_in_file_order() {
    let macs = lease_hardware(LEASES).unwrap();
    assert_eq!(macs, vec!["aa:bb:cc:dd:ee:01".to_string(), "aa:bb:cc:dd:ee:02".to_string()]);
}

#[test]
fn ip_gives_its_mac() {
    assert_eq!(get_addr(LEASES, Some("10.0.1.24"), None), Some("aa:bb:cc:dd:ee:02".to_string()));
    assert_eq!(get_addr(LEASES, Some("10.0.1.23"), None), Some("aa:bb:cc:dd:ee:01".to_string()));
}

#[test]
fn unknown_ip_gives_nothing() {
    assert_eq!(get_addr(LEASES, Some("10.0.1.99"), None), None);
    assert_eq!(lookup_lease(LEASES, Some("10.0.1.99"), None), Ok(None));
}

#[test]
fn mac_gives_its_ip() {
    assert_eq!(get_addr(LEASES, None, Some("aa:bb:cc:dd:ee:01")), Some("10.0.1.23".to_string()));
    assert_eq!(get_addr(LEASES, None, Some("aa:bb:cc:dd:ee:02")), Some("10.0.1.24".to_string()));
    assert_eq!(get_addr(LEASES, None, Some("aa:bb:cc:dd:ee:09")), None);
}

#[test]
fn mac_gives_ip_of_its_own_lease() {
    let leases = "lease 10.0.1.5 {\n  hardware ethernet aa:bb:cc:dd:ee:ff;\n}\nlease 10.0.1.6 {\n  hardware ethernet 11:22:33:44:55:66;\n}\n";
    assert_eq!(get_addr(leases, None, Some("11:22:33:44:55:66")), Some("10.0.1.6".to_string()));
}

#[test]
fn mac_without_address_line_is_reported() {
    // One block holds two hardware lines but names a single address.
    let leases = "lease 10.0.1.5 {\n  hardware ethernet aa:bb:cc:dd:ee:05;\n  hardware ethernet aa:bb:cc:dd:ee:06;\n}\n";
    assert_eq!(lookup_lease(leases, None, Some("aa:bb:cc:dd:ee:05")), Ok(Some("10.0.1.5".to_string())));
    assert_eq!(lookup_lease(leases, None, Some("aa:bb:cc:dd:ee:06")), Err(LeaseError::MissingAddress));
}

#[test]
fn ip_wins_over_mac() {
    assert_eq!(get_addr(LEASES, Some("10.0.1.23"), Some("aa:bb:cc:dd:ee:02")), Some("aa:bb:cc:dd:ee:01".to_string()));
}

#[test]
fn no_query_is_reported() {
    assert_eq!(lookup_lease(LEASES, None, None), Err(LeaseError::MissingQuery));
}

#[test]
fn short_hardware_line_is_reported() {
    let leases = "lease 10.0.1.5 {\n  hardware ethernet aa:bb;\n}\n";
    assert_eq!(lease_hardware(leases), None);
    assert_eq!(lookup_lease(leases, Some("10.0.1.5"), None), Err(LeaseError::MalformedHardwareLine));
}

#[test]
fn address_line_without_closing_brace_is_reported() {
    let leases = "lease 10.0.1.5 { x\n  hardware ethernet aa:bb:cc:dd:ee:05;\n}\n";
    assert_eq!(lease_addresses(leases), None);
    assert_eq!(lookup_lease(leases, Some("10.0.1.5"), None), Err(LeaseError::MalformedAddressLine));
}

#[test]
fn address_without_hardware_line_is_reported() {
    // One block names two addresses but holds a single hardware line.
    let leases = "lease 10.0.1.5 {\nxxxxxx10.0.1.6 {\n  hardware ethernet aa:bb:cc:dd:ee:05;\n}\n";
    assert_eq!(lease_addresses(leases), Some(vec!["10.0.1.5".to_string(), "10.0.1.6".to_string()]));
    assert_eq!(lookup_lease(leases, Some("10.0.1.5"), None), Ok(Some("aa:bb:cc:dd:ee:05".to_string())));
    assert_eq!(lookup_lease(leases, Some("10.0.1.6"), None), Err(LeaseError::MissingHardware));
}

#[test]
fn trailing_text_after_brace_is_reported() {
    let leases = "lease 10.0.1.6 { # hardware\n  hardware ethernet aa:bb:cc:dd:ee:06;\n}\n";
    assert_eq!(lease_addresses(leases), None);
}

#[test]
fn blocks_without_hardware_are_skipped() {
    let leases = "lease 10.0.1.7 {\n  starts 1;\n}\nlease 10.0.1.8 {\n  hardware ethernet aa:bb:cc:dd:ee:08;\n}\n";
    assert_eq!(lease_addresses(leases), Some(vec!["10.0.1.8".to_string()]));
    assert_eq!(get_addr(leases, Some("10.0.1.8"), None), Some("aa:bb:cc:dd:ee:08".to_string()));
    assert_eq!(get_addr(leases, Some("10.0.1.7"), None), None);
}

#[test]
fn missing_mac_at_position_is_reported() {
    let addrs = vec!["10.0.0.1".to_string(), "10.0.0.2".to_string()];
    let macs = vec!["aa:aa:aa:aa:aa:aa".to_string()];
    assert_eq!(find_addr(&addrs, &macs, Some("10.0.0.1"), None), Some("aa:aa:aa:aa:aa:aa".to_string()));
    assert_eq!(find_addr(&addrs, &macs, Some("10.0.0.3"), None), None);
    assert_eq!(find_addr(&addrs, &macs, None, Some("aa:aa:aa:aa:aa:aa")), Some("10.0.0.1".to_string()));
}

#[test]
fn empty_file_has_no_leases() {
    assert_eq!(lease_addresses(""), Some(vec![]));
    assert_eq!(lease_hardware(""), Some(vec![]));
    assert_eq!(lookup_lease("", Some("10.0.0.1"), None), Ok(None));
}

#[test]
fn rules_drop_both_directions() {
    let (to_host, from_host) = drop_rules("10.0.1.23");
    assert_eq!(to_host, "-d 10.0.1.23 -j DROP");
    assert_eq!(from_host, "-s 10.0.1.23 -j DROP");
}

#[test]
fn rules_inserted_only_when_absent() {
    assert!(rules_needed(false));
    assert!(!rules_needed(true));
}

#[test]
fn texts_compare_by_content() {
    assert!(text_eq("abc", "abc"));
    assert!(!text_eq("abc", "abd"));
    assert!(!text_eq("abc", "ab"));
    assert!(text_eq("", ""));
}

#[test]
fn split_keeps_empty_pieces() {
    assert_eq!(split_text("a}b}}c", b'}'), vec!["a", "b", "", "c"]);
    assert_eq!(split_text("", b'}'), vec![""]);
    assert_eq!(split_text("}", b'}'), vec!["", ""]);
    assert_eq!(split_text("é}ü", b'}'), vec!["é", "ü"]);
}
