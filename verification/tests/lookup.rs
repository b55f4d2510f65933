use dns_lookup::dns::{dns_lookup_reverse, dns_lookup_txt, reverse_outcome, txt_outcome};

#[test]
fn txt_outcome_returns_records_unchanged() {
    let records = vec![
        "\"v=spf1 -all\"".to_string(),
        "\"verification=abc123\"".to_string(),
    ];
    let result = txt_outcome(Some(records.clone()));
    assert_eq!(result, Ok(records));
}

#[test]
fn txt_outcome_reports_the_fixed_message() {
    let result = txt_outcome(None);
    assert_eq!(result, Err("Could not find any TXT records!".to_string()));
}

#[test]
fn reverse_outcome_returns_hostnames_unchanged() {
    let hostnames = vec!["dns.google.".to_string(), "example.net.".to_string()];
    let result = reverse_outcome(Some(hostnames.clone()));
    assert_eq!(result, Ok(hostnames));
}

#[test]
fn reverse_outcome_reports_the_fixed_message() {
    let result = reverse_outcome(None);
    assert_eq!(result, Err("Reverse lookup failed!".to_string()));
}

#[test]
fn unparseable_address_is_rejected_without_a_query() {
    let result = dns_lookup_reverse("not-an-ip".to_string());
    assert_eq!(result, Err("IP address could not be parsed!".to_string()));
}

#[test]
fn empty_address_is_rejected() {
    let result = dns_lookup_reverse(String::new());
    assert_eq!(result, Err("IP address could not be parsed!".to_string()));
}

#[test]
fn out_of_range_octet_is_rejected() {
    let result = dns_lookup_reverse("256.1.1.1".to_string());
    assert_eq!(result, Err("IP address could not be parsed!".to_string()));
}

#[test]
fn rejection_is_repeatable() {
    let first = dns_lookup_reverse("not-an-ip".to_string());
    let second = dns_lookup_reverse("not-an-ip".to_string());
    assert_eq!(first, Err("IP address could not be parsed!".to_string()));
    assert_eq!(first, second);
}

#[test]
fn parseable_address_never_reports_a_parse_error() {
    // Whatever the query's outcome, a well-formed address is past parsing.
    let result = dns_lookup_reverse("203.0.113.9".to_string());
    if let Err(message) = result {
        assert_eq!(message, "Reverse lookup failed!".to_string());
    }
}

#[test]
fn txt_failure_reports_the_fixed_message() {
    // A hostname under the reserved "invalid." zone never has TXT records,
    // so the lookup fails whether or not a nameserver can be reached.
    let result = dns_lookup_txt("name.invalid.".to_string());
    assert_eq!(result, Err("Could not find any TXT records!".to_string()));
}

#[test]
fn repeated_lookups_share_no_state() {
    let first = dns_lookup_txt("name.invalid.".to_string());
    let second = dns_lookup_txt("name.invalid.".to_string());
    assert_eq!(first, second);
}
