use emailsnap::search::{build_search_query, iso_to_imap_date, search_query};

#[test]
fn valid_rfc3339_becomes_imap_date() {
    assert_eq!(iso_to_imap_date("2024-01-15T00:00:00Z").as_deref(), Some("15-Jan-2024"));
    assert_eq!(iso_to_imap_date("2023-12-31T23:59:59+09:00").as_deref(), Some("31-Dec-2023"));
    assert_eq!(iso_to_imap_date("2020-02-05T10:00:00-05:00").as_deref(), Some("05-Feb-2020"));
}

#[test]
fn invalid_input_gives_no_date() {
    assert_eq!(iso_to_imap_date("not a date"), None);
    assert_eq!(iso_to_imap_date("2024-01-15"), None);
    assert_eq!(iso_to_imap_date(""), None);
}

#[test]
fn since_query_for_valid_timestamp() {
    assert_eq!(search_query(Some("2024-01-15T00:00:00Z")), "SINCE 15-Jan-2024");
}

#[test]
fn all_query_for_invalid_timestamp() {
    assert_eq!(search_query(Some("yesterday-ish")), "ALL");
}

#[test]
fn default_query_is_seven_days_back() {
    let before = chrono::Utc::now() - chrono::Duration::days(7);
    let got = search_query(None);
    let after = chrono::Utc::now() - chrono::Duration::days(7);
    let want_before = format!("SINCE {}", before.format("%d-%b-%Y"));
    let want_after = format!("SINCE {}", after.format("%d-%b-%Y"));
    assert!(got == want_before || got == want_after, "got {got}");
}

#[test]
fn explicit_fallback_date_is_used() {
    assert_eq!(build_search_query(None, 2024, 7, 3), "SINCE 03-Jul-2024");
    assert_eq!(build_search_query(None, 12345, 7, 3), "ALL");
}
