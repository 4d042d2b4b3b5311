use github_hosts::page::{records_from_page, PageError, ANSWER_MARKER};

#[test]
fn addresses_after_marker() {
    let body = format!(
        "<em>9.9.9.9</em> header {} <em>140.82.112.3</em>, <em>140.82.112.4</em> and again <em>140.82.112.3</em> <em>300.1.1.1</em> <em>1.2.3</em> <em>2001:db8::1</em> <em>001.02.3.255</em>",
        ANSWER_MARKER
    );
    let got = records_from_page(&body).unwrap();
    assert_eq!(
        got,
        vec![
            "140.82.112.3".to_string(),
            "140.82.112.4".to_string(),
            "001.02.3.255".to_string(),
        ]
    );
}

#[test]
fn missing_marker() {
    assert_eq!(records_from_page("<em>1.1.1.1</em>"), Err(PageError::MarkerMissing));
    assert_eq!(records_from_page(""), Err(PageError::MarkerMissing));
}

#[test]
fn marker_without_addresses() {
    assert_eq!(records_from_page(ANSWER_MARKER), Ok(vec![]));
}
