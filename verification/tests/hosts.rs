use github_hosts::hosts::{host_entries, render_hosts, replace_all, update_time, HOSTS_TEMPLATE};

#[test]
fn replace_all_like_str_replace() {
    let cases = [
        ("aaa", "aa", "b"),
        ("{}{}x{}", "{}", "-"),
        ("none here", "{}", "x"),
        ("", "x", "y"),
        ("abcabc", "abc", ""),
        ("héllo {time}", "{time}", "12:00"),
        ("abc", "", "-"),
        ("", "", "-"),
        ("xé", "", ""),
    ];
    for (s, p, w) in cases {
        assert_eq!(replace_all(s, p, w), s.replace(p, w), "{:?}", (s, p, w));
    }
}

#[test]
fn entries_are_address_tabs_domain() {
    let answers = vec![
        ("a.com".to_string(), ("1.1.1.1".to_string(), 3)),
        ("b.com".to_string(), ("2.2.2.2".to_string(), 4)),
    ];
    assert_eq!(host_entries(&answers), "1.1.1.1\t\ta.com\n2.2.2.2\t\tb.com\n");
    assert_eq!(host_entries(&vec![]), "");
}

#[test]
fn rendered_hosts_file() {
    let got = render_hosts("1.1.1.1\t\ta.com\n", "2024-01-02 03:04:05");
    let want = HOSTS_TEMPLATE
        .replace("{}", "1.1.1.1\t\ta.com\n")
        .replace("{time}", "2024-01-02 03:04:05");
    assert_eq!(got, want);
    assert!(got.starts_with("\n# start\n\n1.1.1.1\t\ta.com\n\n"));
    assert!(got.contains("# update at 2024-01-02 03:04:05\n"));
    assert!(got.ends_with("# end \n"));
}

#[test]
fn update_time_is_eight_hours_ahead() {
    assert_eq!(update_time(0), Some("1970-01-01 08:00:00".to_string()));
    assert_eq!(update_time(1431648000), Some("2015-05-15 08:00:00".to_string()));
    assert_eq!(update_time(i64::MAX), None);
}
