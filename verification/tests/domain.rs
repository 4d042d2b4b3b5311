use github_hosts::domain::{domains_in_text, is_valid_domain};

#[test]
fn valid_domain() {
    let domains = [
        "vv.cv",
        "dddddddddddd.dddddddd.d.d.d.d.d.d",
        "4.cbn",
        "c-56.10321.com",
        "u8am-9d5.l-----asd.3vv",
    ];

    for d in domains {
        assert!(is_valid_domain(&d), "{}", d);
    }
}

#[test]
fn invalid_domains() {
    let domains = [
        "",
        "github",
        ".github.com",
        "github.com.",
        "github..com",
        "-a.com",
        "a.-com",
        "a_b.com",
        "a b.com",
        " github.com",
        "github.com\n",
        "gíthub.com",
    ];
    for d in domains {
        assert!(!is_valid_domain(d), "{:?}", d);
    }
}

#[test]
fn label_length_limit() {
    let ok = format!("{}.com", "a".repeat(63));
    let too_long = format!("{}.com", "a".repeat(64));
    assert!(is_valid_domain(&ok));
    assert!(!is_valid_domain(&too_long));
    let last_ok = format!("com.{}", "b".repeat(63));
    let last_long = format!("com.{}", "b".repeat(64));
    assert!(is_valid_domain(&last_ok));
    assert!(!is_valid_domain(&last_long));
}

#[test]
fn domains_from_file_text() {
    let txt = "github.com\r\n  api.github.com\t\n\nnot a domain\rraw.githubusercontent.com\u{3000}\nlocalhost\n-x.com";
    let got = domains_in_text(txt);
    assert_eq!(
        got,
        vec![
            "github.com".to_string(),
            "api.github.com".to_string(),
            "raw.githubusercontent.com".to_string(),
        ]
    );
}

#[test]
fn domains_from_empty_text() {
    assert!(domains_in_text("").is_empty());
    assert_eq!(domains_in_text("a.b"), vec!["a.b".to_string()]);
}
