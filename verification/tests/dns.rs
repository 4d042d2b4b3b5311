use github_hosts::dns::{
    a_addresses, build_query, read_query, read_reply, DnsAnswer, DnsError, DnsQuestion, NO_ERROR,
    RECORD_TYPE_A,
};

#[test]
fn query_wire_format() {
    let q = build_query("github.com.", RECORD_TYPE_A).unwrap();
    let mut want = vec![0u8, 0, 0, 0, 0, 1, 0, 0, 0, 0, 0, 0];
    want.push(6);
    want.extend_from_slice(b"github");
    want.push(3);
    want.extend_from_slice(b"com");
    want.push(0);
    want.extend_from_slice(&[0, 1, 0, 1]);
    assert_eq!(q, want);
}

#[test]
fn query_for_bad_name() {
    let long = format!("{}.com", "a".repeat(64));
    assert_eq!(build_query(&long, RECORD_TYPE_A), Err(DnsError::Encode));
}

fn reply_bytes() -> Vec<u8> {
    let mut b = vec![0x12u8, 0x34, 0x81, 0x80, 0, 1, 0, 2, 0, 0, 0, 0];
    b.push(6);
    b.extend_from_slice(b"github");
    b.push(3);
    b.extend_from_slice(b"com");
    b.push(0);
    b.extend_from_slice(&[0, 1, 0, 1]);
    // answer: github.com A 140.82.112.3
    b.extend_from_slice(&[0xc0, 0x0c, 0, 1, 0, 1, 0, 0, 0, 60, 0, 4, 140, 82, 112, 3]);
    // answer: github.com CNAME github.com
    b.extend_from_slice(&[0xc0, 0x0c, 0, 5, 0, 1, 0, 0, 0, 60, 0, 2, 0xc0, 0x0c]);
    b
}

#[test]
fn reply_is_read() {
    let mut buf = reply_bytes();
    buf.resize(1024, 0);
    let r = read_reply(&buf).unwrap();
    assert_eq!(r.response_code, NO_ERROR);
    assert_eq!(
        r.answers,
        vec![
            DnsAnswer { record_type: 1, ipv4: Some([140, 82, 112, 3]) },
            DnsAnswer { record_type: 5, ipv4: None },
        ]
    );
    assert_eq!(a_addresses(&r), vec![[140, 82, 112, 3]]);
}

#[test]
fn broken_reply() {
    assert_eq!(read_reply(&[1, 2, 3]).unwrap_err(), DnsError::Decode);
}

#[test]
fn query_is_read() {
    let q = build_query("github.com.", RECORD_TYPE_A).unwrap();
    let got = read_query(&q).unwrap();
    assert_eq!(
        got,
        vec![DnsQuestion { name: "github.com.".to_string(), record_type: 1, class: 1 }]
    );
}

#[test]
fn broken_query() {
    assert_eq!(read_query(&[0, 1]).unwrap_err(), DnsError::Decode);
}
