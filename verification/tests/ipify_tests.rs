use ducksync::ipify::{interpret_v4_body, interpret_v6_body, ipv4_echo_url, ipv6_echo_url};

#[test]
fn echo_urls_are_pinned() {
    assert_eq!(ipv4_echo_url(), "https://api.ipify.org?format=text");
    assert_eq!(ipv6_echo_url(), "https://api6.ipify.org?format=text");
}

#[test]
fn v4_body_accepted_verbatim() {
    let ip = interpret_v4_body("203.0.113.7".to_string()).expect("valid dotted quad");
    assert!(!ip.is_v6());
    assert_eq!(ip.literal().as_str(), "203.0.113.7");
}

#[test]
fn v4_body_rejected_with_fixed_message() {
    for body in ["", "2001:db8::1", "256.0.0.1", "nonsense", "1.2.3.4\n"] {
        let e = interpret_v4_body(body.to_string()).unwrap_err();
        assert_eq!(e, "response body is not an IPv4 literal");
    }
}

#[test]
fn v6_body_accepted_verbatim() {
    let ip = interpret_v6_body("2001:db8::1".to_string()).expect("valid IPv6 literal");
    assert!(ip.is_v6());
    assert_eq!(ip.literal().as_str(), "2001:db8::1");
}

#[test]
fn v6_body_rejected_with_fixed_message() {
    for body in ["", "1.2.3.4", "::ffff:1.2.3.4", "fe80::1%eth0", "g::1"] {
        let e = interpret_v6_body(body.to_string()).unwrap_err();
        assert_eq!(e, "response body is not an IPv6 literal");
    }
}
