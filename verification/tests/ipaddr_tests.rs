use ducksync::ipaddr::{is_valid_ipv4, is_valid_ipv6, IpAddress};

#[test]
fn ipv4_literals_accepted() {
    for s in ["0.0.0.0", "1.2.3.4", "10.0.0.1", "255.255.255.255", "192.168.0.10"] {
        assert!(is_valid_ipv4(s), "{} must be accepted", s);
    }
}

#[test]
fn ipv4_literals_rejected() {
    for s in [
        "",
        "1.2.3",
        "1.2.3.4.5",
        "256.0.0.1",
        "999.0.0.1",
        "01.2.3.4",
        "1.2.3.04",
        "a.b.c.d",
        "1..2.3",
        "1.2.3.4 ",
        "2001:db8::1",
    ] {
        assert!(!is_valid_ipv4(s), "{} must be rejected", s);
    }
}

#[test]
fn ipv6_literals_accepted() {
    for s in [
        "2001:db8:0:0:0:0:0:1",
        "2001:db8::1",
        "::1",
        "::",
        "fe80::",
        "1:2:3:4:5:6:7:8",
        "2001:0db8:85a3:0000:0000:8a2e:0370:7334",
        "abcd:ef01:2345:6789:ABCD:EF01:2345:6789",
    ] {
        assert!(is_valid_ipv6(s), "{} must be accepted", s);
    }
}

#[test]
fn ipv6_literals_rejected() {
    for s in [
        "",
        ":",
        ":::",
        "1.2.3.4",
        "1:2:3:4:5:6:7",
        "1:2:3:4:5:6:7:8:9",
        "1:2:3:4:5:6:7::8",
        "12345::",
        "g::1",
        ":1:2:3:4:5:6:7",
        "1:2:3:4:5:6:7:",
        "2001:db8::1 ",
    ] {
        assert!(!is_valid_ipv6(s), "{} must be rejected", s);
    }
}

#[test]
fn literal_and_family_accessors() {
    let v4 = IpAddress::V4("1.2.3.4".to_string());
    assert_eq!(v4.literal().as_str(), "1.2.3.4");
    assert!(!v4.is_v6());

    let v6 = IpAddress::V6("2001:db8::1".to_string());
    assert_eq!(v6.literal().as_str(), "2001:db8::1");
    assert!(v6.is_v6());
}
