use ducksync::config::{encode_config, parse_config, Config, ConfigError, Domain, Ip};

fn sample_config() -> Config {
    Config {
        domains: vec![
            Domain {
                name: "myhome".to_string(),
                token: "tok-1".to_string(),
                ip: Some(Ip::Public),
            },
            Domain {
                name: "nas".to_string(),
                token: "tok-2".to_string(),
                ip: Some(Ip::IPv4("10.0.0.1".to_string())),
            },
            Domain {
                name: "printer".to_string(),
                token: "tok-3".to_string(),
                ip: None,
            },
            Domain {
                name: "lab".to_string(),
                token: "tok-4".to_string(),
                ip: Some(Ip::IPv6("2001:db8::1".to_string())),
            },
        ],
    }
}

fn assert_same_domains(a: &Config, b: &Config) {
    assert_eq!(a.domains.len(), b.domains.len());
    for (da, db) in a.domains.iter().zip(b.domains.iter()) {
        assert_eq!(da.name, db.name);
        assert_eq!(da.token, db.token);
        match (&da.ip, &db.ip) {
            (None, None) => {}
            (Some(Ip::Public), Some(Ip::Public)) => {}
            (Some(Ip::IPv4(x)), Some(Ip::IPv4(y))) => assert_eq!(x, y),
            (Some(Ip::IPv6(x)), Some(Ip::IPv6(y))) => assert_eq!(x, y),
            other => panic!("ip selections differ: {:?}", other),
        }
    }
}

#[test]
fn encode_produces_expected_document() {
    let cfg = sample_config();
    let text = encode_config(&cfg);
    let expected = "domains:\n\
                    - name: myhome\n  token: tok-1\n  ip: public\n\
                    - name: nas\n  token: tok-2\n  ip: {v4: 10.0.0.1}\n\
                    - name: printer\n  token: tok-3\n\
                    - name: lab\n  token: tok-4\n  ip: {v6: 2001:db8::1}\n";
    assert_eq!(text, expected);
}

#[test]
fn round_trip_preserves_everything() {
    let cfg = sample_config();
    let text = encode_config(&cfg);
    let back = parse_config(&text).expect("re-parse should succeed");
    assert_same_domains(&cfg, &back);
}

#[test]
fn parse_accepts_reordered_keys() {
    // Same entries, keys permuted within each entry.
    let text = "domains:\n\
                - token: tok-1\n  name: myhome\n  ip: public\n\
                - ip: {v4: 10.0.0.1}\n  token: tok-2\n  name: nas\n";
    let cfg = parse_config(text).expect("reordered keys parse");
    assert_eq!(cfg.domains.len(), 2);
    assert_eq!(cfg.domains[0].name, "myhome");
    assert_eq!(cfg.domains[0].token, "tok-1");
    assert!(matches!(cfg.domains[0].ip, Some(Ip::Public)));
    assert_eq!(cfg.domains[1].name, "nas");
    assert!(matches!(&cfg.domains[1].ip, Some(Ip::IPv4(l)) if l == "10.0.0.1"));
}

#[test]
fn reordered_source_reencodes_to_same_config() {
    let text = "domains:\n\
                - token: tok-1\n  name: myhome\n  ip: public\n";
    let decoded = parse_config(text).expect("parse");
    let reencoded = encode_config(&decoded);
    let decoded_again = parse_config(&reencoded).expect("parse re-encoded");
    assert_same_domains(&decoded, &decoded_again);
}

#[test]
fn parse_empty_domain_list() {
    let cfg = parse_config("domains:\n").expect("empty list");
    assert_eq!(cfg.domains.len(), 0);
}

#[test]
fn parse_without_trailing_newline() {
    let cfg = parse_config("domains:\n- name: a\n  token: t").expect("no trailing newline");
    assert_eq!(cfg.domains.len(), 1);
    assert_eq!(cfg.domains[0].name, "a");
}

#[test]
fn parse_rejects_missing_header() {
    assert!(matches!(
        parse_config("- name: a\n  token: t\n"),
        Err(ConfigError::ConfigParseError(_))
    ));
}

#[test]
fn parse_rejects_empty_document() {
    assert!(matches!(parse_config(""), Err(ConfigError::ConfigParseError(_))));
}

#[test]
fn parse_rejects_unknown_key() {
    let text = "domains:\n- name: a\n  token: t\n  colour: blue\n";
    assert!(matches!(parse_config(text), Err(ConfigError::ConfigParseError(_))));
}

#[test]
fn parse_rejects_repeated_key() {
    let text = "domains:\n- name: a\n  name: b\n  token: t\n";
    assert!(matches!(parse_config(text), Err(ConfigError::ConfigParseError(_))));
}

#[test]
fn parse_rejects_missing_token() {
    let text = "domains:\n- name: a\n";
    assert!(matches!(parse_config(text), Err(ConfigError::ConfigParseError(_))));
}

#[test]
fn parse_rejects_bad_fixed_literal() {
    let text = "domains:\n- name: a\n  token: t\n  ip: {v4: 999.0.0.1}\n";
    assert!(matches!(parse_config(text), Err(ConfigError::ConfigParseError(_))));
    let text6 = "domains:\n- name: a\n  token: t\n  ip: {v6: not-hex}\n";
    assert!(matches!(parse_config(text6), Err(ConfigError::ConfigParseError(_))));
}

#[test]
fn parse_rejects_malformed_ip_value() {
    let text = "domains:\n- name: a\n  token: t\n  ip: sometimes\n";
    assert!(matches!(parse_config(text), Err(ConfigError::ConfigParseError(_))));
}

#[test]
fn parse_errors_never_quote_the_document() {
    // Broken documents carrying a secret-looking token: the error
    // detail is a fixed phrase and never quotes file text.
    let docs = [
        "domains:\n- name: a\n  token: t0p-secret\n  colour: blue\n",
        "domains:\n- name: a\n  name: t0p-secret\n  token: t\n",
        "domains:\n- token: t0p-secret\n",
        "t0p-secret\n",
    ];
    for d in docs {
        match parse_config(d) {
            Err(ConfigError::ConfigParseError(m)) => {
                assert!(!m.contains("t0p-secret"), "message quotes input: {}", m);
            }
            other => panic!("expected a parse error, got {:?}", other),
        }
    }
}

#[test]
fn secure_mode_gate_accepts_only_0600() {
    assert!(Config::check_secure_file_mode(0o600).is_ok());
    // Bits above the low nine (the format bits) are ignored.
    assert!(Config::check_secure_file_mode(0o100600).is_ok());

    for bad in [0o644u32, 0o400, 0o640, 0o700, 0o666, 0o000, 0o604] {
        match Config::check_secure_file_mode(bad) {
            Err(ConfigError::InsecurePermissions(m)) => assert_eq!(m, bad & 0o777),
            other => panic!("mode {:o} must be rejected, got {:?}", bad, other),
        }
    }
}

#[test]
fn config_path_priority() {
    // Explicit path always wins.
    let r = Config::get_config_path(Some("/tmp/custom.yaml".to_string()), Some("/home/u".to_string()), true, true);
    assert_eq!(r.unwrap(), "/tmp/custom.yaml");

    // Then the user path, when it exists.
    let r = Config::get_config_path(None, Some("/home/u".to_string()), true, true);
    assert_eq!(r.unwrap(), "/home/u/.config/ducksync/config.yaml");

    // Then the system path, when it exists.
    let r = Config::get_config_path(None, Some("/home/u".to_string()), false, true);
    assert_eq!(r.unwrap(), "/etc/ducksync/config.yaml");

    // Otherwise the configuration is missing.
    assert!(matches!(
        Config::get_config_path(None, Some("/home/u".to_string()), false, false),
        Err(ConfigError::ConfigNotFound)
    ));

    // No home directory: only an explicit path could have helped.
    assert!(matches!(
        Config::get_config_path(None, None, true, true),
        Err(ConfigError::ConfigNotFound)
    ));
}
