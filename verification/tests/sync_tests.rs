use std::cell::RefCell;
use std::rc::Rc;

use ducksync::config::{Config, Domain, Ip};
use ducksync::duckdns::{DuckDns, DuckDnsClient};
use ducksync::ipify::{IpFetcher, Ipify};
use ducksync::sync::{
    all_succeeded, print_res, run_config_sync, successes, update_dns_batch, DomainOutcome,
    UpdateOutcome,
};

/// Test double for the IP-echo transport: scripted per-family
/// answers, every fetched URL recorded.
struct ScriptedFetcher {
    v6: Result<String, String>,
    v4: Result<String, String>,
    calls: Rc<RefCell<Vec<String>>>,
}

impl IpFetcher for ScriptedFetcher {
    fn fetch_ip(&self, url: &str) -> Result<String, String> {
        self.calls.borrow_mut().push(url.to_string());
        if url.contains("api6") {
            self.v6.clone()
        } else {
            self.v4.clone()
        }
    }
}

/// Test double for the update transport: response chosen by token,
/// every parameter list recorded.
struct ScriptedDuckClient {
    reject_token: Option<String>,
    requests: Rc<RefCell<Vec<Vec<(String, String)>>>>,
}

impl DuckDnsClient for ScriptedDuckClient {
    fn send_request(&self, params: &Vec<(String, String)>) -> Result<String, String> {
        self.requests.borrow_mut().push(params.clone());
        let token = params.iter().find(|p| p.0 == "token").map(|p| p.1.clone());
        if token.is_some() && token == self.reject_token {
            Ok("KO".to_string())
        } else {
            Ok("OK".to_string())
        }
    }
}

fn param<'a>(params: &'a [(String, String)], key: &str) -> Option<&'a str> {
    params.iter().find(|p| p.0 == key).map(|p| p.1.as_str())
}

#[test]
fn resolve_preferred_returns_v6_when_v6_succeeds() {
    let calls = Rc::new(RefCell::new(Vec::new()));
    let ipify = Ipify::new(ScriptedFetcher {
        v6: Ok("2001:db8::1".to_string()),
        v4: Ok("1.2.3.4".to_string()),
        calls: calls.clone(),
    });
    let ip = ipify.resolve_preferred().expect("v6 succeeds");
    assert!(ip.is_v6());
    assert_eq!(ip.literal().as_str(), "2001:db8::1");
    // The IPv4 probe never ran.
    assert_eq!(calls.borrow().len(), 1);
    assert_eq!(calls.borrow()[0], "https://api6.ipify.org?format=text");
}

#[test]
fn resolve_preferred_falls_back_to_v4_on_v6_failure() {
    let calls = Rc::new(RefCell::new(Vec::new()));
    let ipify = Ipify::new(ScriptedFetcher {
        v6: Err("no route".to_string()),
        v4: Ok("1.2.3.4".to_string()),
        calls: calls.clone(),
    });
    let ip = ipify.resolve_preferred().expect("v4 fallback succeeds");
    assert!(!ip.is_v6());
    assert_eq!(ip.literal().as_str(), "1.2.3.4");
    assert_eq!(calls.borrow().len(), 2);
    assert_eq!(calls.borrow()[0], "https://api6.ipify.org?format=text");
    assert_eq!(calls.borrow()[1], "https://api.ipify.org?format=text");
}

#[test]
fn resolve_preferred_fails_only_when_both_fail() {
    let calls = Rc::new(RefCell::new(Vec::new()));
    let ipify = Ipify::new(ScriptedFetcher {
        v6: Err("no route".to_string()),
        v4: Err("no route either".to_string()),
        calls: calls.clone(),
    });
    assert!(ipify.resolve_preferred().is_err());
    assert_eq!(calls.borrow().len(), 2);
}

#[test]
fn resolver_rejects_wrong_family_body() {
    // The v6 endpoint answering an IPv4 literal is a failure of the
    // IPv6 probe, so the batch falls back to IPv4.
    let calls = Rc::new(RefCell::new(Vec::new()));
    let ipify = Ipify::new(ScriptedFetcher {
        v6: Ok("1.2.3.4".to_string()),
        v4: Ok("1.2.3.4".to_string()),
        calls: calls.clone(),
    });
    let ip = ipify.resolve_preferred().expect("falls back");
    assert!(!ip.is_v6());
}

#[test]
fn batch_fixed_entry_skips_discovery_public_entry_probes() {
    let calls = Rc::new(RefCell::new(Vec::new()));
    let requests = Rc::new(RefCell::new(Vec::new()));
    let ipify = Ipify::new(ScriptedFetcher {
        v6: Err("no ipv6".to_string()),
        v4: Ok("203.0.113.7".to_string()),
        calls: calls.clone(),
    });
    let duck = DuckDns::new(ScriptedDuckClient { reject_token: None, requests: requests.clone() });
    let config = Config {
        domains: vec![
            Domain {
                name: "a".to_string(),
                token: "tok-a".to_string(),
                ip: Some(Ip::Public),
            },
            Domain {
                name: "b".to_string(),
                token: "tok-b".to_string(),
                ip: Some(Ip::IPv4("10.0.0.1".to_string())),
            },
        ],
    };

    let outcomes = run_config_sync(&config, &ipify, &duck);

    // Domain a triggered the v6-then-v4 discovery sequence; b none.
    assert_eq!(calls.borrow().len(), 2);
    assert!(calls.borrow()[0].contains("api6"));
    assert!(!calls.borrow()[1].contains("api6"));

    assert_eq!(outcomes.len(), 2);
    assert_eq!(outcomes[0].name, "a");
    assert!(matches!(&outcomes[0].outcome, UpdateOutcome::Updated(ip) if ip.literal().as_str() == "203.0.113.7"));
    assert_eq!(outcomes[1].name, "b");
    assert!(matches!(&outcomes[1].outcome, UpdateOutcome::Updated(ip) if ip.literal().as_str() == "10.0.0.1"));

    // Two update calls, one per domain, each carrying its address.
    let reqs = requests.borrow();
    assert_eq!(reqs.len(), 2);
    assert_eq!(param(&reqs[0], "domains"), Some("a"));
    assert_eq!(param(&reqs[0], "ip"), Some("203.0.113.7"));
    assert_eq!(param(&reqs[1], "domains"), Some("b"));
    assert_eq!(param(&reqs[1], "ip"), Some("10.0.0.1"));
    assert_eq!(param(&reqs[1], "ipv6"), None);
}

#[test]
fn batch_isolates_per_domain_failure() {
    let requests = Rc::new(RefCell::new(Vec::new()));
    let ipify = Ipify::new(ScriptedFetcher {
        v6: Err("unused".to_string()),
        v4: Err("unused".to_string()),
        calls: Rc::new(RefCell::new(Vec::new())),
    });
    let duck = DuckDns::new(ScriptedDuckClient {
        reject_token: Some("tok-a".to_string()),
        requests: requests.clone(),
    });
    let config = Config {
        domains: vec![
            Domain {
                name: "a".to_string(),
                token: "tok-a".to_string(),
                ip: Some(Ip::IPv4("10.0.0.1".to_string())),
            },
            Domain {
                name: "b".to_string(),
                token: "tok-b".to_string(),
                ip: Some(Ip::IPv4("10.0.0.2".to_string())),
            },
        ],
    };

    let outcomes = run_config_sync(&config, &ipify, &duck);

    // a failed, b still went through: failures never touch siblings.
    assert!(matches!(&outcomes[0].outcome, UpdateOutcome::UpdateFailed(e) if e.contains("KO")));
    assert!(matches!(&outcomes[1].outcome, UpdateOutcome::Updated(ip) if ip.literal().as_str() == "10.0.0.2"));

    // The run reports b as the one success and the whole run as failed,
    // so the process exit status is non-zero.
    let succ = successes(&outcomes);
    assert_eq!(succ.len(), 1);
    assert_eq!(succ[0].0, vec!["b".to_string()]);
    assert_eq!(succ[0].1, "10.0.0.2");
    assert!(!all_succeeded(&outcomes));
}

#[test]
fn batch_skips_unselected_entries_silently() {
    let calls = Rc::new(RefCell::new(Vec::new()));
    let requests = Rc::new(RefCell::new(Vec::new()));
    let ipify = Ipify::new(ScriptedFetcher {
        v6: Err("unused".to_string()),
        v4: Err("unused".to_string()),
        calls: calls.clone(),
    });
    let duck = DuckDns::new(ScriptedDuckClient { reject_token: None, requests: requests.clone() });
    let config = Config {
        domains: vec![Domain { name: "quiet".to_string(), token: "tok".to_string(), ip: None }],
    };

    let outcomes = run_config_sync(&config, &ipify, &duck);
    assert!(matches!(outcomes[0].outcome, UpdateOutcome::NotSelected));
    assert_eq!(calls.borrow().len(), 0);
    assert_eq!(requests.borrow().len(), 0);
    // Nothing was requested, so nothing failed.
    assert!(all_succeeded(&outcomes));
    assert!(successes(&outcomes).is_empty());
}

#[test]
fn batch_records_resolution_failure_and_continues() {
    let requests = Rc::new(RefCell::new(Vec::new()));
    let ipify = Ipify::new(ScriptedFetcher {
        v6: Err("no v6".to_string()),
        v4: Err("no v4".to_string()),
        calls: Rc::new(RefCell::new(Vec::new())),
    });
    let duck = DuckDns::new(ScriptedDuckClient { reject_token: None, requests: requests.clone() });
    let config = Config {
        domains: vec![
            Domain { name: "a".to_string(), token: "tok-a".to_string(), ip: Some(Ip::Public) },
            Domain {
                name: "b".to_string(),
                token: "tok-b".to_string(),
                ip: Some(Ip::IPv6("2001:db8::2".to_string())),
            },
        ],
    };

    let outcomes = run_config_sync(&config, &ipify, &duck);
    assert!(matches!(outcomes[0].outcome, UpdateOutcome::ResolveFailed(_)));
    assert!(matches!(&outcomes[1].outcome, UpdateOutcome::Updated(ip) if ip.is_v6()));
    // Only the fixed-v6 domain reached the provider, with the ipv6
    // parameter.
    let reqs = requests.borrow();
    assert_eq!(reqs.len(), 1);
    assert_eq!(param(&reqs[0], "domains"), Some("b"));
    assert_eq!(param(&reqs[0], "ipv6"), Some("2001:db8::2"));
    assert_eq!(param(&reqs[0], "ip"), None);
    assert!(!all_succeeded(&outcomes));
}

#[test]
fn adhoc_batch_updates_all_domains_in_one_call() {
    let requests = Rc::new(RefCell::new(Vec::new()));
    let ipify = Ipify::new(ScriptedFetcher {
        v6: Ok("2001:db8::9".to_string()),
        v4: Ok("1.2.3.4".to_string()),
        calls: Rc::new(RefCell::new(Vec::new())),
    });
    let duck = DuckDns::new(ScriptedDuckClient { reject_token: None, requests: requests.clone() });

    let r = update_dns_batch(
        vec!["a".to_string(), "b".to_string()],
        "tok".to_string(),
        &ipify,
        &duck,
    );
    let map = r.expect("combined update succeeds");
    assert_eq!(map.len(), 1);
    assert_eq!(map[0].0, vec!["a".to_string(), "b".to_string()]);
    assert_eq!(map[0].1, "2001:db8::9");

    let reqs = requests.borrow();
    assert_eq!(reqs.len(), 1);
    assert_eq!(param(&reqs[0], "domains"), Some("a,b"));
    assert_eq!(param(&reqs[0], "ipv6"), Some("2001:db8::9"));
}

#[test]
fn adhoc_batch_fails_when_resolution_fails() {
    let requests = Rc::new(RefCell::new(Vec::new()));
    let ipify = Ipify::new(ScriptedFetcher {
        v6: Err("down".to_string()),
        v4: Err("down".to_string()),
        calls: Rc::new(RefCell::new(Vec::new())),
    });
    let duck = DuckDns::new(ScriptedDuckClient { reject_token: None, requests: requests.clone() });

    let r = update_dns_batch(vec!["a".to_string()], "tok".to_string(), &ipify, &duck);
    assert_eq!(r.unwrap_err(), "Failed to get public ip");
    assert_eq!(requests.borrow().len(), 0);
}

#[test]
fn print_res_reflects_overall_result() {
    let ok: Result<Vec<(Vec<String>, String)>, String> =
        Ok(vec![(vec!["a".to_string()], "1.2.3.4".to_string())]);
    let err: Result<Vec<(Vec<String>, String)>, String> = Err("boom".to_string());
    assert!(print_res(&ok));
    assert!(!print_res(&err));
}

#[test]
fn outcome_debug_never_prints_tokens() {
    // Outcomes carry names, addresses and provider messages; the
    // secret tokens exist nowhere in what a run reports.
    let outcome = DomainOutcome {
        name: "a".to_string(),
        outcome: UpdateOutcome::Updated(ducksync::ipaddr::IpAddress::V4("1.2.3.4".to_string())),
    };
    let shown = format!("{:?}", outcome);
    assert!(shown.contains("a"));
    assert!(shown.contains("1.2.3.4"));
}
