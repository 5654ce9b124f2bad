use ducksync::duckdns::{interpret_update_response, DuckDns, DuckDnsClient};

struct MockDuckClient;

impl DuckDnsClient for MockDuckClient {
    fn send_request(&self, params: &Vec<(String, String)>) -> Result<String, String> {
        let token = params
            .iter()
            .find(|p| p.0 == "token")
            .map(|p| p.1.clone());
        if token == Some("bad-token".to_string()) {
            Ok("KO".to_string())
        } else {
            Ok("OK".to_string())
        }
    }
}

#[test]
fn test_update_success() {
    let client = MockDuckClient;
    let duck = DuckDns::new(client);
    let result = duck.update(
        &vec!["example".to_string()],
        "test-token".to_string(),
        Some("1.2.3.4".to_string()),
        None,
        Some(true),
        None,
    );

    assert!(result.is_ok());
}

#[test]
fn test_update_failure() {
    let client = MockDuckClient;
    let duck = DuckDns::new(client);
    let result = duck.update(
        &vec!["example".to_string()],
        "bad-token".to_string(),
        None,
        None,
        None,
        None,
    );

    assert!(result.is_err());
}

#[test]
fn update_txt_success_and_failure() {
    let duck = DuckDns::new(MockDuckClient);
    let ok = duck.update_txt(
        &vec!["example".to_string()],
        "test-token".to_string(),
        "some-value".to_string(),
        None,
        None,
    );
    assert!(ok.is_ok());

    let ko = duck.update_txt(
        &vec!["example".to_string()],
        "bad-token".to_string(),
        "some-value".to_string(),
        None,
        None,
    );
    assert!(ko.is_err());
}

#[test]
fn response_ok_is_success() {
    assert!(interpret_update_response("OK").is_ok());
}

#[test]
fn response_ok_with_trailing_text_is_success() {
    assert!(interpret_update_response("OK\nupdated").is_ok());
}

#[test]
fn response_ko_is_failure() {
    let r = interpret_update_response("KO");
    assert!(r.is_err());
    assert_eq!(r.unwrap_err(), "Update failed: KO");
}

#[test]
fn response_empty_is_failure() {
    assert!(interpret_update_response("").is_err());
}

struct RecordingClient {
    params_seen: std::cell::RefCell<Vec<Vec<(String, String)>>>,
}

impl DuckDnsClient for RecordingClient {
    fn send_request(&self, params: &Vec<(String, String)>) -> Result<String, String> {
        self.params_seen.borrow_mut().push(params.clone());
        Ok("OK".to_string())
    }
}

#[test]
fn build_params_exact_contents() {
    let duck = DuckDns::new(MockDuckClient);
    let params = duck.build_params(
        &vec!["a".to_string(), "b".to_string()],
        "tok".to_string(),
        Some("1.2.3.4".to_string()),
        Some("::1".to_string()),
        Some(true),
        Some(false),
    );
    assert_eq!(
        params,
        vec![
            ("domains".to_string(), "a,b".to_string()),
            ("token".to_string(), "tok".to_string()),
            ("ip".to_string(), "1.2.3.4".to_string()),
            ("ipv6".to_string(), "::1".to_string()),
            ("verbose".to_string(), "true".to_string()),
            ("clear".to_string(), "false".to_string()),
        ]
    );
}

#[test]
fn build_params_omits_absent_options() {
    let duck = DuckDns::new(MockDuckClient);
    let params = duck.build_params(
        &vec!["solo".to_string()],
        "tok".to_string(),
        None,
        None,
        None,
        None,
    );
    assert_eq!(
        params,
        vec![
            ("domains".to_string(), "solo".to_string()),
            ("token".to_string(), "tok".to_string()),
        ]
    );
}

#[test]
fn build_txt_params_exact_contents() {
    let duck = DuckDns::new(MockDuckClient);
    let params = duck.build_txt_params(
        &vec!["a".to_string()],
        "tok".to_string(),
        "hello".to_string(),
        None,
        Some(true),
    );
    assert_eq!(
        params,
        vec![
            ("domains".to_string(), "a".to_string()),
            ("token".to_string(), "tok".to_string()),
            ("txt".to_string(), "hello".to_string()),
            ("clear".to_string(), "true".to_string()),
        ]
    );
}

#[test]
fn update_sends_one_request_with_joined_domains() {
    let client = RecordingClient { params_seen: std::cell::RefCell::new(Vec::new()) };
    let duck = DuckDns::new(client);
    // One call updates several domains sharing a token.
    let domains = vec!["a".to_string(), "b".to_string(), "c".to_string()];
    let r = duck.update(&domains, "tok".to_string(), Some("1.2.3.4".to_string()), None, None, None);
    assert!(r.is_ok());
}
