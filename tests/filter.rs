use crashfeishu::codec::parse_token_set;
use crashfeishu::filter::{alert_message, assess_exit, classify, should_monitor, EventError, Verdict};

#[test]
fn test_should_monitor_empty_program() {
    let full_name = "test_name";
    let program: Vec<String> = Vec::new();
    assert!(should_monitor(full_name, &program));
}

#[test]
fn test_should_monitor_with_colon_match() {
    let full_name = "name:value";
    let program = vec!["name:value".to_string(), "other_value".to_string()];
    assert!(should_monitor(full_name, &program));
}

#[test]
fn test_should_monitor_without_colon_match() {
    let full_name = "name:name";
    let program = vec!["name".to_string(), "other_name".to_string()];
    assert!(should_monitor(full_name, &program));
}

#[test]
fn test_should_monitor_no_match() {
    let full_name = "unmatched_name";
    let program = vec!["name:value".to_string(), "other_value".to_string()];
    assert!(!should_monitor(full_name, &program));
}

#[test]
fn qualified_entry_matches_exactly() {
    assert!(should_monitor("g:p", &vec!["g:p".to_string()]));
    assert!(!should_monitor("g:p", &vec!["g:q".to_string()]));
}

#[test]
fn bare_entry_needs_equal_group() {
    assert!(should_monitor("p:p", &vec!["p".to_string()]));
    assert!(!should_monitor("g:p", &vec!["p".to_string()]));
}

#[test]
fn matching_is_case_sensitive() {
    assert!(!should_monitor("G:p", &vec!["g:p".to_string()]));
}

#[test]
fn alert_message_text() {
    assert_eq!(
        alert_message("p", "g", "123", "RUNNING"),
        "Process p in group g exited unexpectedly (pid 123) from state RUNNING"
    );
}

fn exited_headers() -> crashfeishu::codec::TokenSet {
    parse_token_set("ver:3.0 eventname:PROCESS_STATE_EXITED len:0").unwrap()
}

#[test]
fn unexpected_exit_gives_alert() {
    let body = b"expected:0 groupname:g processname:p pid:9 from_state:RUNNING".to_vec();
    let v = classify(&exited_headers(), body, &vec!["g:p".to_string()]).unwrap();
    assert_eq!(
        v,
        Verdict::Alert("Process p in group g exited unexpectedly (pid 9) from state RUNNING".to_string())
    );
}

#[test]
fn expected_exit_is_quiet_for_any_allow_list() {
    let body = "expected:1 groupname:g processname:p pid:9 from_state:RUNNING";
    assert_eq!(assess_exit(body, &vec![]).unwrap(), Verdict::Ignore);
    assert_eq!(assess_exit(body, &vec!["g:p".to_string()]).unwrap(), Verdict::Ignore);
    assert_eq!(assess_exit("expected:+1", &vec![]).unwrap(), Verdict::Ignore);
}

#[test]
fn running_event_is_ignored() {
    let headers = parse_token_set("eventname:PROCESS_STATE_RUNNING len:3").unwrap();
    let v = classify(&headers, b"\xff\xfe!".to_vec(), &vec![]).unwrap();
    assert_eq!(v, Verdict::Ignore);
}

#[test]
fn process_outside_allow_list_is_ignored() {
    let body = b"expected:0 groupname:g processname:p pid:9 from_state:RUNNING".to_vec();
    let v = classify(&exited_headers(), body, &vec!["other".to_string()]).unwrap();
    assert_eq!(v, Verdict::Ignore);
}

#[test]
fn missing_eventname_is_an_error() {
    let headers = parse_token_set("len:0").unwrap();
    assert_eq!(classify(&headers, Vec::new(), &vec![]), Err(EventError::MissingField));
}

#[test]
fn missing_payload_field_is_an_error() {
    assert_eq!(assess_exit("groupname:g", &vec![]), Err(EventError::MissingField));
    assert_eq!(
        assess_exit("expected:0 groupname:g processname:p", &vec![]),
        Err(EventError::MissingField)
    );
}

#[test]
fn invalid_utf8_payload_is_an_error() {
    assert_eq!(
        classify(&exited_headers(), vec![0xff, 0x20], &vec![]),
        Err(EventError::InvalidUtf8)
    );
}

#[test]
fn malformed_payload_is_an_error() {
    assert_eq!(assess_exit("expected:0 junk", &vec![]), Err(EventError::Malformed));
}

#[test]
fn non_numeric_expected_is_an_error() {
    assert_eq!(assess_exit("expected:yes", &vec![]), Err(EventError::BadExpected));
}
