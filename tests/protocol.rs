use crashfeishu::codec::TokenSet;
use crashfeishu::filter::{classify, Verdict};
use crashfeishu::number::{parse_usize, push_decimal};
use crashfeishu::protocol::{parse_header, EventListenerProtocol, InputBuffer, ProtocolError};
use crashfeishu::{get_webhook_url, webhook_body};
use std::collections::HashMap;

fn as_map(t: TokenSet) -> HashMap<String, String> {
    t.into_pairs().into_iter().collect()
}

#[test]
fn test_event_listener_ready() {
    let protocol = EventListenerProtocol {};
    let mut output = Vec::new();

    protocol.ready(&mut output).unwrap();

    assert_eq!(String::from_utf8(output).unwrap(), "READY\n");
}

#[test]
fn test_event_listener_ok() {
    let protocol = EventListenerProtocol {};
    let mut output = Vec::new();

    protocol.ok(&mut output).unwrap();

    assert_eq!(String::from_utf8(output).unwrap(), "RESULT 2\nOK");
}

#[test]
fn test_event_listener_fail() {
    let protocol = EventListenerProtocol {};
    let mut output = Vec::new();

    protocol.fail(&mut output).unwrap();

    assert_eq!(String::from_utf8(output).unwrap(), "RESULT 4\nFAIL");
}

#[test]
fn test_event_listener_wait() {
    let protocol = EventListenerProtocol {};
    let input_data = b"len:5 event:PROCESS_STATE_EXITED\nHello";
    let mut input = InputBuffer::new(input_data.to_vec());
    let mut output = Vec::new();

    let (headers, payload) = protocol.wait(&mut input, &mut output).unwrap();

    assert_eq!(String::from_utf8(output).unwrap(), "READY\n");

    let mut expected_headers = HashMap::new();
    expected_headers.insert("len".to_string(), "5".to_string());
    expected_headers.insert("event".to_string(), "PROCESS_STATE_EXITED".to_string());
    assert_eq!(as_map(headers), expected_headers);

    assert_eq!(payload, b"Hello");
}

#[test]
fn wait_reads_consecutive_frames() {
    let protocol = EventListenerProtocol {};
    let mut input = InputBuffer::new(b"len:2\nablen:1\n".to_vec());
    let mut output = Vec::new();
    let (_, first) = protocol.wait(&mut input, &mut output).unwrap();
    assert_eq!(first, b"ab");
    assert_eq!(
        protocol.wait(&mut input, &mut output).err(),
        Some(ProtocolError::ShortRead)
    );
}

#[test]
fn wait_payload_may_hold_newlines() {
    let protocol = EventListenerProtocol {};
    let mut input = InputBuffer::new(b"len:3\na\nb".to_vec());
    let mut output = Vec::new();
    let (_, p) = protocol.wait(&mut input, &mut output).unwrap();
    assert_eq!(p, b"a\nb");
}

#[test]
fn wait_errors() {
    let protocol = EventListenerProtocol {};
    let mut output = Vec::new();
    let cases: Vec<(&[u8], ProtocolError)> = vec![
        (b"len:9\nabc", ProtocolError::ShortRead),
        (b"x:1\n", ProtocolError::MissingLength),
        (b"", ProtocolError::MissingLength),
        (b"len:abc\n", ProtocolError::BadLength),
        (b"len:-1\n", ProtocolError::BadLength),
        (b"len:1 junk\nx", ProtocolError::Malformed),
        (b"len:1 \xff:1\nx", ProtocolError::InvalidUtf8),
    ];
    for (bytes, err) in cases {
        let mut input = InputBuffer::new(bytes.to_vec());
        assert_eq!(protocol.wait(&mut input, &mut output).err(), Some(err));
    }
}

#[test]
fn header_gives_length() {
    let (h, n) = parse_header(b"ver:3.0 len:12\n".to_vec()).unwrap();
    assert_eq!(n, 12);
    assert_eq!(h.get("ver").unwrap(), "3.0");
}

#[test]
fn numbers_parse_like_std() {
    assert_eq!(parse_usize("0"), Some(0));
    assert_eq!(parse_usize("+42"), Some(42));
    assert_eq!(parse_usize("007"), Some(7));
    assert_eq!(parse_usize("18446744073709551615"), Some(usize::MAX));
    assert_eq!(parse_usize("18446744073709551616"), None);
    assert_eq!(parse_usize(""), None);
    assert_eq!(parse_usize("+"), None);
    assert_eq!(parse_usize("1 "), None);
}

#[test]
fn decimal_digits() {
    let mut out = b"n=".to_vec();
    push_decimal(&mut out, 1204);
    assert_eq!(out, b"n=1204");
}

#[test]
fn end_to_end_alert() {
    let payload = "eventname:PROCESS_STATE_EXITED groupname:g processname:p pid:123 expected:0 from_state:RUNNING";
    let mut data = format!("len:{} eventname:PROCESS_STATE_EXITED\n", payload.len()).into_bytes();
    data.extend_from_slice(payload.as_bytes());
    let protocol = EventListenerProtocol {};
    let mut input = InputBuffer::new(data);
    let mut output = Vec::new();
    let (headers, body) = protocol.wait(&mut input, &mut output).unwrap();
    let verdict = classify(&headers, body, &vec!["g:p".to_string()]).unwrap();
    let mut sent = Vec::new();
    if let Verdict::Alert(msg) = verdict {
        sent.push(msg);
    }
    protocol.ok(&mut output).unwrap();
    assert_eq!(
        sent,
        vec!["Process p in group g exited unexpectedly (pid 123) from state RUNNING".to_string()]
    );
    assert_eq!(output, b"READY\nRESULT 2\nOK");
}

#[test]
fn end_to_end_header_event_decides() {
    let payload = "eventname:PROCESS_STATE_EXITED groupname:g processname:p pid:123 expected:0 from_state:RUNNING";
    let mut data = b"len:63 eventname:x\n".to_vec();
    data.extend_from_slice(payload.as_bytes());
    let protocol = EventListenerProtocol {};
    let mut input = InputBuffer::new(data);
    let mut output = Vec::new();
    let (headers, body) = protocol.wait(&mut input, &mut output).unwrap();
    assert_eq!(body.len(), 63);
    let verdict = classify(&headers, body, &vec!["g:p".to_string()]).unwrap();
    assert_eq!(verdict, Verdict::Ignore);
    protocol.ok(&mut output).unwrap();
    assert_eq!(output, b"READY\nRESULT 2\nOK");
}

#[test]
fn webhook_from_argument_or_environment() {
    assert_eq!(
        get_webhook_url(Some("a".to_string()), Some("b".to_string())),
        Some("a".to_string())
    );
    assert_eq!(get_webhook_url(None, Some("b".to_string())), Some("b".to_string()));
    assert_eq!(get_webhook_url(None, Some(String::new())), None);
    assert_eq!(get_webhook_url(None, None), None);
}

#[test]
fn webhook_body_wraps_message() {
    assert_eq!(
        webhook_body("hi"),
        "{\"msg_type\":\"text\",\"content\":{\"text\":\"hi\"}}"
    );
}
