use gpfdist_rs::server::{
    open_session, send_immediate_eof_response, session_repeat_error_frame, SESSION_TTL,
};
use gpfdist_rs::session::{
    extract_session_key, SessionDecision, SessionKey, SessionManager,
};
use gpfdist_rs::util::StringMap;

fn key(xid: &str) -> SessionKey {
    SessionKey { xid: xid.to_string(), cid: "1".to_string(), sn: "0".to_string() }
}

#[test]
fn test_session_requires_delta_feature() {
    assert!(true);
}

#[test]
fn the_first_request_reads() {
    let mut m = SessionManager::new();
    assert_eq!(m.decide(key("a"), 1), SessionDecision::StartRead);
    assert_eq!(m.decide(key("a"), 2), SessionDecision::ShortCircuitInProgress);
    assert_eq!(m.decide(key("b"), 3), SessionDecision::StartRead);
    m.mark_completed(&key("a"), 4);
    assert_eq!(m.decide(key("a"), 5), SessionDecision::ShortCircuitCompleted);
    assert_eq!(m.decide(key("b"), 6), SessionDecision::ShortCircuitInProgress);
}

#[test]
fn sessions_differ_in_each_part_of_the_key() {
    let mut m = SessionManager::new();
    m.decide(key("a"), 1);
    let other_cid = SessionKey { xid: "a".to_string(), cid: "2".to_string(), sn: "0".to_string() };
    let other_sn = SessionKey { xid: "a".to_string(), cid: "1".to_string(), sn: "1".to_string() };
    assert_eq!(m.decide(other_cid, 1), SessionDecision::StartRead);
    assert_eq!(m.decide(other_sn, 1), SessionDecision::StartRead);
}

#[test]
fn the_first_error_and_the_name_are_kept() {
    let mut m = SessionManager::new();
    assert!(m.get_session_info(&key("a")).is_none());
    m.set_error_message(&key("a"), "lost".to_string());
    assert!(m.get_session_info(&key("a")).is_none());
    m.decide(key("a"), 1);
    assert_eq!(m.get_session_info(&key("a")), Some((None, None)));
    m.set_logical_name(&key("a"), "delta".to_string());
    m.set_error_message(&key("a"), "first".to_string());
    m.set_error_message(&key("a"), "second".to_string());
    m.decide(key("a"), 2);
    assert_eq!(
        m.get_session_info(&key("a")),
        Some((Some("delta".to_string()), Some("first".to_string())))
    );
    m.decide(key("b"), 2);
    assert_eq!(m.get_session_info(&key("b")), Some((None, None)));
}

#[test]
fn completed_sessions_are_forgotten_in_time() {
    let mut m = SessionManager::new();
    m.decide(key("a"), 0);
    m.decide(key("b"), 0);
    m.decide(key("c"), 0);
    m.mark_completed(&key("a"), 100);
    m.mark_completed(&key("b"), 101);
    m.evict_old_sessions(150, 50);
    assert!(m.get_session_info(&key("a")).is_none());
    assert!(m.get_session_info(&key("b")).is_some());
    // In progress: never forgotten.
    assert!(m.get_session_info(&key("c")).is_some());
    m.evict_old_sessions(90, 50);
    assert!(m.get_session_info(&key("b")).is_some());
    m.evict_old_sessions(90, 0);
    assert!(m.get_session_info(&key("b")).is_none());
    assert_eq!(m.decide(key("a"), 151), SessionDecision::StartRead);
}

#[test]
fn a_session_is_opened_with_its_source() {
    let mut m = SessionManager::new();
    assert_eq!(open_session(&mut m, &key("a"), "delta", 10), SessionDecision::StartRead);
    assert_eq!(
        open_session(&mut m, &key("a"), "iceberg", 20),
        SessionDecision::ShortCircuitInProgress
    );
    assert_eq!(m.get_session_info(&key("a")), Some((Some("delta".to_string()), None)));
    m.mark_completed(&key("a"), 30);
    assert_eq!(
        open_session(&mut m, &key("a"), "iceberg", 30 + SESSION_TTL - 1),
        SessionDecision::ShortCircuitCompleted
    );
    assert_eq!(m.get_session_info(&key("a")), Some((Some("delta".to_string()), None)));
    assert_eq!(
        open_session(&mut m, &key("a"), "iceberg", 30 + SESSION_TTL),
        SessionDecision::StartRead
    );
    assert_eq!(m.get_session_info(&key("a")), Some((Some("iceberg".to_string()), None)));
}

#[test]
fn all_three_headers_make_a_session() {
    let mut headers = StringMap::new();
    headers.insert("x-gp-xid".to_string(), "x".to_string());
    headers.insert("x-gp-cid".to_string(), "c".to_string());
    assert!(extract_session_key(&headers).is_none());
    headers.insert("x-gp-sn".to_string(), "s".to_string());
    let k = extract_session_key(&headers).unwrap();
    assert_eq!((k.xid.as_str(), k.cid.as_str(), k.sn.as_str()), ("x", "c", "s"));
}

const OK_HEAD: &str = "HTTP/1.1 200 OK\r\nContent-Type: application/octet-stream\r\nX-GP-PROTO: 1\r\nConnection: close\r\n\r\n";

const EOF_DELTA: &[u8] = b"F\x00\x00\x00\x05deltaO\x00\x00\x00\x08\x00\x00\x00\x00\x00\x00\x00\x00L\x00\x00\x00\x08\x00\x00\x00\x00\x00\x00\x00\x01D\x00\x00\x00\x00";

#[test]
fn a_repeated_request_gets_the_end_of_the_stream() {
    let name = Some("delta".to_string());
    let error = Some("bad".to_string());
    let mut out = Vec::new();
    send_immediate_eof_response(&mut out, 1, &name, &error, false);
    let mut expected = OK_HEAD.as_bytes().to_vec();
    expected.extend_from_slice(EOF_DELTA);
    assert_eq!(out, expected);

    let mut out = Vec::new();
    send_immediate_eof_response(&mut out, 1, &name, &error, true);
    let mut expected = OK_HEAD.as_bytes().to_vec();
    expected.extend_from_slice(&EOF_DELTA[..EOF_DELTA.len() - 5]);
    expected.extend_from_slice(b"E\x00\x00\x00\x03bad");
    expected.extend_from_slice(EOF_DELTA);
    assert_eq!(out, expected);

    let mut out = Vec::new();
    send_immediate_eof_response(&mut out, 1, &None, &None, true);
    assert!(out.windows(14).any(|w| w == b"repeat_session"));

    let mut out = Vec::new();
    send_immediate_eof_response(&mut out, 0, &name, &error, true);
    assert_eq!(out, OK_HEAD.replace("PROTO: 1", "PROTO: 0").as_bytes());
}

#[test]
fn errors_are_repeated_only_on_request() {
    assert!(session_repeat_error_frame(Some("true")));
    assert!(!session_repeat_error_frame(Some("false")));
    assert!(!session_repeat_error_frame(Some("TRUE")));
    assert!(!session_repeat_error_frame(Some("1")));
    assert!(!session_repeat_error_frame(None));
}
