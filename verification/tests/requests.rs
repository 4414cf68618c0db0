use gpfdist_rs::df_engine::TableType;
use gpfdist_rs::frame::fits_frame;
use gpfdist_rs::http::{
    gp_proto, parse_request, read_request, route, send_error, send_head_too_large, send_ok,
    HeadReader, HeadStep, Route, MAX_HEAD,
};
use gpfdist_rs::number::{decimal_text, parse_unsigned};
use gpfdist_rs::server::{
    fits_file_report, fits_report, handle_request, make_unique_table_name, plan_df_route,
    plan_file_route, Action, DfResponse, Features, FileResponse, Server,
};
use gpfdist_rs::session::{SessionDecision, SessionManager};
use gpfdist_rs::text::{chars_of, split_lines, split_words, string_of, trim, white_space};
use gpfdist_rs::util::StringMap;

const PLAIN: Features = Features { delta: false, iceberg: false, compact_meta: false };
const ALL: Features = Features { delta: true, iceberg: true, compact_meta: false };

fn refusal(r: Result<gpfdist_rs::server::DfPlan, &'static str>) -> &'static str {
    match r {
        Ok(_) => panic!("not refused"),
        Err(message) => message,
    }
}

fn headers(pairs: &[(&str, &str)]) -> StringMap {
    let mut map = StringMap::new();
    for (k, v) in pairs {
        map.insert(k.to_string(), v.to_string());
    }
    map
}

#[test]
fn a_head_ends_with_an_empty_line() {
    let mut whole = HeadReader::new();
    assert_eq!(whole.receive(b"GET / X\r\n\r\nbody\r\n\r\n"), HeadStep::Complete(7));
    let mut bytewise = HeadReader::new();
    let data = b"GET / X\r\n\r\n";
    for b in &data[..data.len() - 1] {
        assert_eq!(bytewise.receive(&[*b]), HeadStep::More);
    }
    assert_eq!(bytewise.receive(b"\n"), HeadStep::Complete(7));
    assert_eq!(bytewise.buf, data);
    let mut closed = HeadReader::new();
    assert_eq!(closed.receive(b"GET"), HeadStep::More);
    assert_eq!(closed.receive(b""), HeadStep::Closed);
}

#[test]
fn a_head_has_a_limit() {
    let mut out = Vec::new();
    send_head_too_large(&mut out);
    assert!(out.starts_with(b"HTTP/1.1 400 Bad Request\r\n"));
    assert!(out.ends_with(b"\r\n\r\nHeader too large"));
    let mut reader = HeadReader::new();
    assert_eq!(reader.receive(&vec![b'a'; MAX_HEAD]), HeadStep::More);
    assert_eq!(reader.receive(b"a"), HeadStep::TooLarge);
    let mut late = HeadReader::new();
    let mut data = vec![b'a'; MAX_HEAD - 3];
    data.extend_from_slice(b"\r\n\r\n");
    assert_eq!(late.receive(&data), HeadStep::TooLarge);
}

#[test]
fn a_request_is_read() {
    let head = b"GET  /df/parquet?path=/d HTTP/1.1\r\nHost: x:80\r\nX-GP-PROTO:  1 \r\nno colon\r\nX-Gp-Proto: 0";
    let r = read_request(head).unwrap();
    assert_eq!(r.method, "GET");
    assert_eq!(r.path, "/df/parquet?path=/d");
    assert_eq!(r.headers.get("host"), Some(&"x:80".to_string()));
    assert_eq!(r.headers.get("x-gp-proto"), Some(&"0".to_string()));
    assert_eq!(r.headers.get("X-GP-PROTO"), None);
    assert_eq!(r.headers.get("no colon"), None);
    assert!(read_request(b"GET\r\nHost: x").is_none());
    assert!(read_request(b"").is_none());
}

#[test]
fn headers_stop_at_an_empty_line() {
    let r = parse_request("GET / X\r\na: 1\r\n\r\nb: 2").unwrap();
    assert_eq!(r.headers.get("a"), Some(&"1".to_string()));
    assert_eq!(r.headers.get("b"), None);
}

#[test]
fn bytes_that_are_no_text_are_replaced() {
    let r = read_request(b"GET /a\xffb X\r\nS\xc3\x84: \xc3\xa9").unwrap();
    assert_eq!(r.path, "/a\u{fffd}b");
    assert_eq!(r.headers.get("s\u{e4}"), Some(&"\u{e9}".to_string()));
}

#[test]
fn routes() {
    let at = |method: &str, path: &str, proto: Option<&str>| {
        let text = match proto {
            Some(p) => format!("{} {} X\r\nX-GP-PROTO: {}", method, path, p),
            None => format!("{} {} X", method, path),
        };
        match route(&parse_request(&text).unwrap()) {
            Route::Df => "df",
            Route::File => "file",
            Route::Refused(message) => message,
        }
    };
    assert_eq!(at("GET", "/df/parquet", Some("1")), "df");
    assert_eq!(at("GET", "/df/parquet", Some("+1")), "df");
    assert_eq!(at("GET", "/df", Some("1")), "file");
    assert_eq!(at("GET", "/data.csv", Some("1")), "file");
    for proto in [Some("0"), Some("2"), Some("256"), Some("x"), Some(""), None] {
        assert_eq!(at("GET", "/df/parquet", proto), "X-GP-PROTO must be 1 for GET");
    }
    assert_eq!(at("POST", "/df/parquet", Some("0")), "only GET supported currently");
    assert_eq!(at("POST", "/df/parquet", None), "only GET supported currently");
    assert_eq!(at("POST", "/df/parquet", Some("1")), "X-GP-PROTO must be 0 for POST");
    assert_eq!(at("POST", "/df/parquet", Some("x")), "X-GP-PROTO must be 0 for POST");
    assert_eq!(at("PUT", "/", Some("1")), "unsupported method");
    assert_eq!(at("get", "/", Some("1")), "unsupported method");
}

#[test]
fn header_spelling_does_not_matter() {
    let mut m = SessionManager::new();
    let spelled = [
        "GET /x X\r\nX-GP-PROTO: 1",
        "GET /x X\r\nx-gp-proto:1",
        "GET /x X\r\n \tX-Gp-pRoTo  :\t 1  ",
    ];
    for text in spelled {
        let (a, out) = ask(&mut m, text, &ALL, false, 0);
        assert!(matches!(a, Action::File(p) if p.relative == "x"), "{}", text);
        assert!(out.is_empty());
    }
    let (_, missing) = ask(&mut m, "GET /x X\r\nHost: h", &ALL, false, 0);
    let (_, zero) = ask(&mut m, "GET /x X\r\nX-GP-PROTO: 0", &ALL, false, 0);
    assert_eq!(missing, zero);
}

#[test]
fn ordinary_texts_fit() {
    assert!(fits_frame("a.csv"));
    assert!(fits_report("disk"));
    assert!(fits_file_report("/srv/t.csv", "not there"));
}

#[test]
fn the_protocol_defaults_to_zero() {
    assert_eq!(gp_proto(&headers(&[])), Some(0));
    assert_eq!(gp_proto(&headers(&[("x-gp-proto", "255")])), Some(255));
    assert_eq!(gp_proto(&headers(&[("x-gp-proto", "256")])), None);
}

#[test]
fn error_responses() {
    let mut out = Vec::new();
    send_error(&mut out, 400, "na\u{ef}ve");
    assert_eq!(
        String::from_utf8(out).unwrap(),
        "HTTP/1.1 400 Bad Request\r\nContent-Type: text/plain\r\nContent-Length: 6\r\nConnection: close\r\n\r\nna\u{ef}ve"
    );
    for (status, words) in [
        (404, "404 Not Found"),
        (405, "405 Method Not Allowed"),
        (500, "500 Internal Server Error"),
        (418, "418 Error"),
    ] {
        let mut out = Vec::new();
        send_error(&mut out, status, "");
        assert!(String::from_utf8(out).unwrap().starts_with(&format!("HTTP/1.1 {}\r\n", words)));
    }
    let mut out = Vec::new();
    send_ok(&mut out, 1);
    assert_eq!(
        String::from_utf8(out).unwrap(),
        "HTTP/1.1 200 OK\r\nContent-Type: application/octet-stream\r\nX-GP-PROTO: 1\r\nConnection: close\r\n\r\n"
    );
}

#[test]
fn table_names() {
    assert_eq!(make_unique_table_name("delta", Some(3), 42), "delta_seg3_42");
    assert_eq!(make_unique_table_name("a-b_c \u{e9}\u{2014}9", None, 0), "ab_c\u{e9}9_seg0_0");
    assert_ne!(make_unique_table_name("t", Some(1), 2), make_unique_table_name("t", Some(1), 3));
    assert_ne!(make_unique_table_name("t", Some(1), 12), make_unique_table_name("t", Some(11), 2));
}

#[test]
fn a_query_is_planned() {
    let path = "/df/parquet?path=/data/sales&columns=product,%20revenue+&filter=revenue%20%3E%201000&limit=100";
    let h = headers(&[("x-gp-segment-id", "2"), ("x-gp-segment-count", "4")]);
    let plan = plan_df_route(path, &h, 1, &PLAIN, 7).unwrap_or_else(|m| panic!("{}", m));
    assert_eq!(plan.source, "parquet");
    let q = plan.request;
    assert_eq!(q.table_type, TableType::Parquet);
    assert_eq!(q.uri, "/data/sales");
    assert_eq!(q.file_list, None);
    assert_eq!(q.projection, Some(vec!["product".to_string(), "revenue".to_string()]));
    assert_eq!(q.filter, Some("revenue > 1000".to_string()));
    assert_eq!(q.limit, Some(100));
    assert_eq!((q.segment_id, q.segment_count), (Some(2), Some(4)));
    assert_eq!(q.gp_proto, 1);
    assert_eq!(q.table_name, Some("parquet_seg2_7".to_string()));
    assert!(plan.session.is_none());
}

#[test]
fn files_and_locations() {
    let none = headers(&[]);
    let plan = plan_df_route("/df/parquet?files=/a.parquet%2C/b.parquet,%20c", &none, 1, &PLAIN, 7)
        .unwrap_or_else(|m| panic!("{}", m));
    assert_eq!(
        plan.request.file_list,
        Some(vec!["/a.parquet".to_string(), "/b.parquet".to_string(), "c".to_string()])
    );
    assert_eq!(plan.request.uri, "");
    assert_eq!(plan.request.table_name, None);
    let plan = plan_df_route("/df/parquet/some/my%20dir?limit=x", &none, 1, &PLAIN, 7)
        .unwrap_or_else(|m| panic!("{}", m));
    assert_eq!(plan.request.uri, "some/my dir");
    assert_eq!(plan.request.limit, None);
    let plan = plan_df_route("/df/parquet/rest?path=/a%20b", &none, 1, &PLAIN, 7)
        .unwrap_or_else(|m| panic!("{}", m));
    assert_eq!(plan.request.uri, "/a%20b");
}

#[test]
fn queries_that_are_refused() {
    let none = headers(&[]);
    let missing = "Missing 'path' or 'files' parameter";
    assert_eq!(refusal(plan_df_route("/df", &none, 1, &ALL, 0)), "Invalid /df/ route");
    assert_eq!(refusal(plan_df_route("/df/parquet", &none, 1, &ALL, 0)), missing);
    assert_eq!(refusal(plan_df_route("/df/parquet/", &none, 1, &ALL, 0)), missing);
    assert_eq!(refusal(plan_df_route("/df/csv?path=x", &none, 1, &ALL, 0)), "Unknown source type");
    assert_eq!(
        refusal(plan_df_route("/df/delta?path=x", &none, 1, &PLAIN, 0)),
        "Delta feature not enabled"
    );
    assert_eq!(
        refusal(plan_df_route("/df/iceberg?path=x", &none, 1, &PLAIN, 0)),
        "Iceberg feature not enabled"
    );
}

const SESSION: [(&str, &str); 3] = [("x-gp-xid", "x"), ("x-gp-cid", "c"), ("x-gp-sn", "s")];

#[test]
fn sessions_are_kept_for_whole_tables() {
    let h = headers(&SESSION);
    let kept = |path: &str, h: &StringMap| {
        plan_df_route(path, h, 1, &ALL, 0).unwrap_or_else(|m| panic!("{}", m)).session.is_some()
    };
    assert!(kept("/df/delta?path=x", &h));
    assert!(kept("/df/iceberg?path=x", &h));
    assert!(!kept("/df/parquet?path=x", &h));
    assert!(!kept("/df/delta?files=x", &h));
    assert!(!kept("/df/delta?path=x", &headers(&SESSION[..2])));
}

#[test]
fn a_file_is_planned() {
    let plan = plan_file_route("//data/my%20file.csv?lines=2").unwrap_or_else(|m| panic!("{}", m));
    assert_eq!(plan.name, "//data/my file.csv");
    assert_eq!(plan.relative, "data/my file.csv");
    assert_eq!(plan.lines_limit, Some(2));
    let plan = plan_file_route("/x?lines=-1").unwrap_or_else(|m| panic!("{}", m));
    assert_eq!(plan.lines_limit, None);
    for path in ["/../x", "/a/%2e%2e/b", "/a..b"] {
        match plan_file_route(path) {
            Ok(_) => panic!("not refused"),
            Err(message) => assert_eq!(message, "directory traversal not allowed"),
        }
    }
    assert!(plan_file_route("/a?q=..").is_ok());
}

fn frames(data: &[u8]) -> Vec<(char, Vec<u8>)> {
    let mut out = Vec::new();
    let mut i = 0;
    while i + 5 <= data.len() {
        let n = u32::from_be_bytes([data[i + 1], data[i + 2], data[i + 3], data[i + 4]]) as usize;
        out.push((data[i] as char, data[i + 5..i + 5 + n].to_vec()));
        i += 5 + n;
    }
    assert_eq!(i, data.len());
    out
}

fn body(response: &[u8]) -> &[u8] {
    let at = response.windows(4).position(|w| w == b"\r\n\r\n").unwrap();
    &response[at + 4..]
}

#[test]
fn a_file_is_served() {
    let plan = plan_file_route("/t.csv?lines=2").unwrap_or_else(|m| panic!("{}", m));
    let mut r = FileResponse::new(plan, false);
    let mut out = Vec::new();
    r.begin(&mut out);
    assert!(!r.send_chunk(&mut out, b"a\nb"));
    assert!(r.send_chunk(&mut out, b"b\nc\n"));
    r.finish(&mut out);
    assert!(out.starts_with(b"HTTP/1.1 200 OK\r\n"));
    let seen = frames(body(&out));
    let letters: String = seen.iter().map(|f| f.0).collect();
    assert_eq!(letters, "FOLDFOLDFOLD");
    assert_eq!(seen[0].1, b"/t.csv");
    assert_eq!(seen[3].1, b"a\nb");
    assert_eq!(seen[7].1, b"b\n");
    assert_eq!(seen[9].1, 5u64.to_be_bytes());
    assert_eq!(seen[10].1, 3u64.to_be_bytes());
}

#[test]
fn three_lines_with_two_line_feeds_end_at_line_four() {
    let plan = plan_file_route("/t.csv").unwrap_or_else(|m| panic!("{}", m));
    let mut r = FileResponse::new(plan, false);
    let mut out = Vec::new();
    assert!(!r.send_chunk(&mut out, b"line1\nline2\nline3"));
    r.finish(&mut out);
    let seen = frames(&out);
    assert_eq!(seen[6].1, 4u64.to_be_bytes());
}

#[test]
fn a_file_that_cannot_be_opened() {
    let plan = plan_file_route("/t.csv").unwrap_or_else(|m| panic!("{}", m));
    let r = FileResponse::new(plan, false);
    let mut out = Vec::new();
    r.open_failed(&mut out, "/srv/t.csv", "not there");
    let seen = frames(body(&out));
    let letters: String = seen.iter().map(|f| f.0).collect();
    assert_eq!(letters, "FOLEFOLD");
    assert_eq!(seen[3].1, b"Failed to read file: /srv/t.csv, error not there");
}

fn ask(
    sessions: &mut SessionManager,
    text: &str,
    features: &Features,
    repeat: bool,
    now: u128,
) -> (Action, Vec<u8>) {
    let mut out = Vec::new();
    let action = handle_request(&mut out, text.as_bytes(), features, sessions, repeat, 7, now);
    (action, out)
}

#[test]
fn requests_are_handled() {
    let mut m = SessionManager::new();
    let (a, out) = ask(&mut m, "GET", &ALL, false, 0);
    assert!(matches!(a, Action::Reply));
    assert!(out.ends_with(b"\r\n\r\nBad Request (request line)"));
    let (a, out) = ask(&mut m, "PUT / X", &ALL, false, 0);
    assert!(matches!(a, Action::Reply));
    assert!(out.ends_with(b"unsupported method"));
    let (a, out) = ask(&mut m, "GET /tmp/../etc/passwd X\r\nX-GP-PROTO: 1", &ALL, false, 0);
    assert!(out.starts_with(b"HTTP/1.1 400"));
    assert!(matches!(a, Action::Reply));
    assert!(out.ends_with(b"directory traversal not allowed"));
    let (a, out) = ask(&mut m, "GET /x X\r\nX-GP-PROTO: 1", &ALL, false, 0);
    assert!(matches!(a, Action::File(p) if p.relative == "x"));
    assert!(out.is_empty());
    let (a, out) = ask(&mut m, "GET /df/delta?path=x X\r\nX-GP-PROTO: 1", &PLAIN, false, 0);
    assert!(matches!(a, Action::Reply));
    assert!(out.ends_with(b"Delta feature not enabled"));
    let (a, out) = ask(&mut m, "GET /df/parquet?path=x X\r\nX-GP-PROTO: 1", &PLAIN, false, 0);
    assert!(matches!(a, Action::Query(p) if p.request.uri == "x"));
    assert!(out.is_empty());
    // None of these belongs to a session.
    assert!(matches!(ask(&mut m, DELTA, &ALL, false, 1).0, Action::Query(_)));
}

const DELTA: &str =
    "GET /df/delta?path=x X\r\nX-GP-PROTO: 1\r\nX-GP-XID: 1\r\nX-GP-CID: 2\r\nX-GP-SN: 3";

fn query(action: Action) -> DfResponse {
    match action {
        Action::Query(plan) => DfResponse::new(plan, false),
        _ => panic!("no query"),
    }
}

fn seen_letters(response: &[u8]) -> String {
    frames(body(response)).iter().map(|f| f.0).collect()
}

#[test]
fn one_request_of_a_session_reads() {
    let mut m = SessionManager::new();
    let (first, _) = ask(&mut m, DELTA, &ALL, false, 1);
    let (second, out) = ask(&mut m, DELTA, &ALL, true, 2);
    assert!(matches!(second, Action::Reply));
    assert_eq!(seen_letters(&out), "FOLD");
    assert_eq!(frames(body(&out))[0].1, b"delta");
    let mut r = query(first);
    let mut out = Vec::new();
    r.begin(&mut out);
    r.send_chunk(&mut out, b"1,a\n");
    r.send_chunk(&mut out, b"2,b\n");
    r.finish(&mut out);
    assert_eq!(seen_letters(&out), "FOLDFOLDFOLD");
    r.sent(&mut m, 3);
    let key = r.session.unwrap();
    assert_eq!(m.decide(key, 4), SessionDecision::ShortCircuitCompleted);
}

#[test]
fn an_error_while_streaming_is_reported_and_repeated() {
    let mut m = SessionManager::new();
    let (first, _) = ask(&mut m, DELTA, &ALL, false, 1);
    let mut r = query(first);
    let mut out = Vec::new();
    r.begin(&mut out);
    r.send_chunk(&mut out, b"1,a\n");
    assert!(r.chunk_failed(&mut out, &mut m, "disk"));
    r.sent(&mut m, 2);
    assert_eq!(seen_letters(&out), "FOLDFOLEFOLD");
    assert_eq!(frames(body(&out))[7].1, b"ERROR: disk");
    let (_, out) = ask(&mut m, DELTA, &ALL, true, 3);
    assert_eq!(seen_letters(&out), "FOLEFOLD");
    assert_eq!(frames(body(&out))[3].1, b"ERROR: disk");
    let (_, out) = ask(&mut m, DELTA, &ALL, false, 3);
    assert_eq!(seen_letters(&out), "FOLD");
}

#[test]
fn a_query_that_cannot_start() {
    let mut m = SessionManager::new();
    let (first, _) = ask(&mut m, DELTA, &ALL, false, 1);
    let mut r = query(first);
    let mut out = Vec::new();
    r.query_failed(&mut out, &mut m, "no table");
    assert!(out.starts_with(b"HTTP/1.1 200 OK\r\n"));
    assert_eq!(seen_letters(&out), "FOLEFOLD");
    assert_eq!(frames(body(&out))[3].1, b"ERROR: Query execution failed: no table");
    let (_, out) = ask(&mut m, DELTA, &ALL, true, 3);
    assert_eq!(frames(body(&out))[3].1, b"ERROR: Query execution failed: no table");
    r.gp_proto = 0;
    let mut out = Vec::new();
    r.query_failed(&mut out, &mut m, "no table");
    assert!(out.starts_with(b"HTTP/1.1 500 Internal Server Error\r\n"));
    assert_eq!(body(&out), b"Query execution failed: no table");
}

#[test]
fn protocol_zero_is_plain_data() {
    let mut m = SessionManager::new();
    let (first, _) = ask(&mut m, DELTA, &ALL, false, 1);
    let mut r = query(first);
    r.gp_proto = 0;
    let mut out = Vec::new();
    r.send_chunk(&mut out, b"1,a\n");
    assert!(!r.chunk_failed(&mut out, &mut m, "disk"));
    r.send_chunk(&mut out, b"2,b\n");
    r.finish(&mut out);
    assert_eq!(out, b"1,a\n2,b\n");
}

#[test]
fn different_sessions_read_for_themselves() {
    let mut m = SessionManager::new();
    let (a, _) = ask(&mut m, DELTA, &ALL, false, 1);
    let (b, _) = ask(&mut m, &DELTA.replace("SN: 3", "SN: 4"), &ALL, false, 1);
    assert!(matches!(a, Action::Query(_)));
    assert!(matches!(b, Action::Query(_)));
    let plain = "GET /df/delta?path=x X\r\nX-GP-PROTO: 1";
    for _ in 0..2 {
        let (c, _) = ask(&mut m, plain, &ALL, false, 1);
        assert!(matches!(c, Action::Query(_)));
    }
}

#[test]
fn a_server_has_an_address() {
    let s = Server::new("0.0.0.0:8080".to_string());
    assert_eq!(s.addr, "0.0.0.0:8080");
    assert_eq!(s.features, PLAIN);
}

#[test]
fn white_space_is_that_of_unicode() {
    for n in 0..=0x10ffffu32 {
        if let Some(c) = char::from_u32(n) {
            assert_eq!(white_space(c), c.is_whitespace(), "{:x}", n);
        }
    }
}

#[test]
fn text_is_taken_apart_as_std_does() {
    let samples = ["", " ", "a", " a  b\tc ", "\u{a0}x\u{2003}y", "a\r\nb\r\n\r\nc", "\r\r\n\n", "a\nb\r"];
    for s in samples {
        let chars = chars_of(s);
        assert_eq!(string_of(trim(&chars)), s.trim());
        let words: Vec<String> = split_words(&chars).iter().map(|w| string_of(w)).collect();
        assert_eq!(words, s.split_whitespace().collect::<Vec<_>>());
        let lines: Vec<String> = split_lines(&chars).iter().map(|w| string_of(w)).collect();
        assert_eq!(lines, s.split("\r\n").collect::<Vec<_>>());
    }
}

#[test]
fn numbers_are_read_and_written() {
    for s in ["0", "7", "+7", "255", "256", "-1", "+", "", "1a", "00012", "99999999999999999999"] {
        let chars = chars_of(s);
        assert_eq!(parse_unsigned(&chars, 10, 255), s.parse::<u8>().ok().map(|n| n as u64), "{}", s);
        assert_eq!(parse_unsigned(&chars, 10, u64::MAX), s.parse::<u64>().ok(), "{}", s);
    }
    for n in [0u128, 9, 10, 65536, u64::MAX as u128, u128::MAX] {
        assert_eq!(decimal_text(n), n.to_string());
    }
}
