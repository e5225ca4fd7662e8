use dbprobe::protocol::postgres::{
    extract_cstring, parse_command_tag_rows, parse_error_response, truncate_sql, ConnPhase,
    PostgresParser, MAX_SQL_LEN, SSL_REQUEST_CODE, STARTUP_VERSION_3_0,
};
use dbprobe::protocol::{Direction, ProtoEvent, ProtocolParser, TxStatus};

fn make_startup_message(version: u32) -> Vec<u8> {
    let length: u32 = 8;
    let mut buf = Vec::new();
    buf.extend_from_slice(&length.to_be_bytes());
    buf.extend_from_slice(&version.to_be_bytes());
    buf
}

fn make_message(tag: u8, payload: &[u8]) -> Vec<u8> {
    let length = (payload.len() + 4) as u32;
    let mut buf = Vec::new();
    buf.push(tag);
    buf.extend_from_slice(&length.to_be_bytes());
    buf.extend_from_slice(payload);
    buf
}

fn make_query_message(sql: &str) -> Vec<u8> {
    let mut payload = sql.as_bytes().to_vec();
    payload.push(0);
    make_message(b'Q', &payload)
}

fn make_command_complete(tag: &str) -> Vec<u8> {
    let mut payload = tag.as_bytes().to_vec();
    payload.push(0);
    make_message(b'C', &payload)
}

fn make_ready_for_query(status: u8) -> Vec<u8> {
    make_message(b'Z', &[status])
}

fn make_parse_message(stmt_name: &str, sql: &str) -> Vec<u8> {
    let mut payload = stmt_name.as_bytes().to_vec();
    payload.push(0);
    payload.extend_from_slice(sql.as_bytes());
    payload.push(0);
    payload.extend_from_slice(&0u16.to_be_bytes());
    make_message(b'P', &payload)
}

fn make_bind_message(portal: &str, stmt_name: &str) -> Vec<u8> {
    let mut payload = portal.as_bytes().to_vec();
    payload.push(0);
    payload.extend_from_slice(stmt_name.as_bytes());
    payload.push(0);
    payload.extend_from_slice(&0u16.to_be_bytes());
    payload.extend_from_slice(&0u16.to_be_bytes());
    payload.extend_from_slice(&0u16.to_be_bytes());
    make_message(b'B', &payload)
}

fn make_execute_message(portal: &str) -> Vec<u8> {
    let mut payload = portal.as_bytes().to_vec();
    payload.push(0);
    payload.extend_from_slice(&0u32.to_be_bytes());
    make_message(b'E', &payload)
}

fn make_close_message(close_type: u8, name: &str) -> Vec<u8> {
    let mut payload = vec![close_type];
    payload.extend_from_slice(name.as_bytes());
    payload.push(0);
    make_message(b'C', &payload)
}

fn ready_parser() -> PostgresParser {
    let mut parser = PostgresParser::new();
    parser.phase = ConnPhase::Ready;
    parser
}

#[test]
fn test_ssl_request_intercept() {
    let mut parser = PostgresParser::new();
    let buf = make_startup_message(SSL_REQUEST_CODE);

    let response = parser.handle_startup_intercept(&buf, Direction::Frontend);
    assert_eq!(response, Some(vec![b'N']));
    assert_eq!(parser.phase, ConnPhase::AwaitingStartupAfterSslReject);
}

#[test]
fn test_startup_message() {
    let mut parser = PostgresParser::new();
    let buf = make_startup_message(STARTUP_VERSION_3_0);

    let result = parser.try_parse(&buf, Direction::Frontend);
    assert!(result.is_some());
    assert_eq!(parser.phase, ConnPhase::Authenticating);
}

#[test]
fn test_query_parse() {
    let mut parser = PostgresParser::new();
    parser.phase = ConnPhase::Ready;

    let buf = make_query_message("SELECT * FROM users");
    let result = parser.try_parse(&buf, Direction::Frontend);

    match result {
        Some((ProtoEvent::QueryStart { sql }, consumed)) => {
            assert_eq!(sql, "SELECT * FROM users");
            assert_eq!(consumed, buf.len());
        }
        _ => panic!("Expected QueryStart"),
    }
}

#[test]
fn test_command_complete() {
    let mut parser = PostgresParser::new();
    parser.phase = ConnPhase::Ready;

    let buf = make_command_complete("SELECT 5");
    let result = parser.try_parse(&buf, Direction::Backend);

    match result {
        Some((ProtoEvent::QueryComplete { tag, rows }, _)) => {
            assert_eq!(tag, "SELECT 5");
            assert_eq!(rows, Some(5));
        }
        _ => panic!("Expected QueryComplete"),
    }
}

#[test]
fn test_ready_for_query() {
    let mut parser = PostgresParser::new();
    parser.phase = ConnPhase::Ready;

    let buf = make_ready_for_query(b'I');
    let result = parser.try_parse(&buf, Direction::Backend);

    match result {
        Some((ProtoEvent::ConnectionReady { status }, _)) => {
            assert_eq!(status, TxStatus::Idle);
        }
        _ => panic!("Expected ConnectionReady"),
    }
}

#[test]
fn test_incomplete_message_returns_none() {
    let mut parser = PostgresParser::new();
    parser.phase = ConnPhase::Ready;

    let buf = vec![b'Q', 0, 0];
    let result = parser.try_parse(&buf, Direction::Frontend);
    assert!(result.is_none());
}

#[test]
fn test_partial_message_returns_none() {
    let mut parser = PostgresParser::new();
    parser.phase = ConnPhase::Ready;

    let buf = make_query_message("SELECT 1");
    let partial = &buf[..buf.len() - 2];
    let result = parser.try_parse(partial, Direction::Frontend);
    assert!(result.is_none());
}

#[test]
fn test_multiple_messages_in_buffer() {
    let mut parser = PostgresParser::new();
    parser.phase = ConnPhase::Ready;

    let mut buf = make_query_message("SELECT 1");
    buf.extend_from_slice(&make_query_message("SELECT 2"));

    let (event, consumed) = parser.try_parse(&buf, Direction::Frontend).unwrap();
    match event {
        ProtoEvent::QueryStart { sql } => assert_eq!(sql, "SELECT 1"),
        _ => panic!("Expected QueryStart"),
    }

    let (event, _) = parser.try_parse(&buf[consumed..], Direction::Frontend).unwrap();
    match event {
        ProtoEvent::QueryStart { sql } => assert_eq!(sql, "SELECT 2"),
        _ => panic!("Expected QueryStart"),
    }
}

#[test]
fn test_truncate_sql_utf8_boundary() {
    let s = "a".repeat(MAX_SQL_LEN - 1) + "\u{1F600}";
    let result = truncate_sql(&s);
    assert!(result.ends_with("..."));
    let _ = result.as_bytes();
}

#[test]
fn test_parse_command_tag_insert() {
    assert_eq!(parse_command_tag_rows("INSERT 0 3"), Some(3));
    assert_eq!(parse_command_tag_rows("SELECT 5"), Some(5));
    assert_eq!(parse_command_tag_rows("BEGIN"), None);
    assert_eq!(parse_command_tag_rows("COMMIT"), None);
}

#[test]
fn test_extended_bind_execute() {
    let mut parser = PostgresParser::new();
    parser.phase = ConnPhase::Ready;

    let parse = make_parse_message("s1", "SELECT * FROM users");
    let (event, _) = parser.try_parse(&parse, Direction::Frontend).unwrap();
    assert!(matches!(event, ProtoEvent::ParseDetected { .. }));

    let bind = make_bind_message("", "s1");
    let (event, _) = parser.try_parse(&bind, Direction::Frontend).unwrap();
    assert!(matches!(event, ProtoEvent::Unknown { .. }));

    let exec = make_execute_message("");
    match parser.try_parse(&exec, Direction::Frontend) {
        Some((ProtoEvent::QueryStart { sql }, _)) => {
            assert_eq!(sql, "SELECT * FROM users");
        }
        other => panic!("Expected QueryStart, got {other:?}"),
    }
}

#[test]
fn test_extended_pipeline() {
    let mut parser = PostgresParser::new();
    parser.phase = ConnPhase::Ready;

    let parse = make_parse_message("s1", "INSERT INTO t VALUES ($1)");
    parser.try_parse(&parse, Direction::Frontend).unwrap();

    let bind1 = make_bind_message("p1", "s1");
    parser.try_parse(&bind1, Direction::Frontend).unwrap();

    let exec1 = make_execute_message("p1");
    match parser.try_parse(&exec1, Direction::Frontend) {
        Some((ProtoEvent::QueryStart { sql }, _)) => {
            assert_eq!(sql, "INSERT INTO t VALUES ($1)");
        }
        other => panic!("Expected QueryStart #1, got {other:?}"),
    }

    let bind2 = make_bind_message("p2", "s1");
    parser.try_parse(&bind2, Direction::Frontend).unwrap();

    let exec2 = make_execute_message("p2");
    match parser.try_parse(&exec2, Direction::Frontend) {
        Some((ProtoEvent::QueryStart { sql }, _)) => {
            assert_eq!(sql, "INSERT INTO t VALUES ($1)");
        }
        other => panic!("Expected QueryStart #2, got {other:?}"),
    }
}

#[test]
fn test_close_cleans_up() {
    let mut parser = PostgresParser::new();
    parser.phase = ConnPhase::Ready;

    let parse = make_parse_message("s1", "SELECT 1");
    parser.try_parse(&parse, Direction::Frontend).unwrap();
    let bind = make_bind_message("p1", "s1");
    parser.try_parse(&bind, Direction::Frontend).unwrap();

    assert!(parser.statements.contains_key("s1"));
    assert!(parser.portals.contains_key("p1"));

    let close_p = make_close_message(b'P', "p1");
    parser.try_parse(&close_p, Direction::Frontend).unwrap();
    assert!(!parser.portals.contains_key("p1"));

    let close_s = make_close_message(b'S', "s1");
    parser.try_parse(&close_s, Direction::Frontend).unwrap();
    assert!(!parser.statements.contains_key("s1"));
}

#[test]
fn ssl_reject_scenario_on_the_wire_bytes() {
    let mut parser = PostgresParser::new();
    let bytes = [0x00, 0x00, 0x00, 0x08, 0x04, 0xD2, 0x16, 0x2F];
    let reply = parser.handle_startup_intercept(&bytes, Direction::Frontend);
    assert_eq!(reply, Some(vec![0x4E]));
    assert_eq!(parser.phase, ConnPhase::AwaitingStartupAfterSslReject);
    // Asked again, the parser refuses again and stays where it is.
    let reply = parser.handle_startup_intercept(&bytes, Direction::Frontend);
    assert_eq!(reply, Some(vec![0x4E]));
    assert_eq!(parser.phase, ConnPhase::AwaitingStartupAfterSslReject);
}

#[test]
fn intercept_leaves_everything_else_alone() {
    let ssl = make_startup_message(SSL_REQUEST_CODE);
    let mut parser = PostgresParser::new();
    assert_eq!(parser.handle_startup_intercept(&ssl, Direction::Backend), None);
    assert_eq!(parser.handle_startup_intercept(&ssl[..7], Direction::Frontend), None);
    let startup = make_startup_message(STARTUP_VERSION_3_0);
    assert_eq!(parser.handle_startup_intercept(&startup, Direction::Frontend), None);
    assert_eq!(parser.phase, ConnPhase::AwaitingStartup);
    let mut ready = ready_parser();
    assert_eq!(ready.handle_startup_intercept(&ssl, Direction::Frontend), None);
    assert_eq!(ready.phase, ConnPhase::Ready);
}

#[test]
fn simple_query_scenario_on_the_wire_bytes() {
    let mut parser = ready_parser();
    let query = [
        b'Q', 0x00, 0x00, 0x00, 0x14, 0x53, 0x45, 0x4C, 0x45, 0x43, 0x54, 0x20, 0x2A, 0x20, 0x46,
        0x52, 0x4F, 0x4D, 0x20, 0x74, 0x00,
    ];
    match parser.try_parse(&query, Direction::Frontend) {
        Some((ProtoEvent::QueryStart { sql }, consumed)) => {
            assert_eq!(sql, "SELECT * FROM t");
            assert_eq!(consumed, 21);
        }
        other => panic!("Expected QueryStart, got {other:?}"),
    }
    let complete = [
        b'C', 0x00, 0x00, 0x00, 0x0D, 0x53, 0x45, 0x4C, 0x45, 0x43, 0x54, 0x20, 0x35, 0x00,
    ];
    match parser.try_parse(&complete, Direction::Backend) {
        Some((ProtoEvent::QueryComplete { tag, rows }, consumed)) => {
            assert_eq!(tag, "SELECT 5");
            assert_eq!(rows, Some(5));
            assert_eq!(consumed, 14);
        }
        other => panic!("Expected QueryComplete, got {other:?}"),
    }
}

#[test]
fn startup_length_out_of_range_skips_one_byte() {
    let mut parser = PostgresParser::new();
    let short = [0, 0, 0, 7, 0, 3, 0, 0];
    match parser.try_parse(&short, Direction::Frontend) {
        Some((ProtoEvent::Unknown { tag }, consumed)) => {
            assert_eq!(tag, 0);
            assert_eq!(consumed, 1);
        }
        other => panic!("Expected Unknown, got {other:?}"),
    }
    let long = [0, 0, 0x27, 0x11, 0, 3, 0, 0];
    match parser.try_parse(&long, Direction::Frontend) {
        Some((ProtoEvent::Unknown { .. }, consumed)) => assert_eq!(consumed, 1),
        other => panic!("Expected Unknown, got {other:?}"),
    }
    assert_eq!(parser.phase, ConnPhase::AwaitingStartup);
}

#[test]
fn startup_waits_for_the_whole_message() {
    let mut parser = PostgresParser::new();
    let mut buf = vec![0, 0, 0, 12, 0, 3, 0, 0];
    assert!(parser.try_parse(&buf[..7], Direction::Frontend).is_none());
    assert!(parser.try_parse(&buf, Direction::Frontend).is_none());
    assert_eq!(parser.phase, ConnPhase::AwaitingStartup);
    buf.extend_from_slice(&[b'u', b's', b'r', 0]);
    match parser.try_parse(&buf, Direction::Frontend) {
        Some((ProtoEvent::Unknown { tag }, consumed)) => {
            assert_eq!(tag, 0);
            assert_eq!(consumed, 12);
        }
        other => panic!("Expected Unknown, got {other:?}"),
    }
    assert_eq!(parser.phase, ConnPhase::Authenticating);
}

#[test]
fn cancel_request_is_passed_over() {
    let mut parser = PostgresParser::new();
    let buf = make_startup_message(80877102);
    match parser.try_parse(&buf, Direction::Frontend) {
        Some((ProtoEvent::Unknown { .. }, consumed)) => assert_eq!(consumed, 8),
        other => panic!("Expected Unknown, got {other:?}"),
    }
    assert_eq!(parser.phase, ConnPhase::AwaitingStartup);
}

#[test]
fn regular_length_under_four_skips_one_byte() {
    let mut parser = ready_parser();
    let buf = [b'Q', 0, 0, 0, 3, 1, 2];
    match parser.try_parse(&buf, Direction::Frontend) {
        Some((ProtoEvent::Unknown { tag }, consumed)) => {
            assert_eq!(tag, b'Q');
            assert_eq!(consumed, 1);
        }
        other => panic!("Expected Unknown, got {other:?}"),
    }
}

#[test]
fn first_ready_for_query_ends_authentication() {
    let mut parser = PostgresParser::new();
    parser.phase = ConnPhase::Authenticating;
    match parser.try_parse(&make_ready_for_query(b'T'), Direction::Backend) {
        Some((ProtoEvent::ConnectionReady { status }, 6)) => {
            assert_eq!(status, TxStatus::InTransaction)
        }
        other => panic!("Expected ConnectionReady, got {other:?}"),
    }
    assert_eq!(parser.phase, ConnPhase::Ready);
    match parser.try_parse(&make_ready_for_query(b'E'), Direction::Backend) {
        Some((ProtoEvent::ConnectionReady { status }, _)) => assert_eq!(status, TxStatus::Failed),
        other => panic!("Expected ConnectionReady, got {other:?}"),
    }
    match parser.try_parse(&make_ready_for_query(b'?'), Direction::Backend) {
        Some((ProtoEvent::ConnectionReady { status }, _)) => assert_eq!(status, TxStatus::Idle),
        other => panic!("Expected ConnectionReady, got {other:?}"),
    }
}

#[test]
fn terminate_and_transparent_tags() {
    let mut parser = ready_parser();
    assert!(matches!(
        parser.try_parse(&make_message(b'X', &[]), Direction::Frontend),
        Some((ProtoEvent::ConnectionClosed, 5))
    ));
    for tag in [b'S', b'D', b'H', b'd'] {
        match parser.try_parse(&make_message(tag, &[1, 2]), Direction::Frontend) {
            Some((ProtoEvent::Unknown { tag: seen }, 7)) => assert_eq!(seen, tag),
            other => panic!("Expected Unknown, got {other:?}"),
        }
    }
    match parser.try_parse(&make_message(b'Q', b"x\0"), Direction::Backend) {
        Some((ProtoEvent::Unknown { tag }, _)) => assert_eq!(tag, b'Q'),
        other => panic!("Expected Unknown, got {other:?}"),
    }
}

#[test]
fn execute_of_an_unknown_portal_gives_a_placeholder() {
    let mut parser = ready_parser();
    match parser.try_parse(&make_execute_message("p9"), Direction::Frontend) {
        Some((ProtoEvent::QueryStart { sql }, _)) => {
            assert_eq!(sql, "<execute portal=\"p9\">");
        }
        other => panic!("Expected QueryStart, got {other:?}"),
    }
    // A portal bound to a statement that was never parsed is no better.
    parser.try_parse(&make_bind_message("p1", "nope"), Direction::Frontend).unwrap();
    match parser.try_parse(&make_execute_message("p1"), Direction::Frontend) {
        Some((ProtoEvent::QueryStart { sql }, _)) => {
            assert_eq!(sql, "<execute portal=\"p1\">");
        }
        other => panic!("Expected QueryStart, got {other:?}"),
    }
}

#[test]
fn parse_with_a_reused_name_replaces_the_statement() {
    let mut parser = ready_parser();
    parser.try_parse(&make_parse_message("", "SELECT 1"), Direction::Frontend).unwrap();
    parser.try_parse(&make_parse_message("", "SELECT 2"), Direction::Frontend).unwrap();
    parser.try_parse(&make_bind_message("", ""), Direction::Frontend).unwrap();
    assert_eq!(parser.statements.len(), 1);
    match parser.try_parse(&make_execute_message(""), Direction::Frontend) {
        Some((ProtoEvent::QueryStart { sql }, _)) => assert_eq!(sql, "SELECT 2"),
        other => panic!("Expected QueryStart, got {other:?}"),
    }
}

#[test]
fn parse_without_a_terminated_name_is_unknown() {
    let mut parser = ready_parser();
    match parser.try_parse(&make_message(b'P', b"abc"), Direction::Frontend) {
        Some((ProtoEvent::Unknown { tag }, _)) => assert_eq!(tag, b'P'),
        other => panic!("Expected Unknown, got {other:?}"),
    }
    assert_eq!(parser.statements.len(), 0);
}

#[test]
fn error_response_fields() {
    let payload = b"SERROR\0C42P01\0Mrelation \"t\" does not exist\0Fparse.c\0\0";
    let (severity, code, message) = parse_error_response(payload);
    assert_eq!(severity, "ERROR");
    assert_eq!(code, "42P01");
    assert_eq!(message, "relation \"t\" does not exist");

    let mut parser = ready_parser();
    match parser.try_parse(&make_message(b'E', payload), Direction::Backend) {
        Some((ProtoEvent::QueryError { severity, code, message }, _)) => {
            assert_eq!(severity, "ERROR");
            assert_eq!(code, "42P01");
            assert_eq!(message, "relation \"t\" does not exist");
        }
        other => panic!("Expected QueryError, got {other:?}"),
    }
}

#[test]
fn error_response_edge_cases() {
    assert_eq!(
        parse_error_response(b""),
        (String::new(), String::new(), String::new())
    );
    // The last occurrence of a field counts, and a value without its
    // terminator runs to the end.
    let (severity, code, message) = parse_error_response(b"SNOTICE\0SFATAL\0Mcut off");
    assert_eq!(severity, "FATAL");
    assert_eq!(code, "");
    assert_eq!(message, "cut off");
    // Nothing is read behind the terminator of the list.
    let (severity, _, _) = parse_error_response(b"\0SERROR\0");
    assert_eq!(severity, "");
}

#[test]
fn command_tag_rows_edge_cases() {
    assert_eq!(parse_command_tag_rows(""), None);
    assert_eq!(parse_command_tag_rows("SELECT "), None);
    assert_eq!(parse_command_tag_rows("SELECT x"), None);
    assert_eq!(parse_command_tag_rows("SELECT -1"), None);
    assert_eq!(parse_command_tag_rows("SELECT +7"), Some(7));
    assert_eq!(parse_command_tag_rows("SELECT 007"), Some(7));
    assert_eq!(
        parse_command_tag_rows("COPY 18446744073709551615"),
        Some(u64::MAX)
    );
    assert_eq!(parse_command_tag_rows("COPY 18446744073709551616"), None);
    assert_eq!(parse_command_tag_rows("5"), None);
}

#[test]
fn extract_cstring_stops_at_the_first_zero() {
    assert_eq!(extract_cstring(b"abc\0def\0"), Some("abc".to_string()));
    assert_eq!(extract_cstring(b"\0"), Some(String::new()));
    assert_eq!(extract_cstring(b"abc"), None);
    assert_eq!(extract_cstring(b""), None);
    // Malformed UTF-8 is replaced, never rejected.
    assert_eq!(extract_cstring(&[b'a', 0xFF, b'b', 0]), Some("a\u{FFFD}b".to_string()));
}

#[test]
fn truncate_sql_exact_values() {
    let fits = "a".repeat(MAX_SQL_LEN);
    assert_eq!(truncate_sql(&fits), fits);
    let over = "a".repeat(MAX_SQL_LEN + 1);
    assert_eq!(truncate_sql(&over), "a".repeat(MAX_SQL_LEN) + "...");
    let split = "a".repeat(MAX_SQL_LEN - 1) + "\u{1F600}";
    assert_eq!(truncate_sql(&split), "a".repeat(MAX_SQL_LEN - 1) + "...");
}

#[test]
fn long_sql_is_truncated_at_extraction() {
    let mut parser = ready_parser();
    let long = "a".repeat(5000);
    match parser.try_parse(&make_query_message(&long), Direction::Frontend) {
        Some((ProtoEvent::QueryStart { sql }, consumed)) => {
            assert_eq!(sql, "a".repeat(4096) + "...");
            assert_eq!(consumed, 5006);
        }
        other => panic!("Expected QueryStart, got {other:?}"),
    }
}

#[test]
fn protocol_name_and_arrows() {
    let parser = PostgresParser::new();
    assert_eq!(parser.protocol_name(), "postgres");
    assert_eq!(Direction::Frontend.to_string(), "->");
    assert_eq!(Direction::Backend.to_string(), "<-");
}
