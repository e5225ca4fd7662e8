use dbprobe::protocol::postgres::{ConnPhase, PostgresParser};
use dbprobe::protocol::{Direction, ProtoEvent};
use dbprobe::proxy::{
    drain_events, intercept_frontend, new_parse_buffer, relay_backend, relay_events,
    relay_frontend, ProxyMessage,
};

fn frame(tag: u8, payload: &[u8]) -> Vec<u8> {
    let mut buf = vec![tag];
    buf.extend_from_slice(&((payload.len() + 4) as u32).to_be_bytes());
    buf.extend_from_slice(payload);
    buf
}

fn startup() -> Vec<u8> {
    let mut buf = vec![0, 0, 0, 13, 0, 3, 0, 0];
    buf.extend_from_slice(b"user\0");
    buf
}

const SSL_REQUEST: [u8; 8] = [0x00, 0x00, 0x00, 0x08, 0x04, 0xD2, 0x16, 0x2F];

fn sql_of(message: &ProxyMessage) -> (u64, String) {
    match message {
        ProxyMessage::Event { conn_id, event: ProtoEvent::QueryStart { sql } } => {
            (*conn_id, sql.clone())
        }
        other => panic!("Expected a QueryStart message, got {other:?}"),
    }
}

#[test]
fn ssl_reject_scenario_through_the_relay() {
    let mut parser = PostgresParser::new();
    let mut buf = new_parse_buffer();
    let step = relay_frontend(&mut parser, &mut buf, 1, &SSL_REQUEST).unwrap();
    assert_eq!(step.reply, Some(vec![0x4E]));
    assert!(step.upstream.is_empty());
    assert!(step.messages.is_empty());
    assert!(buf.is_empty());
    assert_eq!(parser.phase, ConnPhase::AwaitingStartupAfterSslReject);
}

#[test]
fn bytes_behind_an_ssl_request_are_forwarded() {
    let mut parser = PostgresParser::new();
    let mut buf = new_parse_buffer();
    let mut chunk = SSL_REQUEST.to_vec();
    chunk.extend_from_slice(&startup());
    let step = relay_frontend(&mut parser, &mut buf, 1, &chunk).unwrap();
    assert_eq!(step.reply, Some(vec![0x4E]));
    assert_eq!(step.upstream, startup());
    assert_eq!(step.messages.len(), 1);
    assert!(matches!(
        step.messages[0],
        ProxyMessage::Event { conn_id: 1, event: ProtoEvent::Unknown { tag: 0 } }
    ));
    assert!(buf.is_empty());
    assert_eq!(parser.phase, ConnPhase::Authenticating);
}

#[test]
fn a_session_is_relayed_read_by_read() {
    let mut parser = PostgresParser::new();
    let mut front = new_parse_buffer();
    let mut back = new_parse_buffer();

    let step = relay_frontend(&mut parser, &mut front, 4, &startup()).unwrap();
    assert_eq!(step.reply, None);
    assert_eq!(step.upstream, startup());
    assert_eq!(step.messages.len(), 1);
    assert_eq!(parser.phase, ConnPhase::Authenticating);

    let ready = frame(b'Z', b"I");
    let messages = relay_backend(&mut parser, &mut back, 4, &ready).unwrap();
    assert_eq!(messages.len(), 1);
    assert!(matches!(
        messages[0],
        ProxyMessage::Event { conn_id: 4, event: ProtoEvent::ConnectionReady { .. } }
    ));
    assert_eq!(parser.phase, ConnPhase::Ready);

    // Two queries arrive in three reads that cut across the frames.
    let mut bytes = frame(b'Q', b"SELECT 1\0");
    bytes.extend_from_slice(&frame(b'Q', b"SELECT 2\0"));
    let step = relay_frontend(&mut parser, &mut front, 4, &bytes[..3]).unwrap();
    assert_eq!(step.upstream, &bytes[..3]);
    assert!(step.messages.is_empty());
    assert_eq!(&front[..], &bytes[..3]);

    let step = relay_frontend(&mut parser, &mut front, 4, &bytes[3..20]).unwrap();
    assert_eq!(step.reply, None);
    assert_eq!(step.upstream, &bytes[3..20]);
    assert_eq!(step.messages.len(), 1);
    assert_eq!(sql_of(&step.messages[0]), (4, "SELECT 1".to_string()));
    assert_eq!(&front[..], &bytes[14..20]);

    let step = relay_frontend(&mut parser, &mut front, 4, &bytes[20..]).unwrap();
    assert_eq!(step.messages.len(), 1);
    assert_eq!(sql_of(&step.messages[0]), (4, "SELECT 2".to_string()));
    assert!(front.is_empty());
}

#[test]
fn two_frames_in_one_read_give_two_events_in_order() {
    let mut parser = PostgresParser::new();
    parser.phase = ConnPhase::Ready;
    let mut buf = new_parse_buffer();
    let mut bytes = frame(b'C', b"INSERT 0 3\0");
    bytes.extend_from_slice(&frame(b'C', b"BEGIN\0"));
    bytes.extend_from_slice(&[b'C', 0, 0]);
    let messages = relay_backend(&mut parser, &mut buf, 8, &bytes).unwrap();
    let rows: Vec<_> = messages
        .iter()
        .map(|m| match m {
            ProxyMessage::Event { conn_id: 8, event: ProtoEvent::QueryComplete { tag, rows } } => {
                (tag.clone(), *rows)
            }
            other => panic!("Expected QueryComplete, got {other:?}"),
        })
        .collect();
    assert_eq!(
        rows,
        vec![("INSERT 0 3".to_string(), Some(3)), ("BEGIN".to_string(), None)]
    );
    assert_eq!(&buf[..], &[b'C', 0, 0]);
}

#[test]
fn malformed_frames_are_skipped_byte_by_byte() {
    let mut parser = PostgresParser::new();
    parser.phase = ConnPhase::Ready;
    let mut buf = new_parse_buffer();
    buf.extend_from_slice(&[b'x', 0, 0, 0, 3]);
    buf.extend_from_slice(&frame(b'X', b""));
    let events = drain_events(&mut parser, &mut buf, Direction::Frontend);
    // The bad frame costs one byte; what follows is read anew from there,
    // until a frame head asks for more bytes than there are.
    assert!(matches!(events[0], ProtoEvent::Unknown { tag: b'x' }));
    assert_eq!(events.len(), 1);
    assert_eq!(&buf[..], &[0, 0, 0, 3, b'X', 0, 0, 0, 4]);
}

#[test]
fn an_ssl_request_is_not_intercepted_once_the_session_runs() {
    let mut parser = PostgresParser::new();
    parser.phase = ConnPhase::Ready;
    let mut buf = new_parse_buffer();
    let step = relay_frontend(&mut parser, &mut buf, 1, &SSL_REQUEST).unwrap();
    assert_eq!(step.reply, None);
    assert_eq!(step.upstream, SSL_REQUEST);
}

#[test]
fn a_new_parse_buffer_is_empty() {
    assert!(new_parse_buffer().is_empty());
}

#[test]
fn interception_comes_before_parsing() {
    let mut parser = PostgresParser::new();
    let mut buf = new_parse_buffer();
    let mut chunk = SSL_REQUEST.to_vec();
    chunk.extend_from_slice(&startup());
    let taken = intercept_frontend(&mut parser, &mut buf, &chunk).unwrap();
    assert_eq!(taken.reply, Some(vec![b'N']));
    assert_eq!(taken.upstream, startup());
    // The request is gone from the buffer, and nothing was parsed yet.
    assert_eq!(&buf[..], &startup()[..]);
    assert_eq!(parser.phase, ConnPhase::AwaitingStartupAfterSslReject);

    let messages = relay_events(&mut parser, &mut buf, 6, Direction::Frontend);
    assert_eq!(messages.len(), 1);
    assert!(buf.is_empty());
    assert_eq!(parser.phase, ConnPhase::Authenticating);

    let query = frame(b'Q', b"SELECT 1\0");
    let taken = intercept_frontend(&mut parser, &mut buf, &query).unwrap();
    assert_eq!(taken.reply, None);
    assert_eq!(taken.upstream, query);
    assert_eq!(&buf[..], &query[..]);
}
