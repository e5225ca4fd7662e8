use chrono::{NaiveDate, NaiveDateTime};
use dbprobe::output::{DisplayEvent, DisplayEventKind};
use dbprobe::protocol::postgres::{ConnPhase, PostgresParser};
use dbprobe::protocol::{Direction, ProtoEvent, ProtocolParser, TxStatus};
use dbprobe::stats::{QueryAggregates, StatsCollector};

const MS: u64 = 1_000_000;

fn wall() -> NaiveDateTime {
    NaiveDate::from_ymd_opt(2024, 5, 6).unwrap().and_hms_milli_opt(7, 8, 9, 10).unwrap()
}

fn start(sql: &str) -> ProtoEvent {
    ProtoEvent::QueryStart { sql: sql.to_string() }
}

fn complete(rows: Option<u64>) -> ProtoEvent {
    ProtoEvent::QueryComplete { tag: "SELECT".to_string(), rows }
}

fn error(severity: &str) -> ProtoEvent {
    ProtoEvent::QueryError {
        severity: severity.to_string(),
        code: "42P01".to_string(),
        message: "no such table".to_string(),
    }
}

/// Runs one query of the given duration on connection 1.
fn run(stats: &mut StatsCollector, sql: &str, at: u64, took: u64) -> Option<DisplayEvent> {
    assert!(stats.process_event_at(1, start(sql), at, wall()).is_none());
    stats.process_event_at(1, complete(None), at + took, wall())
}

fn summary(a: &QueryAggregates) -> (String, u64, u128, u64, u64) {
    (a.fingerprint.clone(), a.count, a.total_duration, a.min_duration, a.max_duration)
}

#[test]
fn a_new_collector_is_empty() {
    let mut stats = StatsCollector::new();
    assert_eq!(stats.total_queries(), 0);
    assert_eq!(stats.total_errors(), 0);
    assert_eq!(stats.active_connections(), 0);
    assert_eq!(stats.latency_buckets(), [0; 6]);
    assert!(stats.fingerprints().is_empty());
    assert_eq!(stats.first_query_at(), None);
    assert_eq!(stats.last_query_at(), None);
    assert_eq!(stats.qps_at(0), 0);
    assert!(stats.top_queries(5).is_empty());
}

#[test]
fn a_completed_query_is_measured_and_reported() {
    let mut stats = StatsCollector::new();
    assert!(stats.process_event_at(7, start("SELECT * FROM t"), 1_000, wall()).is_none());
    assert_eq!(stats.pending_count(7), 1);
    let event = stats.process_event_at(7, complete(Some(5)), 4_500, wall()).unwrap();
    assert_eq!(event.conn_id, 7);
    assert_eq!(event.wall_time, wall());
    match event.kind {
        DisplayEventKind::Query { sql, duration, rows } => {
            assert_eq!(sql, "SELECT * FROM t");
            assert_eq!(duration, 3_500);
            assert_eq!(rows, Some(5));
        }
        other => panic!("Expected Query, got {other:?}"),
    }
    assert_eq!(stats.pending_count(7), 0);
    assert_eq!(stats.total_queries(), 1);
    assert_eq!(stats.first_query_at(), Some(4_500));
    assert_eq!(stats.last_query_at(), Some(4_500));
}

#[test]
fn a_clock_that_went_back_gives_a_zero_duration() {
    let mut stats = StatsCollector::new();
    stats.process_event_at(1, start("SELECT 1"), 10_000, wall());
    match stats.process_event_at(1, complete(None), 9_000, wall()).unwrap().kind {
        DisplayEventKind::Query { duration, .. } => assert_eq!(duration, 0),
        other => panic!("Expected Query, got {other:?}"),
    }
}

#[test]
fn simple_query_scenario_through_parser_and_clock() {
    let mut parser = PostgresParser::new();
    parser.phase = ConnPhase::Ready;
    let mut stats = StatsCollector::new();
    let query = [
        b'Q', 0x00, 0x00, 0x00, 0x14, 0x53, 0x45, 0x4C, 0x45, 0x43, 0x54, 0x20, 0x2A, 0x20, 0x46,
        0x52, 0x4F, 0x4D, 0x20, 0x74, 0x00,
    ];
    let (event, _) = parser.try_parse(&query, Direction::Frontend).unwrap();
    assert!(stats.process_event(3, event).is_none());
    let done = [
        b'C', 0x00, 0x00, 0x00, 0x0D, 0x53, 0x45, 0x4C, 0x45, 0x43, 0x54, 0x20, 0x35, 0x00,
    ];
    let (event, _) = parser.try_parse(&done, Direction::Backend).unwrap();
    let shown = stats.process_event(3, event).unwrap();
    assert_eq!(shown.conn_id, 3);
    match shown.kind {
        DisplayEventKind::Query { sql, duration, rows } => {
            assert_eq!(sql, "SELECT * FROM t");
            assert_eq!(rows, Some(5));
            // Elapsed time is never negative, and a query that took no
            // thousand seconds says how the clock is read.
            assert!(duration < 1_000_000_000_000);
        }
        other => panic!("Expected Query, got {other:?}"),
    }
    assert_eq!(stats.total_queries(), 1);
    assert_eq!(stats.qps(), 1);
}

#[test]
fn queries_are_answered_in_the_order_they_were_asked() {
    let mut stats = StatsCollector::new();
    stats.process_event_at(1, start("first"), 0, wall());
    stats.process_event_at(1, start("second"), 10, wall());
    stats.process_event_at(2, start("other"), 20, wall());
    match stats.process_event_at(1, complete(None), 100, wall()).unwrap().kind {
        DisplayEventKind::Query { sql, duration, .. } => {
            assert_eq!(sql, "first");
            assert_eq!(duration, 100);
        }
        other => panic!("Expected Query, got {other:?}"),
    }
    match stats.process_event_at(1, complete(None), 100, wall()).unwrap().kind {
        DisplayEventKind::Query { sql, duration, .. } => {
            assert_eq!(sql, "second");
            assert_eq!(duration, 90);
        }
        other => panic!("Expected Query, got {other:?}"),
    }
    assert_eq!(stats.pending_count(2), 1);
}

#[test]
fn a_completion_without_a_pending_query_is_ignored() {
    let mut stats = StatsCollector::new();
    assert!(stats.process_event_at(1, complete(Some(1)), 5, wall()).is_none());
    stats.connection_opened_at(1, wall());
    assert!(stats.process_event_at(1, complete(Some(1)), 5, wall()).is_none());
    assert_eq!(stats.total_queries(), 0);
    assert_eq!(stats.latency_buckets(), [0; 6]);
}

#[test]
fn latency_buckets_have_their_lower_bound_and_not_their_upper() {
    let mut stats = StatsCollector::new();
    let durations = [
        0,
        MS - 1,
        MS,
        5 * MS - 1,
        5 * MS,
        10 * MS - 1,
        10 * MS,
        50 * MS - 1,
        50 * MS,
        100 * MS - 1,
        100 * MS,
        u64::MAX,
    ];
    for took in durations {
        assert!(run(&mut stats, "SELECT 1", 0, took).is_some());
    }
    assert_eq!(stats.latency_buckets(), [2, 2, 2, 2, 2, 2]);
    assert_eq!(stats.total_queries(), 12);
    let sum: u64 = stats.latency_buckets().iter().sum();
    assert_eq!(sum, stats.total_queries());
}

#[test]
fn aggregates_are_kept_per_fingerprint() {
    let mut stats = StatsCollector::new();
    run(&mut stats, "SELECT * FROM t WHERE id = 1", 0, 30);
    run(&mut stats, "UPDATE t SET a = 'x'", 0, 7);
    run(&mut stats, "select * from t where id = 22", 0, 10);
    run(&mut stats, "SELECT * FROM t WHERE id = 333", 0, 50);
    let seen: Vec<_> = stats.fingerprints().iter().map(summary).collect();
    assert_eq!(
        seen,
        vec![
            ("select * from t where id = $n".to_string(), 3, 90, 10, 50),
            ("update t set a = $s".to_string(), 1, 7, 7, 7),
        ]
    );
    for a in stats.fingerprints() {
        assert!(a.count > 0);
        let mean = a.total_duration / a.count as u128;
        assert!(a.min_duration as u128 <= mean && mean <= a.max_duration as u128);
    }
}

#[test]
fn top_queries_rank_by_total_time_and_then_by_first_sight() {
    let mut stats = StatsCollector::new();
    run(&mut stats, "a", 0, 10);
    run(&mut stats, "b", 0, 40);
    run(&mut stats, "c", 0, 25);
    run(&mut stats, "d", 0, 40);
    run(&mut stats, "a", 0, 15);
    let names = |top: Vec<QueryAggregates>| -> Vec<String> {
        top.into_iter().map(|a| a.fingerprint).collect()
    };
    assert_eq!(names(stats.top_queries(10)), vec!["b", "d", "a", "c"]);
    assert_eq!(names(stats.top_queries(4)), vec!["b", "d", "a", "c"]);
    assert_eq!(names(stats.top_queries(2)), vec!["b", "d"]);
    assert_eq!(names(stats.top_queries(0)), Vec::<String>::new());
    let first = &stats.top_queries(1)[0];
    assert_eq!(summary(first), ("b".to_string(), 1, 40, 40, 40));
}

#[test]
fn the_rate_counts_the_last_second() {
    let second = 1_000_000_000u64;
    let mut stats = StatsCollector::new();
    run(&mut stats, "a", 0, 100);
    run(&mut stats, "a", 0, second / 2);
    run(&mut stats, "a", 0, second);
    assert_eq!(stats.qps_at(second), 3);
    // An entry that is exactly a second old has expired.
    assert_eq!(stats.qps_at(second + 100), 2);
    assert_eq!(stats.qps_at(second + second / 2), 1);
    assert_eq!(stats.qps_at(2 * second), 0);
    assert_eq!(stats.qps_at(0), 0);
    assert_eq!(stats.total_queries(), 3);
}

#[test]
fn the_rate_only_drops_from_the_head() {
    let second = 1_000_000_000u64;
    let mut stats = StatsCollector::new();
    run(&mut stats, "a", 0, 5 * second);
    run(&mut stats, "a", 0, 10);
    // The entry at the head is fresh, so the stale one behind it stays.
    assert_eq!(stats.qps_at(5 * second + 1), 2);
    assert_eq!(stats.qps_at(6 * second), 0);
}

#[test]
fn errors_are_reported_with_the_query_that_failed() {
    let mut stats = StatsCollector::new();
    stats.process_event_at(4, start("SELECT * FROM missing"), 100, wall());
    let shown = stats.process_event_at(4, error("ERROR"), 350, wall()).unwrap();
    assert_eq!(shown.conn_id, 4);
    match shown.kind {
        DisplayEventKind::Error { sql, duration, code, message } => {
            assert_eq!(sql, Some("SELECT * FROM missing".to_string()));
            assert_eq!(duration, Some(250));
            assert_eq!(code, "42P01");
            assert_eq!(message, "no such table");
        }
        other => panic!("Expected Error, got {other:?}"),
    }
    assert_eq!(stats.total_errors(), 1);
    assert_eq!(stats.total_queries(), 0);
    assert_eq!(stats.pending_count(4), 0);
}

#[test]
fn fatal_errors_without_a_query_are_reported_bare() {
    let mut stats = StatsCollector::new();
    match stats.process_event_at(9, error("FATAL"), 1, wall()).unwrap().kind {
        DisplayEventKind::Error { sql, duration, .. } => {
            assert_eq!(sql, None);
            assert_eq!(duration, None);
        }
        other => panic!("Expected Error, got {other:?}"),
    }
}

#[test]
fn notices_are_dropped_but_keep_the_queue_aligned() {
    let mut stats = StatsCollector::new();
    for severity in ["NOTICE", "WARNING", "INFO", "DEBUG", "error", ""] {
        stats.process_event_at(1, start("SELECT 1"), 0, wall());
        assert!(stats.process_event_at(1, error(severity), 1, wall()).is_none());
        assert_eq!(stats.pending_count(1), 0);
    }
    assert_eq!(stats.total_errors(), 6);
}

#[test]
fn error_flushes_queue_scenario() {
    fn frame(tag: u8, payload: &[u8]) -> Vec<u8> {
        let mut buf = vec![tag];
        buf.extend_from_slice(&((payload.len() + 4) as u32).to_be_bytes());
        buf.extend_from_slice(payload);
        buf
    }
    let mut parser = PostgresParser::new();
    parser.phase = ConnPhase::Ready;
    let mut stats = StatsCollector::new();
    let mut shown = Vec::new();
    let frontend = [
        frame(b'P', b"s1\0INSERT INTO t VALUES ($1)\0\0\0"),
        frame(b'B', b"p1\0s1\0\0\0\0\0\0\0"),
        frame(b'E', b"p1\0\0\0\0\0"),
        frame(b'E', b"p1\0\0\0\0\0"),
    ];
    for bytes in &frontend {
        let (event, consumed) = parser.try_parse(bytes, Direction::Frontend).unwrap();
        assert_eq!(consumed, bytes.len());
        shown.extend(stats.process_event_at(1, event, 10, wall()));
    }
    assert_eq!(stats.pending_count(1), 2);
    let backend = [frame(b'E', b"SERROR\0C23505\0Mduplicate key\0\0"), frame(b'Z', b"E")];
    for bytes in &backend {
        let (event, _) = parser.try_parse(bytes, Direction::Backend).unwrap();
        shown.extend(stats.process_event_at(1, event, 20, wall()));
    }
    assert_eq!(stats.pending_count(1), 0);
    // A late completion finds nothing to complete.
    assert!(stats.process_event_at(1, complete(Some(1)), 30, wall()).is_none());
    let kinds: Vec<_> = shown.into_iter().map(|e| e.kind).collect();
    assert_eq!(kinds.len(), 2);
    match &kinds[0] {
        DisplayEventKind::Warning(text) => {
            assert_eq!(text, "Extended query protocol: INSERT INTO t VALUES ($1)")
        }
        other => panic!("Expected Warning, got {other:?}"),
    }
    match &kinds[1] {
        DisplayEventKind::Error { sql, duration, code, message } => {
            assert_eq!(sql.as_deref(), Some("INSERT INTO t VALUES ($1)"));
            assert_eq!(*duration, Some(10));
            assert_eq!(code, "23505");
            assert_eq!(message, "duplicate key");
        }
        other => panic!("Expected Error, got {other:?}"),
    }
    assert_eq!(stats.total_queries(), 0);
    assert_eq!(stats.total_errors(), 1);
}

#[test]
fn ready_for_query_leaves_unknown_connections_unknown() {
    let mut stats = StatsCollector::new();
    let ready = ProtoEvent::ConnectionReady { status: TxStatus::InTransaction };
    assert!(stats.process_event_at(1, ready, 0, wall()).is_none());
    assert_eq!(stats.pending_count(1), 0);
    assert!(stats.connection_dropped_at(1, wall()).is_none());
}

#[test]
fn a_parse_warns_and_joins_no_queue() {
    let mut stats = StatsCollector::new();
    let long = "x".repeat(81);
    let shown = stats
        .process_event_at(2, ProtoEvent::ParseDetected { sql: long }, 0, wall())
        .unwrap();
    match shown.kind {
        DisplayEventKind::Warning(text) => {
            assert_eq!(text, format!("Extended query protocol: {}...", "x".repeat(80)))
        }
        other => panic!("Expected Warning, got {other:?}"),
    }
    assert_eq!(stats.pending_count(2), 0);
    assert!(stats.process_event_at(2, ProtoEvent::Unknown { tag: 1 }, 0, wall()).is_none());
}

#[test]
fn connections_are_counted() {
    let mut stats = StatsCollector::new();
    let opened = stats.connection_opened_at(1, wall());
    assert_eq!(opened.conn_id, 1);
    assert_eq!(opened.wall_time, wall());
    assert!(matches!(opened.kind, DisplayEventKind::ConnectionOpened));
    assert!(matches!(stats.connection_opened(2).kind, DisplayEventKind::ConnectionOpened));
    stats.connection_opened_at(3, wall());
    assert_eq!(stats.active_connections(), 3);

    // The client says goodbye; the socket closing afterwards is no news.
    let closed = stats.process_event_at(1, ProtoEvent::ConnectionClosed, 0, wall()).unwrap();
    assert!(matches!(closed.kind, DisplayEventKind::ConnectionClosed));
    assert!(stats.connection_dropped_at(1, wall()).is_none());
    assert_eq!(stats.active_connections(), 2);

    let dropped = stats.connection_dropped_at(2, wall()).unwrap();
    assert_eq!(dropped.conn_id, 2);
    assert!(matches!(dropped.kind, DisplayEventKind::ConnectionClosed));
    assert!(stats.connection_dropped(2).is_none());
    assert!(stats.connection_dropped(3).is_some());
    // Three were opened and three were closed.
    assert_eq!(stats.active_connections(), 0);
}

#[test]
fn the_connection_count_stops_at_zero() {
    let mut stats = StatsCollector::new();
    assert!(stats.process_event_at(5, ProtoEvent::ConnectionClosed, 0, wall()).is_some());
    assert_eq!(stats.active_connections(), 0);
}

#[test]
fn opening_a_connection_again_empties_its_queue() {
    let mut stats = StatsCollector::new();
    stats.process_event_at(1, start("SELECT 1"), 0, wall());
    stats.connection_opened_at(1, wall());
    assert_eq!(stats.pending_count(1), 0);
}

#[test]
fn reset_starts_a_fresh_window_and_keeps_the_connections() {
    let mut stats = StatsCollector::new();
    stats.connection_opened_at(1, wall());
    run(&mut stats, "SELECT 1", 0, 10);
    stats.process_event_at(1, error("NOTICE"), 0, wall());
    stats.process_event_at(1, start("SELECT 2"), 50, wall());
    stats.reset();
    assert_eq!(stats.total_queries(), 0);
    assert_eq!(stats.total_errors(), 0);
    assert_eq!(stats.latency_buckets(), [0; 6]);
    assert!(stats.fingerprints().is_empty());
    assert_eq!(stats.first_query_at(), None);
    assert_eq!(stats.last_query_at(), None);
    assert_eq!(stats.qps_at(10), 0);
    assert_eq!(stats.active_connections(), 1);
    assert_eq!(stats.pending_count(1), 1);
    match stats.process_event_at(1, complete(None), 80, wall()).unwrap().kind {
        DisplayEventKind::Query { sql, duration, .. } => {
            assert_eq!(sql, "SELECT 2");
            assert_eq!(duration, 30);
        }
        other => panic!("Expected Query, got {other:?}"),
    }
    assert_eq!(stats.first_query_at(), Some(80));
}

#[test]
fn display_events_and_aggregates_can_be_cloned() {
    let mut stats = StatsCollector::new();
    let shown = run(&mut stats, "SELECT 1", 5, 10).unwrap();
    let copy = shown.clone();
    assert_eq!(copy.conn_id, shown.conn_id);
    assert_eq!(copy.wall_time, shown.wall_time);
    match (copy.kind, shown.kind) {
        (
            DisplayEventKind::Query { sql: a, duration: x, rows: p },
            DisplayEventKind::Query { sql: b, duration: y, rows: q },
        ) => {
            assert_eq!(a, b);
            assert_eq!(x, y);
            assert_eq!(p, q);
        }
        other => panic!("Expected two Query events, got {other:?}"),
    }
    let a = stats.fingerprints()[0].clone();
    assert_eq!(summary(&a), ("select $n".to_string(), 1, 10, 10, 10));
    let event = start("SELECT 1");
    match event.clone() {
        ProtoEvent::QueryStart { sql } => assert_eq!(sql, "SELECT 1"),
        other => panic!("Expected QueryStart, got {other:?}"),
    }
}
