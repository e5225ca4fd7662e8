//! Display events: what the correlator hands to a sink.
use vstd::prelude::*;

verus! {

/// An event after correlation, ready for display.
#[derive(Debug)]
pub struct DisplayEvent {
    /// Wall-clock time in the local zone at which the event was made.
    pub wall_time: chrono::NaiveDateTime,
    /// The connection the event belongs to.
    pub conn_id: u64,
    /// What happened.
    pub kind: DisplayEventKind,
}

/// What a display event reports. Durations are in nanoseconds.
#[derive(Debug)]
#[allow(inconsistent_fields)]
pub enum DisplayEventKind {
    /// A query completed.
    Query { sql: String, duration: u64, rows: Option<u64> },
    /// The server reported an error. `sql` and `duration` are those of the
    /// query that failed, where one was pending.
    Error { sql: Option<String>, duration: Option<u64>, code: String, message: String },
    ConnectionOpened,
    ConnectionClosed,
    Warning(String),
}

/// The mathematical value of a [`DisplayEventKind`].
#[allow(inconsistent_fields)]
pub enum DisplayEventKindView {
    Query { sql: Seq<char>, duration: u64, rows: Option<u64> },
    Error { sql: Option<Seq<char>>, duration: Option<u64>, code: Seq<char>, message: Seq<char> },
    ConnectionOpened,
    ConnectionClosed,
    Warning(Seq<char>),
}

impl View for DisplayEventKind {
    type V = DisplayEventKindView;

    open spec fn view(&self) -> DisplayEventKindView {
        match self {
            DisplayEventKind::Query { sql, duration, rows } => DisplayEventKindView::Query {
                sql: sql@,
                duration: *duration,
                rows: *rows,
            },
            DisplayEventKind::Error { sql, duration, code, message } => DisplayEventKindView::Error {
                sql: match sql {
                    Some(text) => Some(text@),
                    None => None,
                },
                duration: *duration,
                code: code@,
                message: message@,
            },
            DisplayEventKind::ConnectionOpened => DisplayEventKindView::ConnectionOpened,
            DisplayEventKind::ConnectionClosed => DisplayEventKindView::ConnectionClosed,
            DisplayEventKind::Warning(text) => DisplayEventKindView::Warning(text@),
        }
    }
}

impl Clone for DisplayEventKind {
    fn clone(&self) -> (res: Self)
        ensures
            res@ == self@,
    {
        match self {
            DisplayEventKind::Query { sql, duration, rows } => DisplayEventKind::Query {
                sql: sql.clone(),
                duration: *duration,
                rows: *rows,
            },
            DisplayEventKind::Error { sql, duration, code, message } => DisplayEventKind::Error {
                sql: match sql {
                    Some(text) => Some(text.clone()),
                    None => None,
                },
                duration: *duration,
                code: code.clone(),
                message: message.clone(),
            },
            DisplayEventKind::ConnectionOpened => DisplayEventKind::ConnectionOpened,
            DisplayEventKind::ConnectionClosed => DisplayEventKind::ConnectionClosed,
            DisplayEventKind::Warning(text) => DisplayEventKind::Warning(text.clone()),
        }
    }
}

impl Clone for DisplayEvent {
    fn clone(&self) -> (res: Self)
        ensures
            res.wall_time == self.wall_time,
            res.conn_id == self.conn_id,
            res.kind@ == self.kind@,
    {
        DisplayEvent { wall_time: self.wall_time, conn_id: self.conn_id, kind: self.kind.clone() }
    }
}

} // verus!
