//! Events and directions shared by every wire-protocol parser.
use vstd::prelude::*;
use vstd::string::StringExecFns;

pub mod names;
pub mod postgres;

verus! {

/// Direction of a message through the proxy.
#[derive(Clone, Copy, Debug, PartialEq, Eq, Structural)]
pub enum Direction {
    /// Client to server.
    Frontend,
    /// Server to client.
    Backend,
}

impl Direction {
    /// The two-character arrow that stands for the direction.
    pub open spec fn arrow(self) -> Seq<char> {
        match self {
            Direction::Frontend => seq!['-', '>'],
            Direction::Backend => seq!['<', '-'],
        }
    }

    /// Renders the direction as an arrow: `->` towards the server, `<-`
    /// towards the client.
    pub fn to_string(&self) -> (s: String)
        ensures
            s@ == self.arrow(),
    {
        proof {
            reveal_strlit("->");
            reveal_strlit("<-");
        }
        match self {
            Direction::Frontend => {
                let s = String::from_str("->");
                assert(s@ =~= self.arrow());
                s
            },
            Direction::Backend => {
                let s = String::from_str("<-");
                assert(s@ =~= self.arrow());
                s
            },
        }
    }
}

/// Transaction status reported by `ReadyForQuery`.
#[derive(Clone, Copy, Debug, PartialEq, Eq, Structural)]
pub enum TxStatus {
    Idle,
    InTransaction,
    Failed,
}

/// One wire-protocol message, as the parser reports it.
#[derive(Debug)]
#[allow(inconsistent_fields)]
pub enum ProtoEvent {
    QueryStart { sql: String },
    QueryComplete { tag: String, rows: Option<u64> },
    QueryError { severity: String, code: String, message: String },
    ConnectionReady { status: TxStatus },
    ParseDetected { sql: String },
    ConnectionClosed,
    Unknown { tag: u8 },
}

/// The mathematical value of a [`ProtoEvent`]: the same variants, with each
/// string replaced by its sequence of characters.
#[allow(inconsistent_fields)]
pub enum ProtoEventView {
    QueryStart { sql: Seq<char> },
    QueryComplete { tag: Seq<char>, rows: Option<u64> },
    QueryError { severity: Seq<char>, code: Seq<char>, message: Seq<char> },
    ConnectionReady { status: TxStatus },
    ParseDetected { sql: Seq<char> },
    ConnectionClosed,
    Unknown { tag: u8 },
}

impl View for ProtoEvent {
    type V = ProtoEventView;

    open spec fn view(&self) -> ProtoEventView {
        match self {
            ProtoEvent::QueryStart { sql } => ProtoEventView::QueryStart { sql: sql@ },
            ProtoEvent::QueryComplete { tag, rows } => ProtoEventView::QueryComplete {
                tag: tag@,
                rows: *rows,
            },
            ProtoEvent::QueryError { severity, code, message } => ProtoEventView::QueryError {
                severity: severity@,
                code: code@,
                message: message@,
            },
            ProtoEvent::ConnectionReady { status } => ProtoEventView::ConnectionReady {
                status: *status,
            },
            ProtoEvent::ParseDetected { sql } => ProtoEventView::ParseDetected { sql: sql@ },
            ProtoEvent::ConnectionClosed => ProtoEventView::ConnectionClosed,
            ProtoEvent::Unknown { tag } => ProtoEventView::Unknown { tag: *tag },
        }
    }
}

impl Clone for ProtoEvent {
    fn clone(&self) -> (res: Self)
        ensures
            res@ == self@,
    {
        match self {
            ProtoEvent::QueryStart { sql } => ProtoEvent::QueryStart { sql: sql.clone() },
            ProtoEvent::QueryComplete { tag, rows } => ProtoEvent::QueryComplete {
                tag: tag.clone(),
                rows: *rows,
            },
            ProtoEvent::QueryError { severity, code, message } => ProtoEvent::QueryError {
                severity: severity.clone(),
                code: code.clone(),
                message: message.clone(),
            },
            ProtoEvent::ConnectionReady { status } => ProtoEvent::ConnectionReady {
                status: *status,
            },
            ProtoEvent::ParseDetected { sql } => ProtoEvent::ParseDetected { sql: sql.clone() },
            ProtoEvent::ConnectionClosed => ProtoEvent::ConnectionClosed,
            ProtoEvent::Unknown { tag } => ProtoEvent::Unknown { tag: *tag },
        }
    }
}

/// Parses the wire protocol of one database. One instance serves one
/// connection and sees both directions of it.
pub trait ProtocolParser: Send + 'static {
    /// Takes the next complete message off the front of `buf`. Returns the
    /// event and the number of bytes it covers, or `None` while `buf` holds
    /// no complete message. A reported message covers at least one byte and
    /// never more than `buf` holds.
    fn try_parse(&mut self, buf: &[u8], direction: Direction) -> (res: Option<(ProtoEvent, usize)>)
        ensures
            res matches Some((_, consumed)) ==> 1 <= consumed <= buf@.len(),
    ;

    /// A short name for the protocol.
    fn protocol_name(&self) -> &'static str;

    /// Looks at the client's bytes before they are forwarded. Returns the
    /// bytes to send back to the client in place of forwarding, if any.
    fn handle_startup_intercept(&mut self, buf: &[u8], direction: Direction) -> Option<Vec<u8>>;
}

} // verus!
