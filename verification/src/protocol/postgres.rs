//! The PostgreSQL frontend/backend protocol, version 3.0.
//!
//! [`PostgresParser`] cuts a byte stream into messages and reports each one
//! as a [`ProtoEvent`]. It follows the startup phase, in which messages carry
//! no tag byte, and remembers prepared statements and portals so that an
//! `Execute` can be reported with the SQL text it runs.
use vstd::prelude::*;
use vstd::slice::slice_subrange;
use vstd::string::StringExecFns;

use crate::protocol::names::NameMap;
use crate::protocol::{Direction, ProtoEvent, ProtoEventView, ProtocolParser, TxStatus};
use crate::text::{
    chars_of, debug_quoted, debug_text, decode_lossy, is_digit, lossy_text, truncate, truncated,
};

verus! {

/// Version code of an `SSLRequest`.
pub const SSL_REQUEST_CODE: u32 = 80877103;

/// Version code of a `StartupMessage` for protocol 3.0.
pub const STARTUP_VERSION_3_0: u32 = 196608;

/// Version code of a `CancelRequest`.
pub const CANCEL_REQUEST_CODE: u32 = 80877102;

/// The longest SQL text, in bytes, that is reported without truncation.
pub const MAX_SQL_LEN: usize = 4096;

/// The longest startup message that is accepted.
pub const MAX_STARTUP_LEN: u32 = 10000;

/// Where a connection stands in the protocol.
#[derive(Clone, Copy, Debug, PartialEq, Eq, Structural)]
pub enum ConnPhase {
    /// Nothing seen yet: the client's first message carries no tag byte.
    AwaitingStartup,
    /// An `SSLRequest` was answered with `N`; the real startup message is
    /// still to come.
    AwaitingStartupAfterSslReject,
    /// The startup message was seen; every message is framed from here on.
    Authenticating,
    /// The server has reported `ReadyForQuery` at least once.
    Ready,
}

impl ConnPhase {
    /// True in the two phases in which the client's next message is an
    /// unframed startup message.
    pub open spec fn awaits_startup(self) -> bool {
        self == ConnPhase::AwaitingStartup || self == ConnPhase::AwaitingStartupAfterSslReject
    }
}

// ---------------------------------------------------------------------------
// Integers and C strings on the wire
// ---------------------------------------------------------------------------
/// The unsigned 32-bit integer that four bytes spell in network byte order.
pub open spec fn be_u32(b0: u8, b1: u8, b2: u8, b3: u8) -> int {
    b0 as int * 16777216 + b1 as int * 65536 + b2 as int * 256 + b3 as int
}

/// The big-endian integer in the four bytes of `bytes` that start at `at`.
pub open spec fn be_u32_at(bytes: Seq<u8>, at: int) -> int {
    be_u32(bytes[at], bytes[at + 1], bytes[at + 2], bytes[at + 3])
}

/// Reads the big-endian 32-bit integer at `at`.
pub fn read_be_u32(buf: &[u8], at: usize) -> (v: u32)
    requires
        at + 4 <= buf@.len(),
    ensures
        v == be_u32_at(buf@, at as int),
{
    let b0: u32 = buf[at] as u32;
    let b1: u32 = buf[at + 1] as u32;
    let b2: u32 = buf[at + 2] as u32;
    let b3: u32 = buf[at + 3] as u32;
    b0 * 16777216 + b1 * 65536 + b2 * 256 + b3
}

/// The position of the first zero byte of `bytes` at or after `from`, or the
/// length of `bytes` if there is none.
pub open spec fn cstring_end(bytes: Seq<u8>, from: int) -> int
    decreases bytes.len() - from,
{
    if from < 0 || from >= bytes.len() {
        bytes.len() as int
    } else if bytes[from] == 0 {
        from
    } else {
        cstring_end(bytes, from + 1)
    }
}

/// The zero-terminated string that starts at `from`, decoded leniently, or
/// `None` if no zero byte follows.
pub open spec fn cstring_at(bytes: Seq<u8>, from: int) -> Option<Seq<char>> {
    let end = cstring_end(bytes, from);
    if 0 <= from && end < bytes.len() {
        Some(lossy_text(bytes.subrange(from, end)))
    } else {
        None
    }
}

/// The zero-terminated string at `from`, or the empty text if there is none.
pub open spec fn cstring_or_empty(bytes: Seq<u8>, from: int) -> Seq<char> {
    match cstring_at(bytes, from) {
        Some(text) => text,
        None => Seq::empty(),
    }
}

/// A string ends at or after the position at which it starts, and within
/// the bytes.
pub proof fn lemma_cstring_end_bounds(bytes: Seq<u8>, from: int)
    requires
        0 <= from <= bytes.len(),
    ensures
        from <= cstring_end(bytes, from) <= bytes.len(),
    decreases bytes.len() - from,
{
    if from < bytes.len() && bytes[from] != 0 {
        lemma_cstring_end_bounds(bytes, from + 1);
    }
}

/// A position `end` that no zero byte precedes, and that is a zero byte or
/// the end of the bytes, is where the string at `from` ends.
pub proof fn lemma_cstring_end(bytes: Seq<u8>, from: int, end: int)
    requires
        0 <= from <= end <= bytes.len(),
        forall|j: int| from <= j < end ==> bytes[j] != 0,
        end == bytes.len() || bytes[end] == 0,
    ensures
        cstring_end(bytes, from) == end,
    decreases end - from,
{
    if from < end {
        lemma_cstring_end(bytes, from + 1, end);
    }
}

/// Finds where the string at `from` ends.
fn scan_cstring(buf: &[u8], from: usize) -> (end: usize)
    requires
        from <= buf@.len(),
    ensures
        end == cstring_end(buf@, from as int),
        from <= end <= buf@.len(),
{
    let mut end: usize = from;
    while end < buf.len() && buf[end] != 0
        invariant
            from <= end <= buf@.len(),
            forall|j: int| from <= j < end ==> buf@[j] != 0,
        decreases buf@.len() - end,
    {
        end = end + 1;
    }
    proof {
        lemma_cstring_end(buf@, from as int, end as int);
    }
    end
}

/// Extracts the zero-terminated string that starts at `from`.
pub fn extract_cstring_at(buf: &[u8], from: usize) -> (res: Option<String>)
    requires
        from <= buf@.len(),
    ensures
        match res {
            Some(s) => cstring_at(buf@, from as int) == Some(s@),
            None => cstring_at(buf@, from as int) is None,
        },
{
    let end = scan_cstring(buf, from);
    if end < buf.len() {
        Some(decode_lossy(slice_subrange(buf, from, end)))
    } else {
        None
    }
}

/// Extracts a zero-terminated string from the front of `buf`. Returns `None`
/// if `buf` holds no zero byte.
pub fn extract_cstring(buf: &[u8]) -> (res: Option<String>)
    ensures
        match res {
            Some(s) => cstring_at(buf@, 0) == Some(s@),
            None => cstring_at(buf@, 0) is None,
        },
{
    extract_cstring_at(buf, 0)
}

/// The string at `from`, or the empty string if it is not terminated.
fn cstring_or_default(buf: &[u8], from: usize) -> (s: String)
    requires
        from <= buf@.len(),
    ensures
        s@ == cstring_or_empty(buf@, from as int),
{
    match extract_cstring_at(buf, from) {
        Some(s) => s,
        None => String::new(),
    }
}

/// Truncates SQL text to [`MAX_SQL_LEN`] bytes at a character boundary, and
/// marks the cut with three dots.
pub fn truncate_sql(sql: &str) -> (res: String)
    ensures
        res@ == truncated(sql@, MAX_SQL_LEN as int),
{
    truncate(sql, MAX_SQL_LEN)
}

/// The SQL text in the zero-terminated string at `from`, as it is reported.
pub open spec fn sql_at(bytes: Seq<u8>, from: int) -> Seq<char> {
    truncated(cstring_or_empty(bytes, from), MAX_SQL_LEN as int)
}

// ---------------------------------------------------------------------------
// Command tags
// ---------------------------------------------------------------------------
/// The number a decimal digit stands for.
pub open spec fn digit_value(c: char) -> nat {
    (c as u32 - '0' as u32) as nat
}

/// True if every character of `s` is a decimal digit.
pub open spec fn all_digits(s: Seq<char>) -> bool {
    forall|i: int| 0 <= i < s.len() ==> is_digit(#[trigger] s[i])
}

/// The number that a sequence of decimal digits spells.
pub open spec fn decimal_value(s: Seq<char>) -> nat
    decreases s.len(),
{
    if s.len() == 0 {
        0
    } else {
        decimal_value(s.drop_last()) * 10 + digit_value(s.last())
    }
}

/// The value of `s` read as an unsigned 64-bit decimal number: an optional
/// `+`, then at least one digit, and a value that fits in 64 bits.
pub open spec fn parsed_u64(s: Seq<char>) -> Option<u64> {
    let digits = if s.len() > 0 && s[0] == '+' {
        s.drop_first()
    } else {
        s
    };
    if digits.len() > 0 && all_digits(digits) && decimal_value(digits) <= u64::MAX {
        Some(decimal_value(digits) as u64)
    } else {
        None
    }
}

/// The position of the last space in `s`, or -1 if `s` holds none.
pub open spec fn last_space(s: Seq<char>) -> int
    decreases s.len(),
{
    if s.len() == 0 {
        -1
    } else if s.last() == ' ' {
        s.len() - 1
    } else {
        last_space(s.drop_last())
    }
}

/// The row count in a command tag: the text after the last space, read as a
/// decimal number. `None` if the tag holds no space or the text is no number.
pub open spec fn command_tag_rows(tag: Seq<char>) -> Option<u64> {
    let at = last_space(tag);
    if at < 0 {
        None
    } else {
        parsed_u64(tag.skip(at + 1))
    }
}

/// A space at `at` that no later space follows is the last space.
pub proof fn lemma_last_space(s: Seq<char>, at: int)
    requires
        -1 <= at < s.len(),
        at >= 0 ==> s[at] == ' ',
        forall|j: int| at < j < s.len() ==> s[j] != ' ',
    ensures
        last_space(s) == at,
    decreases s.len(),
{
    if s.len() > 0 && at < s.len() - 1 {
        lemma_last_space(s.drop_last(), at);
    }
}

/// A prefix of a digit sequence spells a number no larger than the whole.
pub proof fn lemma_decimal_prefix(s: Seq<char>, k: int)
    requires
        0 <= k <= s.len(),
    ensures
        decimal_value(s.take(k)) <= decimal_value(s),
    decreases s.len() - k,
{
    if k == s.len() {
        assert(s.take(k) =~= s);
    } else {
        lemma_decimal_prefix(s, k + 1);
        assert(s.take(k + 1).drop_last() =~= s.take(k));
    }
}

/// Reads `chars[from..]` as an unsigned 64-bit decimal number.
fn parse_u64_from(chars: &Vec<char>, from: usize) -> (res: Option<u64>)
    requires
        from <= chars@.len(),
    ensures
        res == parsed_u64(chars@.skip(from as int)),
{
    let ghost s = chars@.skip(from as int);
    let start: usize = if from < chars.len() && chars[from] == '+' {
        from + 1
    } else {
        from
    };
    let ghost digits = chars@.skip(start as int);
    proof {
        if start == from + 1 {
            assert(s.drop_first() =~= digits);
        }
    }
    assert(digits == if s.len() > 0 && s[0] == '+' {
        s.drop_first()
    } else {
        s
    });
    if start == chars.len() {
        return None;
    }
    let mut acc: u64 = 0;
    let mut i: usize = start;
    while i < chars.len()
        invariant
            start <= i <= chars@.len(),
            start < chars@.len(),
            s == chars@.skip(from as int),
            digits == chars@.skip(start as int),
            digits == if s.len() > 0 && s[0] == '+' {
                s.drop_first()
            } else {
                s
            },
            all_digits(digits.take(i - start)),
            acc == decimal_value(digits.take(i - start)),
        decreases chars@.len() - i,
    {
        let c = chars[i];
        let ghost next = digits.take(i - start + 1);
        proof {
            assert(next.drop_last() =~= digits.take(i - start));
            assert(next.last() == c);
        }
        if !('0' <= c && c <= '9') {
            assert(!is_digit(digits[i - start]));
            return None;
        }
        let d: u64 = (c as u32 - '0' as u32) as u64;
        if acc > (u64::MAX - d) / 10 {
            proof {
                assert(decimal_value(next) > u64::MAX);
                lemma_decimal_prefix(digits, i - start + 1);
            }
            return None;
        }
        acc = acc * 10 + d;
        i = i + 1;
    }
    proof {
        assert(digits.take(i - start) =~= digits);
    }
    Some(acc)
}

/// Reads the row count off a command tag: `SELECT 5` gives 5, `INSERT 0 3`
/// gives 3, and `BEGIN` gives none.
pub fn parse_command_tag_rows(tag: &str) -> (rows: Option<u64>)
    ensures
        rows == command_tag_rows(tag@),
{
    let chars = chars_of(tag);
    let mut i: usize = chars.len();
    while i > 0 && chars[i - 1] != ' '
        invariant
            i <= chars@.len(),
            forall|j: int| i <= j < chars@.len() ==> chars@[j] != ' ',
        decreases i,
    {
        i = i - 1;
    }
    proof {
        lemma_last_space(chars@, i - 1);
    }
    if i == 0 {
        None
    } else {
        parse_u64_from(&chars, i)
    }
}

// ---------------------------------------------------------------------------
// Error responses
// ---------------------------------------------------------------------------
/// In an `ErrorResponse`, the type byte of the severity: the letter `S`.
pub const FIELD_SEVERITY: u8 = 0x53;

/// In an `ErrorResponse`, the type byte of the SQLSTATE code: the letter `C`.
pub const FIELD_CODE: u8 = 0x43;

/// In an `ErrorResponse`, the type byte of the message: the letter `M`.
pub const FIELD_MESSAGE: u8 = 0x4d;

/// The three fields of an `ErrorResponse` that are reported.
pub struct ErrorFields {
    pub severity: Seq<char>,
    pub code: Seq<char>,
    pub message: Seq<char>,
}

impl ErrorFields {
    /// All three fields empty.
    pub open spec fn empty() -> ErrorFields {
        ErrorFields { severity: Seq::empty(), code: Seq::empty(), message: Seq::empty() }
    }

    /// These fields after a field of type `kind` with value `value` was
    /// read: `S`, `C` and `M` replace the severity, the code and the
    /// message, and any other field changes nothing.
    pub open spec fn with(self, kind: u8, value: Seq<char>) -> ErrorFields {
        if kind == FIELD_SEVERITY {
            ErrorFields { severity: value, ..self }
        } else if kind == FIELD_CODE {
            ErrorFields { code: value, ..self }
        } else if kind == FIELD_MESSAGE {
            ErrorFields { message: value, ..self }
        } else {
            self
        }
    }
}

/// The fields of the `ErrorResponse` payload from position `from` on, on top
/// of the fields `acc` that were read before. A field is a type byte and a
/// zero-terminated value; a zero type byte ends the list. An unterminated
/// last value runs to the end of the payload.
pub open spec fn error_fields_from(payload: Seq<u8>, from: int, acc: ErrorFields) -> ErrorFields
    decreases payload.len() - from,
{
    if from < 0 || from >= payload.len() || payload[from] == 0 {
        acc
    } else {
        let end = cstring_end(payload, from + 1);
        let value = lossy_text(payload.subrange(from + 1, end));
        let next = if end < payload.len() {
            end + 1
        } else {
            end
        };
        proof {
            lemma_cstring_end_bounds(payload, from + 1);
        }
        error_fields_from(payload, next, acc.with(payload[from], value))
    }
}

/// The severity, code and message of an `ErrorResponse` payload. Where a
/// field occurs more than once the last occurrence counts.
pub open spec fn error_fields(payload: Seq<u8>) -> ErrorFields {
    error_fields_from(payload, 0, ErrorFields::empty())
}

/// Reads the severity, the code and the message out of an `ErrorResponse`
/// payload.
pub fn parse_error_response(payload: &[u8]) -> (res: (String, String, String))
    ensures
        res.0@ == error_fields(payload@).severity,
        res.1@ == error_fields(payload@).code,
        res.2@ == error_fields(payload@).message,
{
    let mut severity = String::new();
    let mut code = String::new();
    let mut message = String::new();
    let mut i: usize = 0;
    while i < payload.len() && payload[i] != 0
        invariant
            i <= payload@.len(),
            error_fields_from(
                payload@,
                i as int,
                ErrorFields { severity: severity@, code: code@, message: message@ },
            ) == error_fields(payload@),
        decreases payload@.len() - i,
    {
        let field_type = payload[i];
        let end = scan_cstring(payload, i + 1);
        let value = decode_lossy(slice_subrange(payload, i + 1, end));
        if field_type == FIELD_SEVERITY {
            severity = value;
        } else if field_type == FIELD_CODE {
            code = value;
        } else if field_type == FIELD_MESSAGE {
            message = value;
        }
        i = if end < payload.len() {
            end + 1
        } else {
            end
        };
    }
    (severity, code, message)
}

// ---------------------------------------------------------------------------
// The parser and its model
// ---------------------------------------------------------------------------
/// The state of one connection's parser.
pub struct PostgresParser {
    /// Where the connection stands in the protocol.
    pub phase: ConnPhase,
    /// Prepared statements: statement name to SQL text.
    pub statements: NameMap,
    /// Bound portals: portal name to statement name.
    pub portals: NameMap,
}

/// The mathematical value of a [`PostgresParser`].
#[verifier::ext_equal]
pub struct ParserModel {
    pub phase: ConnPhase,
    pub statements: Map<Seq<char>, Seq<char>>,
    pub portals: Map<Seq<char>, Seq<char>>,
}

impl View for PostgresParser {
    type V = ParserModel;

    open spec fn view(&self) -> ParserModel {
        ParserModel { phase: self.phase, statements: self.statements@, portals: self.portals@ }
    }
}

/// What parsing one message yields: the event, the number of bytes the
/// message covers, and the parser's state afterwards.
#[verifier::ext_equal]
pub struct ParseOutcome {
    pub event: ProtoEventView,
    pub consumed: int,
    pub next: ParserModel,
}

/// Tag of `Query` (frontend): the letter `Q`.
pub const TAG_QUERY: u8 = 0x51;

/// Tag of `Parse` (frontend): the letter `P`.
pub const TAG_PARSE: u8 = 0x50;

/// Tag of `Bind` (frontend): the letter `B`.
pub const TAG_BIND: u8 = 0x42;

/// Tag of `Execute` (frontend) and of `ErrorResponse` (backend): the letter
/// `E`.
pub const TAG_EXECUTE_OR_ERROR: u8 = 0x45;

/// Tag of `Close` (frontend) and of `CommandComplete` (backend): the letter
/// `C`.
pub const TAG_CLOSE_OR_COMPLETE: u8 = 0x43;

/// Tag of `Terminate` (frontend): the letter `X`.
pub const TAG_TERMINATE: u8 = 0x58;

/// Tag of `ReadyForQuery` (backend): the letter `Z`.
pub const TAG_READY: u8 = 0x5a;

/// In a `Close`, the type byte of a prepared statement: the letter `S`.
pub const CLOSE_STATEMENT: u8 = 0x53;

/// In a `Close`, the type byte of a portal: the letter `P`.
pub const CLOSE_PORTAL: u8 = 0x50;

/// In a `ReadyForQuery`, the status inside a transaction: the letter `T`.
pub const STATUS_IN_TRANSACTION: u8 = 0x54;

/// In a `ReadyForQuery`, the status inside a failed transaction: the letter
/// `E`.
pub const STATUS_FAILED: u8 = 0x45;

/// The byte that refuses TLS: the letter `N`.
pub const SSL_REFUSED: u8 = 0x4e;

/// The text reported for an `Execute` whose portal leads to no known
/// statement: the portal's name, quoted, between `<execute portal=` and `>`.
pub open spec fn execute_placeholder(portal: Seq<char>) -> Seq<char> {
    "<execute portal="@ + debug_text(portal) + ">"@
}

/// The SQL text behind a portal: the text of the statement the portal is
/// bound to, or a placeholder where the portal or its statement is unknown.
pub open spec fn portal_sql(m: ParserModel, portal: Seq<char>) -> Seq<char> {
    if m.portals.contains_key(portal) && m.statements.contains_key(m.portals[portal]) {
        m.statements[m.portals[portal]]
    } else {
        execute_placeholder(portal)
    }
}

/// The transaction status that a `ReadyForQuery` payload reports. Anything
/// but `T` and `E` counts as idle.
pub open spec fn ready_status(payload: Seq<u8>) -> TxStatus {
    if payload.len() > 0 && payload[0] == STATUS_IN_TRANSACTION {
        TxStatus::InTransaction
    } else if payload.len() > 0 && payload[0] == STATUS_FAILED {
        TxStatus::Failed
    } else {
        TxStatus::Idle
    }
}

/// The event that a framed message with tag `tag` and payload `payload`
/// yields when it travels in direction `direction`.
pub open spec fn message_event(
    m: ParserModel,
    tag: u8,
    payload: Seq<u8>,
    direction: Direction,
) -> ProtoEventView {
    if direction == Direction::Frontend {
        if tag == TAG_QUERY {
            ProtoEventView::QueryStart { sql: sql_at(payload, 0) }
        } else if tag == TAG_PARSE && cstring_end(payload, 0) < payload.len() {
            ProtoEventView::ParseDetected { sql: sql_at(payload, cstring_end(payload, 0) + 1) }
        } else if tag == TAG_EXECUTE_OR_ERROR {
            ProtoEventView::QueryStart { sql: portal_sql(m, cstring_or_empty(payload, 0)) }
        } else if tag == TAG_TERMINATE {
            ProtoEventView::ConnectionClosed
        } else {
            ProtoEventView::Unknown { tag }
        }
    } else {
        if tag == TAG_CLOSE_OR_COMPLETE {
            ProtoEventView::QueryComplete {
                tag: cstring_or_empty(payload, 0),
                rows: command_tag_rows(cstring_or_empty(payload, 0)),
            }
        } else if tag == TAG_EXECUTE_OR_ERROR {
            ProtoEventView::QueryError {
                severity: error_fields(payload).severity,
                code: error_fields(payload).code,
                message: error_fields(payload).message,
            }
        } else if tag == TAG_READY {
            ProtoEventView::ConnectionReady { status: ready_status(payload) }
        } else {
            ProtoEventView::Unknown { tag }
        }
    }
}

/// The parser's state after the same message. `Parse` binds a statement
/// name, `Bind` binds a portal name, `Close` removes one of either, and the
/// first `ReadyForQuery` ends authentication. Every other message leaves the
/// state as it was.
pub open spec fn message_next(
    m: ParserModel,
    tag: u8,
    payload: Seq<u8>,
    direction: Direction,
) -> ParserModel {
    let name_end = cstring_end(payload, 0);
    if direction == Direction::Frontend {
        if tag == TAG_PARSE && name_end < payload.len() {
            ParserModel {
                statements: m.statements.insert(
                    lossy_text(payload.subrange(0, name_end)),
                    sql_at(payload, name_end + 1),
                ),
                ..m
            }
        } else if tag == TAG_BIND && name_end < payload.len() {
            ParserModel {
                portals: m.portals.insert(
                    lossy_text(payload.subrange(0, name_end)),
                    cstring_or_empty(payload, name_end + 1),
                ),
                ..m
            }
        } else if tag == TAG_CLOSE_OR_COMPLETE && payload.len() > 0 && payload[0] == CLOSE_STATEMENT {
            ParserModel { statements: m.statements.remove(cstring_or_empty(payload, 1)), ..m }
        } else if tag == TAG_CLOSE_OR_COMPLETE && payload.len() > 0 && payload[0] == CLOSE_PORTAL {
            ParserModel { portals: m.portals.remove(cstring_or_empty(payload, 1)), ..m }
        } else {
            m
        }
    } else {
        if tag == TAG_READY && m.phase == ConnPhase::Authenticating {
            ParserModel { phase: ConnPhase::Ready, ..m }
        } else {
            m
        }
    }
}

/// What the parser makes of an unframed startup message at the front of
/// `buf`: four bytes of length, which count themselves, then four bytes of
/// version code. A length outside 8 to 10000 is skipped as one byte.
pub open spec fn startup_outcome(m: ParserModel, buf: Seq<u8>) -> Option<ParseOutcome> {
    let length = be_u32_at(buf, 0);
    if buf.len() < 8 {
        None
    } else if length < 8 || length > MAX_STARTUP_LEN {
        Some(ParseOutcome { event: ProtoEventView::Unknown { tag: 0 }, consumed: 1, next: m })
    } else if buf.len() < length {
        None
    } else {
        Some(
            ParseOutcome {
                event: ProtoEventView::Unknown { tag: 0 },
                consumed: length,
                next: if be_u32_at(buf, 4) == STARTUP_VERSION_3_0 {
                    ParserModel { phase: ConnPhase::Authenticating, ..m }
                } else {
                    m
                },
            },
        )
    }
}

/// What the parser makes of a framed message at the front of `buf`: one tag
/// byte, four bytes of length, which count themselves but not the tag, then
/// the payload. A length under 4 is skipped as one byte.
pub open spec fn regular_outcome(
    m: ParserModel,
    buf: Seq<u8>,
    direction: Direction,
) -> Option<ParseOutcome> {
    let length = be_u32_at(buf, 1);
    if buf.len() < 5 {
        None
    } else if length < 4 {
        Some(ParseOutcome { event: ProtoEventView::Unknown { tag: buf[0] }, consumed: 1, next: m })
    } else if buf.len() < 1 + length {
        None
    } else {
        Some(
            ParseOutcome {
                event: message_event(m, buf[0], buf.subrange(5, 1 + length), direction),
                consumed: 1 + length,
                next: message_next(m, buf[0], buf.subrange(5, 1 + length), direction),
            },
        )
    }
}

/// What the parser makes of the front of `buf`, or `None` while `buf` holds
/// no complete message. Until the startup message has been seen, the
/// client's bytes are read as a startup message; everything else is framed.
pub open spec fn parse_outcome(
    m: ParserModel,
    buf: Seq<u8>,
    direction: Direction,
) -> Option<ParseOutcome> {
    if m.phase.awaits_startup() && direction == Direction::Frontend {
        startup_outcome(m, buf)
    } else {
        regular_outcome(m, buf, direction)
    }
}

/// True if the front of the client's bytes is an `SSLRequest` that the
/// parser answers itself: the startup message is still awaited, eight bytes
/// are there, and the version code is that of an `SSLRequest`.
pub open spec fn intercepts_ssl(m: ParserModel, buf: Seq<u8>, direction: Direction) -> bool {
    &&& direction == Direction::Frontend
    &&& m.phase.awaits_startup()
    &&& buf.len() >= 8
    &&& be_u32_at(buf, 4) == SSL_REQUEST_CODE
}

/// The answer to an `SSLRequest`: the single byte `N`, which refuses TLS.
pub open spec fn ssl_refusal() -> Seq<u8> {
    seq![SSL_REFUSED]
}

/// The parser's state after it has answered an `SSLRequest`.
pub open spec fn ssl_rejected(m: ParserModel) -> ParserModel {
    ParserModel { phase: ConnPhase::AwaitingStartupAfterSslReject, ..m }
}

impl PostgresParser {
    /// A parser for a connection on which nothing has been seen yet.
    pub fn new() -> (parser: PostgresParser)
        ensures
            parser@.phase == ConnPhase::AwaitingStartup,
            parser@.statements == Map::<Seq<char>, Seq<char>>::empty(),
            parser@.portals == Map::<Seq<char>, Seq<char>>::empty(),
    {
        PostgresParser {
            phase: ConnPhase::AwaitingStartup,
            statements: NameMap::new(),
            portals: NameMap::new(),
        }
    }

    /// The SQL text that an `Execute` of `portal` runs.
    fn lookup_portal_sql(&self, portal: &String) -> (sql: String)
        ensures
            sql@ == portal_sql(self@, portal@),
    {
        let bound = match self.portals.get(portal) {
            Some(statement) => self.statements.get(statement),
            None => None,
        };
        match bound {
            Some(sql) => sql.clone(),
            None => {
                let mut text = String::from_str("<execute portal=");
                let quoted = debug_quoted(portal.as_str());
                text.append(quoted.as_str());
                text.append(">");
                text
            },
        }
    }

    /// Interprets one framed message and updates the statement and portal
    /// tables and the phase.
    pub fn parse_message(&mut self, tag: u8, payload: &[u8], direction: Direction) -> (event:
        ProtoEvent)
        ensures
            event@ == message_event(old(self)@, tag, payload@, direction),
            final(self)@ == message_next(old(self)@, tag, payload@, direction),
    {
        match direction {
            Direction::Frontend => {
                if tag == TAG_QUERY {
                    let sql = cstring_or_default(payload, 0);
                    ProtoEvent::QueryStart { sql: truncate_sql(sql.as_str()) }
                } else if tag == TAG_PARSE {
                    let name_end = scan_cstring(payload, 0);
                    if name_end < payload.len() {
                        let name = decode_lossy(slice_subrange(payload, 0, name_end));
                        let text = cstring_or_default(payload, name_end + 1);
                        let sql = truncate_sql(text.as_str());
                        self.statements.insert(name, sql.clone());
                        ProtoEvent::ParseDetected { sql }
                    } else {
                        ProtoEvent::Unknown { tag }
                    }
                } else if tag == TAG_BIND {
                    let name_end = scan_cstring(payload, 0);
                    if name_end < payload.len() {
                        let portal = decode_lossy(slice_subrange(payload, 0, name_end));
                        let statement = cstring_or_default(payload, name_end + 1);
                        self.portals.insert(portal, statement);
                    }
                    ProtoEvent::Unknown { tag }
                } else if tag == TAG_EXECUTE_OR_ERROR {
                    let portal = cstring_or_default(payload, 0);
                    ProtoEvent::QueryStart { sql: self.lookup_portal_sql(&portal) }
                } else if tag == TAG_CLOSE_OR_COMPLETE {
                    if payload.len() > 0 {
                        let close_type = payload[0];
                        let name = cstring_or_default(payload, 1);
                        if close_type == CLOSE_STATEMENT {
                            self.statements.remove(&name);
                        } else if close_type == CLOSE_PORTAL {
                            self.portals.remove(&name);
                        }
                    }
                    ProtoEvent::Unknown { tag }
                } else if tag == TAG_TERMINATE {
                    ProtoEvent::ConnectionClosed
                } else {
                    ProtoEvent::Unknown { tag }
                }
            },
            Direction::Backend => {
                if tag == TAG_CLOSE_OR_COMPLETE {
                    let tag_text = cstring_or_default(payload, 0);
                    let rows = parse_command_tag_rows(tag_text.as_str());
                    ProtoEvent::QueryComplete { tag: tag_text, rows }
                } else if tag == TAG_EXECUTE_OR_ERROR {
                    let (severity, code, message) = parse_error_response(payload);
                    ProtoEvent::QueryError { severity, code, message }
                } else if tag == TAG_READY {
                    let status = if payload.len() > 0 && payload[0] == STATUS_IN_TRANSACTION {
                        TxStatus::InTransaction
                    } else if payload.len() > 0 && payload[0] == STATUS_FAILED {
                        TxStatus::Failed
                    } else {
                        TxStatus::Idle
                    };
                    if self.phase == ConnPhase::Authenticating {
                        self.phase = ConnPhase::Ready;
                    }
                    ProtoEvent::ConnectionReady { status }
                } else {
                    ProtoEvent::Unknown { tag }
                }
            },
        }
    }
}

impl PostgresParser {
    /// Reads an unframed startup message off the front of `buf`.
    pub fn try_parse_startup(&mut self, buf: &[u8]) -> (res: Option<(ProtoEvent, usize)>)
        ensures
            match startup_outcome(old(self)@, buf@) {
                Some(o) => res matches Some((event, consumed)) && event@ == o.event && consumed
                    == o.consumed && final(self)@ == o.next,
                None => res is None && final(self)@ == old(self)@,
            },
            res matches Some((_, consumed)) ==> 1 <= consumed <= buf@.len(),
    {
        if buf.len() < 8 {
            return None;
        }
        let length = read_be_u32(buf, 0);
        if length < 8 || length > MAX_STARTUP_LEN {
            return Some((ProtoEvent::Unknown { tag: 0 }, 1));
        }
        if buf.len() < length as usize {
            return None;
        }
        let version = read_be_u32(buf, 4);
        if version == STARTUP_VERSION_3_0 {
            self.phase = ConnPhase::Authenticating;
        }
        Some((ProtoEvent::Unknown { tag: 0 }, length as usize))
    }

    /// Reads a framed message off the front of `buf`.
    pub fn try_parse_regular(&mut self, buf: &[u8], direction: Direction) -> (res: Option<
        (ProtoEvent, usize),
    >)
        ensures
            match regular_outcome(old(self)@, buf@, direction) {
                Some(o) => res matches Some((event, consumed)) && event@ == o.event && consumed
                    == o.consumed && final(self)@ == o.next,
                None => res is None && final(self)@ == old(self)@,
            },
            res matches Some((_, consumed)) ==> 1 <= consumed <= buf@.len(),
    {
        if buf.len() < 5 {
            return None;
        }
        let tag = buf[0];
        let length = read_be_u32(buf, 1);
        if length < 4 {
            return Some((ProtoEvent::Unknown { tag }, 1));
        }
        let total: u64 = 1 + length as u64;
        if (buf.len() as u64) < total {
            return None;
        }
        let total_len = total as usize;
        let event = self.parse_message(tag, slice_subrange(buf, 5, total_len), direction);
        Some((event, total_len))
    }
}

impl ProtocolParser for PostgresParser {
    /// Takes the next complete message off the front of `buf`, as
    /// [`parse_outcome`] describes it. While `buf` holds no complete message
    /// the result is `None` and the parser is unchanged.
    fn try_parse(&mut self, buf: &[u8], direction: Direction) -> (res: Option<(ProtoEvent, usize)>)
        ensures
            match parse_outcome(old(self)@, buf@, direction) {
                Some(o) => res matches Some((event, consumed)) && event@ == o.event && consumed
                    == o.consumed && final(self)@ == o.next,
                None => res is None && final(self)@ == old(self)@,
            },
    {
        match self.phase {
            ConnPhase::AwaitingStartup | ConnPhase::AwaitingStartupAfterSslReject => {
                match direction {
                    Direction::Frontend => self.try_parse_startup(buf),
                    Direction::Backend => self.try_parse_regular(buf, direction),
                }
            },
            ConnPhase::Authenticating | ConnPhase::Ready => self.try_parse_regular(buf, direction),
        }
    }

    /// The name of the protocol: `postgres`.
    fn protocol_name(&self) -> (name: &'static str)
        ensures
            name@ == "postgres"@,
    {
        "postgres"
    }

    /// Answers an `SSLRequest` at the front of the client's bytes with the
    /// single byte `N`, and notes that it did. In every other case the
    /// result is `None` and the parser is unchanged.
    fn handle_startup_intercept(&mut self, buf: &[u8], direction: Direction) -> (res: Option<
        Vec<u8>,
    >)
        ensures
            match res {
                Some(reply) => intercepts_ssl(old(self)@, buf@, direction) && reply@
                    == ssl_refusal() && final(self)@ == ssl_rejected(old(self)@),
                None => !intercepts_ssl(old(self)@, buf@, direction) && final(self)@ == old(
                    self,
                )@,
            },
    {
        match direction {
            Direction::Backend => {
                return None;
            },
            Direction::Frontend => {},
        }
        match self.phase {
            ConnPhase::AwaitingStartup | ConnPhase::AwaitingStartupAfterSslReject => {
                if buf.len() < 8 {
                    return None;
                }
                let version = read_be_u32(buf, 4);
                if version == SSL_REQUEST_CODE {
                    self.phase = ConnPhase::AwaitingStartupAfterSslReject;
                    let mut reply: Vec<u8> = Vec::new();
                    reply.push(SSL_REFUSED);
                    assert(reply@ =~= ssl_refusal());
                    Some(reply)
                } else {
                    None
                }
            },
            _ => None,
        }
    }
}

// ---------------------------------------------------------------------------
// Frames as an encoder writes them
// ---------------------------------------------------------------------------
/// The four bytes that spell `n` in network byte order.
pub open spec fn be_bytes(n: int) -> Seq<u8> {
    seq![
        (n / 16777216) as u8,
        ((n / 65536) % 256) as u8,
        ((n / 256) % 256) as u8,
        (n % 256) as u8,
    ]
}

/// The framed message with tag `tag` and payload `payload`: the tag, the
/// length of the payload and of the length field itself, and the payload.
pub open spec fn frame(tag: u8, payload: Seq<u8>) -> Seq<u8> {
    seq![tag] + be_bytes(payload.len() as int + 4) + payload
}

/// Reading what [`be_bytes`] wrote gives the number back.
pub proof fn lemma_be_round_trip(n: int)
    requires
        0 <= n <= u32::MAX,
    ensures
        be_bytes(n).len() == 4,
        be_u32_at(be_bytes(n), 0) == n,
{
}

/// A frame at the front of the buffer is parsed as one message, whatever
/// follows it: the event is that of its tag and payload, and exactly the
/// frame is consumed.
pub proof fn lemma_frame_parses(
    m: ParserModel,
    tag: u8,
    payload: Seq<u8>,
    more: Seq<u8>,
    direction: Direction,
)
    requires
        payload.len() + 4 <= u32::MAX,
        !(m.phase.awaits_startup() && direction == Direction::Frontend),
    ensures
        parse_outcome(m, frame(tag, payload) + more, direction) == Some(
            ParseOutcome {
                event: message_event(m, tag, payload, direction),
                consumed: frame(tag, payload).len() as int,
                next: message_next(m, tag, payload, direction),
            },
        ),
{
    let n: int = payload.len() as int + 4;
    let buf = frame(tag, payload) + more;
    lemma_be_round_trip(n);
    assert(buf[0] == tag);
    assert(buf[1] == be_bytes(n)[0]);
    assert(buf[2] == be_bytes(n)[1]);
    assert(buf[3] == be_bytes(n)[2]);
    assert(buf[4] == be_bytes(n)[3]);
    assert(be_u32_at(buf, 1) == n);
    assert(buf.subrange(5, 1 + n) =~= payload);
}

/// A frame that has not arrived in full is no message yet: of any proper
/// prefix of it the parser makes nothing.
pub proof fn lemma_frame_prefix_needs_more(
    m: ParserModel,
    tag: u8,
    payload: Seq<u8>,
    k: int,
    direction: Direction,
)
    requires
        payload.len() + 4 <= u32::MAX,
        !(m.phase.awaits_startup() && direction == Direction::Frontend),
        0 <= k < frame(tag, payload).len(),
    ensures
        parse_outcome(m, frame(tag, payload).take(k), direction) is None,
{
    let n: int = payload.len() as int + 4;
    let buf = frame(tag, payload).take(k);
    lemma_be_round_trip(n);
    if k >= 5 {
        assert(buf[1] == be_bytes(n)[0]);
        assert(buf[2] == be_bytes(n)[1]);
        assert(buf[3] == be_bytes(n)[2]);
        assert(buf[4] == be_bytes(n)[3]);
        assert(be_u32_at(buf, 1) == n);
    }
}

// ---------------------------------------------------------------------------
// The phases only move forward
// ---------------------------------------------------------------------------
impl ConnPhase {
    /// How far a connection has come: 0 before anything was seen, 1 after
    /// an `SSLRequest` was refused, 2 during authentication, 3 when ready.
    pub open spec fn progress(self) -> int {
        match self {
            ConnPhase::AwaitingStartup => 0,
            ConnPhase::AwaitingStartupAfterSslReject => 1,
            ConnPhase::Authenticating => 2,
            ConnPhase::Ready => 3,
        }
    }
}

/// No message takes a connection back to an earlier phase, and neither does
/// the refusal of an `SSLRequest`.
pub proof fn lemma_phase_never_goes_back(m: ParserModel, buf: Seq<u8>, direction: Direction)
    ensures
        parse_outcome(m, buf, direction) matches Some(o) ==> o.next.phase.progress()
            >= m.phase.progress(),
        intercepts_ssl(m, buf, direction) ==> ssl_rejected(m).phase.progress()
            >= m.phase.progress(),
{
}

} // verus!
