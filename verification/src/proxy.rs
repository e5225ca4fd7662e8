//! The relay's decisions. The relay itself owns the sockets: it reads, asks
//! these functions what to do with what it read, and writes.
//!
//! Each direction of a connection keeps the bytes that are not parsed yet in
//! a parse buffer. A read is appended to it, and the parser is driven until
//! it needs more data; what is left stays for the next read. On the client's
//! side an `SSLRequest` is answered before anything is forwarded.
use bytes::BytesMut;
use vstd::prelude::*;
use vstd::slice::slice_to_vec;

use crate::protocol::postgres::{
    frame, intercepts_ssl, lemma_frame_parses, message_event, message_next, parse_outcome,
    ssl_refusal, ssl_rejected, ParserModel, PostgresParser,
};
use crate::protocol::{Direction, ProtoEvent, ProtoEventView, ProtocolParser};

verus! {

/// `bytes::BytesMut`, a growable buffer of bytes.
#[verifier::external_type_specification]
#[verifier::external_body]
pub struct ExBytesMut(BytesMut);

/// The bytes that a buffer holds, in order.
pub uninterp spec fn buffered(buf: BytesMut) -> Seq<u8>;

/// The capacity a parse buffer starts with: 16 KiB.
pub const PARSE_BUFFER_CAPACITY: usize = 16384;

/// The length of an `SSLRequest`.
pub const SSL_REQUEST_LEN: usize = 8;

/// `BytesMut::with_capacity` makes a buffer that holds no bytes. A capacity
/// beyond `isize::MAX` is left out, as no allocation can be that large.
#[verifier::external_body]
pub(crate) fn buffer_with_capacity(capacity: usize) -> (buf: BytesMut)
    requires
        capacity <= isize::MAX,
    ensures
        buffered(buf) == Seq::<u8>::empty(),
{
    BytesMut::with_capacity(capacity)
}

/// `BytesMut::extend_from_slice` appends the bytes of `chunk` to the buffer.
/// Lengths that do not add up within `isize::MAX` are left out, as the
/// buffer cannot grow that far.
#[verifier::external_body]
pub(crate) fn buffer_extend(buf: &mut BytesMut, chunk: &[u8])
    requires
        buffered(*old(buf)).len() + chunk@.len() <= isize::MAX,
    ensures
        buffered(*final(buf)) == buffered(*old(buf)) + chunk@,
{
    buf.extend_from_slice(chunk)
}

/// `BytesMut::split_to` cuts the first `at` bytes off the buffer and hands
/// them back as a buffer of their own; the rest stays. It panics where `at`
/// is beyond the buffer's length, which `requires` leaves out.
#[verifier::external_body]
pub(crate) fn buffer_split_to(buf: &mut BytesMut, at: usize) -> (front: BytesMut)
    requires
        at <= buffered(*old(buf)).len(),
    ensures
        buffered(front) == buffered(*old(buf)).take(at as int),
        buffered(*final(buf)) == buffered(*old(buf)).skip(at as int),
{
    buf.split_to(at)
}

/// `BytesMut::as_ref` lends the buffer's bytes as a slice.
#[verifier::external_body]
pub(crate) fn buffer_bytes(buf: &BytesMut) -> (bytes: &[u8])
    ensures
        bytes@ == buffered(*buf),
{
    buf.as_ref()
}

/// A message from the relay to the correlator.
#[derive(Debug)]
pub enum ProxyMessage {
    /// A protocol event on a connection.
    Event { conn_id: u64, event: ProtoEvent },
    /// A connection was accepted.
    ConnectionOpened { conn_id: u64 },
    /// A connection ended.
    ConnectionClosed { conn_id: u64 },
}

/// The mathematical value of a [`ProxyMessage`].
pub enum ProxyMessageView {
    Event { conn_id: u64, event: ProtoEventView },
    ConnectionOpened { conn_id: u64 },
    ConnectionClosed { conn_id: u64 },
}

impl View for ProxyMessage {
    type V = ProxyMessageView;

    open spec fn view(&self) -> ProxyMessageView {
        match self {
            ProxyMessage::Event { conn_id, event } => ProxyMessageView::Event {
                conn_id: *conn_id,
                event: event@,
            },
            ProxyMessage::ConnectionOpened { conn_id } => ProxyMessageView::ConnectionOpened {
                conn_id: *conn_id,
            },
            ProxyMessage::ConnectionClosed { conn_id } => ProxyMessageView::ConnectionClosed {
                conn_id: *conn_id,
            },
        }
    }
}

/// What driving the parser over a buffer until it needs more data yields.
#[verifier::ext_equal]
pub struct Drained {
    /// The events of the complete messages, in order.
    pub events: Seq<ProtoEventView>,
    /// The parser's state after the last of them.
    pub parser: ParserModel,
    /// The bytes that are left: the beginning of a message that is not
    /// complete yet.
    pub rest: Seq<u8>,
}

/// A message that the parser reports covers at least one byte and no more
/// than the buffer holds.
pub proof fn lemma_parse_outcome_bounds(m: ParserModel, buf: Seq<u8>, direction: Direction)
    ensures
        parse_outcome(m, buf, direction) matches Some(o) ==> 1 <= o.consumed <= buf.len(),
{
}

/// The result of parsing message after message off the front of `buf`,
/// starting in state `m`, until the parser needs more data.
pub open spec fn drained(m: ParserModel, buf: Seq<u8>, direction: Direction) -> Drained
    decreases buf.len(),
{
    match parse_outcome(m, buf, direction) {
        Some(o) => {
            proof {
                lemma_parse_outcome_bounds(m, buf, direction);
            }
            let later = drained(o.next, buf.skip(o.consumed), direction);
            Drained { events: seq![o.event] + later.events, ..later }
        },
        None => Drained { events: Seq::empty(), parser: m, rest: buf },
    }
}

/// The views of a list of events.
pub open spec fn event_views(events: Seq<ProtoEvent>) -> Seq<ProtoEventView> {
    Seq::new(events.len(), |i: int| events[i]@)
}

/// A parse buffer with nothing in it.
pub fn new_parse_buffer() -> (buf: BytesMut)
    ensures
        buffered(buf) == Seq::<u8>::empty(),
{
    buffer_with_capacity(PARSE_BUFFER_CAPACITY)
}

/// Drives the parser over the parse buffer until it needs more data. The
/// bytes of every complete message leave the buffer; the events come back
/// in order.
pub fn drain_events(parser: &mut PostgresParser, parse_buf: &mut BytesMut, direction: Direction) -> (events:
    Vec<ProtoEvent>)
    ensures
        event_views(events@) == drained(old(parser)@, buffered(*old(parse_buf)), direction).events,
        final(parser)@ == drained(old(parser)@, buffered(*old(parse_buf)), direction).parser,
        buffered(*final(parse_buf)) == drained(
            old(parser)@,
            buffered(*old(parse_buf)),
            direction,
        ).rest,
{
    let ghost whole = drained(parser@, buffered(*parse_buf), direction);
    let mut events: Vec<ProtoEvent> = Vec::new();
    let mut more = true;
    while more
        invariant
            whole.events == event_views(events@) + drained(
                parser@,
                buffered(*parse_buf),
                direction,
            ).events,
            whole.parser == drained(parser@, buffered(*parse_buf), direction).parser,
            whole.rest == drained(parser@, buffered(*parse_buf), direction).rest,
            !more ==> parse_outcome(parser@, buffered(*parse_buf), direction) is None,
        decreases buffered(*parse_buf).len(), (if more { 1int } else { 0int }),
    {
        let ghost before = event_views(events@);
        let ghost step = drained(parser@, buffered(*parse_buf), direction);
        let parsed = parser.try_parse(buffer_bytes(parse_buf), direction);
        match parsed {
            Some((event, consumed)) => {
                events.push(event);
                let _ = buffer_split_to(parse_buf, consumed);
                proof {
                    let later = drained(parser@, buffered(*parse_buf), direction);
                    assert(event_views(events@) =~= before.push(event@));
                    assert(before + (seq![event@] + later.events) =~= before.push(event@)
                        + later.events);
                }
            },
            None => {
                more = false;
            },
        }
    }
    proof {
        assert(event_views(events@) + Seq::<ProtoEventView>::empty() =~= event_views(events@));
    }
    events
}

/// The messages that carry `events` for connection `conn_id`.
pub open spec fn event_messages(conn_id: u64, events: Seq<ProtoEventView>) -> Seq<
    ProxyMessageView,
> {
    Seq::new(events.len(), |i: int| ProxyMessageView::Event { conn_id, event: events[i] })
}

/// The views of a list of messages.
pub open spec fn message_views(messages: Seq<ProxyMessage>) -> Seq<ProxyMessageView> {
    Seq::new(messages.len(), |i: int| messages[i]@)
}

/// Wraps each event into a message for connection `conn_id`.
fn tag_events(conn_id: u64, events: Vec<ProtoEvent>) -> (messages: Vec<ProxyMessage>)
    ensures
        message_views(messages@) == event_messages(conn_id, event_views(events@)),
{
    let ghost views = event_views(events@);
    let mut events = events;
    let mut reversed: Vec<ProxyMessage> = Vec::new();
    while events.len() > 0
        invariant
            events@.len() + reversed@.len() == views.len(),
            forall|i: int| 0 <= i < events@.len() ==> (#[trigger] events@[i])@ == views[i],
            forall|i: int|
                0 <= i < reversed@.len() ==> (#[trigger] reversed@[i])@ == (
                ProxyMessageView::Event { conn_id, event: views[views.len() - 1 - i] }),
        decreases events@.len(),
    {
        match events.pop() {
            Some(event) => {
                reversed.push(ProxyMessage::Event { conn_id, event });
            },
            None => {},
        }
    }
    let mut messages: Vec<ProxyMessage> = Vec::new();
    while reversed.len() > 0
        invariant
            messages@.len() + reversed@.len() == views.len(),
            forall|i: int|
                0 <= i < reversed@.len() ==> (#[trigger] reversed@[i])@ == (
                ProxyMessageView::Event { conn_id, event: views[views.len() - 1 - i] }),
            forall|i: int|
                0 <= i < messages@.len() ==> (#[trigger] messages@[i])@ == (
                ProxyMessageView::Event { conn_id, event: views[i] }),
        decreases reversed@.len(),
    {
        match reversed.pop() {
            Some(message) => {
                messages.push(message);
            },
            None => {},
        }
    }
    proof {
        assert(message_views(messages@) =~= event_messages(conn_id, views));
    }
    messages
}

/// All that the relay does with one read from the client.
pub struct FrontendStep {
    /// Bytes to send back to the client in place of forwarding: the refusal
    /// of an `SSLRequest`.
    pub reply: Option<Vec<u8>>,
    /// Bytes to forward to the server.
    pub upstream: Vec<u8>,
    /// The events of the messages that became complete with this read.
    pub messages: Vec<ProxyMessage>,
}

/// The parse buffer's bytes after `chunk` was read from the client, before
/// any of them is parsed: an intercepted `SSLRequest` is gone.
pub open spec fn frontend_pending(m: ParserModel, held: Seq<u8>, chunk: Seq<u8>) -> Seq<u8> {
    if intercepts_ssl(m, held + chunk, Direction::Frontend) {
        (held + chunk).skip(SSL_REQUEST_LEN as int)
    } else {
        held + chunk
    }
}

/// The parser's state after the startup hook has seen the client's bytes.
pub open spec fn frontend_hooked(m: ParserModel, held: Seq<u8>, chunk: Seq<u8>) -> ParserModel {
    if intercepts_ssl(m, held + chunk, Direction::Frontend) {
        ssl_rejected(m)
    } else {
        m
    }
}

/// True if a parse buffer that holds `held` bytes can take `chunk` more: a
/// buffer cannot grow beyond `isize::MAX` bytes.
pub open spec fn has_room(held: Seq<u8>, chunk: Seq<u8>) -> bool {
    held.len() + chunk.len() <= isize::MAX
}

/// Tests whether the parse buffer can take `chunk`.
fn buffer_has_room(parse_buf: &BytesMut, chunk: &[u8]) -> (res: bool)
    ensures
        res == has_room(buffered(*parse_buf), chunk@),
{
    let held = buffer_bytes(parse_buf).len();
    let limit = isize::MAX as usize;
    chunk.len() <= limit && held <= limit - chunk.len()
}

/// What the relay does with the bytes of one read from the client, before
/// any of them is parsed.
pub struct Interception {
    /// Bytes to send back to the client in place of forwarding: the refusal
    /// of an `SSLRequest`.
    pub reply: Option<Vec<u8>>,
    /// Bytes to forward to the server.
    pub upstream: Vec<u8>,
}

/// Takes `chunk`, which was just read from the client, into the parse
/// buffer and says what to forward.
///
/// Where the bytes at hand begin with an `SSLRequest`, the parser's refusal
/// goes back to the client, the request leaves the parse buffer without
/// being forwarded, and what follows it in the buffer is forwarded. In
/// every other case `chunk` is forwarded unchanged. Nothing is parsed yet:
/// the bytes can be forwarded before the parser looks at them.
///
/// The result is `None`, and nothing changes, only where the parse buffer
/// has no room for `chunk`.
pub fn intercept_frontend(parser: &mut PostgresParser, parse_buf: &mut BytesMut, chunk: &[u8]) -> (res:
    Option<Interception>)
    ensures
        ({
            let m = old(parser)@;
            let held = buffered(*old(parse_buf));
            let taken = intercepts_ssl(m, held + chunk@, Direction::Frontend);
            match res {
                Some(step) => {
                    &&& has_room(held, chunk@)
                    &&& match step.reply {
                        Some(reply) => taken && reply@ == ssl_refusal(),
                        None => !taken,
                    }
                    &&& step.upstream@ == if taken {
                        frontend_pending(m, held, chunk@)
                    } else {
                        chunk@
                    }
                    &&& final(parser)@ == frontend_hooked(m, held, chunk@)
                    &&& buffered(*final(parse_buf)) == frontend_pending(m, held, chunk@)
                },
                None => {
                    &&& !has_room(held, chunk@)
                    &&& final(parser)@ == m
                    &&& buffered(*final(parse_buf)) == held
                },
            }
        }),
{
    if !buffer_has_room(parse_buf, chunk) {
        return None;
    }
    buffer_extend(parse_buf, chunk);
    let reply = parser.handle_startup_intercept(buffer_bytes(parse_buf), Direction::Frontend);
    let upstream = match &reply {
        Some(_) => {
            let _ = buffer_split_to(parse_buf, SSL_REQUEST_LEN);
            slice_to_vec(buffer_bytes(parse_buf))
        },
        None => slice_to_vec(chunk),
    };
    Some(Interception { reply, upstream })
}

/// Drives the parser over the parse buffer of connection `conn_id` until it
/// needs more data, and wraps each event into a message for the correlator.
pub fn relay_events(
    parser: &mut PostgresParser,
    parse_buf: &mut BytesMut,
    conn_id: u64,
    direction: Direction,
) -> (messages: Vec<ProxyMessage>)
    ensures
        ({
            let after = drained(old(parser)@, buffered(*old(parse_buf)), direction);
            &&& message_views(messages@) == event_messages(conn_id, after.events)
            &&& final(parser)@ == after.parser
            &&& buffered(*final(parse_buf)) == after.rest
        }),
{
    let events = drain_events(parser, parse_buf, direction);
    tag_events(conn_id, events)
}

/// Does all that one read from the client of connection `conn_id` asks for:
/// what [`intercept_frontend`] does with `chunk`, and then what
/// [`relay_events`] does with the parse buffer.
///
/// The result is `None`, and nothing changes, only where the parse buffer
/// has no room for `chunk`.
pub fn relay_frontend(
    parser: &mut PostgresParser,
    parse_buf: &mut BytesMut,
    conn_id: u64,
    chunk: &[u8],
) -> (res: Option<FrontendStep>)
    ensures
        ({
            let m = old(parser)@;
            let held = buffered(*old(parse_buf));
            let taken = intercepts_ssl(m, held + chunk@, Direction::Frontend);
            let after = drained(
                frontend_hooked(m, held, chunk@),
                frontend_pending(m, held, chunk@),
                Direction::Frontend,
            );
            match res {
                Some(step) => {
                    &&& has_room(held, chunk@)
                    &&& match step.reply {
                        Some(reply) => taken && reply@ == ssl_refusal(),
                        None => !taken,
                    }
                    &&& step.upstream@ == if taken {
                        frontend_pending(m, held, chunk@)
                    } else {
                        chunk@
                    }
                    &&& message_views(step.messages@) == event_messages(conn_id, after.events)
                    &&& final(parser)@ == after.parser
                    &&& buffered(*final(parse_buf)) == after.rest
                },
                None => {
                    &&& !has_room(held, chunk@)
                    &&& final(parser)@ == m
                    &&& buffered(*final(parse_buf)) == held
                },
            }
        }),
{
    match intercept_frontend(parser, parse_buf, chunk) {
        Some(taken) => {
            let messages = relay_events(parser, parse_buf, conn_id, Direction::Frontend);
            Some(FrontendStep { reply: taken.reply, upstream: taken.upstream, messages })
        },
        None => None,
    }
}

/// Decides what to do with `chunk`, which was just read from the server of
/// connection `conn_id`. The bytes are forwarded to the client as they are;
/// what comes back are the events of the messages that became complete.
///
/// The result is `None`, and nothing changes, only where the parse buffer
/// has no room for `chunk`.
pub fn relay_backend(
    parser: &mut PostgresParser,
    parse_buf: &mut BytesMut,
    conn_id: u64,
    chunk: &[u8],
) -> (res: Option<Vec<ProxyMessage>>)
    ensures
        ({
            let held = buffered(*old(parse_buf));
            let after = drained(old(parser)@, held + chunk@, Direction::Backend);
            match res {
                Some(messages) => {
                    &&& has_room(held, chunk@)
                    &&& message_views(messages@) == event_messages(conn_id, after.events)
                    &&& final(parser)@ == after.parser
                    &&& buffered(*final(parse_buf)) == after.rest
                },
                None => {
                    &&& !has_room(held, chunk@)
                    &&& final(parser)@ == old(parser)@
                    &&& buffered(*final(parse_buf)) == held
                },
            }
        }),
{
    if !buffer_has_room(parse_buf, chunk) {
        return None;
    }
    buffer_extend(parse_buf, chunk);
    Some(relay_events(parser, parse_buf, conn_id, Direction::Backend))
}

/// A frame at the front of the buffer gives its event first; the rest of
/// the buffer is drained from the state the frame leaves.
pub proof fn lemma_drained_frame(
    m: ParserModel,
    tag: u8,
    payload: Seq<u8>,
    more: Seq<u8>,
    direction: Direction,
)
    requires
        payload.len() + 4 <= u32::MAX,
        !(m.phase.awaits_startup() && direction == Direction::Frontend),
    ensures
        ({
            let next = message_next(m, tag, payload, direction);
            let later = drained(next, more, direction);
            let all = drained(m, frame(tag, payload) + more, direction);
            &&& all.events == seq![message_event(m, tag, payload, direction)] + later.events
            &&& all.parser == later.parser
            &&& all.rest == later.rest
            &&& !(next.phase.awaits_startup() && direction == Direction::Frontend)
        }),
{
    let buf = frame(tag, payload) + more;
    lemma_frame_parses(m, tag, payload, more, direction);
    assert(buf.skip(frame(tag, payload).len() as int) =~= more);
}

/// Of an empty buffer the parser makes nothing.
pub proof fn lemma_drained_nothing(m: ParserModel, direction: Direction)
    ensures
        drained(m, Seq::<u8>::empty(), direction) == (Drained {
            events: Seq::empty(),
            parser: m,
            rest: Seq::empty(),
        }),
{
}

/// Two frames in one buffer give two events, in order, and leave nothing.
pub proof fn lemma_two_frames_two_events(
    m: ParserModel,
    first_tag: u8,
    first_payload: Seq<u8>,
    second_tag: u8,
    second_payload: Seq<u8>,
    direction: Direction,
)
    requires
        first_payload.len() + 4 <= u32::MAX,
        second_payload.len() + 4 <= u32::MAX,
        !(m.phase.awaits_startup() && direction == Direction::Frontend),
    ensures
        ({
            let between = message_next(m, first_tag, first_payload, direction);
            let after = drained(
                m,
                frame(first_tag, first_payload) + frame(second_tag, second_payload),
                direction,
            );
            &&& after.events == seq![
                message_event(m, first_tag, first_payload, direction),
                message_event(between, second_tag, second_payload, direction),
            ]
            &&& after.parser == message_next(between, second_tag, second_payload, direction)
            &&& after.rest == Seq::<u8>::empty()
        }),
{
    let second = frame(second_tag, second_payload);
    let between = message_next(m, first_tag, first_payload, direction);
    let last = message_next(between, second_tag, second_payload, direction);
    let first_event = message_event(m, first_tag, first_payload, direction);
    let second_event = message_event(between, second_tag, second_payload, direction);
    lemma_drained_frame(m, first_tag, first_payload, second, direction);
    lemma_drained_frame(between, second_tag, second_payload, Seq::empty(), direction);
    lemma_drained_nothing(last, direction);
    assert(second + Seq::<u8>::empty() =~= second);
    assert(seq![first_event] + (seq![second_event] + Seq::<ProtoEventView>::empty()) =~= seq![
        first_event,
        second_event,
    ]);
}

} // verus!
