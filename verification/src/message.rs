//! Messages, and how the bytes of a stream become messages.

use crate::bytes;
use crate::connections::Waiting;
use crate::event::Event;
use crate::head;
use crate::stream;
use crate::stream::{Phase, Step, StreamView};
use crate::stream::{MAX_BUFFERED_BYTES, MAX_CHUNK_LINE_BYTES, MAX_HTTP1_HEAD_BYTES};
use crate::stream::MAX_HTTP1_MESSAGE_BYTES;
use vstd::prelude::*;

verus! {

/// A complete message.
pub struct Http1Message {
    /// Start line and headers, without the terminating blank line.
    pub head: Vec<u8>,
    /// Body with any chunked transfer encoding removed (still content-encoded).
    pub body: Vec<u8>,
    /// Event that carried the start of the message.
    pub first_event: Event,
    /// Timestamp of the event that completed the message.
    pub last_timestamp: u64,
    pub was_chunked: bool,
    pub is_request: bool,
}

/// A message with its bytes as sequences.
#[verifier::ext_equal]
pub struct MessageView {
    pub head: Seq<u8>,
    pub body: Seq<u8>,
    pub first_event: Event,
    pub last_timestamp: u64,
    pub was_chunked: bool,
    pub is_request: bool,
}

impl View for Http1Message {
    type V = MessageView;

    open spec fn view(&self) -> MessageView {
        MessageView {
            head: self.head@,
            body: self.body@,
            first_event: self.first_event,
            last_timestamp: self.last_timestamp,
            was_chunked: self.was_chunked,
            is_request: self.is_request,
        }
    }
}

impl MessageView {
    /// The message switches its connection to another protocol.
    pub open spec fn switches_protocol(self) -> bool {
        !self.is_request && head::status(self.head) == Some(101u16)
    }
}

/// The messages as sequences.
pub open spec fn message_views(messages: Seq<Http1Message>) -> Seq<MessageView> {
    messages.map_values(|m: Http1Message| m@)
}

/// One of the messages switches the connection to another protocol.
pub open spec fn any_switches(messages: Seq<MessageView>) -> bool {
    exists|i: int| 0 <= i < messages.len() && (#[trigger] messages[i]).switches_protocol()
}

/// What a completed stream holds, completed by `event`.
pub open spec fn message_of(s: StreamView, event: Event) -> MessageView {
    MessageView {
        head: s.head,
        body: s.body,
        first_event: match s.first_event {
            Some(first) => first,
            None => event,
        },
        last_timestamp: event.timestamp,
        was_chunked: s.chunked,
        is_request: s.is_request,
    }
}

/// The stream once its message was handed out. Bytes that are left came with `event`.
pub open spec fn after_message(s: StreamView, event: Event) -> StreamView {
    StreamView {
        phase: Phase::Head,
        head: Seq::empty(),
        body: Seq::empty(),
        chunked: false,
        first_event: if s.buf.len() == 0 {
            None
        } else {
            Some(event)
        },
        ..s
    }
}

/// The messages that a stream gave, the stream, and what waits on its connection.
#[verifier::ext_equal]
pub struct Drained {
    pub messages: Seq<MessageView>,
    pub stream: StreamView,
    pub waiting: Waiting,
}

/// All messages that the bytes of a stream complete are handed out, with `event` the last to come.
/// A stream that cannot be read on is cleared.
pub open spec fn drained(s: StreamView, waiting: Waiting, event: Event) -> Drained
    decreases s.buf.len(),
        when s.wf()
{
    let r = stream::stepped(s, waiting);
    match r.step {
        Step::NeedMore => Drained {
            messages: Seq::empty(),
            stream: r.stream,
            waiting: r.waiting,
        },
        Step::Error => Drained {
            messages: Seq::empty(),
            stream: r.stream.cleared(),
            waiting: r.waiting,
        },
        Step::Complete => {
            let first = seq![message_of(r.stream, event)];
            let next = after_message(r.stream, event);
            if next.buf.len() == 0 {
                Drained { messages: first, stream: next, waiting: r.waiting }
            } else {
                proof {
                    stream::lemma_stepped(s, waiting);
                }
                let d = drained(next, r.waiting, event);
                Drained { messages: first + d.messages, ..d }
            }
        },
    }
}

/// The stream with `event` noted and no bytes of it.
pub open spec fn noted(s: StreamView, event: Event) -> StreamView {
    StreamView {
        first_event: match s.first_event {
            Some(first) => Some(first),
            None => Some(event),
        },
        last_seen: event.timestamp,
        ..s
    }
}

/// The stream with more bytes behind those that it holds.
pub open spec fn with_more(s: StreamView, more: Seq<u8>) -> StreamView {
    StreamView { buf: s.buf + more, ..s }
}

/// `event` brings `more` bytes. Where they are more than a stream may hold, it is cleared.
pub open spec fn received(
    s: StreamView,
    waiting: Waiting,
    event: Event,
    more: Seq<u8>,
) -> Drained {
    if s.buf.len() + more.len() > MAX_BUFFERED_BYTES {
        Drained { messages: Seq::empty(), stream: noted(s, event).cleared(), waiting }
    } else {
        drained(with_more(noted(s, event), more), waiting, event)
    }
}

/// Nothing more can be read of the unread bytes.
pub open spec fn is_read_out(s: StreamView) -> bool {
    match s.phase {
        Phase::Head => {
            &&& bytes::position(s.buf, head::blank_line()) is None
            &&& s.buf.len() <= MAX_HTTP1_HEAD_BYTES
        },
        Phase::Fixed(_) | Phase::ChunkData(_) => s.buf.len() == 0,
        Phase::ChunkSize => {
            &&& bytes::position(s.buf, head::crlf()) is None
            &&& s.buf.len() <= MAX_CHUNK_LINE_BYTES
        },
        Phase::ChunkDataEnd => s.buf.len() < 2,
        Phase::Trailers => {
            &&& !head::crlf().is_prefix_of(s.buf)
            &&& bytes::position(s.buf, head::blank_line()) is None
        },
    }
}

/// A stream between two events: it is well-formed and within its bounds, nothing more can be read
/// of it, and the event with which its message began is known.
pub open spec fn is_settled(s: StreamView) -> bool {
    &&& s.wf()
    &&& s.buf.len() <= MAX_BUFFERED_BYTES
    &&& is_read_out(s)
    &&& s.first_event is None <==> s.is_idle()
}

/// A stream that waits for more bytes has been read out.
pub proof fn lemma_need_more(s: StreamView, waiting: Waiting)
    requires
        s.wf(),
    ensures
        ({
            let r = stream::stepped(s, waiting);
            r.step is NeedMore ==> is_read_out(r.stream) && (!s.is_idle() ==> !r.stream.is_idle())
        }),
    decreases s.buf.len(), stream::rank(s.phase),
{
    stream::lemma_moved(s, waiting);
    let m = stream::moved(s, waiting);
    if m.settled is None {
        lemma_need_more(m.stream, m.waiting);
    } else if m.settled == Some(Step::NeedMore) {
        bytes::lemma_position(s.buf, head::blank_line());
        bytes::lemma_position(m.stream.buf, head::crlf());
    }
}

/// Draining leaves a settled stream, and hands out no body above the largest one.
pub proof fn lemma_drained(s: StreamView, waiting: Waiting, event: Event)
    requires
        s.wf(),
        s.first_event is Some,
        !s.is_idle(),
    ensures
        ({
            let d = drained(s, waiting, event);
            &&& s.buf.len() <= MAX_BUFFERED_BYTES ==> is_settled(d.stream)
            &&& d.stream.buf.len() <= s.buf.len()
            &&& d.stream.last_seen == s.last_seen
            &&& forall|i: int|
                0 <= i < d.messages.len() ==> (#[trigger] d.messages[i]).body.len()
                    <= MAX_HTTP1_MESSAGE_BYTES
            &&& d.waiting is None ==> waiting is None
        }),
    decreases s.buf.len(),
{
    stream::lemma_stepped(s, waiting);
    lemma_need_more(s, waiting);
    let r = stream::stepped(s, waiting);
    bytes::lemma_position(Seq::empty(), head::blank_line());
    if r.step is Complete {
        let next = after_message(r.stream, event);
        if next.buf.len() > 0 {
            lemma_drained(next, r.waiting, event);
            let d = drained(next, r.waiting, event);
            let messages = seq![message_of(r.stream, event)] + d.messages;
            assert forall|i: int| 0 <= i < messages.len() implies (
            #[trigger] messages[i]).body.len() <= MAX_HTTP1_MESSAGE_BYTES by {
                if i > 0 {
                    assert(messages[i] == d.messages[i - 1]);
                }
            }
        } else {
            assert(next.buf =~= Seq::<u8>::empty());
        }
    }
}

/// An event leaves a settled stream settled.
pub proof fn lemma_received(s: StreamView, waiting: Waiting, event: Event, more: Seq<u8>)
    requires
        is_settled(s),
        s.is_idle() ==> more.len() > 0,
    ensures
        ({
            let d = received(s, waiting, event, more);
            &&& is_settled(d.stream)
            &&& d.stream.last_seen == event.timestamp
            &&& forall|i: int|
                0 <= i < d.messages.len() ==> (#[trigger] d.messages[i]).body.len()
                    <= MAX_HTTP1_MESSAGE_BYTES
            &&& d.waiting is None ==> waiting is None
        }),
{
    bytes::lemma_position(Seq::empty(), head::blank_line());
    if s.buf.len() + more.len() <= MAX_BUFFERED_BYTES {
        lemma_drained(with_more(noted(s, event), more), waiting, event);
    }
}

} // verus!
