//! Where the bytes of a stream are split into events does not matter to the messages in them.

use crate::bytes;
use crate::connections::Waiting;
use crate::event::Event;
use crate::head;
use crate::message;
use crate::message::{Drained, MessageView};
use crate::stream;
use crate::stream::{Moved, Phase, Step, Stepped, StreamView};
use crate::stream::{MAX_CHUNK_LINE_BYTES, MAX_HTTP1_HEAD_BYTES};
use vstd::prelude::*;

verus! {

/// A message begins on the stream whose end only the close of the connection would show.
pub open spec fn runs_until_close(s: StreamView, waiting: Waiting) -> bool {
    &&& s.phase is Head
    &&& match bytes::position(s.buf, head::blank_line()) {
        Some(end) => head::looks_like_http1(s.buf) && stream::framing_of(
            s.buf.take(end),
            waiting,
        ) is UntilClose,
        None => false,
    }
}

/// Two streams are equal but for the events that brought their bytes.
pub open spec fn alike(a: StreamView, b: StreamView) -> bool {
    &&& a.buf == b.buf
    &&& a.phase == b.phase
    &&& a.head == b.head
    &&& a.body == b.body
    &&& a.chunked == b.chunked
    &&& a.is_request == b.is_request
}

/// Reading on in two streams comes to the same, but for the events that brought their bytes and for
/// what waits on their connections.
pub open spec fn same_reading(a: Stepped, b: Stepped) -> bool {
    &&& a.step == b.step
    &&& match a.step {
        Step::NeedMore => alike(a.stream, b.stream),
        Step::Complete => alike(
            a.stream.in_phase(Phase::Head),
            b.stream.in_phase(Phase::Head),
        ),
        Step::Error => true,
    }
}

/// Reading on in two streams comes to the same, but for the events that brought their bytes.
pub open spec fn same_outcome(a: Stepped, b: Stepped) -> bool {
    same_reading(a, b) && a.waiting == b.waiting
}

/// Behind the head, what waits on the connection matters to nothing, and stays as it is.
pub proof fn lemma_past_head(s: StreamView, v: Waiting, w: Waiting)
    requires
        !(s.phase is Head),
    ensures
        stream::stepped(s, v) == (Stepped { waiting: v, ..stream::stepped(s, w) }),
        !(stream::stepped(s, v).stream.phase is Head),
    decreases s.buf.len(), stream::rank(s.phase),
{
    stream::lemma_moved(s, v);
    let m = stream::moved(s, v);
    if m.settled is None {
        lemma_past_head(m.stream, v, w);
    }
}

/// What more bytes do to a move: one that goes on, or completes a message whose end is known, is
/// the same; one that waits leaves a stream on which reading goes on as from the start.
pub open spec fn extends(s: StreamView, waiting: Waiting, more: Seq<u8>) -> bool {
    let t = message::with_more(s, more);
    let m = stream::moved(s, waiting);
    let n = message::with_more(m.stream, more);
    &&& runs_until_close(s, waiting) ==> runs_until_close(t, waiting)
    &&& match m.settled {
        None => stream::moved(t, waiting) == (Moved { stream: n, ..m }),
        Some(Step::Complete) => runs_until_close(s, waiting) || stream::moved(t, waiting) == (
        Moved { stream: n, ..m }),
        Some(Step::NeedMore) => same_outcome(
            stream::stepped(t, waiting),
            stream::stepped(n, m.waiting),
        ),
        Some(Step::Error) => true,
    }
}

proof fn lemma_move_head_extended(s: StreamView, waiting: Waiting, more: Seq<u8>)
    requires
        s.wf(),
        s.phase is Head,
    ensures
        extends(s, waiting, more),
{
    let t = message::with_more(s, more);
    bytes::lemma_position(s.buf, head::blank_line());
    bytes::lemma_position_extended(s.buf, more, head::blank_line());
    head::lemma_blank_line_ends_line(s.buf);
    if let Some(end) = bytes::position(s.buf, head::blank_line()) {
        head::lemma_looks_like_extended(s.buf, more);
        assert(t.buf.take(end) =~= s.buf.take(end));
        assert(t.buf.skip(end + 4) =~= s.buf.skip(end + 4) + more);
        if more.len() == 0 {
            assert(t.buf =~= s.buf);
            let m = stream::moved(s, waiting);
            let n = message::with_more(m.stream, more);
            assert(n.buf =~= m.stream.buf);
            if m.settled == Some(Step::NeedMore) {
                bytes::lemma_position(m.stream.buf, head::crlf());
                assert(m.stream.absorbed(0) =~= m.stream);
            }
        }
    }
}

proof fn lemma_absorbed_extended(s: StreamView, more: Seq<u8>, n: usize)
    ensures
        ({
            let t = message::with_more(s, more);
            let k: int = s.available(n);
            if k == n {
                t.absorbed(k) == message::with_more(s.absorbed(k), more)
            } else {
                let rest = message::with_more(s.absorbed(k), more);
                &&& t.available(n) == k + rest.available((n - k) as usize)
                &&& t.absorbed(t.available(n)) == rest.absorbed(
                    rest.available((n - k) as usize),
                )
            }
        }),
{
    let t = message::with_more(s, more);
    let k: int = s.available(n);
    if k == n {
        assert(t.buf.skip(k) =~= s.buf.skip(k) + more);
        assert(t.buf.take(k) =~= s.buf.take(k));
    } else {
        let rest = message::with_more(s.absorbed(k), more);
        let j: int = rest.available((n - k) as usize);
        assert(t.buf.skip(k + j) =~= rest.buf.skip(j));
        assert(s.body + t.buf.take(k + j) =~= s.body + s.buf.take(k) + rest.buf.take(j));
    }
}

proof fn lemma_move_fixed_extended(s: StreamView, waiting: Waiting, more: Seq<u8>)
    requires
        s.wf(),
        s.phase is Fixed,
    ensures
        extends(s, waiting, more),
{
    let n: usize = s.phase->Fixed_0;
    lemma_absorbed_extended(s, more, n);
}

proof fn lemma_move_chunk_size_extended(s: StreamView, waiting: Waiting, more: Seq<u8>)
    requires
        s.wf(),
        s.phase is ChunkSize,
    ensures
        extends(s, waiting, more),
{
    let t = message::with_more(s, more);
    bytes::lemma_position(s.buf, head::crlf());
    bytes::lemma_position_extended(s.buf, more, head::crlf());
    if let Some(end) = bytes::position(s.buf, head::crlf()) {
        assert(t.buf.take(end) =~= s.buf.take(end));
        assert(t.buf.skip(end + 2) =~= s.buf.skip(end + 2) + more);
    }
}

proof fn lemma_move_chunk_data_extended(s: StreamView, waiting: Waiting, more: Seq<u8>)
    requires
        s.wf(),
        s.phase is ChunkData,
    ensures
        extends(s, waiting, more),
{
    let n: usize = s.phase->ChunkData_0;
    lemma_absorbed_extended(s, more, n);
    let t = message::with_more(s, more);
    let m = stream::moved(s, waiting);
    if m.settled is Some {
        let rest = message::with_more(m.stream, more);
        assert(stream::moved(t, waiting) == stream::moved(rest, waiting));
    }
}

proof fn lemma_move_rest_extended(s: StreamView, waiting: Waiting, more: Seq<u8>)
    requires
        s.wf(),
        s.phase is ChunkDataEnd || s.phase is Trailers,
    ensures
        extends(s, waiting, more),
{
    let t = message::with_more(s, more);
    bytes::lemma_position(s.buf, head::blank_line());
    bytes::lemma_position_extended(s.buf, more, head::blank_line());
    if s.buf.len() >= 2 {
        assert(t.buf.subrange(0, 2) =~= s.buf.subrange(0, 2));
        assert(t.buf.skip(2) =~= s.buf.skip(2) + more);
    }
    if let Some(end) = bytes::position(s.buf, head::blank_line()) {
        assert(t.buf.skip(end + 4) =~= s.buf.skip(end + 4) + more);
    }
}

/// More bytes do to each move what `extends` says.
pub proof fn lemma_moved_extended(s: StreamView, waiting: Waiting, more: Seq<u8>)
    requires
        s.wf(),
    ensures
        extends(s, waiting, more),
{
    match s.phase {
        Phase::Head => lemma_move_head_extended(s, waiting, more),
        Phase::Fixed(_) => lemma_move_fixed_extended(s, waiting, more),
        Phase::ChunkSize => lemma_move_chunk_size_extended(s, waiting, more),
        Phase::ChunkData(_) => lemma_move_chunk_data_extended(s, waiting, more),
        _ => lemma_move_rest_extended(s, waiting, more),
    }
}

/// What more bytes do to reading on: a message whose end is known stays the same message, with the
/// bytes left for the next one; where more was needed, reading goes on as from the start.
pub proof fn lemma_stepped_extended(s: StreamView, waiting: Waiting, more: Seq<u8>)
    requires
        s.wf(),
        !runs_until_close(s, waiting),
    ensures
        ({
            let t = message::with_more(s, more);
            let r = stream::stepped(s, waiting);
            let rest = message::with_more(r.stream, more);
            match r.step {
                Step::Complete => stream::stepped(t, waiting) == (Stepped { stream: rest, ..r }),
                Step::NeedMore => same_outcome(
                    stream::stepped(t, waiting),
                    stream::stepped(rest, r.waiting),
                ),
                Step::Error => true,
            }
        }),
    decreases s.buf.len(), stream::rank(s.phase),
{
    lemma_moved_extended(s, waiting, more);
    stream::lemma_moved(s, waiting);
    let m = stream::moved(s, waiting);
    if m.settled is None {
        lemma_stepped_extended(m.stream, m.waiting, more);
    }
}

proof fn lemma_alike_moved(a: StreamView, b: StreamView, waiting: Waiting)
    requires
        alike(a, b),
    ensures
        ({
            let m = stream::moved(a, waiting);
            let n = stream::moved(b, waiting);
            m.settled == n.settled && m.waiting == n.waiting && alike(m.stream, n.stream)
        }),
{
}

/// Which events brought the bytes does not matter to reading on.
pub proof fn lemma_alike_stepped(a: StreamView, b: StreamView, waiting: Waiting)
    requires
        alike(a, b),
    ensures
        same_outcome(stream::stepped(a, waiting), stream::stepped(b, waiting)),
    decreases a.buf.len(), stream::rank(a.phase),
{
    lemma_alike_moved(a, b, waiting);
    stream::lemma_moved(a, waiting);
    let m = stream::moved(a, waiting);
    if m.settled is None {
        lemma_alike_stepped(m.stream, stream::moved(b, waiting).stream, m.waiting);
    }
}

/// Behind the head, reading goes on as from the start when more bytes came, whatever waits on the
/// connection meanwhile.
pub proof fn lemma_read_on(
    s: StreamView,
    waiting: Waiting,
    more: Seq<u8>,
    now: StreamView,
    w: Waiting,
)
    requires
        s.wf(),
        !runs_until_close(s, waiting),
        stream::stepped(s, waiting).step is NeedMore,
        !(stream::stepped(s, waiting).stream.phase is Head),
        alike(now, message::with_more(stream::stepped(s, waiting).stream, more)),
    ensures
        same_reading(
            stream::stepped(now, w),
            stream::stepped(message::with_more(s, more), waiting),
        ),
        stream::stepped(now, w).waiting == w,
{
    let r = stream::stepped(s, waiting);
    let rest = message::with_more(r.stream, more);
    lemma_stepped_extended(s, waiting, more);
    lemma_past_head(rest, w, r.waiting);
    lemma_alike_stepped(now, rest, w);
}

/// What a message says, whichever events carried it.
#[verifier::ext_equal]
pub struct Content {
    pub head: Seq<u8>,
    pub body: Seq<u8>,
    pub was_chunked: bool,
    pub is_request: bool,
}

pub open spec fn content(m: MessageView) -> Content {
    Content { head: m.head, body: m.body, was_chunked: m.was_chunked, is_request: m.is_request }
}

/// What messages say, whichever events carried them.
pub open spec fn contents(messages: Seq<MessageView>) -> Seq<Content> {
    messages.map_values(|m: MessageView| content(m))
}

proof fn lemma_contents_first(m: MessageView, messages: Seq<MessageView>)
    ensures
        contents(seq![m]) == seq![content(m)],
        contents(seq![m] + messages) == seq![content(m)] + contents(messages),
{
    assert(contents(seq![m]) =~= seq![content(m)]);
    assert(contents(seq![m] + messages) =~= seq![content(m)] + contents(messages));
}

/// Two runs over a stream gave the same, but for the events that brought its bytes.
pub open spec fn same_messages(a: Drained, b: Drained) -> bool {
    &&& contents(a.messages) == contents(b.messages)
    &&& alike(a.stream, b.stream)
    &&& a.waiting == b.waiting
}

proof fn lemma_outcome_drained(
    a: StreamView,
    b: StreamView,
    v: Waiting,
    w: Waiting,
    e: Event,
    f: Event,
)
    requires
        a.wf(),
        b.wf(),
        same_outcome(stream::stepped(a, v), stream::stepped(b, w)),
    ensures
        same_messages(message::drained(a, v, e), message::drained(b, w, f)),
    decreases a.buf.len(),
{
    let q = stream::stepped(a, v);
    let r = stream::stepped(b, w);
    let c = message::drained(a, v, e);
    let d = message::drained(b, w, f);
    stream::lemma_stepped(a, v);
    stream::lemma_stepped(b, w);
    if q.step is Complete {
        let m = message::message_of(q.stream, e);
        let n = message::message_of(r.stream, f);
        let a2 = message::after_message(q.stream, e);
        let b2 = message::after_message(r.stream, f);
        assert(content(m) == content(n));
        if a2.buf.len() > 0 {
            lemma_alike_stepped(a2, b2, q.waiting);
            lemma_outcome_drained(a2, b2, q.waiting, q.waiting, e, f);
            let c2 = message::drained(a2, q.waiting, e);
            let d2 = message::drained(b2, q.waiting, f);
            lemma_contents_first(m, c2.messages);
            lemma_contents_first(n, d2.messages);
        } else {
            lemma_contents_first(m, Seq::empty());
            lemma_contents_first(n, Seq::empty());
        }
    } else {
        assert(contents(c.messages) =~= contents(d.messages));
    }
}

/// Which events brought the bytes does not matter to what the messages say.
pub proof fn lemma_alike_drained(a: StreamView, b: StreamView, waiting: Waiting, e: Event, f: Event)
    requires
        a.wf(),
        alike(a, b),
    ensures
        same_messages(message::drained(a, waiting, e), message::drained(b, waiting, f)),
{
    lemma_alike_stepped(a, b, waiting);
    lemma_outcome_drained(a, b, waiting, waiting, e, f);
}

/// In draining the stream no byte is unreadable, and no message runs until the connection closes.
pub open spec fn is_framed(s: StreamView, waiting: Waiting, event: Event) -> bool
    decreases s.buf.len(),
        when s.wf()
{
    let r = stream::stepped(s, waiting);
    !runs_until_close(s, waiting) && match r.step {
        Step::NeedMore => true,
        Step::Error => false,
        Step::Complete => {
            let next = message::after_message(r.stream, event);
            proof {
                stream::lemma_stepped(s, waiting);
            }
            next.buf.len() == 0 || is_framed(next, r.waiting, event)
        },
    }
}

/// A stream was drained, with `d` the outcome. Draining it again when more bytes came gives the rest
/// of what draining it with all bytes there gives.
pub open spec fn goes_on(
    s: StreamView,
    waiting: Waiting,
    more: Seq<u8>,
    d: Drained,
    f: Event,
    g: Event,
) -> bool {
    let then = message::drained(message::with_more(d.stream, more), d.waiting, f);
    let whole = message::drained(message::with_more(s, more), waiting, g);
    &&& contents(whole.messages) == contents(d.messages) + contents(then.messages)
    &&& alike(whole.stream, then.stream)
    &&& whole.waiting == then.waiting
}

proof fn lemma_last_drained_extended(
    s: StreamView,
    waiting: Waiting,
    more: Seq<u8>,
    e: Event,
    f: Event,
    g: Event,
)
    requires
        s.wf(),
        !runs_until_close(s, waiting),
        stream::stepped(s, waiting).step is Complete,
        stream::stepped(s, waiting).stream.buf.len() == 0,
    ensures
        goes_on(s, waiting, more, message::drained(s, waiting, e), f, g),
{
    let t = message::with_more(s, more);
    let r = stream::stepped(s, waiting);
    let d = message::drained(s, waiting, e);
    let rest = message::with_more(d.stream, more);
    let then = message::drained(rest, d.waiting, f);
    stream::lemma_stepped(s, waiting);
    lemma_stepped_extended(s, waiting, more);
    let q = stream::stepped(t, waiting);
    let first = message::message_of(r.stream, e);
    let first_whole = message::message_of(q.stream, g);
    let next_whole = message::after_message(q.stream, g);
    assert(r.stream.buf + more =~= more);
    lemma_contents_first(first, Seq::empty());
    if more.len() == 0 {
        bytes::lemma_position(rest.buf, head::blank_line());
        lemma_contents_first(first_whole, Seq::empty());
        assert(contents(then.messages) =~= Seq::<Content>::empty());
        assert(seq![content(first)] + Seq::<Content>::empty() =~= seq![content(first)]);
    } else {
        let whole_rest = message::drained(next_whole, q.waiting, g);
        lemma_alike_drained(next_whole, rest, q.waiting, g, f);
        lemma_contents_first(first_whole, whole_rest.messages);
    }
}

/// Draining a stream, and draining it again when more bytes came, gives the messages that draining
/// it with all bytes there gives.
pub proof fn lemma_drained_extended(
    s: StreamView,
    waiting: Waiting,
    more: Seq<u8>,
    e: Event,
    f: Event,
    g: Event,
)
    requires
        s.wf(),
        is_framed(s, waiting, e),
    ensures
        goes_on(s, waiting, more, message::drained(s, waiting, e), f, g),
    decreases s.buf.len(),
{
    let t = message::with_more(s, more);
    let r = stream::stepped(s, waiting);
    let d = message::drained(s, waiting, e);
    let rest = message::with_more(d.stream, more);
    let then = message::drained(rest, d.waiting, f);
    let whole = message::drained(t, waiting, g);
    stream::lemma_stepped(s, waiting);
    lemma_stepped_extended(s, waiting, more);
    match r.step {
        Step::NeedMore => {
            lemma_outcome_drained(t, rest, waiting, r.waiting, g, f);
            assert(contents(whole.messages) =~= contents(d.messages) + contents(then.messages));
        },
        Step::Complete => {
            if r.stream.buf.len() == 0 {
                lemma_last_drained_extended(s, waiting, more, e, f, g);
            } else {
                let first = message::message_of(r.stream, e);
                let next = message::after_message(r.stream, e);
                let q = stream::stepped(t, waiting);
                let next_whole = message::after_message(q.stream, g);
                let first_whole = message::message_of(q.stream, g);
                lemma_drained_extended(next, r.waiting, more, e, f, g);
                let d_rest = message::drained(next, r.waiting, e);
                let next_more = message::with_more(next, more);
                let whole_rest = message::drained(next_whole, q.waiting, g);
                lemma_alike_drained(next_whole, next_more, q.waiting, g, g);
                lemma_contents_first(first, d_rest.messages);
                lemma_contents_first(first_whole, whole_rest.messages);
                assert(seq![content(first)] + (contents(d_rest.messages) + contents(then.messages))
                    =~= seq![content(first)] + contents(d_rest.messages) + contents(then.messages));
            }
        },
        Step::Error => {},
    }
}

/// An idle stream gives nothing.
proof fn lemma_idle_drained(s: StreamView, waiting: Waiting, event: Event)
    requires
        s.wf(),
        s.is_idle(),
    ensures
        message::drained(s, waiting, event) == (Drained {
            messages: Seq::empty(),
            stream: s,
            waiting,
        }),
{
    bytes::lemma_position(s.buf, head::blank_line());
}

/// Where draining a stream leaves it idle, bytes that the same event brings behind give the
/// messages that they give on the idle stream, begun with this event.
pub proof fn lemma_drained_on(s: StreamView, waiting: Waiting, event: Event, more: Seq<u8>)
    requires
        s.wf(),
        is_framed(s, waiting, event),
        s.is_idle() ==> s.first_event == Some(event),
        message::drained(s, waiting, event).stream.is_idle(),
        more.len() > 0,
    ensures
        ({
            let d = message::drained(s, waiting, event);
            let idle = StreamView { first_event: Some(event), ..d.stream };
            let then = message::drained(message::with_more(idle, more), d.waiting, event);
            message::drained(message::with_more(s, more), waiting, event) == (Drained {
                messages: d.messages + then.messages,
                ..then
            })
        }),
    decreases s.buf.len(),
{
    let t = message::with_more(s, more);
    let r = stream::stepped(s, waiting);
    let d = message::drained(s, waiting, event);
    let idle = StreamView { first_event: Some(event), ..d.stream };
    let then = message::drained(message::with_more(idle, more), d.waiting, event);
    let whole = message::drained(t, waiting, event);
    stream::lemma_stepped(s, waiting);
    lemma_stepped_extended(s, waiting, more);
    if r.step is Complete {
        let first = message::message_of(r.stream, event);
        let next = message::after_message(r.stream, event);
        let q = stream::stepped(t, waiting);
        assert(message::message_of(q.stream, event) == first);
        if next.buf.len() == 0 {
            assert(message::after_message(q.stream, event) == message::with_more(idle, more));
        } else {
            lemma_drained_on(next, r.waiting, event, more);
            assert(message::after_message(q.stream, event) == message::with_more(next, more));
            let d_rest = message::drained(next, r.waiting, event);
            assert(seq![first] + (d_rest.messages + then.messages) =~= d.messages + then.messages);
        }
    } else {
        message::lemma_need_more(s, waiting);
        assert(s.is_idle());
        lemma_idle_drained(s, waiting, event);
        assert(d.messages + then.messages =~= then.messages);
    }
}

/// The head, or the first line of a chunk, is not too long to come in parts.
pub open spec fn line_fits(s: StreamView) -> bool {
    match s.phase {
        Phase::Head => match bytes::position(s.buf, head::blank_line()) {
            Some(end) => end + 3 <= MAX_HTTP1_HEAD_BYTES,
            None => true,
        },
        Phase::ChunkSize => match bytes::position(s.buf, head::crlf()) {
            Some(end) => end + 1 <= MAX_CHUNK_LINE_BYTES,
            None => true,
        },
        _ => true,
    }
}

/// No line of the message that is read is too long to come in parts.
pub open spec fn lines_fit(s: StreamView, waiting: Waiting) -> bool
    decreases s.buf.len(), stream::rank(s.phase),
{
    let m = stream::moved(s, waiting);
    &&& line_fits(s)
    &&& match m.settled {
        None => {
            proof {
                stream::lemma_moved(s, waiting);
            }
            lines_fit(m.stream, m.waiting)
        },
        Some(_) => true,
    }
}

/// A move after which the next can be made at once does not change what reading on comes to.
pub proof fn lemma_move_on(s: StreamView, waiting: Waiting)
    requires
        stream::moved(s, waiting).settled is None,
    ensures
        ({
            let m = stream::moved(s, waiting);
            &&& stream::stepped(s, waiting) == stream::stepped(m.stream, m.waiting)
            &&& line_fits(s) && lines_fit(m.stream, m.waiting) ==> lines_fit(s, waiting)
        }),
{
}

proof fn lemma_move_not_error(s: StreamView, waiting: Waiting, more: Seq<u8>)
    requires
        s.wf(),
        stream::moved(s, waiting).settled == Some(Step::Error),
        lines_fit(message::with_more(s, more), waiting),
        !runs_until_close(message::with_more(s, more), waiting),
    ensures
        ({
            let m = stream::moved(message::with_more(s, more), waiting);
            m.settled == Some(Step::Error) || m.settled == Some(Step::NeedMore)
        }),
{
    let t = message::with_more(s, more);
    lemma_moved_extended(s, waiting, more);
    bytes::lemma_position(s.buf, head::blank_line());
    bytes::lemma_position(s.buf, head::crlf());
    bytes::lemma_position_extended(s.buf, more, head::blank_line());
    bytes::lemma_position_extended(s.buf, more, head::crlf());
    head::lemma_blank_line_ends_line(s.buf);
    match s.phase {
        Phase::Head => {
            if let Some(end) = bytes::position(s.buf, head::blank_line()) {
                head::lemma_looks_like_extended(s.buf, more);
                assert(t.buf.take(end) =~= s.buf.take(end));
            }
        },
        Phase::ChunkSize => {
            if let Some(end) = bytes::position(s.buf, head::crlf()) {
                assert(t.buf.take(end) =~= s.buf.take(end));
            }
        },
        Phase::ChunkDataEnd => {
            assert(t.buf.subrange(0, 2) =~= s.buf.subrange(0, 2));
        },
        _ => {},
    }
}

/// While a message has not come whole, more is needed.
pub proof fn lemma_part_needs_more(s: StreamView, waiting: Waiting, more: Seq<u8>)
    requires
        s.wf(),
        ({
            let t = message::with_more(s, more);
            let r = stream::stepped(t, waiting);
            &&& r.step is Complete
            &&& r.stream.buf.len() < more.len()
            &&& !runs_until_close(t, waiting)
            &&& lines_fit(t, waiting)
        }),
    ensures
        stream::stepped(s, waiting).step is NeedMore,
    decreases s.buf.len(), stream::rank(s.phase),
{
    let m = stream::moved(s, waiting);
    lemma_moved_extended(s, waiting, more);
    stream::lemma_moved(s, waiting);
    match m.settled {
        None => {
            lemma_part_needs_more(m.stream, m.waiting, more);
        },
        Some(Step::NeedMore) | Some(Step::Complete) => {},
        Some(Step::Error) => {
            lemma_move_not_error(s, waiting, more);
        },
    }
}

} // verus!
