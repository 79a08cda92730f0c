//! What the tracker gives for messages, in terms of how they are spelled.

use crate::bytes;
use crate::bytes::ascii;
use crate::connections;
use crate::connections::{Connection, Waiting};
use crate::event::Event;
use crate::head;
use crate::laws;
use crate::laws::Delivery;
use crate::message;
use crate::message::MessageView;
use crate::reading_laws;
use crate::reading_laws::may_have_body;
use crate::spelling;
use crate::spelling::Line;
use crate::splitting;
use crate::stepping_laws;
use crate::stepping_laws::{
    head_is_next, holds_head, is_awaited, is_ended_line, is_true_chunk, is_unreadable,
    law_queue_is_kept_as_written, lemma_holds_head, queue_behind, Spelled,
};
use crate::stream;
use crate::stream::{Phase, StreamView};
use crate::streams;
use crate::streams::StreamKey;
use crate::tracker;
use crate::tracker::{FeedView, TrackerView};
use crate::written;
use crate::written::{Chunk, Payload, Written};
use vstd::prelude::*;

verus! {

/// A line end, or lines that an empty line ends.
pub open spec fn is_trailers(text: Seq<u8>) -> bool {
    ||| text == spelling::line_end()
    ||| {
        &&& !spelling::begins(text, spelling::line_end())
        &&& spelling::first(text, text.len() - 4, spelling::empty_line())
    }
}

/// Chunks, a line that gives the size zero, and what follows it.
pub open spec fn is_true_chunked(payload: Payload) -> bool {
    &&& payload matches Payload::Chunked { chunks, last, trailers }
    &&& forall|i: int| 0 <= i < chunks.len() ==> is_true_chunk(#[trigger] chunks[i])
    &&& is_ended_line(last)
    &&& spelling::says_size(last, 0)
    &&& is_trailers(trailers)
    &&& payload.body().len() <= 33554432
}

/// What follows the head of a request is what its header fields say.
pub open spec fn request_carries(lines: Seq<Line>, payload: Payload) -> bool {
    if spelling::names_chunked(lines) {
        is_true_chunked(payload)
    } else {
        payload matches Payload::Plain(body) && body.len() <= 33554432 && {
            ||| spelling::says_length(lines, body.len())
            ||| body.len() == 0 && spelling::says_no_length(lines)
        }
    }
}

/// What follows the head of a response is what its status and header fields say.
pub open spec fn response_carries(
    head: Seq<u8>,
    lines: Seq<Line>,
    payload: Payload,
    to_head: bool,
) -> bool {
    if to_head || !may_have_body(head) {
        payload == Payload::Plain(Seq::empty())
    } else if spelling::names_chunked(lines) {
        is_true_chunked(payload)
    } else {
        payload matches Payload::Plain(body) && body.len() <= 33554432 && spelling::says_length(
            lines,
            body.len(),
        )
    }
}

impl Spelled {
    /// A message of known length, given what waits for a response.
    pub open spec fn wf(self, waiting: Waiting) -> bool {
        let head = self.message.head;
        &&& self.has_head()
        &&& if spelling::begins(head, ascii("HTTP/"@)) {
            response_carries(head, self.lines, self.message.payload, head_is_next(waiting))
        } else {
            request_carries(self.lines, self.message.payload)
        }
    }

    /// No line is too long to come in parts.
    pub open spec fn fits(self) -> bool {
        &&& self.message.head.len() <= 65533
        &&& self.message.payload matches Payload::Chunked { chunks, last, .. } ==> {
            &&& forall|i: int| 0 <= i < chunks.len() ==> (#[trigger] chunks[i]).line.len() <= 1023
            &&& last.len() <= 1023
        }
    }

    /// The message as it is handed out.
    pub open spec fn shown(self, first: Event, last: Event) -> MessageView {
        MessageView {
            head: self.message.head,
            body: self.message.payload.body(),
            first_event: first,
            last_timestamp: last.timestamp,
            was_chunked: self.message.payload is Chunked,
            is_request: !spelling::begins(self.message.head, ascii("HTTP/"@)),
        }
    }
}

proof fn lemma_ended_line(line: Seq<u8>)
    requires
        is_ended_line(line),
    ensures
        written::is_line(line),
{
    let text = line + spelling::line_end();
    assert(spelling::line_end() =~= head::crlf());
    reading_laws::law_first_occurrence_is_found(text, head::crlf());
}

proof fn lemma_data_in_body(chunks: Seq<Chunk>, i: int)
    requires
        0 <= i < chunks.len(),
    ensures
        chunks[i].data.len() <= written::chunks_data(chunks).len(),
    decreases chunks.len(),
{
    if i > 0 {
        let others = chunks.drop_first();
        assert(others[i - 1] == chunks[i]);
        lemma_data_in_body(others, i - 1);
    }
}

proof fn lemma_true_chunked(payload: Payload)
    requires
        is_true_chunked(payload),
    ensures
        payload.follows(head::Framing::Chunked),
{
    if let Payload::Chunked { chunks, last, trailers } = payload {
        assert forall|i: int| 0 <= i < chunks.len() implies (#[trigger] chunks[i]).wf() by {
            let c = chunks[i];
            assert(is_true_chunk(c));
            lemma_ended_line(c.line);
            lemma_data_in_body(chunks, i);
            reading_laws::law_chunk_sizes_are_read_as_written(c.line);
        }
        lemma_ended_line(last);
        reading_laws::law_chunk_sizes_are_read_as_written(last);
        assert(spelling::line_end() =~= head::crlf());
        assert(spelling::empty_line() =~= head::blank_line());
        reading_laws::law_first_occurrence_is_found(trailers, head::blank_line());
        reading_laws::lemma_begins(trailers, head::crlf());
    }
}

proof fn lemma_spelled_wf(x: Spelled, waiting: Waiting)
    requires
        x.wf(waiting),
    ensures
        x.message.wf(waiting),
        head::looks_like_http1(x.message.head + head::blank_line()),
{
    let head = x.message.head;
    let payload = x.message.payload;
    reading_laws::law_heads_are_recognised_as_written(head);
    reading_laws::law_heads_are_told_apart_as_written(head);
    law_queue_is_kept_as_written(head, waiting);
    if payload is Chunked && is_true_chunked(payload) {
        lemma_true_chunked(payload);
    }
    let n: nat = match payload {
        Payload::Plain(body) => if body.len() <= 33554432 {
            body.len()
        } else {
            0
        },
        Payload::Chunked { .. } => 0,
    };
    reading_laws::law_requests_are_framed_by_their_fields(head, x.start, x.lines, n);
    reading_laws::law_responses_are_framed_by_status_and_fields(
        head,
        x.start,
        x.lines,
        head_is_next(waiting),
        n,
    );
}

/// No message has begun on the stream, and the bytes begin one.
pub open spec fn begins_afresh(t: TrackerView, key: StreamKey, bytes: Seq<u8>) -> bool {
    &&& !t.upgraded.contains((key.0, key.1))
    &&& t.stream(key).phase is Head
    &&& t.stream(key).buf.len() == 0
    &&& spelling::begins_message(bytes)
}

/// A message is handed out as it was written, whole and once, however its bytes are split into
/// events and whatever comes on other streams in between: any request or response of known length,
/// whatever its method, target, status and header fields. A request then waits for its response,
/// and a response is taken for that to the first request that waits.
pub proof fn law_spelled_message_comes_out(d: Delivery, x: Spelled)
    requires
        d.happens(),
        d.lead.len() == 0,
        begins_afresh(d.before[0], d.key, d.pieces[0]),
        x.wf(d.waiting(x.message)),
        x.fits(),
        laws::joined(d.pieces) == x.message.wire(),
        d.pieces.last().len() > 0,
    ensures
        forall|i: int|
            0 <= i < d.pieces.len() - 1 ==> #[trigger] d.results[i] == FeedView::Consumed(
                Seq::empty(),
            ),
        d.results.last() == FeedView::Consumed(seq![x.shown(d.events[0], d.events.last())]),
        d.after.last().stream(d.key).phase is Head,
        d.after.last().stream(d.key).buf.len() == 0,
        forall|i: int|
            0 <= i < d.pieces.len() ==> connections::waiting_on(
                (#[trigger] d.after[i]).head_requests,
                (d.key.0, d.key.1),
            ) == (if i == d.head_piece(x.message) {
                queue_behind(x.message.head, d.waiting_at(i))
            } else {
                d.waiting_at(i)
            }),
{
    lemma_spelled_wf(x, d.waiting(x.message));
    reading_laws::law_starts_are_recognised_as_written(d.pieces[0]);
    reading_laws::law_heads_are_told_apart_as_written(x.message.head);
    law_queue_is_kept_as_written(x.message.head, d.waiting_at(d.head_piece(x.message)));
    laws::law_message_in_pieces(d, x.message);
    assert(x.shown(d.events[0], d.events.last()) == laws::delivered(
        x.message,
        d.events[0],
        d.events.last(),
    ));
}

/// The event that brings the rest of a message whose head had not come whole completes it, however
/// long its lines are.
pub proof fn law_spelled_message_is_completed(
    t: TrackerView,
    key: StreamKey,
    event: Event,
    more: Seq<u8>,
    x: Spelled,
    result: FeedView,
    after: TrackerView,
)
    requires
        t.wf(),
        t.feeds(key, event, more, result, after),
        !(result is NotHttp1),
        t.stream(key).phase is Head,
        t.stream(key).buf + more == x.message.wire(),
        x.message.wire().len() <= 33619968,
        x.wf(t.waiting_for(key)),
    ensures
        result == FeedView::Consumed(
            seq![
                x.shown(
                    match t.stream(key).first_event {
                        Some(first) => first,
                        None => event,
                    },
                    event,
                ),
            ],
        ),
        after.stream(key).phase is Head,
        after.stream(key).buf.len() == 0,
        connections::waiting_on(after.head_requests, (key.0, key.1)) == queue_behind(
            x.message.head,
            t.waiting_for(key),
        ),
{
    let waiting = t.waiting_for(key);
    let m = x.message;
    assert(message::is_settled(StreamView::fresh())) by {
        bytes::lemma_position(Seq::empty(), head::blank_line());
    }
    lemma_spelled_wf(x, waiting);
    law_queue_is_kept_as_written(m.head, waiting);
    reading_laws::law_heads_are_told_apart_as_written(m.head);
    let noted = message::noted(t.stream(key), event);
    let empty = StreamView { buf: Seq::empty(), ..noted };
    let s = message::with_more(noted, more);
    written::lemma_written_read(empty, waiting, m, Seq::empty());
    assert(empty.buf + (m.wire() + Seq::<u8>::empty()) =~= s.buf);
    laws::lemma_written_drained(s, waiting, m, noted.first_event->0, event);
    laws::lemma_feed(t, key, event, more, result, after);
}

/// The messages in a row, as bytes.
pub open spec fn row_text(row: Seq<Spelled>) -> Seq<u8> {
    laws::wires(row.map_values(|x: Spelled| x.message))
}

/// Each message is well-formed, given what waits when it comes.
pub open spec fn is_row(row: Seq<Spelled>, waiting: Waiting) -> bool
    decreases row.len(),
{
    row.len() == 0 || row[0].wf(waiting) && is_row(
        row.drop_first(),
        queue_behind(row[0].message.head, waiting),
    )
}

/// What waits behind the messages in a row.
pub open spec fn queue_behind_row(row: Seq<Spelled>, waiting: Waiting) -> Waiting
    decreases row.len(),
{
    if row.len() == 0 {
        waiting
    } else {
        queue_behind_row(row.drop_first(), queue_behind(row[0].message.head, waiting))
    }
}

proof fn lemma_row(row: Seq<Spelled>, waiting: Waiting)
    requires
        is_row(row, waiting),
    ensures
        laws::all_wf(row.map_values(|x: Spelled| x.message), waiting),
        laws::waiting_after_all(row.map_values(|x: Spelled| x.message), waiting)
            == queue_behind_row(row, waiting),
    decreases row.len(),
{
    let messages = row.map_values(|x: Spelled| x.message);
    if row.len() > 0 {
        lemma_spelled_wf(row[0], waiting);
        law_queue_is_kept_as_written(row[0].message.head, waiting);
        lemma_row(row.drop_first(), queue_behind(row[0].message.head, waiting));
        assert(messages.drop_first() =~= row.drop_first().map_values(|x: Spelled| x.message));
    }
}

/// Messages that come in a row in one event are all handed out as they were written, in their
/// order, requests and responses alike.
pub proof fn law_spelled_row_comes_out(
    t: TrackerView,
    key: StreamKey,
    event: Event,
    row: Seq<Spelled>,
    result: FeedView,
    after: TrackerView,
)
    requires
        t.wf(),
        t.feeds(key, event, row_text(row), result, after),
        begins_afresh(t, key, row_text(row)),
        row.len() > 0,
        is_row(row, t.waiting_for(key)),
        row_text(row).len() <= 33619968,
    ensures
        result == FeedView::Consumed(row.map_values(|x: Spelled| x.shown(event, event))),
        after.stream(key).phase is Head,
        after.stream(key).buf.len() == 0,
        connections::waiting_on(after.head_requests, (key.0, key.1)) == queue_behind_row(
            row,
            t.waiting_for(key),
        ),
{
    let messages = row.map_values(|x: Spelled| x.message);
    lemma_row(row, t.waiting_for(key));
    laws::law_messages_in_one_event(t, key, event, messages, result, after);
    lemma_row_shown(row, event);
}

/// Bytes are handed back exactly where the connection has left HTTP/1.x, or no message has begun on
/// the stream and they do not begin one; the tracker is then as it was.
pub proof fn law_refusal_as_written(
    t: TrackerView,
    key: StreamKey,
    event: Event,
    more: Seq<u8>,
    result: FeedView,
    after: TrackerView,
)
    requires
        t.feeds(key, event, more, result, after),
    ensures
        result is NotHttp1 <==> t.upgraded.contains((key.0, key.1)) || t.stream(key).phase is Head
            && t.stream(key).buf.len() == 0 && !spelling::begins_message(more),
        result is NotHttp1 ==> after == t,
{
    reading_laws::law_starts_are_recognised_as_written(more);
}

/// A response with the status 101.
pub open spec fn is_101(m: MessageView) -> bool {
    spelling::begins(m.head, ascii("HTTP/"@)) && spelling::says_status(m.head, 101)
}

/// One of the messages is a response with the status 101.
pub open spec fn any_101(messages: Seq<MessageView>) -> bool {
    exists|i: int| 0 <= i < messages.len() && is_101(#[trigger] messages[i])
}

proof fn lemma_any_101(
    t: TrackerView,
    key: StreamKey,
    event: Event,
    more: Seq<u8>,
    messages: Seq<MessageView>,
    after: TrackerView,
)
    requires
        t.wf(),
        t.feeds(key, event, more, FeedView::Consumed(messages), after),
    ensures
        message::any_switches(messages) <==> any_101(messages),
{
    laws::law_structure_of_messages(t, key, event, more, messages, after);
    assert forall|i: int| 0 <= i < messages.len() implies is_101(#[trigger] messages[i])
        == messages[i].switches_protocol() by {
        let m = messages[i];
        reading_laws::law_heads_are_told_apart_as_written(m.head);
        reading_laws::law_status_is_read_as_written(m.head, 101);
    }
    if message::any_switches(messages) {
        let i: int = choose|i: int|
            0 <= i < messages.len() && (#[trigger] messages[i]).switches_protocol();
        assert(is_101(messages[i]));
    }
    if any_101(messages) {
        let i: int = choose|i: int| 0 <= i < messages.len() && is_101(#[trigger] messages[i]);
        assert(messages[i].switches_protocol());
    }
}

/// A connection leaves HTTP/1.x exactly with a response that has the status 101, and never returns.
/// It then has no stream; else the stream that was fed is kept, and was last seen with the event.
pub proof fn law_only_101_switches_protocols(
    t: TrackerView,
    key: StreamKey,
    event: Event,
    more: Seq<u8>,
    messages: Seq<MessageView>,
    after: TrackerView,
)
    requires
        t.wf(),
        t.feeds(key, event, more, FeedView::Consumed(messages), after),
    ensures
        forall|conn: Connection| #[trigger]
            after.upgraded.contains(conn) <==> t.upgraded.contains(conn) || conn == (
            key.0,
            key.1,
        ) && any_101(messages),
        any_101(messages) ==> forall|rw: u8| !#[trigger]
            after.streams.contains_key((key.0, key.1, rw)),
        !any_101(messages) ==> after.streams.contains_key(key) && after.streams[key].last_seen
            == event.timestamp,
{
    lemma_any_101(t, key, event, more, messages, after);
    laws::lemma_feed(t, key, event, more, FeedView::Consumed(messages), after);
    bytes::lemma_position(Seq::empty(), head::blank_line());
    head::lemma_empty_is_no_message();
    if more.len() == 0 {
        assert(more =~= Seq::<u8>::empty());
    }
    message::lemma_received(t.stream(key), t.waiting_for(key), event, more);
    assert forall|rw: u8| any_101(messages) implies !#[trigger] after.streams.contains_key(
        (key.0, key.1, rw),
    ) by {
        assert(streams::connection_of((key.0, key.1, rw)) == streams::connection_of(key));
    }
}

/// What comes on a stream leaves all others alone, but that a connection which switches protocols
/// loses its streams. Where there are 1024 streams and this one is new, one that was seen before or
/// with all others goes; where more than 1024 connections have queues besides, all queues go.
pub proof fn law_other_streams_are_kept(
    t: TrackerView,
    key: StreamKey,
    event: Event,
    more: Seq<u8>,
    messages: Seq<MessageView>,
    after: TrackerView,
)
    requires
        t.wf(),
        t.feeds(key, event, more, FeedView::Consumed(messages), after),
    ensures
        ({
            let full = t.streams.len() >= 1024 && !t.streams.contains_key(key);
            &&& !full ==> others_kept(t, key, messages, after, key)
            &&& full ==> exists|gone: StreamKey| #[trigger]
                others_kept(t, key, messages, after, gone) && t.streams.contains_key(gone)
                    && forall|k: StreamKey| #[trigger]
                    t.streams.contains_key(k) ==> t.streams[gone].last_seen
                        <= t.streams[k].last_seen
            &&& forall|conn: Connection|
                conn != (key.0, key.1) ==> #[trigger] connections::waiting_on(
                    after.head_requests,
                    conn,
                ) == (if full && t.head_requests.len() > 1024 {
                    None
                } else {
                    connections::waiting_on(t.head_requests, conn)
                })
        }),
{
    lemma_any_101(t, key, event, more, messages, after);
    let gone: StreamKey = choose|oldest: StreamKey| #[trigger]
        t.may_drop(key, oldest) && {
            let before = t.with_room_for(key, oldest);
            &&& FeedView::Consumed(messages) == FeedView::Consumed(
                before.framed(key, event, more).messages,
            )
            &&& after == before.fed(key, event, more)
        };
    let before = t.with_room_for(key, gone);
    assert(messages == before.framed(key, event, more).messages);
    if t.is_full_for(key) {
        assert(others_kept(t, key, messages, after, gone));
    } else {
        assert(others_kept(t, key, messages, after, key));
    }
}

/// All streams but `key` and `gone` are as before, or are lost with a connection that switches
/// protocols; `gone` is not kept.
pub open spec fn others_kept(
    t: TrackerView,
    key: StreamKey,
    messages: Seq<MessageView>,
    after: TrackerView,
    gone: StreamKey,
) -> bool {
    &&& gone != key ==> !after.streams.contains_key(gone)
    &&& forall|k: StreamKey|
        k != key && k != gone ==> {
            let lost = any_101(messages) && k.0 == key.0 && k.1 == key.1;
            &&& #[trigger] after.streams.contains_key(k) <==> t.streams.contains_key(k) && !lost
            &&& after.streams.contains_key(k) ==> after.streams[k] == t.streams[k]
        }
}

/// How much is kept at most: of a body, of a head that is not whole, of the line of a chunk that is
/// not whole, of a stream, and of all streams.
pub proof fn law_limits()
    ensures
        stream::MAX_HTTP1_MESSAGE_BYTES == 33554432,
        stream::MAX_HTTP1_HEAD_BYTES == 65536,
        stream::MAX_CHUNK_LINE_BYTES == 1024,
        stream::MAX_BUFFERED_BYTES == 33619968,
        tracker::MAX_HTTP1_STREAMS == 1024,
{
}

/// A response of unknown length is handed out with the bytes that came with its head.
pub proof fn law_spelled_response_until_close(
    t: TrackerView,
    key: StreamKey,
    event: Event,
    more: Seq<u8>,
    x: Spelled,
    body: Seq<u8>,
    result: FeedView,
    after: TrackerView,
)
    requires
        t.wf(),
        t.feeds(key, event, more, result, after),
        !(result is NotHttp1),
        t.stream(key).phase is Head,
        holds_head(t.stream(key).buf + more, x, body),
        (t.stream(key).buf + more).len() <= 33619968,
        spelling::begins(x.message.head, ascii("HTTP/"@)),
        !head_is_next(t.waiting_for(key)),
        may_have_body(x.message.head),
        !spelling::names_chunked(x.lines),
        spelling::says_no_length(x.lines),
        body.len() <= 33554432,
    ensures
        result == FeedView::Consumed(
            seq![
                MessageView {
                    head: x.message.head,
                    body,
                    first_event: match t.stream(key).first_event {
                        Some(first) => first,
                        None => event,
                    },
                    last_timestamp: event.timestamp,
                    was_chunked: false,
                    is_request: false,
                },
            ],
        ),
        after.stream(key).phase is Head,
        after.stream(key).buf.len() == 0,
{
    let text = t.stream(key).buf + more;
    let waiting = t.waiting_for(key);
    lemma_holds_head(text, x, body);
    law_queue_is_kept_as_written(x.message.head, waiting);
    reading_laws::law_heads_are_told_apart_as_written(x.message.head);
    reading_laws::law_responses_are_framed_by_status_and_fields(
        x.message.head,
        x.start,
        x.lines,
        false,
        0,
    );
    laws::law_body_until_close(
        t,
        key,
        event,
        more,
        x.message.head.len() as int,
        result,
        after,
    );
}

/// A message that announces more than 33554432 bytes is dropped whole, request or response, with
/// all that came behind its head.
pub proof fn law_spelled_oversized_message_is_dropped(
    t: TrackerView,
    key: StreamKey,
    event: Event,
    more: Seq<u8>,
    x: Spelled,
    rest: Seq<u8>,
    n: nat,
    result: FeedView,
    after: TrackerView,
)
    requires
        t.wf(),
        t.feeds(key, event, more, result, after),
        !(result is NotHttp1),
        t.stream(key).phase is Head,
        holds_head(t.stream(key).buf + more, x, rest),
        !spelling::names_chunked(x.lines),
        spelling::says_length(x.lines, n),
        n > 33554432,
        spelling::begins(x.message.head, ascii("HTTP/"@)) ==> !head_is_next(t.waiting_for(key))
            && may_have_body(x.message.head),
    ensures
        result == FeedView::Consumed(Seq::empty()),
        after.stream(key).phase is Head,
        after.stream(key).buf.len() == 0,
{
    let text = t.stream(key).buf + more;
    let waiting = t.waiting_for(key);
    let head = x.message.head;
    lemma_holds_head(text, x, rest);
    law_queue_is_kept_as_written(head, waiting);
    reading_laws::law_heads_are_told_apart_as_written(head);
    reading_laws::lemma_chunked(head, x.start, x.lines);
    reading_laws::lemma_length(head, x.start, x.lines);
    reading_laws::lemma_status_bodiless(head);
    laws::law_oversized_length_is_dropped(t, key, event, more, result, after);
}

/// More bytes than a stream may hold drop its message.
pub proof fn law_flood_as_written(
    t: TrackerView,
    key: StreamKey,
    event: Event,
    more: Seq<u8>,
    result: FeedView,
    after: TrackerView,
)
    requires
        t.wf(),
        t.feeds(key, event, more, result, after),
        !(result is NotHttp1),
        t.stream(key).buf.len() + more.len() > 33619968,
    ensures
        result == FeedView::Consumed(Seq::empty()),
        after.stream(key).phase is Head,
        after.stream(key).buf.len() == 0,
{
    laws::law_flood_is_dropped(t, key, event, more, result, after);
}

/// What cannot be read drops the message whole, and the stream is idle again: a head that is too
/// long or of no HTTP/1.x message, the line of a chunk that is too long or gives no size or one too
/// large, and data of a chunk with no line end behind. What waits on the connection stays.
pub proof fn law_unreadable_as_written(
    t: TrackerView,
    key: StreamKey,
    event: Event,
    more: Seq<u8>,
    result: FeedView,
    after: TrackerView,
)
    requires
        t.wf(),
        t.feeds(key, event, more, result, after),
        !(result is NotHttp1),
        is_unreadable(
            t.stream(key).phase,
            t.stream(key).buf + more,
            t.stream(key).body.len(),
        ),
    ensures
        result == FeedView::Consumed(Seq::empty()),
        after.stream(key) == (StreamView { last_seen: event.timestamp, ..StreamView::fresh() }),
        connections::waiting_on(after.head_requests, (key.0, key.1)) == t.waiting_for(key),
{
    let s = message::with_more(message::noted(t.stream(key), event), more);
    stepping_laws::law_unreadable_bytes_fail(s, t.waiting_for(key));
    assert(message::is_settled(StreamView::fresh())) by {
        bytes::lemma_position(Seq::empty(), head::blank_line());
    }
    stream::lemma_stepped(s, t.waiting_for(key));
    laws::lemma_feed(t, key, event, more, result, after);
}

/// Bytes that do not make up a whole head, line of a chunk, end of a chunk or end of trailers are
/// kept, all of them, and no message comes of them yet.
pub proof fn law_parts_are_awaited(
    t: TrackerView,
    key: StreamKey,
    event: Event,
    more: Seq<u8>,
    result: FeedView,
    after: TrackerView,
)
    requires
        t.wf(),
        t.feeds(key, event, more, result, after),
        !(result is NotHttp1),
        is_awaited(t.stream(key).phase, t.stream(key).buf + more),
        (t.stream(key).buf + more).len() <= 33619968,
    ensures
        result == FeedView::Consumed(Seq::empty()),
        after.stream(key) == (StreamView {
            buf: t.stream(key).buf + more,
            first_event: match t.stream(key).first_event {
                Some(first) => Some(first),
                None => Some(event),
            },
            last_seen: event.timestamp,
            ..t.stream(key)
        }),
        connections::waiting_on(after.head_requests, (key.0, key.1)) == t.waiting_for(key),
{
    let s = message::with_more(message::noted(t.stream(key), event), more);
    stepping_laws::law_parts_wait(s, t.waiting_for(key));
    assert(message::is_settled(StreamView::fresh())) by {
        bytes::lemma_position(Seq::empty(), head::blank_line());
    }
    laws::lemma_feed(t, key, event, more, result, after);
}

/// What waits for a stream is what waits on its connection, unless all queues go to make room.
pub proof fn law_waiting_as_written(t: TrackerView, key: StreamKey)
    ensures
        t.waiting_for(key) == (if t.streams.len() >= 1024 && !t.streams.contains_key(key)
            && t.head_requests.len() > 1024 {
            None
        } else {
            connections::waiting_on(t.head_requests, (key.0, key.1))
        }),
{
}

/// Bytes of a body that is not complete with them go to the body, all of them.
pub proof fn law_body_grows(
    t: TrackerView,
    key: StreamKey,
    event: Event,
    more: Seq<u8>,
    n: usize,
    result: FeedView,
    after: TrackerView,
)
    requires
        t.wf(),
        t.feeds(key, event, more, result, after),
        !(result is NotHttp1),
        t.stream(key).phase == Phase::Fixed(n) || t.stream(key).phase == Phase::ChunkData(n),
        more.len() < n,
    ensures
        result == FeedView::Consumed(Seq::empty()),
        after.stream(key) == (StreamView {
            body: t.stream(key).body + more,
            phase: if t.stream(key).phase is Fixed {
                Phase::Fixed((n - more.len()) as usize)
            } else {
                Phase::ChunkData((n - more.len()) as usize)
            },
            last_seen: event.timestamp,
            ..t.stream(key)
        }),
        connections::waiting_on(after.head_requests, (key.0, key.1)) == t.waiting_for(key),
{
    let s = message::with_more(message::noted(t.stream(key), event), more);
    assert(message::is_settled(t.stream(key)));
    assert(t.stream(key).buf =~= Seq::<u8>::empty());
    assert(s.buf =~= more);
    if s.phase is Fixed {
        stepping_laws::law_fixed_body_is_read(s, t.waiting_for(key), n);
    } else {
        stepping_laws::law_chunk_data_is_read(s, t.waiting_for(key), n);
    }
    laws::lemma_feed(t, key, event, more, result, after);
    assert(after.stream(key).buf =~= t.stream(key).buf);
}

/// A chunk that cannot be read drops its message whole, also where it comes in one event with the
/// head and other chunks: its line gives no size or one too large, or no line end is behind its
/// data.
pub proof fn law_bad_chunk_drops_the_message(
    t: TrackerView,
    key: StreamKey,
    event: Event,
    more: Seq<u8>,
    x: Spelled,
    chunks: Seq<Chunk>,
    last: Option<Chunk>,
    rest: Seq<u8>,
    result: FeedView,
    after: TrackerView,
)
    requires
        t.wf(),
        t.feeds(key, event, more, result, after),
        !(result is NotHttp1),
        t.stream(key).phase is Head,
        ({
            let tail = match last {
                Some(c) => c.line + spelling::line_end() + c.data + rest,
                None => rest,
            };
            holds_head(t.stream(key).buf + more, x, written::chunks_wire(chunks) + tail)
        }),
        (t.stream(key).buf + more).len() <= 33619968,
        spelling::begins(x.message.head, ascii("HTTP/"@)) ==> !head_is_next(t.waiting_for(key))
            && may_have_body(x.message.head),
        spelling::names_chunked(x.lines),
        forall|i: int| 0 <= i < chunks.len() ==> is_true_chunk(#[trigger] chunks[i]),
        match last {
            Some(c) => {
                &&& is_true_chunk(c)
                &&& written::chunks_data(chunks).len() + c.data.len() <= 33554432
                &&& rest.len() >= 2
                &&& !spelling::begins(rest, spelling::line_end())
            },
            None => {
                &&& written::chunks_data(chunks).len() <= 33554432
                &&& is_unreadable(Phase::ChunkSize, rest, written::chunks_data(chunks).len())
            },
        },
    ensures
        result == FeedView::Consumed(Seq::empty()),
        after.stream(key) == (StreamView { last_seen: event.timestamp, ..StreamView::fresh() }),
{
    let tail = match last {
        Some(c) => c.line + spelling::line_end() + c.data + rest,
        None => rest,
    };
    let waiting = t.waiting_for(key);
    let s = message::with_more(message::noted(t.stream(key), event), more);
    let body = written::chunks_wire(chunks) + tail;
    assert(message::is_settled(StreamView::fresh())) by {
        bytes::lemma_position(Seq::empty(), head::blank_line());
    }
    let head = x.message.head;
    let now = queue_behind(head, waiting);
    let s1 = StreamView {
        buf: body,
        head,
        is_request: !spelling::begins(head, ascii("HTTP/"@)),
        phase: Phase::ChunkSize,
        chunked: true,
        ..s
    };
    stepping_laws::law_head_is_read(s, waiting, x, body, 0);
    assert(tail.len() > 0) by {
        if last is None {
            lemma_unreadable_is_some(rest, written::chunks_data(chunks).len());
        }
    }
    assert(stream::stepped(s, waiting) == stream::stepped(s1, now));
    stepping_laws::law_chunks_are_joined(s1, now, chunks, tail);
    let s2 = StreamView { buf: tail, body: s1.body + written::chunks_data(chunks), ..s1 };
    assert(s1.body.len() == 0);
    if let Some(c) = last {
        stepping_laws::law_chunk_without_end_fails(s2, now, c, rest);
    } else {
        stepping_laws::law_unreadable_bytes_fail(s2, now);
    }
    stream::lemma_stepped(s, waiting);
    laws::lemma_feed(t, key, event, more, result, after);
}

proof fn lemma_unreadable_is_some(rest: Seq<u8>, body: nat)
    requires
        is_unreadable(Phase::ChunkSize, rest, body),
    ensures
        rest.len() > 0,
{
    if exists|end: int| #[trigger]
        spelling::first(rest, end, spelling::line_end()) && stepping_laws::is_bad_size(
            rest.take(end),
            body,
        ) {
        let end: int = choose|end: int| #[trigger]
            spelling::first(rest, end, spelling::line_end()) && stepping_laws::is_bad_size(
                rest.take(end),
                body,
            );
        assert(spelling::at(rest, end, spelling::line_end()));
    }
}

/// A response of unknown length with more than 33554432 bytes behind its head is dropped whole.
pub proof fn law_spelled_oversized_until_close_is_dropped(
    t: TrackerView,
    key: StreamKey,
    event: Event,
    more: Seq<u8>,
    x: Spelled,
    body: Seq<u8>,
    result: FeedView,
    after: TrackerView,
)
    requires
        t.wf(),
        t.feeds(key, event, more, result, after),
        !(result is NotHttp1),
        t.stream(key).phase is Head,
        holds_head(t.stream(key).buf + more, x, body),
        spelling::begins(x.message.head, ascii("HTTP/"@)),
        !head_is_next(t.waiting_for(key)),
        may_have_body(x.message.head),
        !spelling::names_chunked(x.lines),
        spelling::says_no_length(x.lines),
        body.len() > 33554432,
    ensures
        result == FeedView::Consumed(Seq::empty()),
        after.stream(key) == (StreamView { last_seen: event.timestamp, ..StreamView::fresh() }),
{
    let waiting = t.waiting_for(key);
    let s = message::with_more(message::noted(t.stream(key), event), more);
    assert(message::is_settled(StreamView::fresh())) by {
        bytes::lemma_position(Seq::empty(), head::blank_line());
    }
    stepping_laws::law_head_is_read(s, waiting, x, body, 0);
    stream::lemma_stepped(s, waiting);
    laws::lemma_feed(t, key, event, more, result, after);
}

/// Messages in a row are drained from an idle stream, and what follows is drained from the stream
/// that they leave idle.
proof fn lemma_row_then(
    s: StreamView,
    waiting: Waiting,
    event: Event,
    messages: Seq<Written>,
    rest: Seq<u8>,
) -> (idle: StreamView)
    requires
        s.wf(),
        s.is_idle(),
        s.first_event == Some(event),
        laws::all_wf(messages, waiting),
        rest.len() > 0,
    ensures
        idle.wf(),
        idle.is_idle(),
        idle.first_event == Some(event),
        idle.last_seen == s.last_seen,
        ({
            let then = message::drained(
                message::with_more(idle, rest),
                laws::waiting_after_all(messages, waiting),
                event,
            );
            message::drained(
                message::with_more(s, laws::wires(messages) + rest),
                waiting,
                event,
            ) == (message::Drained {
                messages: messages.map_values(|m: Written| laws::delivered(m, event, event))
                    + then.messages,
                ..then
            })
        }),
    decreases messages.len(),
{
    let all = messages.map_values(|m: Written| laws::delivered(m, event, event));
    if messages.len() == 0 {
        assert(laws::wires(messages) + rest =~= rest);
        let then = message::drained(message::with_more(s, rest), waiting, event);
        assert(all + then.messages =~= then.messages);
        s
    } else {
        let m = messages[0];
        let others = messages.drop_first();
        let tail = laws::wires(others) + rest;
        let next = laws::idle_after(s, m, event);
        let now = stream::waiting_after(m.head, waiting);
        laws::lemma_first_drained(s, waiting, event, m, tail);
        assert(laws::wires(messages) + rest =~= m.wire() + tail);
        let idle = lemma_row_then(next, now, event, others, rest);
        let then = message::drained(
            message::with_more(idle, rest),
            laws::waiting_after_all(messages, waiting),
            event,
        );
        let others_all = others.map_values(|m: Written| laws::delivered(m, event, event));
        assert(seq![laws::delivered(m, event, event)] + (others_all + then.messages) =~= all
            + then.messages);
        idle
    }
}

/// What an event brings behind messages in a row begins the next message with this event: it is
/// kept, where it is not a whole head, and dropped where it cannot be one. The messages before it
/// are handed out.
pub proof fn law_rest_behind_a_row(
    t: TrackerView,
    key: StreamKey,
    event: Event,
    row: Seq<Spelled>,
    rest: Seq<u8>,
    messages: Seq<MessageView>,
    after: TrackerView,
)
    requires
        t.wf(),
        t.feeds(key, event, row_text(row) + rest, FeedView::Consumed(messages), after),
        begins_afresh(t, key, row_text(row) + rest),
        is_row(row, t.waiting_for(key)),
        (row_text(row) + rest).len() <= 33619968,
        rest.len() > 0,
        is_awaited(Phase::Head, rest) || is_unreadable(Phase::Head, rest, 0),
        !any_101(row.map_values(|x: Spelled| x.shown(event, event))),
    ensures
        messages == row.map_values(|x: Spelled| x.shown(event, event)),
        ({
            let s = after.stream(key);
            &&& s.phase is Head
            &&& s.last_seen == event.timestamp
            &&& is_awaited(Phase::Head, rest) ==> s.buf == rest && s.first_event == Some(event)
            &&& is_unreadable(Phase::Head, rest, 0) ==> s.buf.len() == 0 && s.first_event is None
        }),
        connections::waiting_on(after.head_requests, (key.0, key.1)) == queue_behind_row(
            row,
            t.waiting_for(key),
        ),
{
    let waiting = t.waiting_for(key);
    let written = row.map_values(|x: Spelled| x.message);
    let more = row_text(row) + rest;
    assert(message::is_settled(StreamView::fresh())) by {
        bytes::lemma_position(Seq::empty(), head::blank_line());
    }
    reading_laws::law_starts_are_recognised_as_written(more);
    lemma_row(row, waiting);
    let s = message::noted(t.stream(key), event);
    let idle = lemma_row_then(s, waiting, event, written, rest);
    let now = laws::waiting_after_all(written, waiting);
    let left = message::with_more(idle, rest);
    assert(left.buf =~= rest);
    stream::lemma_stepped(left, now);
    if is_awaited(Phase::Head, rest) {
        stepping_laws::law_parts_wait(left, now);
    } else {
        stepping_laws::law_unreadable_bytes_fail(left, now);
    }
    lemma_row_shown(row, event);
    let shown = row.map_values(|x: Spelled| x.shown(event, event));
    assert(shown + Seq::<MessageView>::empty() =~= shown);
    laws::lemma_feed(t, key, event, more, FeedView::Consumed(messages), after);
    lemma_any_101(t, key, event, more, messages, after);
}

proof fn lemma_row_shown(row: Seq<Spelled>, event: Event)
    ensures
        row.map_values(|x: Spelled| x.shown(event, event)) == row.map_values(
            |x: Spelled| x.message,
        ).map_values(|m: Written| laws::delivered(m, event, event)),
{
    let messages = row.map_values(|x: Spelled| x.message);
    let shown = row.map_values(|x: Spelled| x.shown(event, event));
    assert forall|i: int| 0 <= i < row.len() implies shown[i] == laws::delivered(
        messages[i],
        event,
        event,
    ) by {
        reading_laws::law_heads_are_told_apart_as_written(messages[i].head);
    }
    assert(shown =~= messages.map_values(|m: Written| laws::delivered(m, event, event)));
}

/// In draining messages in a row nothing is unreadable or of unknown length.
proof fn lemma_row_framed(s: StreamView, waiting: Waiting, event: Event, messages: Seq<Written>)
    requires
        s.wf(),
        s.is_idle(),
        s.first_event == Some(event),
        messages.len() > 0,
        laws::all_wf(messages, waiting),
    ensures
        splitting::is_framed(
            message::with_more(s, laws::wires(messages)),
            waiting,
            event,
        ),
    decreases messages.len(),
{
    let m = messages[0];
    let others = messages.drop_first();
    let tail = laws::wires(others);
    let t = message::with_more(s, m.wire() + tail);
    written::lemma_written_read(s, waiting, m, tail);
    let r = stream::stepped(t, waiting);
    stream::lemma_stepped(t, waiting);
    if others.len() > 0 {
        let next = laws::idle_after(s, m, event);
        lemma_row_framed(next, stream::waiting_after(m.head, waiting), event, others);
        if tail.len() > 0 {
            assert(message::with_more(next, tail).buf =~= tail);
            assert(message::after_message(r.stream, event) == message::with_more(next, tail));
        }
    }
}

/// A message that begins behind others in one event and goes on in later ones is handed out as it
/// was written, whole and once. Those before it come with the first event, in which it began.
pub proof fn law_spelled_message_behind_a_row(d: Delivery, row: Seq<Spelled>, x: Spelled)
    requires
        d.happens(),
        row.len() > 0,
        d.lead == row_text(row),
        d.pieces[0].len() > 0,
        begins_afresh(d.before[0], d.key, d.brought(0)),
        is_row(row, d.before[0].waiting_for(d.key)),
        !any_101(row.map_values(|y: Spelled| y.shown(d.events[0], d.events[0]))),
        d.pieces.len() > 1,
        ({
            let h: int = d.head_piece(x.message);
            x.wf(
                if h == 0 {
                    queue_behind_row(row, d.before[0].waiting_for(d.key))
                } else {
                    d.before[h].waiting_for(d.key)
                },
            )
        }),
        x.fits(),
        laws::joined(d.pieces) == x.message.wire(),
        d.pieces.last().len() > 0,
    ensures
        d.results[0] == FeedView::Consumed(
            row.map_values(|y: Spelled| y.shown(d.events[0], d.events[0])),
        ),
        forall|i: int|
            0 < i < d.pieces.len() - 1 ==> #[trigger] d.results[i] == FeedView::Consumed(
                Seq::empty(),
            ),
        d.results.last() == FeedView::Consumed(seq![x.shown(d.events[0], d.events.last())]),
        d.after.last().stream(d.key).phase is Head,
        d.after.last().stream(d.key).buf.len() == 0,
{
    let t = d.before[0];
    let waiting = t.waiting_for(d.key);
    let event = d.events[0];
    let messages = row.map_values(|y: Spelled| y.message);
    assert(d.feeds(0));
    assert(message::is_settled(StreamView::fresh())) by {
        bytes::lemma_position(Seq::empty(), head::blank_line());
    }
    lemma_row(row, waiting);
    lemma_row_shown(row, event);
    let s = message::noted(t.stream(d.key), event);
    laws::lemma_row_drained(s, waiting, event, messages);
    lemma_row_framed(s, waiting, event, messages);
    assert(d.lead.len() > 0) by {
        assert(messages[0].wire().len() >= head::blank_line().len());
    }
    reading_laws::law_starts_are_recognised_as_written(d.brought(0));
    lemma_no_101_row(row, event);
    assert(d.starts_behind());
    let w = d.waiting(x.message);
    lemma_spelled_wf(x, w);
    reading_laws::law_heads_are_told_apart_as_written(x.message.head);
    laws::law_message_behind_others(d, x.message);
    let last = seq![laws::delivered(x.message, event, d.events.last())];
    assert(d.given(d.pieces.len() - 1) + last =~= last);
    assert(x.shown(event, d.events.last()) == laws::delivered(
        x.message,
        event,
        d.events.last(),
    ));
}

proof fn lemma_no_101_row(row: Seq<Spelled>, event: Event)
    requires
        !any_101(row.map_values(|y: Spelled| y.shown(event, event))),
    ensures
        !message::any_switches(row.map_values(|y: Spelled| y.shown(event, event))),
{
    let shown = row.map_values(|y: Spelled| y.shown(event, event));
    assert forall|i: int| 0 <= i < shown.len() implies !(
    #[trigger] shown[i]).switches_protocol() by {
        assert(!is_101(shown[i]));
        reading_laws::law_heads_are_told_apart_as_written(shown[i].head);
        reading_laws::law_status_is_read_as_written(shown[i].head, 101);
    }
}

} // verus!
