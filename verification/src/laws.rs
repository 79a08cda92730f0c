//! What holds of the tracker over several events.

use crate::bytes;
use crate::connections;
use crate::connections::{Connection, Waiting};
use crate::event::Event;
use crate::head;
use crate::head::Framing;
use crate::message;
use crate::message::{Drained, MessageView};
use crate::splitting;
use crate::stream;
use crate::stream::{Step, Stepped, StreamView};
use crate::stream::{MAX_BUFFERED_BYTES, MAX_HTTP1_MESSAGE_BYTES};
use crate::streams;
use crate::streams::StreamKey;
use crate::tracker;
use crate::tracker::{FeedView, TrackerView, MAX_HTTP1_STREAMS};
use crate::written;
use crate::written::{Payload, Written};
use vstd::prelude::*;

verus! {

/// A stream is the same in two trackers, and its connection has left HTTP/1.x in both or in none.
pub open spec fn is_untouched(a: TrackerView, b: TrackerView, key: StreamKey) -> bool {
    let conn = streams::connection_of(key);
    &&& a.stream(key) == b.stream(key)
    &&& a.upgraded.contains(conn) == b.upgraded.contains(conn)
}

/// A message whose bytes come on a stream in pieces: the pieces, the events that bring them, the
/// tracker before and after each, and what became of each.
pub struct Delivery {
    pub key: StreamKey,
    /// What the first event brings in front of the first piece: the end of the messages before.
    pub lead: Seq<u8>,
    pub pieces: Seq<Seq<u8>>,
    pub events: Seq<Event>,
    pub before: Seq<TrackerView>,
    pub after: Seq<TrackerView>,
    pub results: Seq<FeedView>,
}

/// The pieces in a row.
pub open spec fn joined(pieces: Seq<Seq<u8>>) -> Seq<u8>
    decreases pieces.len(),
{
    if pieces.len() == 0 {
        Seq::empty()
    } else {
        joined(pieces.drop_last()) + pieces.last()
    }
}

/// The index of the piece with which `n` bytes have come.
pub open spec fn piece_reaching(pieces: Seq<Seq<u8>>, n: nat) -> int
    decreases pieces.len(),
{
    if pieces.len() <= 1 || joined(pieces.drop_last()).len() < n {
        pieces.len() - 1
    } else {
        piece_reaching(pieces.drop_last(), n)
    }
}

impl Delivery {
    /// The bytes that the event with index `i` brings.
    pub open spec fn brought(self, i: int) -> Seq<u8> {
        if i == 0 {
            self.lead + self.pieces[0]
        } else {
            self.pieces[i]
        }
    }

    /// Each piece is fed to the tracker, and between two pieces the stream is left alone, whatever
    /// else is fed. The stream has room for each piece.
    pub open spec fn happens(self) -> bool {
        let n = self.pieces.len();
        &&& n > 0
        &&& self.events.len() == n
        &&& self.before.len() == n
        &&& self.after.len() == n
        &&& self.results.len() == n
        &&& forall|i: int| 0 <= i < n ==> #[trigger] self.feeds(i)
        &&& forall|i: int| 0 <= i < n - 1 ==> #[trigger] self.is_left_alone(i)
    }

    pub open spec fn feeds(self, i: int) -> bool {
        &&& self.before[i].wf()
        &&& self.before[i].feeds(
            self.key,
            self.events[i],
            self.brought(i),
            self.results[i],
            self.after[i],
        )
        &&& self.before[i].stream(self.key).buf.len() + self.brought(i).len() <= MAX_BUFFERED_BYTES
    }

    pub open spec fn is_left_alone(self, i: int) -> bool {
        is_untouched(self.after[i], self.before[i + 1], self.key)
    }

    /// The stream with the lead there, as the first event finds it.
    pub open spec fn led(self) -> StreamView {
        message::with_more(
            message::noted(self.before[0].stream(self.key), self.events[0]),
            self.lead,
        )
    }

    /// What the lead gives.
    pub open spec fn ahead(self) -> Drained {
        message::drained(self.led(), self.before[0].waiting_for(self.key), self.events[0])
    }

    /// No message has begun on the stream, and the first piece shows that one begins.
    pub open spec fn starts_fresh(self) -> bool {
        &&& self.lead.len() == 0
        &&& !self.before[0].upgraded.contains(streams::connection_of(self.key))
        &&& self.before[0].stream(self.key).is_idle()
        &&& head::looks_like_http1(self.pieces[0])
    }

    /// The first event first ends the messages before. They are readable and of known length, and
    /// none of them switches protocols.
    pub open spec fn starts_behind(self) -> bool {
        &&& self.lead.len() > 0
        &&& self.pieces[0].len() > 0
        &&& !self.before[0].refuses(self.key, self.brought(0))
        &&& splitting::is_framed(
            self.led(),
            self.before[0].waiting_for(self.key),
            self.events[0],
        )
        &&& self.ahead().stream.is_idle()
        &&& !message::any_switches(self.ahead().messages)
    }

    /// The messages that the event with index `i` ends in front of its piece.
    pub open spec fn given(self, i: int) -> Seq<MessageView> {
        if i == 0 && self.lead.len() > 0 {
            self.ahead().messages
        } else {
            Seq::empty()
        }
    }

    /// What waits on the connection when the piece with index `i` is read.
    pub open spec fn waiting_at(self, i: int) -> Waiting {
        if i == 0 && self.lead.len() > 0 {
            self.ahead().waiting
        } else {
            self.before[i].waiting_for(self.key)
        }
    }

    /// The index of the piece with which the head is complete.
    pub open spec fn head_piece(self, m: Written) -> int {
        piece_reaching(self.pieces, m.head.len() + head::blank_line().len())
    }

    /// What waits on the connection when the head is complete.
    pub open spec fn waiting(self, m: Written) -> Waiting {
        self.waiting_at(self.head_piece(m))
    }

    /// What waits on the connection once the piece with index `i` was read: the head changes it,
    /// and nothing else.
    pub open spec fn waiting_past(self, m: Written, i: int) -> Waiting {
        if i == self.head_piece(m) {
            stream::waiting_after(m.head, self.waiting_at(i))
        } else {
            self.waiting_at(i)
        }
    }

    /// All that a message needs to come in these pieces.
    pub open spec fn brings(self, m: Written) -> bool {
        &&& self.happens()
        &&& m.wf(self.waiting(m))
        &&& m.lines_fit()
        &&& joined(self.pieces) == m.wire()
        &&& self.pieces.last().len() > 0
    }
}

/// A written message as it is handed out.
pub open spec fn delivered(m: Written, first: Event, last: Event) -> MessageView {
    MessageView {
        head: m.head,
        body: m.payload.body(),
        first_event: first,
        last_timestamp: last.timestamp,
        was_chunked: m.payload is Chunked,
        is_request: head::is_request_head(m.head),
    }
}

proof fn lemma_joined_take(pieces: Seq<Seq<u8>>, k: int)
    requires
        0 <= k < pieces.len(),
    ensures
        joined(pieces.take(k + 1)) == joined(pieces.take(k)) + pieces[k],
{
    assert(pieces.take(k + 1).drop_last() =~= pieces.take(k));
}

/// The first pieces and the others make up all.
proof fn lemma_joined_rest(pieces: Seq<Seq<u8>>, k: int)
    requires
        0 <= k <= pieces.len(),
    ensures
        joined(pieces) == joined(pieces.take(k)) + joined(pieces.skip(k)),
    decreases pieces.len() - k,
{
    if k == pieces.len() {
        assert(pieces.take(k) =~= pieces);
        assert(joined(pieces) =~= joined(pieces) + joined(pieces.skip(k)));
    } else {
        let front = pieces.drop_last();
        lemma_joined_rest(front, k);
        assert(front.take(k) =~= pieces.take(k));
        assert(pieces.skip(k).drop_last() =~= front.skip(k));
        assert(pieces.skip(k).last() == pieces.last());
        assert(joined(pieces) =~= joined(pieces.take(k)) + joined(pieces.skip(k)));
    }
}

proof fn lemma_joined_last(pieces: Seq<Seq<u8>>)
    requires
        pieces.len() > 0,
    ensures
        joined(pieces).len() >= pieces.last().len(),
{
}

/// Fewer than `n` bytes have come exactly while the piece that reaches `n` has not.
proof fn lemma_piece_reaching(pieces: Seq<Seq<u8>>, n: nat, k: int)
    requires
        0 < n <= joined(pieces).len(),
        0 <= k <= pieces.len(),
    ensures
        0 <= piece_reaching(pieces, n) < pieces.len(),
        joined(pieces.take(k)).len() < n <==> k <= piece_reaching(pieces, n),
    decreases pieces.len(),
{
    let front = pieces.drop_last();
    assert(pieces.take(pieces.len() as int) =~= pieces);
    if joined(front).len() < n {
        if k < pieces.len() {
            lemma_joined_rest(front, k);
            assert(front.take(k) =~= pieces.take(k));
        }
    } else {
        assert(front.len() > 0);
        let j: int = if k < pieces.len() {
            k
        } else {
            0
        };
        lemma_piece_reaching(front, n, j);
        assert(front.take(j) =~= pieces.take(j));
    }
}

/// What feeding does to one stream and its connection.
pub proof fn lemma_feed(
    t: TrackerView,
    key: StreamKey,
    event: Event,
    more: Seq<u8>,
    result: FeedView,
    after: TrackerView,
)
    requires
        t.wf(),
        t.feeds(key, event, more, result, after),
        !t.refuses(key, more),
    ensures
        ({
            let conn = streams::connection_of(key);
            let d = message::received(t.stream(key), t.waiting_for(key), event, more);
            &&& after.wf()
            &&& message::is_settled(d.stream)
            &&& result == FeedView::Consumed(d.messages)
            &&& connections::waiting_on(after.head_requests, conn) == d.waiting
            &&& if message::any_switches(d.messages) {
                &&& after.upgraded == t.upgraded.insert(conn)
                &&& forall|k: StreamKey|
                    streams::connection_of(k) == conn ==> !(#[trigger] after.streams.contains_key(k))
            } else {
                &&& after.upgraded == t.upgraded
                &&& after.streams.contains_key(key)
                &&& after.streams[key] == d.stream
            }
        }),
{
    let oldest: StreamKey = choose|oldest: StreamKey| #[trigger]
        t.may_drop(key, oldest) && {
            let before = t.with_room_for(key, oldest);
            &&& result == FeedView::Consumed(before.framed(key, event, more).messages)
            &&& after == before.fed(key, event, more)
        };
    tracker::lemma_with_room(t, key, oldest);
    tracker::lemma_fed(t.with_room_for(key, oldest), key, event, more);
}

/// Draining leaves a well-formed stream with no more bytes.
proof fn lemma_drained_wf(s: StreamView, waiting: Waiting, event: Event)
    requires
        s.wf(),
    ensures
        message::drained(s, waiting, event).stream.wf(),
        message::drained(s, waiting, event).stream.buf.len() <= s.buf.len(),
    decreases s.buf.len(),
{
    stream::lemma_stepped(s, waiting);
    let r = stream::stepped(s, waiting);
    if r.step is Complete && r.stream.buf.len() > 0 {
        lemma_drained_wf(message::after_message(r.stream, event), r.waiting, event);
    }
}

impl Delivery {
    /// The stream on which the message begins.
    spec fn origin(self) -> StreamView {
        StreamView { first_event: Some(self.events[0]), ..self.ahead().stream }
    }

    /// The stream as it would be with the first `k` pieces there and none read.
    spec fn unread(self, k: int) -> StreamView {
        message::with_more(self.origin(), joined(self.pieces.take(k)))
    }

    /// The stream with the piece with index `k` there, before it is read.
    spec fn ready(self, k: int) -> StreamView {
        if k == 0 {
            message::with_more(self.origin(), self.pieces[0])
        } else {
            message::with_more(
                message::noted(self.before[k].stream(self.key), self.events[k]),
                self.pieces[k],
            )
        }
    }

    /// The delivery can begin.
    spec fn starts(self) -> bool {
        self.starts_fresh() || self.starts_behind()
    }

    /// The first `k` pieces, but not all, were taken in, and the message was not complete.
    spec fn has_taken(self, m: Written, k: int) -> bool {
        let t = self.after[k - 1];
        &&& splitting::alike(
            t.stream(self.key),
            stream::stepped(self.unread(k), self.waiting(m)).stream,
        )
        &&& !t.stream(self.key).is_idle()
        &&& t.stream(self.key).first_event == Some(self.events[0])
        &&& !t.upgraded.contains(streams::connection_of(self.key))
        &&& self.results[k - 1] == FeedView::Consumed(self.given(k - 1))
        &&& connections::waiting_on(t.head_requests, streams::connection_of(self.key))
            == self.waiting_past(m, k - 1)
    }
}

/// What the first event does: the messages before are handed out, and the first piece is read on an
/// idle stream.
proof fn lemma_begin(d: Delivery)
    requires
        d.happens(),
        d.starts(),
    ensures
        d.origin().wf(),
        d.origin().is_idle(),
        !d.before[0].refuses(d.key, d.brought(0)),
        d.pieces[0].len() > 0,
        !message::any_switches(d.given(0)),
        ({
            let then = message::drained(d.ready(0), d.waiting_at(0), d.events[0]);
            message::received(
                d.before[0].stream(d.key),
                d.before[0].waiting_for(d.key),
                d.events[0],
                d.brought(0),
            ) == (Drained { messages: d.given(0) + then.messages, ..then })
        }),
{
    assert(d.feeds(0));
    let s = d.before[0].stream(d.key);
    let w = d.before[0].waiting_for(d.key);
    assert(message::is_settled(StreamView::fresh())) by {
        bytes::lemma_position(Seq::empty(), head::blank_line());
    }
    let led = d.led();
    assert(led.wf());
    bytes::lemma_position(led.buf, head::blank_line());
    head::lemma_empty_is_no_message();
    if d.starts_fresh() {
        assert(d.brought(0) =~= d.pieces[0]);
        if d.pieces[0].len() == 0 {
            assert(d.pieces[0] =~= Seq::<u8>::empty());
        }
        assert(stream::stepped(led, w).step is NeedMore);
    }
    lemma_drained_wf(led, w, d.events[0]);
    splitting::lemma_drained_on(led, w, d.events[0], d.pieces[0]);
    assert(s.buf + d.brought(0) =~= s.buf + d.lead + d.pieces[0]);
}

/// What is known of the first `k` pieces.
proof fn lemma_unread(d: Delivery, m: Written, k: int)
    requires
        d.brings(m),
        d.starts(),
        0 <= k <= d.pieces.len(),
    ensures
        0 <= d.head_piece(m) < d.pieces.len(),
        d.unread(k).wf(),
        k < d.pieces.len() ==> {
            &&& stream::stepped(d.unread(k), d.waiting(m)).step is NeedMore
            &&& !splitting::runs_until_close(d.unread(k), d.waiting(m))
        },
        k <= d.head_piece(m) ==> forall|w: Waiting| #[trigger]
            stream::stepped(d.unread(k), w) == (Stepped {
                step: Step::NeedMore,
                stream: d.unread(k),
                waiting: w,
            }),
        k > d.head_piece(m) ==> {
            let r = stream::stepped(d.unread(k), d.waiting(m));
            &&& r.waiting == stream::waiting_after(m.head, d.waiting(m))
            &&& r.step is NeedMore ==> !(r.stream.phase is Head)
        },
{
    let w = d.waiting(m);
    let u = d.unread(k);
    let part = joined(d.pieces.take(k));
    let rest = joined(d.pieces.skip(k));
    let top = m.head + head::blank_line();
    lemma_begin(d);
    lemma_joined_rest(d.pieces, k);
    lemma_piece_reaching(d.pieces, top.len(), k);
    if k < d.pieces.len() {
        lemma_joined_last(d.pieces.skip(k));
        assert(d.pieces.skip(k).last() == d.pieces.last());
        written::lemma_written_part(d.origin(), w, m, part, rest);
    }
    if k <= d.head_piece(m) {
        assert forall|w: Waiting| #[trigger]
            stream::stepped(u, w) == (Stepped { step: Step::NeedMore, stream: u, waiting: w }) by {
            written::lemma_head_part(d.origin(), w, m, part, rest);
        }
    } else {
        written::lemma_head_come(d.origin(), w, m, part, rest);
    }
}

/// The stream with a piece there holds what was read of the pieces before, and the piece.
proof fn lemma_piece_ready(d: Delivery, m: Written, k: int)
    requires
        d.brings(m),
        d.starts(),
        0 <= k < d.pieces.len(),
        k > 0 ==> d.has_taken(m, k),
    ensures
        d.ready(k).wf(),
        !d.ready(k).is_idle(),
        d.ready(k).first_event == Some(d.events[0]),
        splitting::alike(
            d.ready(k),
            message::with_more(
                stream::stepped(d.unread(k), d.waiting(m)).stream,
                d.pieces[k],
            ),
        ),
        d.unread(k + 1) == message::with_more(d.unread(k), d.pieces[k]),
{
    lemma_begin(d);
    lemma_unread(d, m, k);
    lemma_joined_take(d.pieces, k);
    assert(message::with_more(d.unread(k), d.pieces[k]).buf =~= d.unread(k + 1).buf);
    if k == 0 {
        assert(d.pieces.take(0) =~= Seq::<Seq<u8>>::empty());
        assert(d.unread(0).buf =~= d.origin().buf);
        assert(stream::stepped(d.unread(0), d.waiting(m)).stream == d.unread(0));
    } else {
        assert(d.is_left_alone(k - 1));
        stream::lemma_stepped(d.unread(k), d.waiting(m));
    }
}

/// Reading a piece comes to what reading all pieces so far comes to.
proof fn lemma_piece_read(d: Delivery, m: Written, k: int)
    requires
        d.brings(m),
        d.starts(),
        0 <= k < d.pieces.len(),
        k > 0 ==> d.has_taken(m, k),
    ensures
        splitting::same_reading(
            stream::stepped(d.ready(k), d.waiting_at(k)),
            stream::stepped(d.unread(k + 1), d.waiting(m)),
        ),
        stream::stepped(d.ready(k), d.waiting_at(k)).waiting == d.waiting_past(m, k),
{
    let w = d.waiting(m);
    let u = d.unread(k + 1);
    lemma_piece_ready(d, m, k);
    lemma_unread(d, m, k);
    lemma_unread(d, m, k + 1);
    if k <= d.head_piece(m) {
        assert(stream::stepped(d.unread(k), w).stream == d.unread(k));
        splitting::lemma_alike_stepped(d.ready(k), u, d.waiting_at(k));
        if k < d.head_piece(m) {
            assert(stream::stepped(u, w).stream == u);
            assert(stream::stepped(u, d.waiting_at(k)).stream == u);
        }
    } else {
        splitting::lemma_read_on(d.unread(k), w, d.pieces[k], d.ready(k), d.waiting_at(k));
    }
}

/// What feeding a piece does.
proof fn lemma_piece_fed(d: Delivery, m: Written, k: int)
    requires
        d.brings(m),
        d.starts(),
        0 <= k < d.pieces.len(),
        k > 0 ==> d.has_taken(m, k),
    ensures
        ({
            let conn = streams::connection_of(d.key);
            let then = message::drained(d.ready(k), d.waiting_at(k), d.events[k]);
            let messages = d.given(k) + then.messages;
            &&& d.results[k] == FeedView::Consumed(messages)
            &&& connections::waiting_on(d.after[k].head_requests, conn) == then.waiting
            &&& if message::any_switches(messages) {
                d.after[k].stream(d.key) == StreamView::fresh()
            } else {
                &&& d.after[k].stream(d.key) == then.stream
                &&& !d.after[k].upgraded.contains(conn)
            }
        }),
{
    assert(d.feeds(k));
    lemma_begin(d);
    if k > 0 {
        assert(d.is_left_alone(k - 1));
        assert(!d.before[k].refuses(d.key, d.brought(k)));
        let then = message::drained(d.ready(k), d.waiting_at(k), d.events[k]);
        assert(d.given(k) + then.messages =~= then.messages);
    }
    lemma_feed(d.before[k], d.key, d.events[k], d.brought(k), d.results[k], d.after[k]);
}

/// The first `k` pieces, but not all, are taken in.
proof fn lemma_pieces_taken(d: Delivery, m: Written, k: int)
    requires
        d.brings(m),
        d.starts(),
        1 <= k < d.pieces.len(),
    ensures
        d.has_taken(m, k),
    decreases k,
{
    let j: int = k - 1;
    if j > 0 {
        lemma_pieces_taken(d, m, j);
    }
    lemma_begin(d);
    lemma_unread(d, m, k);
    lemma_piece_ready(d, m, j);
    lemma_piece_read(d, m, j);
    lemma_piece_fed(d, m, j);
    message::lemma_need_more(d.ready(j), d.waiting_at(j));
    stream::lemma_stepped(d.ready(j), d.waiting_at(j));
    let then = message::drained(d.ready(j), d.waiting_at(j), d.events[j]);
    assert(d.given(j) + then.messages =~= d.given(j));
}

/// A stream of which a written message was read, and nothing is left, gives the message.
pub proof fn lemma_written_drained(
    s: StreamView,
    waiting: Waiting,
    m: Written,
    first: Event,
    last: Event,
)
    requires
        s.wf(),
        s.first_event == Some(first),
        ({
            let r = stream::stepped(s, waiting);
            &&& r.step is Complete
            &&& r.stream.buf.len() == 0
            &&& r.stream.head == m.head
            &&& r.stream.body == m.payload.body()
            &&& r.stream.chunked == (m.payload is Chunked)
            &&& r.stream.is_request == head::is_request_head(m.head)
        }),
    ensures
        ({
            let d = message::drained(s, waiting, last);
            &&& d.messages == seq![delivered(m, first, last)]
            &&& d.stream.is_idle()
            &&& d.waiting == stream::stepped(s, waiting).waiting
        }),
{
    stream::lemma_stepped(s, waiting);
    let r = stream::stepped(s, waiting);
    assert(message::message_of(r.stream, last) == delivered(m, first, last));
}

/// The last piece completes the message.
proof fn lemma_message_completed(d: Delivery, m: Written)
    requires
        d.brings(m),
        d.starts(),
    ensures
        d.results.last() == FeedView::Consumed(
            d.given(d.pieces.len() - 1) + seq![delivered(m, d.events[0], d.events.last())],
        ),
        d.after.last().stream(d.key).is_idle(),
        connections::waiting_on(d.after.last().head_requests, streams::connection_of(d.key))
            == d.waiting_past(m, d.pieces.len() - 1),
{
    let n: int = d.pieces.len() as int;
    let k: int = n - 1;
    if k > 0 {
        lemma_pieces_taken(d, m, k);
    }
    lemma_begin(d);
    lemma_piece_ready(d, m, k);
    lemma_piece_read(d, m, k);
    lemma_piece_fed(d, m, k);
    written::lemma_written_read(d.origin(), d.waiting(m), m, Seq::empty());
    assert(d.pieces.take(n) =~= d.pieces);
    assert(m.wire() + Seq::<u8>::empty() =~= m.wire());
    lemma_written_drained(d.ready(k), d.waiting_at(k), m, d.events[0], d.events[k]);
}

/// A message is handed out whole and once, however its bytes are split into events, and whatever
/// comes in between on other streams, the other direction of its connection among them. All events
/// but the last give no message. The last gives the message, with the head and the body that were
/// written, any chunked transfer encoding removed. Its first event is the one that brought its
/// first bytes, and its timestamp that of the last. What waits on the connection matters only when
/// the head is complete, and only the piece that completes the head changes it.
pub proof fn law_message_in_pieces(d: Delivery, m: Written)
    requires
        d.brings(m),
        d.starts_fresh(),
    ensures
        forall|i: int|
            0 <= i < d.pieces.len() - 1 ==> #[trigger] d.results[i] == FeedView::Consumed(
                Seq::empty(),
            ),
        d.results.last() == FeedView::Consumed(
            seq![delivered(m, d.events[0], d.events.last())],
        ),
        d.after.last().stream(d.key).is_idle(),
        forall|i: int|
            0 <= i < d.pieces.len() ==> connections::waiting_on(
                (#[trigger] d.after[i]).head_requests,
                streams::connection_of(d.key),
            ) == d.waiting_past(m, i),
{
    let n: int = d.pieces.len() as int;
    lemma_begin(d);
    lemma_message_completed(d, m);
    assert(d.given(n - 1) == Seq::<MessageView>::empty());
    let last = seq![delivered(m, d.events[0], d.events.last())];
    assert(d.given(n - 1) + last =~= last);
    assert forall|i: int| 0 <= i < n - 1 implies #[trigger] d.results[i] == FeedView::Consumed(
        Seq::empty(),
    ) by {
        lemma_pieces_taken(d, m, i + 1);
    }
    assert forall|i: int| 0 <= i < n implies connections::waiting_on(
        (#[trigger] d.after[i]).head_requests,
        streams::connection_of(d.key),
    ) == d.waiting_past(m, i) by {
        if i < n - 1 {
            lemma_pieces_taken(d, m, i + 1);
        }
    }
}

/// A message that begins in the event that completes those before it, and goes on in later events,
/// is handed out whole and once too. The first event gives the messages that it completes. The
/// message's first event is that event, in which it began, and its timestamp that of the last.
pub proof fn law_message_behind_others(d: Delivery, m: Written)
    requires
        d.brings(m),
        d.starts_behind(),
    ensures
        forall|i: int|
            0 <= i < d.pieces.len() - 1 ==> #[trigger] d.results[i] == FeedView::Consumed(
                d.given(i),
            ),
        d.results.last() == FeedView::Consumed(
            d.given(d.pieces.len() - 1) + seq![delivered(m, d.events[0], d.events.last())],
        ),
        d.after.last().stream(d.key).is_idle(),
        forall|i: int|
            0 <= i < d.pieces.len() ==> connections::waiting_on(
                (#[trigger] d.after[i]).head_requests,
                streams::connection_of(d.key),
            ) == d.waiting_past(m, i),
{
    let n: int = d.pieces.len() as int;
    lemma_message_completed(d, m);
    assert forall|i: int| 0 <= i < n - 1 implies #[trigger] d.results[i] == FeedView::Consumed(
        d.given(i),
    ) by {
        lemma_pieces_taken(d, m, i + 1);
    }
    assert forall|i: int| 0 <= i < n implies connections::waiting_on(
        (#[trigger] d.after[i]).head_requests,
        streams::connection_of(d.key),
    ) == d.waiting_past(m, i) by {
        if i < n - 1 {
            lemma_pieces_taken(d, m, i + 1);
        }
    }
}

/// The messages in a row, as bytes.
pub open spec fn wires(messages: Seq<Written>) -> Seq<u8>
    decreases messages.len(),
{
    if messages.len() == 0 {
        Seq::empty()
    } else {
        messages[0].wire() + wires(messages.drop_first())
    }
}

/// Each message is well-formed, given what waits for a response when it comes.
pub open spec fn all_wf(messages: Seq<Written>, waiting: Waiting) -> bool
    decreases messages.len(),
{
    messages.len() == 0 || messages[0].wf(waiting) && all_wf(
        messages.drop_first(),
        stream::waiting_after(messages[0].head, waiting),
    )
}

/// What waits for a response after the messages.
pub open spec fn waiting_after_all(messages: Seq<Written>, waiting: Waiting) -> Waiting
    decreases messages.len(),
{
    if messages.len() == 0 {
        waiting
    } else {
        waiting_after_all(
            messages.drop_first(),
            stream::waiting_after(messages[0].head, waiting),
        )
    }
}

/// An idle stream after a message that `event` brought, with bytes to follow that it brought too.
pub open spec fn idle_after(s: StreamView, m: Written, event: Event) -> StreamView {
    StreamView {
        is_request: head::is_request_head(m.head),
        first_event: Some(event),
        last_seen: s.last_seen,
        ..StreamView::fresh()
    }
}

/// The first of the messages in a row is handed out, and the others are read as they would be.
pub proof fn lemma_first_drained(
    s: StreamView,
    waiting: Waiting,
    event: Event,
    m: Written,
    rest: Seq<u8>,
)
    requires
        s.wf(),
        s.is_idle(),
        s.first_event == Some(event),
        m.wf(waiting),
    ensures
        ({
            let d = message::drained(message::with_more(s, m.wire() + rest), waiting, event);
            let next = message::drained(
                message::with_more(idle_after(s, m, event), rest),
                stream::waiting_after(m.head, waiting),
                event,
            );
            if rest.len() == 0 {
                &&& d.messages == seq![delivered(m, event, event)]
                &&& d.stream.is_idle()
                &&& d.waiting == stream::waiting_after(m.head, waiting)
            } else {
                &&& d.messages == seq![delivered(m, event, event)] + next.messages
                &&& d.stream == next.stream
                &&& d.waiting == next.waiting
            }
        }),
{
    let t = message::with_more(s, m.wire() + rest);
    let r = stream::stepped(t, waiting);
    written::lemma_written_read(s, waiting, m, rest);
    assert(message::message_of(r.stream, event) == delivered(m, event, event));
    let next = message::with_more(idle_after(s, m, event), rest);
    if rest.len() > 0 {
        assert(next.buf =~= rest);
        assert(message::after_message(r.stream, event) == next);
    }
}

pub proof fn lemma_row_drained(
    s: StreamView,
    waiting: Waiting,
    event: Event,
    messages: Seq<Written>,
)
    requires
        s.wf(),
        s.is_idle(),
        s.first_event == Some(event),
        messages.len() > 0,
        all_wf(messages, waiting),
    ensures
        ({
            let d = message::drained(message::with_more(s, wires(messages)), waiting, event);
            &&& d.messages == messages.map_values(|m: Written| delivered(m, event, event))
            &&& d.stream.is_idle()
            &&& d.waiting == waiting_after_all(messages, waiting)
        }),
    decreases messages.len(),
{
    let m = messages[0];
    let others = messages.drop_first();
    let rest = wires(others);
    lemma_first_drained(s, waiting, event, m, rest);
    let all = messages.map_values(|m: Written| delivered(m, event, event));
    if others.len() == 0 {
        assert(all =~= seq![delivered(m, event, event)]);
        assert(waiting_after_all(others, stream::waiting_after(m.head, waiting))
            == stream::waiting_after(m.head, waiting));
    } else {
        assert(rest.len() > 0) by {
            assert(others[0].wire().len() >= head::blank_line().len());
        }
        lemma_row_drained(
            idle_after(s, m, event),
            stream::waiting_after(m.head, waiting),
            event,
            others,
        );
        assert(all =~= seq![delivered(m, event, event)] + others.map_values(
            |m: Written| delivered(m, event, event),
        ));
    }
}

/// Messages that come in a row in one event are all handed out, in their order. The event is their
/// first and their last.
pub proof fn law_messages_in_one_event(
    t: TrackerView,
    key: StreamKey,
    event: Event,
    messages: Seq<Written>,
    result: FeedView,
    after: TrackerView,
)
    requires
        t.wf(),
        t.feeds(key, event, wires(messages), result, after),
        !t.upgraded.contains(streams::connection_of(key)),
        t.stream(key).is_idle(),
        messages.len() > 0,
        all_wf(messages, t.waiting_for(key)),
        wires(messages).len() <= MAX_BUFFERED_BYTES,
    ensures
        result == FeedView::Consumed(
            messages.map_values(|m: Written| delivered(m, event, event)),
        ),
        after.stream(key).is_idle(),
        connections::waiting_on(after.head_requests, streams::connection_of(key))
            == waiting_after_all(messages, t.waiting_for(key)),
{
    assert(message::is_settled(StreamView::fresh())) by {
        bytes::lemma_position(Seq::empty(), head::blank_line());
    }
    assert(head::looks_like_http1(wires(messages))) by {
        let top = messages[0].head + head::blank_line();
        let rest = messages[0].payload.wire() + wires(messages.drop_first());
        assert(wires(messages) =~= top + rest);
        head::lemma_blank_line_ends_line(top);
        head::lemma_looks_like_extended(top, rest);
    }
    lemma_feed(t, key, event, wires(messages), result, after);
    lemma_row_drained(
        message::noted(t.stream(key), event),
        t.waiting_for(key),
        event,
        messages,
    );
}

proof fn lemma_same_switches(a: Seq<MessageView>, b: Seq<MessageView>)
    requires
        splitting::contents(a) == splitting::contents(b),
    ensures
        message::any_switches(a) == message::any_switches(b),
{
    assert(a.len() == splitting::contents(a).len());
    assert(b.len() == splitting::contents(b).len());
    assert forall|i: int| 0 <= i < a.len() implies (#[trigger] a[i]).switches_protocol()
        == b[i].switches_protocol() by {
        assert(splitting::contents(a)[i] == splitting::contents(b)[i]);
    }
    if message::any_switches(b) {
        let i: int = choose|i: int| 0 <= i < b.len() && (#[trigger] b[i]).switches_protocol();
        assert(a[i].switches_protocol());
    }
}

/// Two events that bring bytes one behind the other give the messages that one event with all the
/// bytes gives, where the first can be read without fault and leaves no message that runs until
/// the connection closes.
pub proof fn law_split_event(
    t: TrackerView,
    key: StreamKey,
    first: Event,
    a: Seq<u8>,
    m1: Seq<MessageView>,
    t1: TrackerView,
    second: Event,
    b: Seq<u8>,
    m2: Seq<MessageView>,
    t2: TrackerView,
    only: Event,
    m: Seq<MessageView>,
    t3: TrackerView,
)
    requires
        t.wf(),
        t.feeds(key, first, a, FeedView::Consumed(m1), t1),
        t1.feeds(key, second, b, FeedView::Consumed(m2), t2),
        t.feeds(key, only, a + b, FeedView::Consumed(m), t3),
        t.stream(key).buf.len() + a.len() + b.len() <= MAX_BUFFERED_BYTES,
        splitting::is_framed(
            message::with_more(message::noted(t.stream(key), first), a),
            t.waiting_for(key),
            first,
        ),
    ensures
        splitting::contents(m) == splitting::contents(m1) + splitting::contents(m2),
        splitting::alike(t3.stream(key), t2.stream(key)),
        connections::waiting_on(t3.head_requests, streams::connection_of(key))
            == connections::waiting_on(t2.head_requests, streams::connection_of(key)),
{
    let w = t.waiting_for(key);
    let s = t.stream(key);
    let s1 = message::with_more(message::noted(s, first), a);
    let d1 = message::received(s, w, first, a);
    assert(message::is_settled(StreamView::fresh())) by {
        bytes::lemma_position(Seq::empty(), head::blank_line());
    }
    lemma_feed(t, key, first, a, FeedView::Consumed(m1), t1);
    lemma_feed(t, key, only, a + b, FeedView::Consumed(m), t3);
    assert(!message::any_switches(m1));
    lemma_feed(t1, key, second, b, FeedView::Consumed(m2), t2);
    assert(t1.stream(key) == d1.stream);
    assert(t1.waiting_for(key) == d1.waiting);
    lemma_drained_wf(s1, w, first);
    let s2 = message::with_more(message::noted(d1.stream, second), b);
    let s3 = message::with_more(message::noted(s, only), a + b);
    splitting::lemma_drained_extended(s1, w, b, first, second, only);
    assert(message::with_more(s1, b).buf =~= s3.buf);
    splitting::lemma_alike_drained(message::with_more(s1, b), s3, w, only, only);
    splitting::lemma_alike_drained(
        message::with_more(d1.stream, b),
        s2,
        d1.waiting,
        second,
        second,
    );
    assert(splitting::contents(m) == splitting::contents(m1) + splitting::contents(m2));
    lemma_switches_joined(m, m1, m2);
}

proof fn lemma_switches_joined(m: Seq<MessageView>, a: Seq<MessageView>, b: Seq<MessageView>)
    requires
        splitting::contents(m) == splitting::contents(a) + splitting::contents(b),
        !message::any_switches(a),
    ensures
        message::any_switches(m) == message::any_switches(b),
{
    assert(splitting::contents(a + b) =~= splitting::contents(a) + splitting::contents(b));
    lemma_same_switches(m, a + b);
    if message::any_switches(b) {
        let i: int = choose|i: int| 0 <= i < b.len() && (#[trigger] b[i]).switches_protocol();
        assert((a + b)[a.len() + i].switches_protocol());
    }
    if message::any_switches(a + b) {
        let i: int = choose|i: int|
            0 <= i < (a + b).len() && (#[trigger] (a + b)[i]).switches_protocol();
        if i < a.len() {
            assert(a[i].switches_protocol());
        } else {
            assert(b[i - a.len()].switches_protocol());
        }
    }
}

/// What the messages that a stream gives hold of the stream and of the event.
proof fn lemma_drained_messages(s: StreamView, waiting: Waiting, event: Event)
    requires
        s.wf(),
    ensures
        ({
            let messages = message::drained(s, waiting, event).messages;
            forall|i: int|
                0 <= i < messages.len() ==> {
                    let m = #[trigger] messages[i];
                    &&& stream::flags_agree(m.head, m.is_request, m.was_chunked)
                    &&& m.last_timestamp == event.timestamp
                    &&& m.first_event == (match s.first_event {
                        Some(first) if i == 0 => first,
                        _ => event,
                    })
                }
        }),
    decreases s.buf.len(),
{
    let r = stream::stepped(s, waiting);
    stream::lemma_stepped(s, waiting);
    if r.step is Complete && r.stream.buf.len() > 0 {
        let next = message::after_message(r.stream, event);
        lemma_drained_messages(next, r.waiting, event);
        let rest = message::drained(next, r.waiting, event).messages;
        let messages = message::drained(s, waiting, event).messages;
        assert(forall|i: int| 0 < i < messages.len() ==> #[trigger] messages[i] == rest[i - 1]);
    }
}

/// Each message that is handed out has the head of an HTTP/1.x message, with no blank line in it,
/// and its flags agree with the head. Its timestamp is that of the event that completed it. The
/// first message of an event began with the first event of the stream; those behind it began with
/// the event itself.
pub proof fn law_structure_of_messages(
    t: TrackerView,
    key: StreamKey,
    event: Event,
    more: Seq<u8>,
    messages: Seq<MessageView>,
    after: TrackerView,
)
    requires
        t.wf(),
        t.feeds(key, event, more, FeedView::Consumed(messages), after),
    ensures
        forall|i: int|
            0 <= i < messages.len() ==> {
                let m = #[trigger] messages[i];
                &&& head::is_head(m.head)
                &&& m.is_request == head::is_request_head(m.head)
                &&& m.was_chunked ==> head::is_chunked(m.head)
                &&& m.last_timestamp == event.timestamp
                &&& m.first_event == (match t.stream(key).first_event {
                    Some(first) if i == 0 => first,
                    _ => event,
                })
            },
{
    assert(message::is_settled(StreamView::fresh())) by {
        bytes::lemma_position(Seq::empty(), head::blank_line());
    }
    lemma_feed(t, key, event, more, FeedView::Consumed(messages), after);
    let s = message::with_more(message::noted(t.stream(key), event), more);
    lemma_drained_messages(s, t.waiting_for(key), event);
    reveal(stream::flags_agree);
}

/// A stream whose message was read past its head holds the head of an HTTP/1.x message, and its
/// flags agree with the head. Its first event is known exactly while a message has begun.
pub proof fn law_streams_past_their_head(t: TrackerView, key: StreamKey)
    requires
        t.wf(),
        t.streams.contains_key(key),
    ensures
        ({
            let s = t.streams[key];
            &&& !(s.phase is Head) ==> {
                &&& head::is_head(s.head)
                &&& s.is_request == head::is_request_head(s.head)
                &&& s.chunked ==> head::is_chunked(s.head)
            }
            &&& s.first_event is None <==> s.is_idle()
        }),
{
    reveal(stream::flags_agree);
}

/// Bytes are handed back as not HTTP/1.x exactly where the connection has left it, or no message
/// has begun on the stream and none begins with them; the tracker is then left as it was.
pub proof fn law_refusal(
    t: TrackerView,
    key: StreamKey,
    event: Event,
    more: Seq<u8>,
    result: FeedView,
    after: TrackerView,
)
    requires
        t.feeds(key, event, more, result, after),
    ensures
        result is NotHttp1 <==> t.refuses(key, more),
        result is NotHttp1 ==> after == t,
{
}

/// A tracker stays within its bounds: it keeps no more than the streams, and each stream no more
/// than the bytes, that it may.
pub proof fn law_bounds(
    t: TrackerView,
    key: StreamKey,
    event: Event,
    more: Seq<u8>,
    result: FeedView,
    after: TrackerView,
)
    requires
        t.wf(),
        t.feeds(key, event, more, result, after),
    ensures
        after.wf(),
        after.streams.len() <= MAX_HTTP1_STREAMS,
        forall|k: StreamKey| #[trigger]
            after.streams.contains_key(k) ==> after.streams[k].buf.len() <= MAX_BUFFERED_BYTES
                && after.streams[k].body.len() <= MAX_HTTP1_MESSAGE_BYTES,
{
    if !t.refuses(key, more) {
        lemma_feed(t, key, event, more, result, after);
    }
}

/// No body that is handed out is larger than the largest.
pub proof fn law_largest_body(
    t: TrackerView,
    key: StreamKey,
    event: Event,
    more: Seq<u8>,
    messages: Seq<MessageView>,
    after: TrackerView,
)
    requires
        t.wf(),
        t.feeds(key, event, more, FeedView::Consumed(messages), after),
    ensures
        forall|i: int|
            0 <= i < messages.len() ==> (#[trigger] messages[i]).body.len()
                <= MAX_HTTP1_MESSAGE_BYTES,
{
    lemma_feed(t, key, event, more, FeedView::Consumed(messages), after);
    head::lemma_empty_is_no_message();
    if more.len() == 0 {
        assert(more =~= Seq::<u8>::empty());
    }
    bytes::lemma_position(Seq::empty(), head::blank_line());
    message::lemma_received(t.stream(key), t.waiting_for(key), event, more);
}

/// A message that announces a body larger than the largest is dropped whole, with all that came
/// behind it, and the stream is idle again.
pub proof fn law_oversized_length_is_dropped(
    t: TrackerView,
    key: StreamKey,
    event: Event,
    more: Seq<u8>,
    result: FeedView,
    after: TrackerView,
)
    requires
        t.wf(),
        t.feeds(key, event, more, result, after),
        !t.refuses(key, more),
        t.stream(key).phase is Head,
        ({
            let text = t.stream(key).buf + more;
            bytes::position(text, head::blank_line()) matches Some(end) && stream::framing_of(
                text.take(end),
                t.waiting_for(key),
            ) matches Framing::Length(n) && n > MAX_HTTP1_MESSAGE_BYTES
        }),
    ensures
        result == FeedView::Consumed(Seq::empty()),
        after.stream(key).is_idle(),
{
    assert(message::is_settled(StreamView::fresh())) by {
        bytes::lemma_position(Seq::empty(), head::blank_line());
    }
    lemma_feed(t, key, event, more, result, after);
}

/// A chunk that would make the body larger than the largest drops the message whole, with all that
/// came behind it, and the stream is idle again.
pub proof fn law_oversized_chunk_is_dropped(s: StreamView, waiting: Waiting, event: Event)
    requires
        s.wf(),
        s.phase is ChunkSize,
        bytes::position(s.buf, head::crlf()) matches Some(end) && head::chunk_size(
            s.buf.take(end),
        ) matches Some(size) && s.body.len() + size > MAX_HTTP1_MESSAGE_BYTES,
    ensures
        message::drained(s, waiting, event).messages == Seq::<MessageView>::empty(),
        message::drained(s, waiting, event).stream == s.cleared(),
        s.cleared().is_idle(),
{
}

/// Bytes for which a stream has no room drop its message whole, and the stream is idle again.
pub proof fn law_flood_is_dropped(
    t: TrackerView,
    key: StreamKey,
    event: Event,
    more: Seq<u8>,
    result: FeedView,
    after: TrackerView,
)
    requires
        t.wf(),
        t.feeds(key, event, more, result, after),
        !t.refuses(key, more),
        t.stream(key).buf.len() + more.len() > MAX_BUFFERED_BYTES,
    ensures
        result == FeedView::Consumed(Seq::empty()),
        after.stream(key).is_idle(),
{
    lemma_feed(t, key, event, more, result, after);
}

/// A stream that cannot be read on gives no message of what cannot be read. It is idle again, and
/// what comes next is framed as on a fresh stream.
pub proof fn law_unreadable_stream_starts_over(
    t: TrackerView,
    key: StreamKey,
    event: Event,
    more: Seq<u8>,
    result: FeedView,
    after: TrackerView,
)
    requires
        t.wf(),
        t.feeds(key, event, more, result, after),
        !t.refuses(key, more),
        t.stream(key).buf.len() + more.len() <= MAX_BUFFERED_BYTES,
        stream::stepped(
            message::with_more(message::noted(t.stream(key), event), more),
            t.waiting_for(key),
        ).step is Error,
    ensures
        result == FeedView::Consumed(Seq::empty()),
        after.stream(key).is_idle(),
        forall|waiting: Waiting, e: Event, bytes: Seq<u8>| #[trigger]
            message::received(after.stream(key), waiting, e, bytes) == message::received(
                StreamView::fresh(),
                waiting,
                e,
                bytes,
            ),
{
    assert(message::is_settled(StreamView::fresh())) by {
        bytes::lemma_position(Seq::empty(), head::blank_line());
    }
    lemma_feed(t, key, event, more, result, after);
    assert forall|waiting: Waiting, e: Event, bytes: Seq<u8>| #[trigger]
        message::received(after.stream(key), waiting, e, bytes) == message::received(
            StreamView::fresh(),
            waiting,
            e,
            bytes,
        ) by {
        assert(message::noted(after.stream(key), e) == message::noted(StreamView::fresh(), e));
    }
}

/// A message whose end only the close of the connection would show is handed out with the bytes
/// that came with its head, and the stream is idle again.
pub proof fn law_body_until_close(
    t: TrackerView,
    key: StreamKey,
    event: Event,
    more: Seq<u8>,
    end: int,
    result: FeedView,
    after: TrackerView,
)
    requires
        t.wf(),
        t.feeds(key, event, more, result, after),
        !t.refuses(key, more),
        t.stream(key).buf.len() + more.len() <= MAX_BUFFERED_BYTES,
        splitting::runs_until_close(
            message::with_more(t.stream(key), more),
            t.waiting_for(key),
        ),
        bytes::position(t.stream(key).buf + more, head::blank_line()) == Some(end),
        t.stream(key).buf.len() + more.len() - (end + 4) <= MAX_HTTP1_MESSAGE_BYTES,
    ensures
        ({
            let text = t.stream(key).buf + more;
            result == FeedView::Consumed(
                seq![
                    MessageView {
                        head: text.take(end),
                        body: text.skip(end + 4),
                        first_event: match t.stream(key).first_event {
                            Some(first) => first,
                            None => event,
                        },
                        last_timestamp: event.timestamp,
                        was_chunked: false,
                        is_request: false,
                    },
                ],
            )
        }),
        after.stream(key).is_idle(),
{
    assert(message::is_settled(StreamView::fresh())) by {
        bytes::lemma_position(Seq::empty(), head::blank_line());
    }
    lemma_feed(t, key, event, more, result, after);
    bytes::lemma_position(t.stream(key).buf + more, head::blank_line());
    let s = message::with_more(message::noted(t.stream(key), event), more);
    let r = stream::stepped(s, t.waiting_for(key));
    assert(r.step is Complete);
}

/// A response to a request with the method HEAD, and one with a status that has no body, ends with
/// its head, whatever length or encoding it announces.
pub proof fn law_bodiless_response(head: Seq<u8>, waiting: Waiting)
    requires
        !head::is_request_head(head),
        connections::answers_head(waiting) || (head::status(head) matches Some(code)
            && head::is_bodiless(code)),
    ensures
        stream::framing_of(head, waiting) is Empty,
{
}

/// The requests that wait, in the order in which they were sent: whether each is a HEAD request.
pub open spec fn queue_of(waiting: Waiting) -> Seq<bool> {
    match waiting {
        Some(queue) => queue,
        None => Seq::empty(),
    }
}

/// Of each request among the heads, whether its method is HEAD.
pub open spec fn requests_in(heads: Seq<Seq<u8>>) -> Seq<bool>
    decreases heads.len(),
{
    if heads.len() == 0 {
        Seq::empty()
    } else if head::is_request_head(heads.last()) {
        requests_in(heads.drop_last()).push(head::is_head_request(heads.last()))
    } else {
        requests_in(heads.drop_last())
    }
}

/// How many of the heads are those of responses.
pub open spec fn responses_in(heads: Seq<Seq<u8>>) -> nat
    decreases heads.len(),
{
    if heads.len() == 0 {
        0
    } else if head::is_request_head(heads.last()) {
        responses_in(heads.drop_last())
    } else {
        responses_in(heads.drop_last()) + 1
    }
}

/// What waits on a connection once the heads came on it in this order, in either direction.
pub open spec fn after_heads(waiting: Waiting, heads: Seq<Seq<u8>>) -> Waiting
    decreases heads.len(),
{
    if heads.len() == 0 {
        waiting
    } else {
        stream::waiting_after(heads.last(), after_heads(waiting, heads.drop_last()))
    }
}

/// No response comes before its request.
pub open spec fn all_asked(waiting: Waiting, heads: Seq<Seq<u8>>) -> bool {
    forall|k: int|
        0 <= k <= heads.len() ==> responses_in(#[trigger] heads.take(k)) <= queue_of(waiting).len()
            + requests_in(heads.take(k)).len()
}

/// Responses answer requests in the order in which these were sent, however requests and responses
/// alternate: each response takes the first request that waits, and each request waits behind all
/// others. Whether the next response answers a request with the method HEAD is what was noted of
/// the request with its number.
pub proof fn law_responses_answer_in_order(waiting: Waiting, heads: Seq<Seq<u8>>)
    requires
        all_asked(waiting, heads),
    ensures
        ({
            let sent = queue_of(waiting) + requests_in(heads);
            let n: int = responses_in(heads) as int;
            &&& queue_of(after_heads(waiting, heads)) == sent.skip(n)
            &&& connections::answers_head(after_heads(waiting, heads)) == (n < sent.len()
                && sent[n])
        }),
    decreases heads.len(),
{
    let sent = queue_of(waiting) + requests_in(heads);
    if heads.len() == 0 {
        assert(sent.skip(0) =~= queue_of(waiting));
    } else {
        let front = heads.drop_last();
        assert(heads.take(heads.len() as int) =~= heads);
        assert forall|k: int| 0 <= k <= front.len() implies responses_in(#[trigger] front.take(k))
            <= queue_of(waiting).len() + requests_in(front.take(k)).len() by {
            assert(front.take(k) =~= heads.take(k));
        }
        assert(front.take(front.len() as int) =~= front);
        law_responses_answer_in_order(waiting, front);
        let before = queue_of(waiting) + requests_in(front);
        let n: int = responses_in(front) as int;
        if head::is_request_head(heads.last()) {
            assert(before.skip(n).push(head::is_head_request(heads.last())) =~= sent.skip(n));
            assert(queue_of(after_heads(waiting, heads)) =~= sent.skip(n));
        } else {
            assert(before.skip(n).drop_first() =~= sent.skip(n + 1));
        }
    }
    assert(queue_of(after_heads(waiting, heads)) == sent.skip(responses_in(heads) as int));
}

/// A response that nothing asked for answers no request, and leaves nothing waiting.
pub proof fn law_unasked_response(waiting: Waiting)
    requires
        queue_of(waiting).len() == 0,
    ensures
        !connections::answers_head(waiting),
        connections::after_response(waiting) == waiting,
{
}

proof fn lemma_responses_before(heads: Seq<Seq<u8>>, k: int)
    requires
        0 <= k <= heads.len(),
    ensures
        responses_in(heads.take(k)) <= responses_in(heads),
    decreases heads.len(),
{
    if k == heads.len() {
        assert(heads.take(k) =~= heads);
    } else {
        assert(heads.drop_last().take(k) =~= heads.take(k));
        lemma_responses_before(heads.drop_last(), k);
    }
}

/// The response to a request with the method HEAD is complete with its head, even where it
/// announces a body, however the head is split into events. `asked` is the head of the request and
/// `waiting` what waited when it was sent; `heads` came on the connection since, the responses to
/// all that waited among them.
pub proof fn law_response_to_head(
    waiting: Waiting,
    asked: Seq<u8>,
    heads: Seq<Seq<u8>>,
    d: Delivery,
    m: Written,
)
    requires
        head::is_request_head(asked),
        head::is_head_request(asked),
        responses_in(heads) == queue_of(waiting).len(),
        d.happens(),
        d.starts_fresh() || d.starts_behind(),
        d.waiting(m) == after_heads(stream::waiting_after(asked, waiting), heads),
        !head::is_request_head(m.head),
        head::is_head(m.head),
        m.payload == Payload::Plain(Seq::empty()),
        m.lines_fit(),
        joined(d.pieces) == m.wire(),
        d.pieces.last().len() > 0,
    ensures
        d.results.last() == FeedView::Consumed(
            d.given(d.pieces.len() - 1) + seq![delivered(m, d.events[0], d.events.last())],
        ),
        d.after.last().stream(d.key).is_idle(),
{
    let since = stream::waiting_after(asked, waiting);
    assert(queue_of(since) =~= queue_of(waiting).push(true));
    assert forall|k: int| 0 <= k <= heads.len() implies responses_in(#[trigger] heads.take(k))
        <= queue_of(since).len() + requests_in(heads.take(k)).len() by {
        lemma_responses_before(heads, k);
    }
    law_responses_answer_in_order(since, heads);
    law_bodiless_response(m.head, d.waiting(m));
    lemma_message_completed(d, m);
}

/// A response that switches protocols is the end of HTTP/1.x on its connection: no stream of the
/// connection is kept, and whatever comes on it later, in either direction, is handed back.
pub proof fn law_upgrade_is_final(
    t: TrackerView,
    key: StreamKey,
    event: Event,
    more: Seq<u8>,
    messages: Seq<MessageView>,
    after: TrackerView,
    rw: u8,
    later: Event,
    bytes: Seq<u8>,
    result: FeedView,
    last: TrackerView,
)
    requires
        t.wf(),
        t.feeds(key, event, more, FeedView::Consumed(messages), after),
        message::any_switches(messages),
        after.feeds((key.0, key.1, rw), later, bytes, result, last),
    ensures
        after.upgraded.contains(streams::connection_of(key)),
        !after.streams.contains_key((key.0, key.1, rw)),
        result is NotHttp1,
        last == after,
{
    lemma_feed(t, key, event, more, FeedView::Consumed(messages), after);
    assert(streams::connection_of((key.0, key.1, rw)) == streams::connection_of(key));
}

/// A connection leaves HTTP/1.x only with a response that switches protocols, and never returns.
pub proof fn law_upgraded_connections(
    t: TrackerView,
    key: StreamKey,
    event: Event,
    more: Seq<u8>,
    result: FeedView,
    after: TrackerView,
    conn: Connection,
)
    requires
        t.wf(),
        t.feeds(key, event, more, result, after),
    ensures
        after.upgraded.contains(conn) <==> t.upgraded.contains(conn) || (conn
            == streams::connection_of(key) && (result matches FeedView::Consumed(messages)
            && message::any_switches(messages))),
{
    if !t.refuses(key, more) {
        lemma_feed(t, key, event, more, result, after);
    }
}

/// What comes on one connection does not touch the streams of another, nor what waits on it. Only
/// to make room may its oldest stream, or all that waits, be dropped.
pub proof fn law_other_connection_is_untouched(
    t: TrackerView,
    key: StreamKey,
    event: Event,
    more: Seq<u8>,
    result: FeedView,
    after: TrackerView,
    other: StreamKey,
)
    requires
        t.wf(),
        t.feeds(key, event, more, result, after),
        streams::connection_of(other) != streams::connection_of(key),
    ensures
        !t.is_full_for(key) || !streams::is_oldest(t.streams, other) ==> is_untouched(
            t,
            after,
            other,
        ),
        ({
            let conn = streams::connection_of(other);
            !t.is_full_for(key) || t.head_requests.len() <= MAX_HTTP1_STREAMS
                ==> connections::waiting_on(after.head_requests, conn) == connections::waiting_on(
                t.head_requests,
                conn,
            )
        }),
        after.stream(other) == t.stream(other) || after.stream(other) == StreamView::fresh(),
        after.upgraded.contains(streams::connection_of(other)) == t.upgraded.contains(
            streams::connection_of(other),
        ),
{
}

/// What comes in one direction of a connection does not touch the other, unless the connection
/// switches protocols. Only to make room may the oldest stream be dropped.
pub proof fn law_other_direction_is_untouched(
    t: TrackerView,
    key: StreamKey,
    event: Event,
    more: Seq<u8>,
    result: FeedView,
    after: TrackerView,
    rw: u8,
)
    requires
        t.wf(),
        t.feeds(key, event, more, result, after),
        rw != key.2,
        !after.upgraded.contains(streams::connection_of(key)),
    ensures
        ({
            let other = (key.0, key.1, rw);
            !t.is_full_for(key) || !streams::is_oldest(t.streams, other) ==> is_untouched(
                t,
                after,
                other,
            )
        }),
{
}

/// A move on a settled stream leaves only bytes that came since.
proof fn lemma_moved_leaves(s: StreamView, waiting: Waiting, more: Seq<u8>)
    requires
        message::is_read_out(s),
    ensures
        ({
            let m = stream::moved(message::with_more(s, more), waiting);
            m.settled is None || m.settled == Some(Step::Complete) ==> m.stream.buf.len()
                <= more.len()
        }),
{
    let t = message::with_more(s, more);
    bytes::lemma_position_extended(s.buf, more, head::blank_line());
    bytes::lemma_position_extended(s.buf, more, head::crlf());
    bytes::lemma_position(t.buf, head::blank_line());
    bytes::lemma_position(t.buf, head::crlf());
    if s.buf.len() >= 2 && head::crlf().is_prefix_of(t.buf) {
        assert(t.buf.subrange(0, 2) =~= s.buf.subrange(0, 2));
    }
}

/// The bytes that a completed message leaves came with the event that completed it. So a message
/// that begins with them began with that event.
pub proof fn law_leftover_came_with_last_event(
    s: StreamView,
    waiting: Waiting,
    event: Event,
    more: Seq<u8>,
)
    requires
        message::is_settled(s),
        stream::stepped(
            message::with_more(message::noted(s, event), more),
            waiting,
        ).step is Complete,
    ensures
        ({
            let left = stream::stepped(
                message::with_more(message::noted(s, event), more),
                waiting,
            ).stream.buf;
            left.len() <= more.len() && left == more.skip(more.len() - left.len())
        }),
{
    let t = message::with_more(message::noted(s, event), more);
    let r = stream::stepped(t, waiting);
    let left = r.stream.buf;
    let m = stream::moved(t, waiting);
    lemma_moved_leaves(message::noted(s, event), waiting, more);
    if m.settled is None {
        stream::lemma_stepped(m.stream, m.waiting);
    }
    lemma_stepped_leaves_end(t, waiting);
    assert(left =~= more.skip(more.len() - left.len()));
}

proof fn lemma_stepped_leaves_end(s: StreamView, waiting: Waiting)
    requires
        s.wf(),
    ensures
        ({
            let left = stream::stepped(s, waiting).stream.buf;
            left.len() <= s.buf.len() && left == s.buf.skip(s.buf.len() - left.len())
        }),
    decreases s.buf.len(), stream::rank(s.phase),
{
    let m = stream::moved(s, waiting);
    stream::lemma_moved(s, waiting);
    bytes::lemma_position(s.buf, head::blank_line());
    bytes::lemma_position(s.buf, head::crlf());
    assert(m.stream.buf =~= s.buf.skip(s.buf.len() - m.stream.buf.len()));
    if m.settled is None {
        lemma_stepped_leaves_end(m.stream, m.waiting);
        let left = stream::stepped(s, waiting).stream.buf;
        assert(left =~= s.buf.skip(s.buf.len() - left.len()));
    }
}

proof fn lemma_first_value_ignores_case(lines: Seq<Seq<u8>>, a: Seq<u8>, b: Seq<u8>)
    requires
        bytes::lowered(a) == bytes::lowered(b),
    ensures
        head::first_value(lines, a) == head::first_value(lines, b),
    decreases lines.len(),
{
    if lines.len() > 0 {
        lemma_first_value_ignores_case(lines.drop_first(), a, b);
    }
}

/// The case of a field's name does not matter.
pub proof fn law_field_names_ignore_case(head: Seq<u8>, a: Seq<u8>, b: Seq<u8>)
    requires
        bytes::lowered(a) == bytes::lowered(b),
    ensures
        head::field_value(head, a) == head::field_value(head, b),
{
    lemma_first_value_ignores_case(bytes::split(head, bytes::LF).drop_first(), a, b);
}

/// What begins as the preface of HTTP/2 does is never taken for HTTP/1.x.
pub proof fn law_http2_preface_is_not_http1(text: Seq<u8>)
    requires
        bytes::ascii("PRI "@).is_prefix_of(text),
    ensures
        !head::looks_like_http1(text),
{
    reveal_strlit("PRI ");
    reveal_strlit("HTTP/1.");
    reveal_strlit("GET ");
    reveal_strlit("POST ");
    reveal_strlit("PUT ");
    reveal_strlit("PATCH ");
    reveal_strlit("DELETE ");
    reveal_strlit("HEAD ");
    reveal_strlit("OPTIONS ");
    reveal_strlit("CONNECT ");
    reveal_strlit("TRACE ");
    let preface = bytes::ascii("PRI "@);
    assert(text[0] == preface[0] && text[1] == preface[1]) by {
        assert(text.subrange(0, 4)[0] == text[0] && text.subrange(0, 4)[1] == text[1]);
    }
    assert forall|k: int| 0 <= k < head::methods().len() implies !head::requests_by(
        text,
        bytes::ascii(#[trigger] head::methods()[k]),
    ) by {
        let method = bytes::ascii(head::methods()[k]);
        if method.is_prefix_of(text) {
            assert(method[0] == text.subrange(0, method.len() as int)[0]);
            assert(method[1] == text.subrange(0, method.len() as int)[1]);
        }
    }
    if bytes::ascii("HTTP/1."@).is_prefix_of(text) {
        assert(bytes::ascii("HTTP/1."@)[0] == text.subrange(0, 7)[0]);
    }
}

} // verus!
