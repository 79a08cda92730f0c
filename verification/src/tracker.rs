//! Messages out of the events of all connections.

use crate::bytes;
use crate::connections;
use crate::connections::{Connection, HeadRequests, Upgraded};
use crate::event::Event;
use crate::head;
use crate::head::{starts_like_http1, status_code};
use crate::message;
use crate::message::{Http1Message, MessageView};
use crate::stream;
use crate::stream::{Phase, Step, Stream, StreamView, MAX_BUFFERED_BYTES};
use crate::streams;
use crate::streams::{StreamKey, Streams};
use vstd::prelude::*;

verus! {

/// How many streams are kept at most.
pub const MAX_HTTP1_STREAMS: usize = 1024;

/// What became of an event.
pub enum Feed {
    /// Not (or no longer) HTTP/1.x framing on this connection: use the stateless/HTTP2/WebSocket
    /// paths for this event.
    NotHttp1,
    /// Bytes were consumed; zero or more messages completed.
    Consumed(Vec<Http1Message>),
}

/// What became of an event, with the messages as sequences.
#[verifier::ext_equal]
pub enum FeedView {
    NotHttp1,
    Consumed(Seq<MessageView>),
}

impl View for Feed {
    type V = FeedView;

    open spec fn view(&self) -> FeedView {
        match self {
            Feed::NotHttp1 => FeedView::NotHttp1,
            Feed::Consumed(messages) => FeedView::Consumed(message::message_views(messages@)),
        }
    }
}

/// Frames the messages of all connections.
pub struct Http1Tracker {
    streams: Streams,
    head_requests: HeadRequests,
    upgraded: Upgraded,
}

/// What is kept of all connections.
#[verifier::ext_equal]
pub struct TrackerView {
    pub streams: Map<StreamKey, StreamView>,
    pub head_requests: Map<Connection, Seq<bool>>,
    pub upgraded: Set<Connection>,
}

impl View for Http1Tracker {
    type V = TrackerView;

    closed spec fn view(&self) -> TrackerView {
        TrackerView {
            streams: self.streams@,
            head_requests: self.head_requests@,
            upgraded: self.upgraded@,
        }
    }
}

impl TrackerView {
    /// Nothing is kept.
    pub open spec fn empty() -> TrackerView {
        TrackerView {
            streams: Map::empty(),
            head_requests: Map::empty(),
            upgraded: Set::empty(),
        }
    }

    /// The streams are not too many, and each is settled.
    pub open spec fn wf(self) -> bool {
        &&& self.streams.dom().finite()
        &&& self.streams.len() <= MAX_HTTP1_STREAMS
        &&& forall|key: StreamKey| #[trigger]
            self.streams.contains_key(key) ==> message::is_settled(self.streams[key])
    }

    /// A stream; a fresh one where it is not kept.
    pub open spec fn stream(self, key: StreamKey) -> StreamView {
        if self.streams.contains_key(key) {
            self.streams[key]
        } else {
            StreamView::fresh()
        }
    }

    /// A new stream `keep` finds no room.
    pub open spec fn is_full_for(self, keep: StreamKey) -> bool {
        self.streams.len() >= MAX_HTTP1_STREAMS && !self.streams.contains_key(keep)
    }

    /// Room was made for the stream `keep`, if there was none, by dropping `oldest`. Where queues
    /// are kept for too many connections, all are dropped with it.
    pub open spec fn with_room_for(self, keep: StreamKey, oldest: StreamKey) -> TrackerView {
        if self.is_full_for(keep) {
            TrackerView {
                streams: self.streams.remove(oldest),
                head_requests: if self.head_requests.len() > MAX_HTTP1_STREAMS {
                    Map::empty()
                } else {
                    self.head_requests
                },
                upgraded: self.upgraded,
            }
        } else {
            self
        }
    }

    /// What waits on the connection of a stream, once room was made for the stream.
    pub open spec fn waiting_for(self, key: StreamKey) -> connections::Waiting {
        if self.is_full_for(key) && self.head_requests.len() > MAX_HTTP1_STREAMS {
            None
        } else {
            connections::waiting_on(self.head_requests, streams::connection_of(key))
        }
    }

    /// The bytes are none that this tracker frames: the connection has left HTTP/1.x, or no
    /// message has begun on the stream and none begins with them.
    pub open spec fn refuses(self, key: StreamKey, more: Seq<u8>) -> bool {
        ||| self.upgraded.contains(streams::connection_of(key))
        ||| self.stream(key).is_idle() && !head::looks_like_http1(more)
    }

    /// What a stream gives for the bytes that an event brings.
    pub open spec fn framed(self, key: StreamKey, event: Event, more: Seq<u8>) -> message::Drained {
        let conn = streams::connection_of(key);
        message::received(
            self.stream(key),
            connections::waiting_on(self.head_requests, conn),
            event,
            more,
        )
    }

    /// The tracker after `event` brought bytes to a stream. A connection that is switched to
    /// another protocol loses its streams.
    pub open spec fn fed(self, key: StreamKey, event: Event, more: Seq<u8>) -> TrackerView {
        let conn = streams::connection_of(key);
        let d = self.framed(key, event, more);
        let kept = self.streams.insert(key, d.stream);
        let head_requests = connections::with_waiting(self.head_requests, conn, d.waiting);
        if message::any_switches(d.messages) {
            TrackerView {
                streams: streams::without_connection(kept, conn),
                head_requests,
                upgraded: self.upgraded.insert(conn),
            }
        } else {
            TrackerView { streams: kept, head_requests, upgraded: self.upgraded }
        }
    }

    /// `oldest` may be dropped to make room for the stream `keep`.
    pub open spec fn may_drop(self, keep: StreamKey, oldest: StreamKey) -> bool {
        self.is_full_for(keep) ==> streams::is_oldest(self.streams, oldest)
    }

    /// Feeding bytes to a stream may turn this tracker into `after` and give `result`. More than
    /// one `after` is possible only where two streams are equally old and one has to go.
    pub open spec fn feeds(
        self,
        key: StreamKey,
        event: Event,
        more: Seq<u8>,
        result: FeedView,
        after: TrackerView,
    ) -> bool {
        if self.refuses(key, more) {
            result == FeedView::NotHttp1 && after == self
        } else {
            exists|oldest: StreamKey| #[trigger]
                self.may_drop(key, oldest) && {
                    let before = self.with_room_for(key, oldest);
                    &&& result == FeedView::Consumed(before.framed(key, event, more).messages)
                    &&& after == before.fed(key, event, more)
                }
        }
    }
}

/// Making room keeps a tracker well-formed, and leaves room.
pub proof fn lemma_with_room(t: TrackerView, keep: StreamKey, oldest: StreamKey)
    requires
        t.wf(),
        t.may_drop(keep, oldest),
    ensures
        ({
            let after = t.with_room_for(keep, oldest);
            &&& after.wf()
            &&& !after.is_full_for(keep)
            &&& after.stream(keep) == t.stream(keep)
            &&& after.upgraded == t.upgraded
        }),
{
}

/// Feeding a well-formed tracker leaves it well-formed, and gives no body above the largest one.
pub proof fn lemma_fed(t: TrackerView, key: StreamKey, event: Event, more: Seq<u8>)
    requires
        t.wf(),
        !t.is_full_for(key),
        !t.refuses(key, more),
    ensures
        t.fed(key, event, more).wf(),
        message::is_settled(t.framed(key, event, more).stream),
        forall|i: int|
            0 <= i < t.framed(key, event, more).messages.len() ==> (#[trigger] t.framed(
                key,
                event,
                more,
            ).messages[i]).body.len() <= stream::MAX_HTTP1_MESSAGE_BYTES,
{
    let conn = streams::connection_of(key);
    let waiting = connections::waiting_on(t.head_requests, conn);
    head::lemma_empty_is_no_message();
    bytes::lemma_position(Seq::empty(), head::blank_line());
    if more.len() == 0 {
        assert(more =~= Seq::<u8>::empty());
    }
    message::lemma_received(t.stream(key), waiting, event, more);
    let kept = t.streams.insert(key, t.framed(key, event, more).stream);
    assert(kept.dom() =~= t.streams.dom().insert(key));
    assert(kept.len() <= MAX_HTTP1_STREAMS);
    let fewer = streams::without_connection(kept, conn);
    assert(fewer.dom().subset_of(kept.dom()));
    vstd::set_lib::lemma_len_subset(fewer.dom(), kept.dom());
}

impl Default for Http1Tracker {
    fn default() -> (r: Self)
        ensures
            r.wf(),
            r@ == TrackerView::empty(),
    {
        let r: Http1Tracker = Http1Tracker {
            streams: Streams::new(),
            head_requests: HeadRequests::new(),
            upgraded: Upgraded::new(),
        };
        r
    }
}

impl Http1Tracker {
    /// What is kept agrees with itself.
    pub closed spec fn wf(&self) -> bool {
        &&& self.streams.wf()
        &&& self.head_requests.wf()
        &&& self@.wf()
    }

    /// What a tracker keeps is well-formed.
    pub proof fn lemma_wf(&self)
        requires
            self.wf(),
        ensures
            self@.wf(),
    {
    }

    /// Reads on in a stream as far as its bytes go.
    pub fn step(stream: &mut Stream, head_requests: &mut HeadRequests, conn: Connection) -> (r: Step)
        requires
            old(head_requests).wf(),
        ensures
            final(head_requests).wf(),
            ({
                let waiting = connections::waiting_on(old(head_requests)@, conn);
                let after = stream::stepped(old(stream)@, waiting);
                &&& after.step == r
                &&& after.stream == final(stream)@
                &&& final(head_requests)@ == connections::with_waiting(
                    old(head_requests)@,
                    conn,
                    after.waiting,
                )
            }),
    {
        let ghost waiting = connections::waiting_on(head_requests@, conn);
        assert(head_requests@ =~= connections::with_waiting(head_requests@, conn, waiting));
        loop
            invariant
                head_requests.wf(),
                waiting == connections::waiting_on(old(head_requests)@, conn),
                stream::stepped(stream@, connections::waiting_on(head_requests@, conn))
                    == stream::stepped(old(stream)@, waiting),
                head_requests@ == connections::with_waiting(
                    old(head_requests)@,
                    conn,
                    connections::waiting_on(head_requests@, conn),
                ),
            decreases stream@.buf.len(), stream::rank(stream.phase),
        {
            let ghost now = connections::waiting_on(head_requests@, conn);
            let ghost m = stream::moved(stream@, now);
            proof {
                stream::lemma_moved(stream@, now);
            }
            let settled: Option<Step> = stream.advance(head_requests, conn);
            assert(connections::waiting_on(head_requests@, conn) == m.waiting);
            assert(head_requests@ =~= connections::with_waiting(
                old(head_requests)@,
                conn,
                m.waiting,
            ));
            if let Some(step) = settled {
                return step;
            }
        }
    }

    /// Hands out the messages that the bytes of a stream complete, with `event` the last to come.
    fn drain(&mut self, stream: &mut Stream, event: &Event, conn: Connection) -> (r: Vec<
        Http1Message,
    >)
        requires
            old(self).head_requests.wf(),
            old(stream)@.wf(),
        ensures
            ({
                let d = message::drained(
                    old(stream)@,
                    connections::waiting_on(old(self)@.head_requests, conn),
                    *event,
                );
                &&& message::message_views(r@) == d.messages
                &&& final(stream)@ == d.stream
                &&& final(self)@.head_requests == connections::with_waiting(
                    old(self)@.head_requests,
                    conn,
                    d.waiting,
                )
                &&& final(self)@.upgraded == (if message::any_switches(d.messages) {
                    old(self)@.upgraded.insert(conn)
                } else {
                    old(self)@.upgraded
                })
            }),
            final(self).head_requests.wf(),
            final(self).streams == old(self).streams,
    {
        let ghost queues = self.head_requests@;
        let ghost upgraded = self.upgraded@;
        let ghost total = message::drained(
            stream@,
            connections::waiting_on(queues, conn),
            *event,
        );
        let mut done: Vec<Http1Message> = Vec::new();
        assert(queues =~= connections::with_waiting(
            queues,
            conn,
            connections::waiting_on(queues, conn),
        ));
        loop
            invariant
                stream@.wf(),
                self.head_requests.wf(),
                self.streams == old(self).streams,
                self.head_requests@ == connections::with_waiting(
                    queues,
                    conn,
                    connections::waiting_on(self.head_requests@, conn),
                ),
                queues == old(self)@.head_requests,
                upgraded == old(self)@.upgraded,
                total == message::drained(
                    old(stream)@,
                    connections::waiting_on(queues, conn),
                    *event,
                ),
                ({
                    let d = message::drained(
                        stream@,
                        connections::waiting_on(self.head_requests@, conn),
                        *event,
                    );
                    &&& total.messages == message::message_views(done@) + d.messages
                    &&& total.stream == d.stream
                    &&& total.waiting == d.waiting
                }),
                self.upgraded@ == (if message::any_switches(message::message_views(done@)) {
                    upgraded.insert(conn)
                } else {
                    upgraded
                }),
            decreases stream@.buf.len(),
        {
            let ghost now = connections::waiting_on(self.head_requests@, conn);
            let ghost r = stream::stepped(stream@, now);
            let ghost before = message::message_views(done@);
            proof {
                stream::lemma_stepped(stream@, now);
            }
            let step: Step = Self::step(stream, &mut self.head_requests, conn);
            assert(connections::waiting_on(self.head_requests@, conn) == r.waiting);
            assert(self.head_requests@ =~= connections::with_waiting(queues, conn, r.waiting));
            match step {
                Step::NeedMore => {
                    assert(total.messages =~= before);
                    return done;
                },
                Step::Error => {
                    stream.reset();
                    assert(total.messages =~= before);
                    return done;
                },
                Step::Complete => {
                    let first_event: Event = match stream.first_event.take() {
                        Some(first) => first,
                        None => event.clone(),
                    };
                    let mut head: Vec<u8> = Vec::new();
                    std::mem::swap(&mut head, &mut stream.head);
                    let mut body: Vec<u8> = Vec::new();
                    std::mem::swap(&mut body, &mut stream.body);
                    let msg: Http1Message = Http1Message {
                        head,
                        body,
                        first_event,
                        last_timestamp: event.timestamp,
                        was_chunked: stream.chunked,
                        is_request: stream.is_request,
                    };
                    stream.phase = Phase::Head;
                    stream.chunked = false;
                    assert(msg@ == message::message_of(r.stream, *event));
                    if !msg.is_request && status_code(msg.head.as_slice()) == Some(101) {
                        self.upgraded.insert(conn);
                        assert(self.upgraded@ =~= upgraded.insert(conn));
                    }
                    let ghost last = msg@;
                    done.push(msg);
                    proof {
                        let after = message::message_views(done@);
                        assert(after =~= before.push(last));
                        if message::any_switches(before) {
                            let i: int = choose|i: int|
                                0 <= i < before.len() && (
                                #[trigger] before[i]).switches_protocol();
                            assert(after[i].switches_protocol());
                        }
                        if last.switches_protocol() {
                            assert(after[before.len() as int].switches_protocol());
                        }
                        if message::any_switches(after) {
                            let i: int = choose|i: int|
                                0 <= i < after.len() && (#[trigger] after[i]).switches_protocol();
                            if i < before.len() {
                                assert(before[i].switches_protocol());
                            }
                        }
                    }
                    if stream.buf.is_empty() {
                        assert(stream@ =~= message::after_message(r.stream, *event));
                        assert(total.messages =~= message::message_views(done@));
                        return done;
                    }
                    // A pipelined message starts in this same event.
                    stream.first_event = Some(event.clone());
                    assert(stream@ =~= message::after_message(r.stream, *event));
                    assert(total.messages =~= message::message_views(done@) + message::drained(
                        stream@,
                        r.waiting,
                        *event,
                    ).messages);
                },
            }
        }
    }

    /// Takes in the bytes of an event. The messages that they complete, or the news that the
    /// bytes are not HTTP/1.x.
    pub fn feed(&mut self, event: &Event, conn_id: u64, rw: u8, bytes: &[u8]) -> (r: Feed)
        requires
            old(self).wf(),
        ensures
            final(self).wf(),
            final(self)@.wf(),
            old(self)@.feeds((event.pid, conn_id, rw), *event, bytes@, r@, final(self)@),
    {
        let conn: Connection = (event.pid, conn_id);
        let key: StreamKey = (event.pid, conn_id, rw);
        if self.upgraded.contains(conn) {
            return Feed::NotHttp1;
        }
        if self.streams.is_idle(key) && !starts_like_http1(bytes) {
            // Mid-stream attach, or a protocol that is not framed here.
            return Feed::NotHttp1;
        }
        assert(!self@.refuses(key, bytes@));
        self.evict_if_full(key);
        let ghost room = self@;
        let ghost oldest = choose|oldest: StreamKey| #[trigger]
            old(self)@.may_drop(key, oldest) && room == old(self)@.with_room_for(key, oldest);
        proof {
            lemma_with_room(old(self)@, key, oldest);
            lemma_fed(room, key, *event, bytes@);
        }
        let mut stream: Stream = self.streams.take(key);
        stream.last_seen = event.timestamp;
        if stream.first_event.is_none() {
            stream.first_event = Some(event.clone());
        }
        assert(stream@ == message::noted(room.stream(key), *event));
        if bytes.len() > MAX_BUFFERED_BYTES || stream.buf.len() > MAX_BUFFERED_BYTES - bytes.len() {
            stream.reset();
            self.streams.put(key, stream);
            let none: Vec<Http1Message> = Vec::new();
            let r: Feed = Feed::Consumed(none);
            proof {
                assert(message::message_views(none@) =~= Seq::<MessageView>::empty());
                assert(self@.head_requests =~= room.fed(key, *event, bytes@).head_requests);
                assert(self@.streams =~= room.fed(key, *event, bytes@).streams);
                assert(self@ == room.fed(key, *event, bytes@));
            }
            return r;
        }
        let ghost held = stream@;
        stream.buf.extend_from_slice(bytes);
        assert(stream.buf@ =~= held.buf + bytes@);
        assert(stream@ == message::with_more(held, bytes@));
        let done: Vec<Http1Message> = self.drain(&mut stream, event, conn);
        self.streams.put(key, stream);
        assert(self@.streams =~= room.streams.insert(key, room.framed(key, *event, bytes@).stream));
        if self.upgraded.contains(conn) {
            self.streams.remove_connection(conn);
        }
        assert(self@ == room.fed(key, *event, bytes@));
        Feed::Consumed(done)
    }

    /// Makes room for the stream `keep`, if there is none, by dropping an oldest stream.
    pub fn evict_if_full(&mut self, keep: StreamKey)
        requires
            old(self).wf(),
        ensures
            final(self).wf(),
            final(self)@.wf(),
            exists|oldest: StreamKey| #[trigger]
                old(self)@.may_drop(keep, oldest) && final(self)@ == old(self)@.with_room_for(
                    keep,
                    oldest,
                ),
    {
        if self.streams.len() < MAX_HTTP1_STREAMS || self.streams.contains(keep) {
            assert(old(self)@.may_drop(keep, keep));
            return;
        }
        self.streams.remove_oldest();
        if self.head_requests.len() > MAX_HTTP1_STREAMS {
            self.head_requests.clear();
        }
        proof {
            let oldest: StreamKey = choose|oldest: StreamKey|
                streams::is_oldest(old(self)@.streams, oldest) && self.streams@
                    == old(self)@.streams.remove(oldest);
            assert(old(self)@.may_drop(keep, oldest));
            lemma_with_room(old(self)@, keep, oldest);
        }
    }
}

} // verus!
