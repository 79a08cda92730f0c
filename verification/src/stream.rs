//! One direction of a connection: the bytes that came, and how far the message that they carry has
//! been read.

use crate::bytes;
use crate::bytes::{find, starts_with, CR, LF};
use crate::connections;
use crate::connections::{Connection, HeadRequests, Waiting};
use crate::event::Event;
use crate::head;
use crate::head::{frame_request, frame_response, head_is_head_request, head_is_request};
use crate::head::{read_chunk_size, starts_like_http1, Framing};
use vstd::prelude::*;

verus! {

/// Largest body kept per message; bigger messages are dropped whole rather than emitted truncated.
pub const MAX_HTTP1_MESSAGE_BYTES: usize = 32 * 1024 * 1024;

/// How many bytes may come without an end of the head among them.
pub const MAX_HTTP1_HEAD_BYTES: usize = 64 * 1024;

/// How many bytes may come without an end of a chunk's first line among them.
pub const MAX_CHUNK_LINE_BYTES: usize = 1024;

/// How many bytes of a stream are kept at most.
pub const MAX_BUFFERED_BYTES: usize = MAX_HTTP1_MESSAGE_BYTES + MAX_HTTP1_HEAD_BYTES;

/// What of a message is read next.
#[derive(Clone, Copy)]
pub enum Phase {
    Head,
    Fixed(usize),
    ChunkSize,
    ChunkData(usize),
    ChunkDataEnd,
    Trailers,
}

/// What reading on has come to.
pub enum Step {
    /// The message goes on in bytes that have not come.
    NeedMore,
    /// The message is complete.
    Complete,
    /// The bytes cannot be read, or the message is too large.
    Error,
}

/// One direction of a connection.
pub struct Stream {
    pub buf: Vec<u8>,
    pub phase: Phase,
    pub head: Vec<u8>,
    pub body: Vec<u8>,
    pub chunked: bool,
    pub is_request: bool,
    pub first_event: Option<Event>,
    pub last_seen: u64,
}

/// A stream with its bytes as sequences.
#[verifier::ext_equal]
pub struct StreamView {
    /// The bytes that came and were not read yet.
    pub buf: Seq<u8>,
    pub phase: Phase,
    /// The head of the message that is being read.
    pub head: Seq<u8>,
    /// What was read of its body.
    pub body: Seq<u8>,
    pub chunked: bool,
    pub is_request: bool,
    pub first_event: Option<Event>,
    pub last_seen: u64,
}

impl View for Stream {
    type V = StreamView;

    open spec fn view(&self) -> StreamView {
        StreamView {
            buf: self.buf@,
            phase: self.phase,
            head: self.head@,
            body: self.body@,
            chunked: self.chunked,
            is_request: self.is_request,
            first_event: self.first_event,
            last_seen: self.last_seen,
        }
    }
}

/// `head` is the head of an HTTP/1.x message, `is_request` says whether of a request, and `chunked`
/// is set only where it announces the chunked transfer encoding.
#[verifier::opaque]
pub open spec fn flags_agree(head: Seq<u8>, is_request: bool, chunked: bool) -> bool {
    &&& head::is_head(head)
    &&& is_request == head::is_request_head(head)
    &&& chunked ==> head::is_chunked(head)
}

impl StreamView {
    /// A stream on which nothing came.
    pub open spec fn fresh() -> StreamView {
        StreamView {
            buf: Seq::empty(),
            phase: Phase::Head,
            head: Seq::empty(),
            body: Seq::empty(),
            chunked: false,
            is_request: false,
            first_event: None,
            last_seen: 0,
        }
    }

    /// The stream with all that came forgotten, but for when.
    pub open spec fn cleared(self) -> StreamView {
        StreamView { last_seen: self.last_seen, ..StreamView::fresh() }
    }

    /// No message has begun.
    pub open spec fn is_idle(self) -> bool {
        self.phase is Head && self.buf.len() == 0
    }

    /// A head was read, and the flags agree with it.
    pub open spec fn has_head(self) -> bool {
        flags_agree(self.head, self.is_request, self.chunked)
    }

    /// The phase agrees with what was read, and the body does not pass the largest one.
    pub open spec fn wf(self) -> bool {
        match self.phase {
            Phase::Head => self.head.len() == 0 && self.body.len() == 0 && !self.chunked,
            Phase::Fixed(n) => {
                &&& self.has_head()
                &&& 0 < n && self.body.len() + n <= MAX_HTTP1_MESSAGE_BYTES
                &&& !self.chunked
            },
            Phase::ChunkData(n) => {
                &&& self.has_head()
                &&& 0 < n && self.body.len() + n <= MAX_HTTP1_MESSAGE_BYTES
                &&& self.chunked
            },
            Phase::ChunkSize | Phase::ChunkDataEnd | Phase::Trailers => {
                &&& self.has_head()
                &&& self.body.len() <= MAX_HTTP1_MESSAGE_BYTES
                &&& self.chunked
            },
        }
    }

    /// The stream with its first `n` unread bytes gone.
    pub open spec fn past(self, n: int) -> StreamView {
        StreamView { buf: self.buf.skip(n), ..self }
    }

    /// The stream with its first `n` unread bytes moved to the body.
    pub open spec fn absorbed(self, n: int) -> StreamView {
        StreamView { buf: self.buf.skip(n), body: self.body + self.buf.take(n), ..self }
    }

    /// The stream in another phase.
    pub open spec fn in_phase(self, phase: Phase) -> StreamView {
        StreamView { phase, ..self }
    }

    /// How many of `n` bytes are there.
    pub open spec fn available(self, n: usize) -> int {
        if n <= self.buf.len() {
            n as int
        } else {
            self.buf.len() as int
        }
    }
}

/// A stream after one move, with what waits on its connection. `settled` is what reading on has
/// come to, or nothing where the next move can be made at once.
#[verifier::ext_equal]
pub struct Moved {
    pub settled: Option<Step>,
    pub stream: StreamView,
    pub waiting: Waiting,
}

/// The body begins, framed in the given way.
pub open spec fn begin_body(s: StreamView, framing: Framing, waiting: Waiting) -> Moved {
    let settled: Option<Step> = if s.buf.len() == 0 {
        Some(Step::NeedMore)
    } else {
        None
    };
    match framing {
        Framing::Empty => Moved { settled: Some(Step::Complete), stream: s, waiting },
        Framing::Length(n) => if n > MAX_HTTP1_MESSAGE_BYTES {
            Moved { settled: Some(Step::Error), stream: s, waiting }
        } else {
            Moved { settled, stream: s.in_phase(Phase::Fixed(n)), waiting }
        },
        Framing::Chunked => Moved {
            settled,
            stream: StreamView { chunked: true, ..s.in_phase(Phase::ChunkSize) },
            waiting,
        },
        // The close of the connection is not observed: what came with the head is the body.
        Framing::UntilClose => if s.buf.len() > MAX_HTTP1_MESSAGE_BYTES {
            Moved { settled: Some(Step::Error), stream: s, waiting }
        } else {
            Moved {
                settled: Some(Step::Complete),
                stream: StreamView { body: s.buf, buf: Seq::empty(), ..s },
                waiting,
            }
        },
    }
}

/// How the end of the message with this head is known, given what waits for a response.
pub open spec fn framing_of(head: Seq<u8>, waiting: Waiting) -> Framing {
    if head::is_request_head(head) {
        head::request_framing(head)
    } else {
        head::response_framing(head, connections::answers_head(waiting))
    }
}

/// What waits for a response after the message with this head.
pub open spec fn waiting_after(head: Seq<u8>, waiting: Waiting) -> Waiting {
    if head::is_request_head(head) {
        connections::after_request(waiting, head::is_head_request(head))
    } else {
        connections::after_response(waiting)
    }
}

/// A move in the phase `Head`.
pub open spec fn move_head(s: StreamView, waiting: Waiting) -> Moved {
    match bytes::position(s.buf, head::blank_line()) {
        Some(end) => if head::looks_like_http1(s.buf) {
            let head = s.buf.take(end);
            let opened = StreamView {
                head,
                is_request: head::is_request_head(head),
                ..s.past(end + 4)
            };
            begin_body(opened, framing_of(head, waiting), waiting_after(head, waiting))
        } else {
            Moved { settled: Some(Step::Error), stream: s, waiting }
        },
        None => Moved {
            settled: Some(
                if s.buf.len() > MAX_HTTP1_HEAD_BYTES {
                    Step::Error
                } else {
                    Step::NeedMore
                },
            ),
            stream: s,
            waiting,
        },
    }
}

/// A move in the phase `Fixed(n)`.
pub open spec fn move_fixed(s: StreamView, n: usize, waiting: Waiting) -> Moved {
    let k: int = s.available(n);
    if k == n {
        Moved { settled: Some(Step::Complete), stream: s.absorbed(k), waiting }
    } else {
        Moved {
            settled: Some(Step::NeedMore),
            stream: s.absorbed(k).in_phase(Phase::Fixed((n - k) as usize)),
            waiting,
        }
    }
}

/// A move in the phase `ChunkSize`.
pub open spec fn move_chunk_size(s: StreamView, waiting: Waiting) -> Moved {
    match bytes::position(s.buf, head::crlf()) {
        Some(end) => match head::chunk_size(s.buf.take(end)) {
            Some(size) => if s.body.len() + size > MAX_HTTP1_MESSAGE_BYTES {
                Moved { settled: Some(Step::Error), stream: s.past(end + 2), waiting }
            } else {
                let phase = if size == 0 {
                    Phase::Trailers
                } else {
                    Phase::ChunkData(size)
                };
                Moved { settled: None, stream: s.past(end + 2).in_phase(phase), waiting }
            },
            None => Moved { settled: Some(Step::Error), stream: s.past(end + 2), waiting },
        },
        None => Moved {
            settled: Some(
                if s.buf.len() > MAX_CHUNK_LINE_BYTES {
                    Step::Error
                } else {
                    Step::NeedMore
                },
            ),
            stream: s,
            waiting,
        },
    }
}

/// A move in the phase `ChunkData(n)`.
pub open spec fn move_chunk_data(s: StreamView, n: usize, waiting: Waiting) -> Moved {
    let k: int = s.available(n);
    if k == n {
        Moved { settled: None, stream: s.absorbed(k).in_phase(Phase::ChunkDataEnd), waiting }
    } else {
        Moved {
            settled: Some(Step::NeedMore),
            stream: s.absorbed(k).in_phase(Phase::ChunkData((n - k) as usize)),
            waiting,
        }
    }
}

/// A move in the phase `ChunkDataEnd`.
pub open spec fn move_chunk_data_end(s: StreamView, waiting: Waiting) -> Moved {
    if s.buf.len() < 2 {
        Moved { settled: Some(Step::NeedMore), stream: s, waiting }
    } else if head::crlf().is_prefix_of(s.buf) {
        Moved { settled: None, stream: s.past(2).in_phase(Phase::ChunkSize), waiting }
    } else {
        Moved { settled: Some(Step::Error), stream: s, waiting }
    }
}

/// A move in the phase `Trailers`.
pub open spec fn move_trailers(s: StreamView, waiting: Waiting) -> Moved {
    if head::crlf().is_prefix_of(s.buf) {
        Moved { settled: Some(Step::Complete), stream: s.past(2), waiting }
    } else {
        match bytes::position(s.buf, head::blank_line()) {
            Some(end) => Moved {
                settled: Some(Step::Complete),
                stream: s.past(end + 4),
                waiting,
            },
            None => Moved { settled: Some(Step::NeedMore), stream: s, waiting },
        }
    }
}

/// A move: the next part of the message is read.
pub open spec fn moved(s: StreamView, waiting: Waiting) -> Moved {
    match s.phase {
        Phase::Head => move_head(s, waiting),
        Phase::Fixed(n) => move_fixed(s, n, waiting),
        Phase::ChunkSize => move_chunk_size(s, waiting),
        Phase::ChunkData(n) => move_chunk_data(s, n, waiting),
        Phase::ChunkDataEnd => move_chunk_data_end(s, waiting),
        Phase::Trailers => move_trailers(s, waiting),
    }
}

/// A move that leaves the unread bytes as they are goes to a phase of lower rank.
pub open spec fn rank(phase: Phase) -> nat {
    if phase is ChunkData {
        1
    } else {
        0
    }
}

/// The move `m` takes no bytes back, comes nearer to the end, and keeps a stream well-formed.
pub open spec fn is_sound_move(s: StreamView, waiting: Waiting, m: Moved) -> bool {
    &&& m.stream.buf.len() <= s.buf.len()
    &&& m.stream.first_event == s.first_event
    &&& m.stream.last_seen == s.last_seen
    &&& m.settled is None ==> {
        ||| m.stream.buf.len() < s.buf.len()
        ||| m.stream.buf.len() == s.buf.len() && rank(m.stream.phase) < rank(s.phase)
    }
    &&& s.wf() ==> match m.settled {
        None | Some(Step::NeedMore) => m.stream.wf(),
        Some(Step::Complete) => {
            &&& m.stream.buf.len() < s.buf.len()
            &&& m.stream.body.len() <= MAX_HTTP1_MESSAGE_BYTES
            &&& m.stream.has_head()
        },
        Some(Step::Error) => true,
    }
    &&& m.waiting is None ==> waiting is None
}

proof fn lemma_move_head(s: StreamView, waiting: Waiting)
    requires
        s.phase is Head,
    ensures
        is_sound_move(s, waiting, move_head(s, waiting)),
{
    bytes::lemma_position(s.buf, head::blank_line());
    if let Some(end) = bytes::position(s.buf, head::blank_line()) {
        if head::looks_like_http1(s.buf) {
            head::lemma_head_before_blank_line(s.buf, end);
            let head = s.buf.take(end);
            let framing = framing_of(head, waiting);
            assert(flags_agree(head, head::is_request_head(head), false)) by {
                reveal(flags_agree);
            }
            assert(framing is Chunked ==> flags_agree(head, head::is_request_head(head), true)) by {
                reveal(flags_agree);
            }
        }
    }
}

/// What a move does to the unread bytes, and that it keeps a stream well-formed.
pub proof fn lemma_moved(s: StreamView, waiting: Waiting)
    ensures
        is_sound_move(s, waiting, moved(s, waiting)),
{
    if s.phase is Head {
        lemma_move_head(s, waiting);
    } else {
        bytes::lemma_position(s.buf, head::blank_line());
        bytes::lemma_position(s.buf, head::crlf());
    }
}

/// A stream after reading on as far as the bytes go, with what waits on its connection.
#[verifier::ext_equal]
pub struct Stepped {
    pub step: Step,
    pub stream: StreamView,
    pub waiting: Waiting,
}

/// Moves are made until one settles what reading on has come to.
pub open spec fn stepped(s: StreamView, waiting: Waiting) -> Stepped
    decreases s.buf.len(), rank(s.phase),
{
    let m = moved(s, waiting);
    match m.settled {
        Some(step) => Stepped { step, stream: m.stream, waiting: m.waiting },
        None => {
            proof {
                lemma_moved(s, waiting);
            }
            stepped(m.stream, m.waiting)
        },
    }
}

/// What reading on does to the unread bytes, and that it keeps a stream well-formed.
pub proof fn lemma_stepped(s: StreamView, waiting: Waiting)
    ensures
        ({
            let r = stepped(s, waiting);
            &&& r.stream.buf.len() <= s.buf.len()
            &&& r.stream.first_event == s.first_event
            &&& r.stream.last_seen == s.last_seen
            &&& s.wf() ==> match r.step {
                Step::NeedMore => r.stream.wf(),
                Step::Complete => {
                    &&& r.stream.buf.len() < s.buf.len()
                    &&& r.stream.body.len() <= MAX_HTTP1_MESSAGE_BYTES
                    &&& r.stream.has_head()
                },
                Step::Error => true,
            }
            &&& r.waiting is None ==> waiting is None
        }),
    decreases s.buf.len(), rank(s.phase),
{
    lemma_moved(s, waiting);
    let m = moved(s, waiting);
    if m.settled is None {
        lemma_stepped(m.stream, m.waiting);
    }
}

/// Takes the first `n` bytes off a buffer.
fn take_front(buf: &mut Vec<u8>, n: usize) -> (r: Vec<u8>)
    requires
        n <= old(buf)@.len(),
    ensures
        r@ == old(buf)@.take(n as int),
        final(buf)@ == old(buf)@.skip(n as int),
{
    let mut rest: Vec<u8> = buf.split_off(n);
    std::mem::swap(buf, &mut rest);
    assert(buf@ =~= old(buf)@.skip(n as int));
    assert(rest@ =~= old(buf)@.take(n as int));
    rest
}

impl Stream {
    /// A stream on which nothing came.
    pub fn new() -> (r: Self)
        ensures
            r@ == StreamView::fresh(),
    {
        Stream {
            buf: Vec::new(),
            phase: Phase::Head,
            head: Vec::new(),
            body: Vec::new(),
            chunked: false,
            is_request: false,
            first_event: None,
            last_seen: 0,
        }
    }

    /// Whether no message has begun.
    pub fn idle(&self) -> (r: bool)
        ensures
            r == self@.is_idle(),
    {
        matches!(self.phase, Phase::Head) && self.buf.is_empty()
    }

    /// Forgets all that came, but for when.
    pub fn reset(&mut self)
        ensures
            final(self)@ == old(self)@.cleared(),
    {
        let last_seen: u64 = self.last_seen;
        *self = Stream::new();
        self.last_seen = last_seen;
    }

    /// Moves the first `n` unread bytes to the body.
    fn absorb(&mut self, n: usize)
        requires
            n <= old(self)@.buf.len(),
        ensures
            final(self)@ == old(self)@.absorbed(n as int),
    {
        let mut front: Vec<u8> = take_front(&mut self.buf, n);
        self.body.append(&mut front);
    }

    /// Begins the body, framed in the given way.
    fn start_body(&mut self, framing: Framing) -> (r: Option<Step>)
        ensures
            forall|waiting: Waiting| #[trigger]
                begin_body(old(self)@, framing, waiting) == (Moved {
                    settled: r,
                    stream: final(self)@,
                    waiting,
                }),
    {
        match framing {
            Framing::Empty => {
                return Some(Step::Complete);
            },
            Framing::Length(n) => {
                if n > MAX_HTTP1_MESSAGE_BYTES {
                    return Some(Step::Error);
                }
                self.phase = Phase::Fixed(n);
            },
            Framing::Chunked => {
                self.chunked = true;
                self.phase = Phase::ChunkSize;
            },
            Framing::UntilClose => {
                if self.buf.len() > MAX_HTTP1_MESSAGE_BYTES {
                    return Some(Step::Error);
                }
                let mut rest: Vec<u8> = Vec::new();
                std::mem::swap(&mut self.buf, &mut rest);
                self.body = rest;
                return Some(Step::Complete);
            },
        }
        if self.buf.is_empty() {
            Some(Step::NeedMore)
        } else {
            None
        }
    }

    /// Reads the head, once all of it came.
    fn read_head(&mut self, head_requests: &mut HeadRequests, conn: Connection) -> (r: Option<Step>)
        requires
            old(self).phase is Head,
            old(head_requests).wf(),
        ensures
            final(head_requests).wf(),
            ({
                let m = move_head(
                    old(self)@,
                    connections::waiting_on(old(head_requests)@, conn),
                );
                &&& m.settled == r
                &&& m.stream == final(self)@
                &&& final(head_requests)@ == connections::with_waiting(
                    old(head_requests)@,
                    conn,
                    m.waiting,
                )
            }),
    {
        let ghost waiting = connections::waiting_on(old(head_requests)@, conn);
        proof {
            bytes::lemma_position(self.buf@, head::blank_line());
        }
        assert([CR, LF, CR, LF]@ =~= head::blank_line());
        assert(head_requests@ =~= connections::with_waiting(head_requests@, conn, waiting));
        let end: usize = match find(self.buf.as_slice(), &[CR, LF, CR, LF]) {
            Some(end) => end,
            None => {
                return Some(
                    if self.buf.len() > MAX_HTTP1_HEAD_BYTES {
                        Step::Error
                    } else {
                        Step::NeedMore
                    },
                );
            },
        };
        if !starts_like_http1(self.buf.as_slice()) {
            return Some(Step::Error);
        }
        assert(end + 4 <= self.buf.len());
        let mut head: Vec<u8> = take_front(&mut self.buf, end + 4);
        head.truncate(end);
        assert(head@ =~= old(self)@.buf.take(end as int));
        let is_request: bool = head_is_request(head.as_slice());
        let framing: Framing = if is_request {
            head_requests.push(conn, head_is_head_request(head.as_slice()));
            frame_request(head.as_slice())
        } else {
            let to_head: bool = head_requests.pop(conn);
            frame_response(head.as_slice(), to_head)
        };
        assert(framing == framing_of(head@, waiting));
        self.head = head;
        self.is_request = is_request;
        let ghost opened = self@;
        let r: Option<Step> = self.start_body(framing);
        assert(begin_body(opened, framing, waiting_after(opened.head, waiting)).settled == r);
        r
    }

    /// Reads a body of known length.
    fn read_fixed(&mut self, remaining: usize) -> (r: Option<Step>)
        requires
            old(self).phase == Phase::Fixed(remaining),
        ensures
            forall|waiting: Waiting| #[trigger]
                move_fixed(old(self)@, remaining, waiting) == (Moved {
                    settled: r,
                    stream: final(self)@,
                    waiting,
                }),
    {
        let take: usize = if remaining <= self.buf.len() {
            remaining
        } else {
            self.buf.len()
        };
        self.absorb(take);
        if take == remaining {
            Some(Step::Complete)
        } else {
            self.phase = Phase::Fixed(remaining - take);
            Some(Step::NeedMore)
        }
    }

    /// Reads the first line of a chunk, once all of it came.
    fn read_size(&mut self) -> (r: Option<Step>)
        requires
            old(self).phase is ChunkSize,
        ensures
            forall|waiting: Waiting| #[trigger]
                move_chunk_size(old(self)@, waiting) == (Moved {
                    settled: r,
                    stream: final(self)@,
                    waiting,
                }),
    {
        proof {
            bytes::lemma_position(self.buf@, head::crlf());
        }
        assert([CR, LF]@ =~= head::crlf());
        let end: usize = match find(self.buf.as_slice(), &[CR, LF]) {
            Some(end) => end,
            None => {
                return Some(
                    if self.buf.len() > MAX_CHUNK_LINE_BYTES {
                        Step::Error
                    } else {
                        Step::NeedMore
                    },
                );
            },
        };
        assert(end + 2 <= self.buf.len());
        let mut line: Vec<u8> = take_front(&mut self.buf, end + 2);
        line.truncate(end);
        assert(line@ =~= old(self)@.buf.take(end as int));
        match read_chunk_size(line.as_slice()) {
            Some(size) => {
                if size > MAX_HTTP1_MESSAGE_BYTES || self.body.len() > MAX_HTTP1_MESSAGE_BYTES
                    - size {
                    return Some(Step::Error);
                }
                self.phase = if size == 0 {
                    Phase::Trailers
                } else {
                    Phase::ChunkData(size)
                };
                None
            },
            None => Some(Step::Error),
        }
    }

    /// Reads the data of a chunk.
    fn read_data(&mut self, remaining: usize) -> (r: Option<Step>)
        requires
            old(self).phase == Phase::ChunkData(remaining),
        ensures
            forall|waiting: Waiting| #[trigger]
                move_chunk_data(old(self)@, remaining, waiting) == (Moved {
                    settled: r,
                    stream: final(self)@,
                    waiting,
                }),
    {
        let take: usize = if remaining <= self.buf.len() {
            remaining
        } else {
            self.buf.len()
        };
        self.absorb(take);
        if take == remaining {
            self.phase = Phase::ChunkDataEnd;
            None
        } else {
            self.phase = Phase::ChunkData(remaining - take);
            Some(Step::NeedMore)
        }
    }

    /// Reads the end of line behind the data of a chunk.
    fn read_data_end(&mut self) -> (r: Option<Step>)
        requires
            old(self).phase is ChunkDataEnd,
        ensures
            forall|waiting: Waiting| #[trigger]
                move_chunk_data_end(old(self)@, waiting) == (Moved {
                    settled: r,
                    stream: final(self)@,
                    waiting,
                }),
    {
        if self.buf.len() < 2 {
            return Some(Step::NeedMore);
        }
        assert([CR, LF]@ =~= head::crlf());
        if !starts_with(self.buf.as_slice(), &[CR, LF]) {
            return Some(Step::Error);
        }
        take_front(&mut self.buf, 2);
        self.phase = Phase::ChunkSize;
        None
    }

    /// Reads what follows the last chunk, once all of it came.
    fn read_trailers(&mut self) -> (r: Option<Step>)
        requires
            old(self).phase is Trailers,
        ensures
            forall|waiting: Waiting| #[trigger]
                move_trailers(old(self)@, waiting) == (Moved {
                    settled: r,
                    stream: final(self)@,
                    waiting,
                }),
    {
        assert([CR, LF]@ =~= head::crlf());
        if starts_with(self.buf.as_slice(), &[CR, LF]) {
            take_front(&mut self.buf, 2);
            return Some(Step::Complete);
        }
        proof {
            bytes::lemma_position(self.buf@, head::blank_line());
        }
        assert([CR, LF, CR, LF]@ =~= head::blank_line());
        match find(self.buf.as_slice(), &[CR, LF, CR, LF]) {
            Some(end) => {
                assert(end + 4 <= self.buf.len());
                take_front(&mut self.buf, end + 4);
                Some(Step::Complete)
            },
            None => Some(Step::NeedMore),
        }
    }

    /// Reads the next part of the message.
    pub fn advance(&mut self, head_requests: &mut HeadRequests, conn: Connection) -> (r: Option<Step>)
        requires
            old(head_requests).wf(),
        ensures
            final(head_requests).wf(),
            ({
                let m = moved(old(self)@, connections::waiting_on(old(head_requests)@, conn));
                &&& m.settled == r
                &&& m.stream == final(self)@
                &&& final(head_requests)@ == connections::with_waiting(
                    old(head_requests)@,
                    conn,
                    m.waiting,
                )
            }),
    {
        let ghost waiting = connections::waiting_on(old(head_requests)@, conn);
        assert(head_requests@ =~= connections::with_waiting(head_requests@, conn, waiting));
        match self.phase {
            Phase::Head => self.read_head(head_requests, conn),
            Phase::Fixed(remaining) => {
                let r: Option<Step> = self.read_fixed(remaining);
                assert(move_fixed(old(self)@, remaining, waiting).settled == r);
                r
            },
            Phase::ChunkSize => {
                let r: Option<Step> = self.read_size();
                assert(move_chunk_size(old(self)@, waiting).settled == r);
                r
            },
            Phase::ChunkData(remaining) => {
                let r: Option<Step> = self.read_data(remaining);
                assert(move_chunk_data(old(self)@, remaining, waiting).settled == r);
                r
            },
            Phase::ChunkDataEnd => {
                let r: Option<Step> = self.read_data_end();
                assert(move_chunk_data_end(old(self)@, waiting).settled == r);
                r
            },
            Phase::Trailers => {
                let r: Option<Step> = self.read_trailers();
                assert(move_trailers(old(self)@, waiting).settled == r);
                r
            },
        }
    }
}

} // verus!
