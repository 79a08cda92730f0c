//! Messages as they are written: the bytes that stand for a head and a body.

use crate::bytes;
use crate::connections::Waiting;
use crate::head;
use crate::head::Framing;
use crate::message;
use crate::splitting;
use crate::stream;
use crate::stream::{Phase, Step, Stepped, StreamView};
use crate::stream::{MAX_CHUNK_LINE_BYTES, MAX_HTTP1_HEAD_BYTES, MAX_HTTP1_MESSAGE_BYTES};
use vstd::prelude::*;

verus! {

/// A chunk of a body in the chunked transfer encoding: its first line and its data.
pub struct Chunk {
    pub line: Seq<u8>,
    pub data: Seq<u8>,
}

/// A line that ends where it seems to.
pub open spec fn is_line(line: Seq<u8>) -> bool {
    bytes::position(line + head::crlf(), head::crlf()) == Some(line.len() as int)
}

/// A line of a chunk that may come in parts.
pub open spec fn is_short(line: Seq<u8>) -> bool {
    line.len() + 1 <= MAX_CHUNK_LINE_BYTES
}

impl Chunk {
    /// The first line gives the size of the data, which are not empty.
    pub open spec fn wf(self) -> bool {
        &&& is_line(self.line)
        &&& 0 < self.data.len() <= MAX_HTTP1_MESSAGE_BYTES
        &&& head::chunk_size(self.line) == Some(self.data.len() as usize)
    }

    pub open spec fn wire(self) -> Seq<u8> {
        self.line + head::crlf() + self.data + head::crlf()
    }
}

/// The bytes of the chunks.
pub open spec fn chunks_wire(chunks: Seq<Chunk>) -> Seq<u8>
    decreases chunks.len(),
{
    if chunks.len() == 0 {
        Seq::empty()
    } else {
        chunks[0].wire() + chunks_wire(chunks.drop_first())
    }
}

/// The data of the chunks.
pub open spec fn chunks_data(chunks: Seq<Chunk>) -> Seq<u8>
    decreases chunks.len(),
{
    if chunks.len() == 0 {
        Seq::empty()
    } else {
        chunks[0].data + chunks_data(chunks.drop_first())
    }
}

/// What follows the last chunk: a blank line, or header fields that a blank line ends.
pub open spec fn is_trailer_part(text: Seq<u8>) -> bool {
    ||| text == head::crlf()
    ||| {
        &&& !head::crlf().is_prefix_of(text)
        &&& bytes::position(text, head::blank_line()) == Some(text.len() - 4)
    }
}

/// What follows a head.
pub enum Payload {
    /// The body as it is.
    Plain(Seq<u8>),
    /// The body in the chunked transfer encoding: the chunks, the line that gives the size zero,
    /// and what follows it.
    Chunked { chunks: Seq<Chunk>, last: Seq<u8>, trailers: Seq<u8> },
}

impl Payload {
    pub open spec fn wire(self) -> Seq<u8> {
        match self {
            Payload::Plain(body) => body,
            Payload::Chunked { chunks, last, trailers } => {
                chunks_wire(chunks) + last + head::crlf() + trailers
            },
        }
    }

    pub open spec fn body(self) -> Seq<u8> {
        match self {
            Payload::Plain(body) => body,
            Payload::Chunked { chunks, .. } => chunks_data(chunks),
        }
    }

    /// The payload is what the framing says.
    pub open spec fn follows(self, framing: Framing) -> bool {
        &&& self.body().len() <= MAX_HTTP1_MESSAGE_BYTES
        &&& match (framing, self) {
            (Framing::Empty, Payload::Plain(body)) => body.len() == 0,
            (Framing::Length(n), Payload::Plain(body)) => body.len() == n && n > 0,
            (Framing::Chunked, Payload::Chunked { chunks, last, trailers }) => {
                &&& forall|i: int| 0 <= i < chunks.len() ==> (#[trigger] chunks[i]).wf()
                &&& is_line(last)
                &&& head::chunk_size(last) == Some(0usize)
                &&& is_trailer_part(trailers)
            },
            _ => false,
        }
    }
}

/// A message as it is written.
pub struct Written {
    pub head: Seq<u8>,
    pub payload: Payload,
}

impl Written {
    pub open spec fn wire(self) -> Seq<u8> {
        self.head + head::blank_line() + self.payload.wire()
    }

    /// The head is one of HTTP/1.x and ends where it seems to, and the payload is what it says,
    /// given what waits for a response.
    pub open spec fn wf(self, waiting: Waiting) -> bool {
        &&& head::is_head(self.head)
        &&& self.payload.follows(stream::framing_of(self.head, waiting))
    }

    /// No line is too long to come in parts.
    pub open spec fn lines_fit(self) -> bool {
        &&& self.head.len() + 3 <= MAX_HTTP1_HEAD_BYTES
        &&& match self.payload {
            Payload::Plain(_) => true,
            Payload::Chunked { chunks, last, .. } => {
                &&& forall|i: int| 0 <= i < chunks.len() ==> is_short((#[trigger] chunks[i]).line)
                &&& is_short(last)
            },
        }
    }
}

/// A stream of which the message was read whole, and `rest` was not.
pub open spec fn holds(r: StreamView, s: StreamView, m: Written, rest: Seq<u8>) -> bool {
    &&& r.buf == rest
    &&& r.head == m.head
    &&& r.body == m.payload.body()
    &&& r.chunked == (m.payload is Chunked)
    &&& r.is_request == head::is_request_head(m.head)
    &&& r.first_event == s.first_event
    &&& r.last_seen == s.last_seen
}

proof fn lemma_regrouped(a: Seq<u8>, b: Seq<u8>, c: Seq<u8>)
    ensures
        (a + b) + c == a + (b + c),
{
    assert((a + b) + c =~= a + (b + c));
}

/// A line of a chunk ends at its end, whatever follows.
proof fn lemma_chunk_line(line: Seq<u8>, rest: Seq<u8>)
    requires
        is_line(line),
    ensures
        ({
            let text = line + head::crlf() + rest;
            &&& bytes::position(text, head::crlf()) == Some(line.len() as int)
            &&& text.take(line.len() as int) == line
            &&& text.skip(line.len() as int + 2) == rest
        }),
{
    bytes::lemma_position_extended(line + head::crlf(), rest, head::crlf());
    let text = line + head::crlf() + rest;
    assert(text.take(line.len() as int) =~= line);
    assert(text.skip(line.len() as int + 2) =~= rest);
}

/// The first line of a chunk is read in one move.
proof fn lemma_chunk_line_read(s: StreamView, waiting: Waiting, c: Chunk, rest: Seq<u8>)
    requires
        s.phase is ChunkSize,
        c.wf(),
        s.buf == c.line + head::crlf() + rest,
        s.body.len() + c.data.len() <= MAX_HTTP1_MESSAGE_BYTES,
    ensures
        ({
            let m = stream::moved(s, waiting);
            &&& m.settled is None
            &&& m.waiting == waiting
            &&& m.stream == (StreamView {
                buf: rest,
                phase: Phase::ChunkData(c.data.len() as usize),
                ..s
            })
        }),
{
    lemma_chunk_line(c.line, rest);
}

/// The data of a chunk are read in one move.
proof fn lemma_chunk_data_read(s: StreamView, waiting: Waiting, data: Seq<u8>, rest: Seq<u8>)
    requires
        data.len() <= MAX_HTTP1_MESSAGE_BYTES,
        s.phase == Phase::ChunkData(data.len() as usize),
        s.buf == data + rest,
    ensures
        ({
            let m = stream::moved(s, waiting);
            &&& m.settled is None
            &&& m.waiting == waiting
            &&& m.stream == (StreamView {
                buf: rest,
                body: s.body + data,
                phase: Phase::ChunkDataEnd,
                ..s
            })
        }),
{
    assert(s.buf.take(data.len() as int) =~= data);
    assert(s.buf.skip(data.len() as int) =~= rest);
}

/// The end of line behind the data of a chunk is read in one move.
proof fn lemma_chunk_end_read(s: StreamView, waiting: Waiting, rest: Seq<u8>)
    requires
        s.phase is ChunkDataEnd,
        s.buf == head::crlf() + rest,
    ensures
        ({
            let m = stream::moved(s, waiting);
            &&& m.settled is None
            &&& m.waiting == waiting
            &&& m.stream == (StreamView { buf: rest, phase: Phase::ChunkSize, ..s })
        }),
{
    assert(s.buf.subrange(0, 2) =~= head::crlf());
    assert(s.buf.skip(2) =~= rest);
}

/// Three moves read a chunk.
proof fn lemma_chunk_read(s: StreamView, waiting: Waiting, c: Chunk, rest: Seq<u8>)
    requires
        s.phase is ChunkSize,
        c.wf(),
        s.buf == c.wire() + rest,
        s.body.len() + c.data.len() <= MAX_HTTP1_MESSAGE_BYTES,
    ensures
        ({
            let after = StreamView { buf: rest, body: s.body + c.data, ..s };
            &&& stream::stepped(s, waiting) == stream::stepped(after, waiting)
            &&& is_short(c.line) && splitting::lines_fit(after, waiting) ==> splitting::lines_fit(
                s,
                waiting,
            )
        }),
{
    let end = head::crlf() + rest;
    let tail = c.data + end;
    lemma_regrouped(c.line + head::crlf() + c.data, head::crlf(), rest);
    lemma_regrouped(c.line + head::crlf(), c.data, end);
    lemma_chunk_line_read(s, waiting, c, tail);
    let s1 = stream::moved(s, waiting).stream;
    lemma_chunk_data_read(s1, waiting, c.data, end);
    let s2 = stream::moved(s1, waiting).stream;
    lemma_chunk_end_read(s2, waiting, rest);
    let s3 = stream::moved(s2, waiting).stream;
    assert(s3 == (StreamView { buf: rest, body: s.body + c.data, ..s }));
    splitting::lemma_move_on(s2, waiting);
    splitting::lemma_move_on(s1, waiting);
    splitting::lemma_move_on(s, waiting);
    lemma_chunk_line(c.line, tail);
}

/// The end of a chunked body is read.
proof fn lemma_last_chunk_read(
    s: StreamView,
    waiting: Waiting,
    last: Seq<u8>,
    trailers: Seq<u8>,
    rest: Seq<u8>,
)
    requires
        s.phase is ChunkSize,
        s.body.len() <= MAX_HTTP1_MESSAGE_BYTES,
        is_line(last),
        head::chunk_size(last) == Some(0usize),
        is_trailer_part(trailers),
        s.buf == last + head::crlf() + trailers + rest,
    ensures
        ({
            let r = stream::stepped(s, waiting);
            &&& r.step is Complete
            &&& r.waiting == waiting
            &&& r.stream == (StreamView { buf: rest, phase: Phase::Trailers, ..s })
            &&& is_short(last) ==> splitting::lines_fit(s, waiting)
        }),
{
    let tail = trailers + rest;
    assert(s.buf =~= last + head::crlf() + tail);
    lemma_chunk_line(last, tail);
    let s1 = stream::moved(s, waiting).stream;
    assert(s1 == (StreamView { buf: tail, phase: Phase::Trailers, ..s }));
    if trailers == head::crlf() {
        assert(tail.subrange(0, 2) =~= head::crlf());
        assert(tail.skip(2) =~= rest);
    } else {
        bytes::lemma_position(trailers, head::blank_line());
        bytes::lemma_position_extended(trailers, rest, head::blank_line());
        assert(tail.subrange(0, 2) =~= trailers.subrange(0, 2));
        assert(tail.skip(trailers.len() as int) =~= rest);
    }
    assert(stream::moved(s1, waiting).settled == Some(Step::Complete));
    assert(stream::moved(s1, waiting).stream == (StreamView { buf: rest, ..s1 }));
    assert(stream::stepped(s, waiting) == stream::stepped(s1, waiting));
    assert(splitting::lines_fit(s1, waiting));
}

/// A chunked body is read, and decoded.
proof fn lemma_chunks_read(
    s: StreamView,
    waiting: Waiting,
    chunks: Seq<Chunk>,
    last: Seq<u8>,
    trailers: Seq<u8>,
    rest: Seq<u8>,
)
    requires
        s.phase is ChunkSize,
        s.body.len() + chunks_data(chunks).len() <= MAX_HTTP1_MESSAGE_BYTES,
        forall|i: int| 0 <= i < chunks.len() ==> (#[trigger] chunks[i]).wf(),
        is_line(last),
        head::chunk_size(last) == Some(0usize),
        is_trailer_part(trailers),
        s.buf == chunks_wire(chunks) + (last + head::crlf() + trailers + rest),
    ensures
        ({
            let r = stream::stepped(s, waiting);
            &&& r.step is Complete
            &&& r.waiting == waiting
            &&& r.stream == (StreamView {
                buf: rest,
                body: s.body + chunks_data(chunks),
                phase: Phase::Trailers,
                ..s
            })
            &&& is_short(last) && (forall|i: int|
                0 <= i < chunks.len() ==> is_short((#[trigger] chunks[i]).line))
                ==> splitting::lines_fit(s, waiting)
        }),
    decreases chunks.len(),
{
    let ending = last + head::crlf() + trailers + rest;
    if chunks.len() == 0 {
        assert(s.buf =~= ending);
        assert(s.body + chunks_data(chunks) =~= s.body);
        lemma_last_chunk_read(s, waiting, last, trailers, rest);
    } else {
        let others = chunks.drop_first();
        let tail = chunks_wire(others) + ending;
        let after = StreamView { buf: tail, body: s.body + chunks[0].data, ..s };
        lemma_regrouped(chunks[0].wire(), chunks_wire(others), ending);
        lemma_regrouped(s.body, chunks[0].data, chunks_data(others));
        assert(forall|i: int| 0 <= i < others.len() ==> #[trigger] others[i] == chunks[i + 1]);
        lemma_chunk_read(s, waiting, chunks[0], tail);
        lemma_chunks_read(after, waiting, others, last, trailers, rest);
    }
}

/// The head of a written message is read in one move.
proof fn lemma_head_read(s: StreamView, waiting: Waiting, m: Written, rest: Seq<u8>)
    requires
        s.wf(),
        s.is_idle(),
        m.wf(waiting),
    ensures
        ({
            let t = message::with_more(s, m.wire() + rest);
            let opened = StreamView {
                buf: m.payload.wire() + rest,
                head: m.head,
                is_request: head::is_request_head(m.head),
                ..s
            };
            &&& stream::moved(t, waiting) == stream::begin_body(
                opened,
                stream::framing_of(m.head, waiting),
                stream::waiting_after(m.head, waiting),
            )
            &&& t.phase is Head
            &&& bytes::position(t.buf, head::blank_line()) == Some(m.head.len() as int)
            &&& t.buf.take(m.head.len() as int) == m.head
        }),
{
    let t = message::with_more(s, m.wire() + rest);
    let top = m.head + head::blank_line();
    let tail = m.payload.wire() + rest;
    let end: int = m.head.len() as int;
    lemma_regrouped(top, m.payload.wire(), rest);
    assert(t.buf =~= top + tail);
    bytes::lemma_position_extended(top, tail, head::blank_line());
    head::lemma_blank_line_ends_line(top);
    head::lemma_looks_like_extended(top, tail);
    assert(t.buf.take(end) =~= m.head);
    assert(t.buf.skip(end + 4) =~= tail);
}

/// A body of known length is read.
proof fn lemma_fixed_read(s: StreamView, waiting: Waiting, body: Seq<u8>, rest: Seq<u8>)
    requires
        s.body.len() == 0,
        body.len() <= MAX_HTTP1_MESSAGE_BYTES,
        s.phase == Phase::Fixed(body.len() as usize),
        s.buf == body + rest,
    ensures
        ({
            let r = stream::stepped(s, waiting);
            &&& r.step is Complete
            &&& r.waiting == waiting
            &&& r.stream == (StreamView { buf: rest, body, ..s })
            &&& splitting::lines_fit(s, waiting)
        }),
{
    assert(s.buf.take(body.len() as int) =~= body);
    assert(s.buf.skip(body.len() as int) =~= rest);
    assert(s.body + body =~= body);
}

/// A written message is read whole from an idle stream, and what follows it is left.
pub proof fn lemma_written_read(s: StreamView, waiting: Waiting, m: Written, rest: Seq<u8>)
    requires
        s.wf(),
        s.is_idle(),
        m.wf(waiting),
    ensures
        ({
            let t = message::with_more(s, m.wire() + rest);
            let r = stream::stepped(t, waiting);
            &&& r.step is Complete
            &&& r.waiting == stream::waiting_after(m.head, waiting)
            &&& holds(r.stream, s, m, rest)
            &&& !splitting::runs_until_close(t, waiting)
            &&& m.lines_fit() ==> splitting::lines_fit(t, waiting)
        }),
{
    let t = message::with_more(s, m.wire() + rest);
    let tail = m.payload.wire() + rest;
    let framing = stream::framing_of(m.head, waiting);
    let after = stream::waiting_after(m.head, waiting);
    let opened = StreamView {
        buf: tail,
        head: m.head,
        is_request: head::is_request_head(m.head),
        ..s
    };
    lemma_head_read(s, waiting, m, rest);
    match m.payload {
        Payload::Plain(body) => {
            if framing is Empty {
                assert(tail =~= rest);
                assert(opened.body =~= body);
            } else {
                let fixed = opened.in_phase(Phase::Fixed(body.len() as usize));
                lemma_fixed_read(fixed, after, body, rest);
                assert(stream::moved(t, waiting).stream == fixed);
                splitting::lemma_move_on(t, waiting);
            }
        },
        Payload::Chunked { chunks, last, trailers } => {
            let chunked = StreamView { chunked: true, ..opened.in_phase(Phase::ChunkSize) };
            let wires = chunks_wire(chunks);
            lemma_regrouped(wires, last, head::crlf());
            lemma_regrouped(wires, last + head::crlf(), trailers);
            lemma_regrouped(wires, last + head::crlf() + trailers, rest);
            lemma_chunks_read(chunked, after, chunks, last, trailers, rest);
            assert(chunked.body + chunks_data(chunks) =~= chunks_data(chunks));
            assert(stream::moved(t, waiting).stream == chunked);
            splitting::lemma_move_on(t, waiting);
        },
    }
}

/// While the head of a written message has not come whole, nothing is read.
pub proof fn lemma_head_part(
    s: StreamView,
    waiting: Waiting,
    m: Written,
    part: Seq<u8>,
    rest: Seq<u8>,
)
    requires
        s.is_idle(),
        head::is_head(m.head),
        m.lines_fit(),
        m.wire() == part + rest,
        part.len() < m.head.len() + head::blank_line().len(),
    ensures
        ({
            let t = message::with_more(s, part);
            stream::stepped(t, waiting) == (Stepped { step: Step::NeedMore, stream: t, waiting })
        }),
{
    let t = message::with_more(s, part);
    assert(t.buf =~= part);
    let top = m.head + head::blank_line();
    bytes::lemma_position_extended(top, m.payload.wire(), head::blank_line());
    bytes::lemma_position_extended(part, rest, head::blank_line());
    bytes::lemma_position(part, head::blank_line());
}

/// Once the head of a written message has come, it is noted, and reading is behind it.
pub proof fn lemma_head_come(
    s: StreamView,
    waiting: Waiting,
    m: Written,
    part: Seq<u8>,
    rest: Seq<u8>,
)
    requires
        s.is_idle(),
        head::is_head(m.head),
        m.wire() == part + rest,
        part.len() >= m.head.len() + head::blank_line().len(),
    ensures
        ({
            let r = stream::stepped(message::with_more(s, part), waiting);
            &&& r.waiting == stream::waiting_after(m.head, waiting)
            &&& r.step is NeedMore ==> !(r.stream.phase is Head)
        }),
{
    let t = message::with_more(s, part);
    let top = m.head + head::blank_line();
    let n: int = top.len() as int;
    let more = part.skip(n);
    assert(t.buf =~= part);
    assert(part.take(n) =~= top) by {
        assert(part.take(n) =~= m.wire().take(n));
        assert(m.wire().take(n) =~= top);
    }
    assert(part =~= top + more);
    bytes::lemma_position_extended(top, more, head::blank_line());
    head::lemma_blank_line_ends_line(top);
    head::lemma_looks_like_extended(top, more);
    assert(part.take(m.head.len() as int) =~= m.head);
    let first = stream::moved(t, waiting);
    assert(first.waiting == stream::waiting_after(m.head, waiting));
    if first.settled is None {
        splitting::lemma_past_head(first.stream, first.waiting, first.waiting);
    }
}

/// While a written message has not come whole, more is needed.
pub proof fn lemma_written_part(
    s: StreamView,
    waiting: Waiting,
    m: Written,
    part: Seq<u8>,
    rest: Seq<u8>,
)
    requires
        s.wf(),
        s.is_idle(),
        m.wf(waiting),
        m.lines_fit(),
        m.wire() == part + rest,
        rest.len() > 0,
    ensures
        ({
            let t = message::with_more(s, part);
            &&& t.wf()
            &&& stream::stepped(t, waiting).step is NeedMore
            &&& !splitting::runs_until_close(t, waiting)
        }),
{
    let t = message::with_more(s, part);
    lemma_written_read(s, waiting, m, Seq::empty());
    assert(s.buf + (m.wire() + Seq::<u8>::empty()) =~= t.buf + rest);
    splitting::lemma_moved_extended(t, waiting, rest);
    splitting::lemma_part_needs_more(t, waiting, rest);
}

} // verus!
